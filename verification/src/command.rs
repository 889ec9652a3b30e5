//! The dispatch decisions: classify an incoming frame as GET or SET, apply
//! it to the store, and build the response frame. The surrounding I/O loop
//! performs the reads and writes; everything it must decide is here.

use vstd::prelude::*;

use crate::frame::Frame;
use crate::frame::FrameModel;
use crate::frame::lemma_frames_model;
use crate::store::ShardedDict;

verus! {

/// A recognized client request.
pub enum Command {
    /// Fetch the value of a key.
    Get(Vec<u8>),
    /// Store a value under a key: the wire command SET.
    Put(Vec<u8>, Vec<u8>),
    /// Anything else; the dispatch layer reports it, the core does not act.
    Unknown,
}

/// The mathematical shape of a recognized request.
pub enum CommandModel {
    Get(Seq<u8>),
    Put(Seq<u8>, Seq<u8>),
    Unknown,
}

/// What request a frame denotes: an array of bulk strings whose first
/// element is the command name, with its arguments following.
pub open spec fn spec_command(m: FrameModel) -> CommandModel {
    match m {
        FrameModel::Array(elems) => {
            if elems.len() == 2 {
                match (elems[0], elems[1]) {
                    (FrameModel::Bulk(c), FrameModel::Bulk(k)) => {
                        if c == seq![71u8, 69u8, 84u8] {
                            CommandModel::Get(k)
                        } else {
                            CommandModel::Unknown
                        }
                    },
                    _ => CommandModel::Unknown,
                }
            } else if elems.len() == 3 {
                match (elems[0], elems[1], elems[2]) {
                    (FrameModel::Bulk(c), FrameModel::Bulk(k), FrameModel::Bulk(v)) => {
                        if c == seq![83u8, 69u8, 84u8] {
                            CommandModel::Put(k, v)
                        } else {
                            CommandModel::Unknown
                        }
                    },
                    _ => CommandModel::Unknown,
                }
            } else {
                CommandModel::Unknown
            }
        },
        _ => CommandModel::Unknown,
    }
}

/// The payload is exactly the three bytes of a command name.
fn is_word3(c: &Vec<u8>, w0: u8, w1: u8, w2: u8) -> (r: bool)
    ensures
        r == (c@ == seq![w0, w1, w2]),
{
    if c.len() == 3 && c[0] == w0 && c[1] == w1 && c[2] == w2 {
        proof {
            assert(c@ =~= seq![w0, w1, w2]);
        }
        true
    } else {
        proof {
            assert(c@ != seq![w0, w1, w2]);
        }
        false
    }
}

/// Classify one incoming frame as the request it denotes.
pub fn parse_command(frame: &Frame) -> (r: Command)
    ensures
        match r {
            Command::Get(k) => spec_command(frame@) == CommandModel::Get(k@),
            Command::Put(k, v) => spec_command(frame@) == CommandModel::Put(k@, v@),
            Command::Unknown => spec_command(frame@) == CommandModel::Unknown,
        },
{
    match frame {
        Frame::Array(elems) => {
            proof {
                lemma_frames_model(elems@);
            }
            if elems.len() == 2 {
                match (&elems[0], &elems[1]) {
                    (Frame::Bulk(c), Frame::Bulk(k)) => {
                        if is_word3(c, 71, 69, 84) {
                            Command::Get(vstd::slice::slice_to_vec(k.as_slice()))
                        } else {
                            Command::Unknown
                        }
                    },
                    _ => Command::Unknown,
                }
            } else if elems.len() == 3 {
                match (&elems[0], &elems[1], &elems[2]) {
                    (Frame::Bulk(c), Frame::Bulk(k), Frame::Bulk(v)) => {
                        if is_word3(c, 83, 69, 84) {
                            Command::Put(
                                vstd::slice::slice_to_vec(k.as_slice()),
                                vstd::slice::slice_to_vec(v.as_slice()),
                            )
                        } else {
                            Command::Unknown
                        }
                    },
                    _ => Command::Unknown,
                }
            } else {
                Command::Unknown
            }
        },
        _ => Command::Unknown,
    }
}

/// The reply to a GET: the stored bytes as a bulk frame, or the null
/// marker when the key has never been set.
pub fn get_response(found: Option<Vec<u8>>) -> (r: Frame)
    ensures
        match found {
            Some(v) => r@ == FrameModel::Bulk(v@),
            None => r@ == FrameModel::Null,
        },
        !(r is Array),
{
    match found {
        Some(v) => Frame::Bulk(v),
        None => Frame::Null,
    }
}

/// The reply to a successful SET: the simple string `OK`.
pub fn set_response() -> (r: Frame)
    ensures
        r@ == FrameModel::Simple(seq![79u8, 75u8]),
        !(r is Array),
{
    let ok: Vec<u8> = vec![79u8, 75u8];
    proof {
        assert(ok@ =~= seq![79u8, 75u8]);
    }
    Frame::Simple(ok)
}

/// Apply one request frame to the store and build the response frame.
/// A GET leaves the store untouched and answers with the value or null; a
/// SET overwrites last-writer-wins and answers `OK`; any other frame is
/// not acted on and yields no response, for the caller to report.
pub fn process(frame: &Frame, db: &mut ShardedDict) -> (r: Option<Frame>)
    requires
        old(db).wf(),
    ensures
        final(db).wf(),
        final(db).shard_count() == old(db).shard_count(),
        match spec_command(frame@) {
            CommandModel::Get(k) => *final(db) == *old(db)
                && (r matches Some(resp) && resp@ == (if old(db)@.dom().contains(k) {
                    FrameModel::Bulk(old(db)@[k])
                } else {
                    FrameModel::Null
                })),
            CommandModel::Put(k, v) => final(db)@ == old(db)@.insert(k, v)
                && (r matches Some(resp) && resp@ == FrameModel::Simple(seq![79u8, 75u8])),
            CommandModel::Unknown => r is None && *final(db) == *old(db),
        },
        match r {
            Some(resp) => !(resp is Array),
            None => true,
        },
{
    match parse_command(frame) {
        Command::Get(k) => Some(get_response(db.get(k.as_slice()))),
        Command::Put(k, v) => {
            db.insert(k, v);
            Some(set_response())
        },
        Command::Unknown => None,
    }
}

} // verus!
