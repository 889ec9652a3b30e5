//! The wire-frame codec: incremental conversion between a byte cursor and a
//! typed `Frame` value, in both directions, with an explicit "not enough data
//! yet" outcome distinct from "malformed data".

use vstd::prelude::*;

verus! {

broadcast use vstd::std_specs::vec::group_vec_axioms;

/// One complete, typed protocol message unit.
#[derive(Debug, PartialEq)]
pub enum Frame {
    /// Simple string, sigil `+`, UTF-8 payload.
    Simple(Vec<u8>),
    /// Error string, sigil `-`, UTF-8 payload.
    Error(Vec<u8>),
    /// Unsigned 64-bit integer, sigil `:`.
    Integer(u64),
    /// Length-prefixed byte sequence, sigil `$`.
    Bulk(Vec<u8>),
    /// The null bulk marker `$-1\r\n`.
    Null,
    /// Ordered sequence of frames, sigil `*`; decode-only in this subset.
    Array(Vec<Frame>),
}

/// The mathematical shape of a frame: payloads as sequences rather than
/// vectors. Contracts and the spec-level parser speak in this type.
pub enum FrameModel {
    Simple(Seq<u8>),
    Error(Seq<u8>),
    Integer(u64),
    Bulk(Seq<u8>),
    Null,
    Array(Seq<FrameModel>),
}

/// The abstraction of an executable frame.
pub open spec fn frame_model(f: Frame) -> FrameModel
    decreases f,
{
    match f {
        Frame::Simple(p) => FrameModel::Simple(p@),
        Frame::Error(p) => FrameModel::Error(p@),
        Frame::Integer(v) => FrameModel::Integer(v),
        Frame::Bulk(p) => FrameModel::Bulk(p@),
        Frame::Null => FrameModel::Null,
        Frame::Array(elems) => FrameModel::Array(frames_model(elems@)),
    }
}

/// The abstraction of a sequence of executable frames, element by element.
pub open spec fn frames_model(s: Seq<Frame>) -> Seq<FrameModel>
    decreases s,
{
    if s.len() == 0 {
        Seq::empty()
    } else {
        seq![frame_model(s[0])] + frames_model(s.skip(1))
    }
}

/// `frames_model` maps `frame_model` over its argument.
pub proof fn lemma_frames_model(s: Seq<Frame>)
    ensures
        frames_model(s).len() == s.len(),
        forall|i: int| 0 <= i < s.len() ==> frames_model(s)[i] == frame_model(s[i]),
    decreases s.len(),
{
    if s.len() > 0 {
        lemma_frames_model(s.skip(1));
    }
}

impl View for Frame {
    type V = FrameModel;

    open spec fn view(&self) -> FrameModel {
        frame_model(*self)
    }
}

/// Codec outcome taxonomy: `Incomplete` means more bytes are needed and is
/// not an error; `ProtocolErr` means the bytes present can never form a
/// valid frame.
#[derive(Debug, Clone, Copy, PartialEq, Eq, Structural)]
pub enum Error {
    /// Not enough data is available to parse a message.
    Incomplete,
    /// Malformed frame: bad UTF-8, bad length, unrecognized sigil, or a
    /// declared/actual length mismatch.
    ProtocolErr,
}

/// There is a `\r\n` pair at position `i` of `s`.
pub open spec fn crlf_at(s: Seq<u8>, i: int) -> bool {
    &&& 0 <= i
    &&& i + 2 <= s.len()
    &&& s[i] == 13
    &&& s[i + 1] == 10
}

/// Position of the first `\r\n` pair at or after position `i` of `s`.
pub open spec fn find_crlf(s: Seq<u8>, i: nat) -> Option<nat>
    decreases s.len() - i,
{
    if i + 2 > s.len() {
        None
    } else if s[i as int] == 13 && s[i as int + 1] == 10 {
        Some(i)
    } else {
        find_crlf(s, i + 1)
    }
}

/// `find_crlf` returns the first terminator position, if any.
pub proof fn lemma_find_crlf(s: Seq<u8>, i: nat)
    ensures
        match find_crlf(s, i) {
            Some(j) => i <= j && crlf_at(s, j as int) && forall|m: int|
                i <= m < j ==> !crlf_at(s, m),
            None => forall|m: int| i <= m ==> !crlf_at(s, m),
        },
    decreases s.len() - i,
{
    if i + 2 > s.len() {
    } else if s[i as int] == 13 && s[i as int + 1] == 10 {
    } else {
        lemma_find_crlf(s, i + 1);
    }
}

/// A position known to hold the first terminator determines `find_crlf`.
pub proof fn lemma_find_crlf_complete(s: Seq<u8>, i: nat, j: nat)
    requires
        i <= j,
        crlf_at(s, j as int),
        forall|m: int| i <= m < j ==> !crlf_at(s, m),
    ensures
        find_crlf(s, i) == Some(j),
    decreases s.len() - i,
{
    if i == j {
    } else {
        assert(!crlf_at(s, i as int));
        lemma_find_crlf_complete(s, i + 1, j);
    }
}

/// When no terminator exists at or after `i`, `find_crlf` reports so.
pub proof fn lemma_find_crlf_none(s: Seq<u8>, i: nat)
    requires
        forall|m: int| i <= m ==> !crlf_at(s, m),
    ensures
        find_crlf(s, i) is None,
    decreases s.len() - i,
{
    if i + 2 > s.len() {
    } else {
        assert(!crlf_at(s, i as int));
        lemma_find_crlf_none(s, i + 1);
    }
}

/// Searching a suffix finds the same terminators, shifted.
pub proof fn lemma_find_crlf_shift(s: Seq<u8>, p: nat, i: nat)
    requires
        p <= s.len(),
    ensures
        match find_crlf(s.skip(p as int), i) {
            Some(j) => find_crlf(s, (p + i) as nat) == Some((p + j) as nat),
            None => find_crlf(s, (p + i) as nat) is None,
        },
    decreases s.len() - i - p,
{
    let t = s.skip(p as int);
    if i + 2 > t.len() {
    } else if t[i as int] == 13 && t[i as int + 1] == 10 {
        assert(s[(p + i) as int] == 13 && s[(p + i) as int + 1] == 10);
    } else {
        lemma_find_crlf_shift(s, p, i + 1);
    }
}

/// A byte cursor positioned inside a borrowed buffer; scanning a frame
/// advances `pos`, and a failed scan leaves the buffer untouched.
pub struct Cursor<'a> {
    pub data: &'a [u8],
    pub pos: usize,
}

impl<'a> Cursor<'a> {
    /// The cursor has not run past the end of its buffer.
    pub open spec fn wf(&self) -> bool {
        self.pos <= self.data@.len()
    }

    /// The bytes not yet consumed.
    pub open spec fn rest(&self) -> Seq<u8> {
        self.data@.skip(self.pos as int)
    }

    pub fn new(data: &'a [u8]) -> (c: Cursor<'a>)
        ensures
            c.data@ == data@,
            c.pos == 0,
            c.wf(),
    {
        Cursor { data, pos: 0 }
    }
}

/// Consume and return the byte under the cursor.
pub fn get_u8(src: &mut Cursor) -> (r: Result<u8, Error>)
    requires
        old(src).wf(),
    ensures
        final(src).data == old(src).data,
        final(src).wf(),
        match r {
            Ok(b) => old(src).rest().len() >= 1 && b == old(src).rest()[0]
                && final(src).pos == old(src).pos + 1,
            Err(e) => e == Error::Incomplete && old(src).rest().len() == 0
                && final(src).pos == old(src).pos,
        },
{
    if src.pos < src.data.len() {
        let b = src.data[src.pos];
        src.pos = src.pos + 1;
        Ok(b)
    } else {
        Err(Error::Incomplete)
    }
}

/// Return the byte under the cursor without consuming it.
pub fn peek_u8(src: &mut Cursor) -> (r: Result<u8, Error>)
    requires
        old(src).wf(),
    ensures
        *final(src) == *old(src),
        match r {
            Ok(b) => old(src).rest().len() >= 1 && b == old(src).rest()[0],
            Err(e) => e == Error::Incomplete && old(src).rest().len() == 0,
        },
{
    if src.pos < src.data.len() {
        Ok(src.data[src.pos])
    } else {
        Err(Error::Incomplete)
    }
}

/// Advance the cursor by `n` bytes if that many remain.
pub fn skip(src: &mut Cursor, n: usize) -> (r: Result<(), Error>)
    requires
        old(src).wf(),
    ensures
        final(src).data == old(src).data,
        final(src).wf(),
        match r {
            Ok(()) => old(src).rest().len() >= n && final(src).pos == old(src).pos + n,
            Err(e) => e == Error::Incomplete && old(src).rest().len() < n
                && final(src).pos == old(src).pos,
        },
{
    if n <= src.data.len() - src.pos {
        src.pos = src.pos + n;
        Ok(())
    } else {
        Err(Error::Incomplete)
    }
}

/// Consume one line: the bytes from the cursor up to the first `\r\n`, which
/// is consumed as well but not returned. Without a terminator in the
/// remaining bytes the frame is incomplete and the cursor does not move.
pub fn get_line<'a>(src: &mut Cursor<'a>) -> (r: Result<&'a [u8], Error>)
    requires
        old(src).wf(),
    ensures
        final(src).data == old(src).data,
        final(src).wf(),
        match r {
            Ok(line) => find_crlf(old(src).data@, old(src).pos as nat)
                matches Some(j)
                && line@ == old(src).data@.subrange(old(src).pos as int, j as int)
                && final(src).pos == j + 2,
            Err(e) => e == Error::Incomplete
                && find_crlf(old(src).data@, old(src).pos as nat) is None
                && final(src).pos == old(src).pos,
        },
{
    let data: &'a [u8] = src.data;
    let n = data.len();
    let mut i = src.pos;
    proof {
        lemma_find_crlf(data@, src.pos as nat);
    }
    while i < n && i + 1 < n
        invariant
            src.data == data,
            data == old(src).data,
            src.pos == old(src).pos,
            src.pos <= i <= n,
            n == data@.len(),
            forall|m: int| src.pos <= m < i ==> !crlf_at(data@, m),
        decreases n - i,
    {
        if data[i] == 13 && data[i + 1] == 10 {
            proof {
                lemma_find_crlf_complete(data@, src.pos as nat, i as nat);
            }
            let line = vstd::slice::slice_subrange(data, src.pos, i);
            src.pos = i + 2;
            return Ok(line);
        }
        i = i + 1;
    }
    proof {
        assert(forall|m: int| src.pos <= m ==> !crlf_at(data@, m));
        lemma_find_crlf_none(data@, src.pos as nat);
    }
    Err(Error::Incomplete)
}

/// `b` is an ASCII digit.
pub open spec fn is_digit(b: u8) -> bool {
    48 <= b <= 57
}

pub open spec fn all_digits(s: Seq<u8>) -> bool {
    forall|i: int| 0 <= i < s.len() ==> is_digit(#[trigger] s[i])
}

/// Numeric value of a digit string, most significant digit first.
pub open spec fn dec_value(s: Seq<u8>) -> int
    decreases s.len(),
{
    if s.len() == 0 {
        0
    } else {
        dec_value(s.drop_last()) * 10 + s.last() - 48
    }
}

/// A line that the codec accepts as a base-10 length or integer: nonempty,
/// digits only, and small enough for 64 bits.
pub open spec fn valid_decimal(s: Seq<u8>) -> bool {
    s.len() >= 1 && all_digits(s) && dec_value(s) <= u64::MAX
}

pub proof fn lemma_dec_value_nonneg(s: Seq<u8>)
    requires
        all_digits(s),
    ensures
        dec_value(s) >= 0,
    decreases s.len(),
{
    if s.len() > 0 {
        assert(is_digit(s[s.len() - 1]));
        lemma_dec_value_nonneg(s.drop_last());
    }
}

/// A digit string is worth at least as much as any of its prefixes.
pub proof fn lemma_dec_value_prefix(s: Seq<u8>, i: int)
    requires
        0 <= i <= s.len(),
        all_digits(s),
    ensures
        dec_value(s) >= dec_value(s.take(i)),
    decreases s.len() - i,
{
    if i < s.len() {
        lemma_dec_value_prefix(s, i + 1);
        assert(s.take(i + 1).drop_last() =~= s.take(i));
        assert(is_digit(s[i]));
        assert(all_digits(s.take(i))) by {
            assert(forall|m: int| 0 <= m < i ==> s.take(i)[m] == s[m]);
        }
        lemma_dec_value_nonneg(s.take(i));
    } else {
        assert(s.take(i) =~= s);
    }
}

/// Whether a byte sequence is valid UTF-8. The encoding rules are long, so
/// the codec only ever reaches this notion through `check_utf8`.
pub uninterp spec fn is_utf8(s: Seq<u8>) -> bool;

/// Relies on `core::str::from_utf8`, which succeeds exactly on valid UTF-8;
/// validity is a function of the byte values alone.
#[verifier::external_body]
fn check_utf8(v: &[u8]) -> (r: bool)
    ensures
        r == is_utf8(v@),
{
    core::str::from_utf8(v).is_ok()
}

/// Outcome of the spec-level parser for a single frame.
pub enum ParseResult {
    /// A full well-formed frame `f` occupies the first `n` bytes.
    Parsed { f: FrameModel, n: nat },
    /// More bytes are needed before a frame can be recognized.
    Incomplete,
    /// The bytes present can never begin a valid frame.
    Malformed,
}

/// Outcome of the spec-level parser for a run of consecutive frames.
pub enum ElemsResult {
    Parsed { list: Seq<FrameModel>, n: nat },
    Incomplete,
    Malformed,
}

/// The spec-level parser: what frame, if any, the bytes `s` begin with, and
/// how many bytes it occupies. Executable `check` and `parse` are both held
/// to this one definition, which keeps the two passes byte-for-byte
/// consistent.
pub open spec fn spec_parse(s: Seq<u8>) -> ParseResult
    decreases s.len(), 0nat,
{
    if s.len() == 0 {
        ParseResult::Incomplete
    } else if s[0] == 43 || s[0] == 45 {
        // '+' simple string, '-' error string
        match find_crlf(s, 1) {
            Option::None => ParseResult::Incomplete,
            Option::Some(j) => {
                let payload = s.subrange(1, j as int);
                if is_utf8(payload) {
                    ParseResult::Parsed {
                        f: if s[0] == 43 {
                            FrameModel::Simple(payload)
                        } else {
                            FrameModel::Error(payload)
                        },
                        n: (j + 2) as nat,
                    }
                } else {
                    ParseResult::Malformed
                }
            },
        }
    } else if s[0] == 58 {
        // ':' unsigned integer
        match find_crlf(s, 1) {
            Option::None => ParseResult::Incomplete,
            Option::Some(j) => {
                let line = s.subrange(1, j as int);
                if valid_decimal(line) {
                    ParseResult::Parsed {
                        f: FrameModel::Integer(dec_value(line) as u64),
                        n: (j + 2) as nat,
                    }
                } else {
                    ParseResult::Malformed
                }
            },
        }
    } else if s[0] == 36 {
        // '$' bulk string or null marker
        match find_crlf(s, 1) {
            Option::None => ParseResult::Incomplete,
            Option::Some(j) => {
                let line = s.subrange(1, j as int);
                if line.len() == 2 && line[0] == 45 && line[1] == 49 {
                    // the length field is literally "-1": null
                    ParseResult::Parsed { f: FrameModel::Null, n: (j + 2) as nat }
                } else if valid_decimal(line) {
                    match find_crlf(s, j + 2) {
                        Option::None => ParseResult::Incomplete,
                        Option::Some(k) => {
                            if k - j - 2 == dec_value(line) {
                                ParseResult::Parsed {
                                    f: FrameModel::Bulk(s.subrange(j as int + 2, k as int)),
                                    n: (k + 2) as nat,
                                }
                            } else {
                                // declared length and terminator position disagree
                                ParseResult::Malformed
                            }
                        },
                    }
                } else {
                    ParseResult::Malformed
                }
            },
        }
    } else if s[0] == 42 {
        // '*' array: a count line, then that many frames
        match find_crlf(s, 1) {
            Option::None => ParseResult::Incomplete,
            Option::Some(j) => {
                let line = s.subrange(1, j as int);
                if valid_decimal(line) {
                    if j + 2 <= s.len() {
                        match spec_parse_elems(s.skip(j as int + 2), dec_value(line) as nat) {
                            ElemsResult::Parsed { list, n } => ParseResult::Parsed {
                                f: FrameModel::Array(list),
                                n: (j + 2 + n) as nat,
                            },
                            ElemsResult::Incomplete => ParseResult::Incomplete,
                            ElemsResult::Malformed => ParseResult::Malformed,
                        }
                    } else {
                        // unreachable: a terminator never sits past the end
                        ParseResult::Malformed
                    }
                } else {
                    ParseResult::Malformed
                }
            },
        }
    } else {
        // unrecognized sigil
        ParseResult::Malformed
    }
}

/// The spec-level parser for `k` consecutive frames.
pub open spec fn spec_parse_elems(s: Seq<u8>, k: nat) -> ElemsResult
    decreases s.len(), k,
{
    if k == 0 {
        ElemsResult::Parsed { list: Seq::empty(), n: 0 }
    } else {
        match spec_parse(s) {
            ParseResult::Parsed { f, n } => {
                if n <= s.len() {
                    match spec_parse_elems(s.skip(n as int), (k - 1) as nat) {
                        ElemsResult::Parsed { list, n: m } => ElemsResult::Parsed {
                            list: seq![f] + list,
                            n: (n + m) as nat,
                        },
                        ElemsResult::Incomplete => ElemsResult::Incomplete,
                        ElemsResult::Malformed => ElemsResult::Malformed,
                    }
                } else {
                    // unreachable: a frame never consumes more than is there
                    ElemsResult::Malformed
                }
            },
            ParseResult::Incomplete => ElemsResult::Incomplete,
            ParseResult::Malformed => ElemsResult::Malformed,
        }
    }
}

/// A parsed frame consumes at least its sigil and at most what is there.
pub proof fn lemma_spec_parse_bounds(s: Seq<u8>)
    ensures
        spec_parse(s) matches ParseResult::Parsed { f, n } ==> 1 <= n <= s.len(),
    decreases s.len(), 0nat,
{
    if s.len() == 0 {
    } else if s[0] == 43 || s[0] == 45 || s[0] == 58 || s[0] == 36 {
        lemma_find_crlf(s, 1);
        if s[0] == 36 {
            match find_crlf(s, 1) {
                Option::None => {},
                Option::Some(j) => {
                    lemma_find_crlf(s, j + 2);
                },
            }
        }
    } else if s[0] == 42 {
        lemma_find_crlf(s, 1);
        match find_crlf(s, 1) {
            Option::None => {},
            Option::Some(j) => {
                if j + 2 <= s.len() {
                    lemma_spec_parse_elems_bounds(s.skip(j as int + 2), dec_value(s.subrange(1, j as int)) as nat);
                }
            },
        }
    } else {
    }
}

/// A run of parsed frames consumes at most what is there.
pub proof fn lemma_spec_parse_elems_bounds(s: Seq<u8>, k: nat)
    ensures
        spec_parse_elems(s, k) matches ElemsResult::Parsed { list, n } ==> n <= s.len()
            && list.len() == k,
    decreases s.len(), k,
{
    if k == 0 {
    } else {
        lemma_spec_parse_bounds(s);
        match spec_parse(s) {
            ParseResult::Parsed { f, n } => {
                if n <= s.len() {
                    lemma_spec_parse_elems_bounds(s.skip(n as int), (k - 1) as nat);
                }
            },
            _ => {},
        }
    }
}

/// Parse an ASCII line as a base-10 unsigned 64-bit integer; anything but a
/// nonempty, in-range digit string is rejected.
fn parse_decimal(line: &[u8]) -> (r: Option<u64>)
    ensures
        match r {
            Some(v) => valid_decimal(line@) && v == dec_value(line@),
            None => !valid_decimal(line@),
        },
{
    if line.len() == 0 {
        return None;
    }
    let mut acc: u64 = 0;
    let mut i: usize = 0;
    while i < line.len()
        invariant
            0 <= i <= line@.len(),
            all_digits(line@.take(i as int)),
            acc == dec_value(line@.take(i as int)),
        decreases line@.len() - i,
    {
        let b = line[i];
        if b < 48 || b > 57 {
            proof {
                assert(!is_digit(line@[i as int]));
            }
            return None;
        }
        let d = (b - 48) as u64;
        if acc > (u64::MAX - d) / 10 {
            proof {
                assert(line@.take(i as int + 1).drop_last() =~= line@.take(i as int));
                assert(dec_value(line@.take(i as int + 1)) > u64::MAX);
                if all_digits(line@) {
                    lemma_dec_value_prefix(line@, i as int + 1);
                }
            }
            return None;
        }
        acc = acc * 10 + d;
        proof {
            assert(line@.take(i as int + 1).drop_last() =~= line@.take(i as int));
            assert(all_digits(line@.take(i as int + 1))) by {
                assert(forall|m: int| 0 <= m < i + 1 ==> line@.take(i as int + 1)[m]
                    == line@[m]);
            }
        }
        i = i + 1;
    }
    proof {
        assert(line@.take(i as int) =~= line@);
    }
    Some(acc)
}

/// Consume one line and read it as a base-10 unsigned 64-bit integer.
pub fn get_decimal(src: &mut Cursor) -> (r: Result<u64, Error>)
    requires
        old(src).wf(),
    ensures
        final(src).data == old(src).data,
        final(src).wf(),
        match r {
            Ok(v) => find_crlf(old(src).data@, old(src).pos as nat) matches Some(j)
                && valid_decimal(old(src).data@.subrange(old(src).pos as int, j as int))
                && v == dec_value(old(src).data@.subrange(old(src).pos as int, j as int))
                && final(src).pos == j + 2,
            Err(e) => match e {
                Error::Incomplete => find_crlf(old(src).data@, old(src).pos as nat) is None
                    && final(src).pos == old(src).pos,
                Error::ProtocolErr => find_crlf(old(src).data@, old(src).pos as nat)
                    matches Some(j)
                    && !valid_decimal(old(src).data@.subrange(old(src).pos as int, j as int))
                    && final(src).pos == j + 2,
            },
        },
{
    match get_line(src) {
        Ok(line) => match parse_decimal(line) {
            Some(v) => Ok(v),
            None => Err(Error::ProtocolErr),
        },
        Err(e) => Err(e),
    }
}

impl Frame {
    /// First pass over the buffer: scan forward, deciding whether a full,
    /// well-formed frame starts at the cursor, and advance past it if so.
    /// No payload is materialized. The cursor consumes exactly the bytes
    /// that `parse` would, because both are held to `spec_parse`.
    #[verifier::loop_isolation(false)]
    #[verifier::rlimit(100)]
    pub fn check(src: &mut Cursor) -> (r: Result<(), Error>)
        requires
            old(src).wf(),
        ensures
            final(src).data == old(src).data,
            final(src).wf(),
            match r {
                Ok(()) => spec_parse(old(src).rest()) matches ParseResult::Parsed { f, n }
                    && final(src).pos == old(src).pos + n,
                Err(e) => match e {
                    Error::Incomplete => spec_parse(old(src).rest()) is Incomplete,
                    Error::ProtocolErr => spec_parse(old(src).rest()) is Malformed,
                },
            },
        decreases old(src).data@.len() - old(src).pos,
    {
        let ghost d = old(src).data@;
        let ghost p0 = old(src).pos as int;
        let ghost s0 = old(src).rest();
        let b = match get_u8(src) {
            Ok(b) => b,
            Err(e) => {
                return Err(e);
            },
        };
        proof {
            lemma_find_crlf_shift(d, p0 as nat, 1);
            lemma_find_crlf(d, (p0 + 1) as nat);
            match find_crlf(d, (p0 + 1) as nat) {
                Some(jabs) => {
                    assert(s0.subrange(1, jabs - p0) =~= d.subrange(p0 + 1, jabs as int));
                },
                None => {},
            }
        }
        if b == 43 || b == 45 {
            match get_line(src) {
                Ok(line) => {
                    if check_utf8(line) {
                        Ok(())
                    } else {
                        Err(Error::ProtocolErr)
                    }
                },
                Err(e) => Err(e),
            }
        } else if b == 58 {
            match get_decimal(src) {
                Ok(_) => Ok(()),
                Err(e) => Err(e),
            }
        } else if b == 36 {
            match get_line(src) {
                Err(e) => Err(e),
                Ok(line) => {
                    if line.len() == 2 && line[0] == 45 && line[1] == 49 {
                        Ok(())
                    } else {
                        match parse_decimal(line) {
                            None => Err(Error::ProtocolErr),
                            Some(len) => {
                                let ghost jabs = (src.pos - 2) as int;
                                proof {
                                    lemma_find_crlf_shift(d, p0 as nat, (jabs + 2 - p0) as nat);
                                    lemma_find_crlf(d, (jabs + 2) as nat);
                                    match find_crlf(d, (jabs + 2) as nat) {
                                        Some(kabs) => {
                                            assert(s0.subrange(jabs + 2 - p0, kabs - p0)
                                                =~= d.subrange(jabs + 2, kabs as int));
                                        },
                                        None => {},
                                    }
                                }
                                match get_line(src) {
                                    Err(e) => Err(e),
                                    Ok(payload) => {
                                        if payload.len() as u64 == len {
                                            Ok(())
                                        } else {
                                            Err(Error::ProtocolErr)
                                        }
                                    },
                                }
                            },
                        }
                    }
                },
            }
        } else if b == 42 {
            match get_decimal(src) {
                Err(e) => Err(e),
                Ok(count) => {
                    let ghost hdr_end = src.pos as int;
                    let ghost srest = src.rest();
                    let ghost kk = count as nat;
                    proof {
                        assert(s0.skip(hdr_end - p0) =~= d.skip(hdr_end));
                    }
                    let mut i: u64 = 0;
                    while i < count
                        invariant
                            src.data@ == d,
                            src.wf(),
                            p0 < src.pos,
                            i <= count,
                            (match spec_parse_elems(src.rest(), (kk - i) as nat) {
                                ElemsResult::Parsed { list, n } => spec_parse_elems(srest, kk)
                                    matches ElemsResult::Parsed { list: l2, n: n2 }
                                    && src.pos + n == hdr_end + n2,
                                ElemsResult::Incomplete => spec_parse_elems(srest, kk)
                                    is Incomplete,
                                ElemsResult::Malformed => spec_parse_elems(srest, kk)
                                    is Malformed,
                            }),
                        decreases count - i,
                    {
                        let ghost posb = src.pos as int;
                        let ghost rest_i = src.rest();
                        match Frame::check(src) {
                            Ok(()) => {},
                            Err(e) => {
                                return Err(e);
                            },
                        }
                        proof {
                            lemma_spec_parse_bounds(rest_i);
                            assert(rest_i.skip(src.pos - posb) =~= d.skip(src.pos as int));
                        }
                        i = i + 1;
                    }
                    Ok(())
                },
            }
        } else {
            Err(Error::ProtocolErr)
        }
    }

    /// Second pass: materialize the typed frame that starts at the cursor,
    /// advancing past exactly the bytes `check` would have consumed.
    #[verifier::loop_isolation(false)]
    #[verifier::rlimit(100)]
    pub fn parse(src: &mut Cursor) -> (r: Result<Frame, Error>)
        requires
            old(src).wf(),
        ensures
            final(src).data == old(src).data,
            final(src).wf(),
            match r {
                Ok(frame) => spec_parse(old(src).rest())
                    matches ParseResult::Parsed { f, n }
                    && f == frame@
                    && final(src).pos == old(src).pos + n,
                Err(e) => match e {
                    Error::Incomplete => spec_parse(old(src).rest()) is Incomplete,
                    Error::ProtocolErr => spec_parse(old(src).rest()) is Malformed,
                },
            },
        decreases old(src).data@.len() - old(src).pos,
    {
        let ghost d = old(src).data@;
        let ghost p0 = old(src).pos as int;
        let ghost s0 = old(src).rest();
        let b = match get_u8(src) {
            Ok(b) => b,
            Err(e) => {
                return Err(e);
            },
        };
        proof {
            lemma_find_crlf_shift(d, p0 as nat, 1);
            lemma_find_crlf(d, (p0 + 1) as nat);
            match find_crlf(d, (p0 + 1) as nat) {
                Some(jabs) => {
                    assert(s0.subrange(1, jabs - p0) =~= d.subrange(p0 + 1, jabs as int));
                },
                None => {},
            }
        }
        if b == 43 || b == 45 {
            match get_line(src) {
                Ok(line) => {
                    if check_utf8(line) {
                        let payload = vstd::slice::slice_to_vec(line);
                        if b == 43 {
                            Ok(Frame::Simple(payload))
                        } else {
                            Ok(Frame::Error(payload))
                        }
                    } else {
                        Err(Error::ProtocolErr)
                    }
                },
                Err(e) => Err(e),
            }
        } else if b == 58 {
            match get_decimal(src) {
                Ok(v) => Ok(Frame::Integer(v)),
                Err(e) => Err(e),
            }
        } else if b == 36 {
            match get_line(src) {
                Err(e) => Err(e),
                Ok(line) => {
                    if line.len() == 2 && line[0] == 45 && line[1] == 49 {
                        Ok(Frame::Null)
                    } else {
                        match parse_decimal(line) {
                            None => Err(Error::ProtocolErr),
                            Some(len) => {
                                let ghost jabs = (src.pos - 2) as int;
                                proof {
                                    lemma_find_crlf_shift(d, p0 as nat, (jabs + 2 - p0) as nat);
                                    lemma_find_crlf(d, (jabs + 2) as nat);
                                    match find_crlf(d, (jabs + 2) as nat) {
                                        Some(kabs) => {
                                            assert(s0.subrange(jabs + 2 - p0, kabs - p0)
                                                =~= d.subrange(jabs + 2, kabs as int));
                                        },
                                        None => {},
                                    }
                                }
                                match get_line(src) {
                                    Err(e) => Err(e),
                                    Ok(payload) => {
                                        if payload.len() as u64 == len {
                                            Ok(Frame::Bulk(vstd::slice::slice_to_vec(payload)))
                                        } else {
                                            Err(Error::ProtocolErr)
                                        }
                                    },
                                }
                            },
                        }
                    }
                },
            }
        } else if b == 42 {
            match get_decimal(src) {
                Err(e) => Err(e),
                Ok(count) => {
                    let ghost hdr_end = src.pos as int;
                    let ghost srest = src.rest();
                    let ghost kk = count as nat;
                    proof {
                        assert(s0.skip(hdr_end - p0) =~= d.skip(hdr_end));
                    }
                    let mut out: Vec<Frame> = Vec::new();
                    let mut i: u64 = 0;
                    proof {
                        assert(frames_model(out@) =~= Seq::<FrameModel>::empty());
                    }
                    while i < count
                        invariant
                            src.data@ == d,
                            src.wf(),
                            p0 < src.pos,
                            i <= count,
                            out@.len() == i,
                            (match spec_parse_elems(src.rest(), (kk - i) as nat) {
                                ElemsResult::Parsed { list, n } => spec_parse_elems(srest, kk)
                                    matches ElemsResult::Parsed { list: l2, n: n2 }
                                    && l2 == frames_model(out@) + list
                                    && src.pos + n == hdr_end + n2,
                                ElemsResult::Incomplete => spec_parse_elems(srest, kk)
                                    is Incomplete,
                                ElemsResult::Malformed => spec_parse_elems(srest, kk)
                                    is Malformed,
                            }),
                        decreases count - i,
                    {
                        let ghost posb = src.pos as int;
                        let ghost rest_i = src.rest();
                        let ghost out_old = out@;
                        let f = match Frame::parse(src) {
                            Ok(f) => f,
                            Err(e) => {
                                return Err(e);
                            },
                        };
                        proof {
                            lemma_spec_parse_bounds(rest_i);
                            assert(rest_i.skip(src.pos - posb) =~= d.skip(src.pos as int));
                        }
                        out.push(f);
                        proof {
                            lemma_frames_model(out_old.push(f));
                            lemma_frames_model(out_old);
                            assert(frames_model(out_old.push(f))
                                =~= frames_model(out_old).push(frame_model(f)));
                            match spec_parse_elems(src.rest(), (kk - i - 1) as nat) {
                                ElemsResult::Parsed { list, n } => {
                                    assert(frames_model(out_old) + (seq![frame_model(f)] + list)
                                        =~= frames_model(out_old.push(f)) + list);
                                },
                                _ => {},
                            }
                        }
                        i = i + 1;
                    }
                    proof {
                        match spec_parse_elems(srest, kk) {
                            ElemsResult::Parsed { list, n } => {
                                assert(frames_model(out@) + Seq::<FrameModel>::empty()
                                    =~= frames_model(out@));
                            },
                            _ => {},
                        }
                    }
                    Ok(Frame::Array(out))
                },
            }
        } else {
            Err(Error::ProtocolErr)
        }
    }
}

/// Decimal digits of `v`, most significant first, no leading zeros.
pub open spec fn dec_digits(v: nat) -> Seq<u8>
    decreases v,
{
    if v < 10 {
        seq![(48 + v) as u8]
    } else {
        dec_digits(v / 10) + seq![(48 + v % 10) as u8]
    }
}

/// The digits of `v` form a line that reads back as `v`.
pub proof fn lemma_dec_digits(v: nat)
    ensures
        all_digits(dec_digits(v)),
        dec_value(dec_digits(v)) == v,
        dec_digits(v).len() >= 1,
    decreases v,
{
    if v < 10 {
        assert(dec_digits(v) =~= seq![(48 + v) as u8]);
        assert(dec_digits(v).drop_last() =~= Seq::<u8>::empty());
        assert(dec_digits(v).last() == (48 + v) as u8);
        assert(dec_value(Seq::<u8>::empty()) == 0);
        assert(dec_value(dec_digits(v)) == v);
    } else {
        assert(v == (v / 10) * 10 + v % 10) by (nonlinear_arith);
        lemma_dec_digits(v / 10);
        let a = dec_digits(v / 10);
        let dd = a + seq![(48 + v % 10) as u8];
        assert(dd =~= dec_digits(v));
        assert(dd.drop_last() =~= a);
        assert(dd.last() == (48 + v % 10) as u8);
        assert(forall|i: int| 0 <= i < dd.len() ==> is_digit(#[trigger] dd[i])) by {
            assert(forall|i: int| 0 <= i < a.len() ==> dd[i] == a[i]);
        }
    }
}

/// Append the decimal digits of `v` to `out`.
#[verifier::loop_isolation(false)]
fn encode_decimal(v: u64, out: &mut Vec<u8>)
    ensures
        final(out)@ == old(out)@ + dec_digits(v as nat),
    decreases v,
{
    if v < 10 {
        out.push(48 + v as u8);
        proof {
            assert(out@ =~= old(out)@ + dec_digits(v as nat));
        }
    } else {
        encode_decimal(v / 10, out);
        out.push(48 + (v % 10) as u8);
        proof {
            assert(out@ =~= old(out)@ + dec_digits(v as nat));
        }
    }
}

/// Append every byte of `b` to `out`.
#[verifier::loop_isolation(false)]
fn push_bytes(out: &mut Vec<u8>, b: &[u8])
    ensures
        final(out)@ == old(out)@ + b@,
{
    proof {
        assert(out@ =~= out@ + b@.take(0));
    }
    let mut i: usize = 0;
    while i < b.len()
        invariant
            i <= b@.len(),
            out@ == old(out)@ + b@.take(i as int),
        decreases b@.len() - i,
    {
        out.push(b[i]);
        proof {
            assert(old(out)@ + b@.take(i as int) + seq![b@[i as int]]
                =~= old(out)@ + b@.take(i as int + 1));
        }
        i = i + 1;
    }
    proof {
        assert(b@.take(b@.len() as int) =~= b@);
    }
}

/// The wire bytes of a scalar frame; arrays are decode-only in this subset
/// and have no encoding.
pub open spec fn spec_encode(m: FrameModel) -> Seq<u8> {
    match m {
        FrameModel::Simple(p) => seq![43u8] + p + seq![13u8, 10u8],
        FrameModel::Error(p) => seq![45u8] + p + seq![13u8, 10u8],
        FrameModel::Integer(v) => seq![58u8] + dec_digits(v as nat) + seq![13u8, 10u8],
        FrameModel::Bulk(p) => seq![36u8] + dec_digits(p.len()) + seq![13u8, 10u8] + p
            + seq![13u8, 10u8],
        FrameModel::Null => seq![36u8, 45u8, 49u8, 13u8, 10u8],
        FrameModel::Array(list) => Seq::empty(),
    }
}

/// Serialize one outgoing frame, appending its wire bytes to `out`. Arrays
/// are rejected by contract: responses in this subset are always scalar,
/// and the dispatcher must guard the call.
pub fn write_value(frame: &Frame, out: &mut Vec<u8>)
    requires
        !(frame is Array),
    ensures
        final(out)@ == old(out)@ + spec_encode(frame@),
{
    match frame {
        Frame::Simple(p) => {
            out.push(43);
            push_bytes(out, p.as_slice());
            out.push(13);
            out.push(10);
            proof {
                assert(out@ =~= old(out)@ + spec_encode(frame@));
            }
        },
        Frame::Error(p) => {
            out.push(45);
            push_bytes(out, p.as_slice());
            out.push(13);
            out.push(10);
            proof {
                assert(out@ =~= old(out)@ + spec_encode(frame@));
            }
        },
        Frame::Integer(v) => {
            out.push(58);
            encode_decimal(*v, out);
            out.push(13);
            out.push(10);
            proof {
                assert(out@ =~= old(out)@ + spec_encode(frame@));
            }
        },
        Frame::Bulk(p) => {
            out.push(36);
            encode_decimal(p.len() as u64, out);
            out.push(13);
            out.push(10);
            push_bytes(out, p.as_slice());
            out.push(13);
            out.push(10);
            proof {
                assert(out@ =~= old(out)@ + spec_encode(frame@));
            }
        },
        Frame::Null => {
            out.push(36);
            out.push(45);
            out.push(49);
            out.push(13);
            out.push(10);
            proof {
                assert(out@ =~= old(out)@ + spec_encode(frame@));
            }
        },
        Frame::Array(_) => {
            proof {
                assert(false);
            }
        },
    }
}

/// No `\r\n` pair occurs inside `p`; such a payload survives the
/// line-oriented scan unchanged.
pub open spec fn line_ok(p: Seq<u8>) -> bool {
    forall|i: int| 0 <= i && i + 2 <= p.len() ==> !(p[i] == 13 && #[trigger] p[i + 1] == 10)
}

/// A frame value whose wire image parses back to itself: scalar, payloads
/// free of embedded `\r\n`, and UTF-8 text where the wire format demands it.
pub open spec fn encodable(m: FrameModel) -> bool {
    match m {
        FrameModel::Simple(p) => is_utf8(p) && line_ok(p),
        FrameModel::Error(p) => is_utf8(p) && line_ok(p),
        FrameModel::Integer(v) => true,
        FrameModel::Bulk(p) => line_ok(p) && p.len() <= u64::MAX,
        FrameModel::Null => true,
        FrameModel::Array(list) => false,
    }
}

/// Round-trip law: the wire image of any encodable frame parses back to
/// exactly that frame, consuming exactly its bytes.
pub proof fn lemma_encode_parse_round_trip(m: FrameModel)
    requires
        encodable(m),
    ensures
        spec_parse(spec_encode(m)) == (ParseResult::Parsed {
            f: m,
            n: spec_encode(m).len(),
        }),
{
    let e = spec_encode(m);
    match m {
        FrameModel::Simple(p) => {
            lemma_round_trip_line(e, p);
            assert(e.subrange(1, p.len() + 1 as int) =~= p);
            assert(spec_parse(e) == (ParseResult::Parsed { f: m, n: e.len() }));
        },
        FrameModel::Error(p) => {
            lemma_round_trip_line(e, p);
            assert(e.subrange(1, p.len() + 1 as int) =~= p);
            assert(spec_parse(e) == (ParseResult::Parsed { f: m, n: e.len() }));
        },
        FrameModel::Integer(v) => {
            let dd = dec_digits(v as nat);
            lemma_dec_digits(v as nat);
            assert(line_ok(dd));
            lemma_round_trip_line(e, dd);
            assert(e.subrange(1, dd.len() + 1 as int) =~= dd);
            assert(spec_parse(e) == (ParseResult::Parsed { f: m, n: e.len() }));
        },
        FrameModel::Bulk(p) => {
            let dd = dec_digits(p.len());
            lemma_dec_digits(p.len());
            assert(line_ok(dd));
            lemma_round_trip_line(e, dd);
            assert(e.subrange(1, dd.len() + 1 as int) =~= dd);
            let hdr: int = dd.len() as int + 3;
            assert(crlf_at(e, hdr + p.len())) by {
                assert(e[hdr + p.len()] == 13);
                assert(e[hdr + p.len() + 1] == 10);
            }
            assert forall|mm: int| hdr <= mm < hdr + p.len() implies !crlf_at(e, mm) by {
                if mm < hdr + p.len() - 1 {
                    assert(e[mm] == p[mm - hdr]);
                    assert(e[mm + 1] == p[mm - hdr + 1]);
                } else {
                    assert(e[mm + 1] == 13);
                }
            }
            lemma_find_crlf_complete(e, hdr as nat, (hdr + p.len()) as nat);
            assert(e.subrange(hdr as int, hdr + p.len() as int) =~= p);
            assert(!is_digit(45));
            assert(spec_parse(e) == (ParseResult::Parsed { f: m, n: e.len() }));
        },
        FrameModel::Null => {
            assert(crlf_at(e, 3));
            assert(!crlf_at(e, 1));
            assert(!crlf_at(e, 2));
            lemma_find_crlf_complete(e, 1, 3);
            assert(e.subrange(1, 3) =~= seq![45u8, 49u8]);
            assert(spec_parse(e) == (ParseResult::Parsed { f: m, n: e.len() }));
        },
        FrameModel::Array(list) => {
            assert(false);
        },
    }
}

/// Helper for the round-trip law: in `sigil + line + \r\n + tail`, the first
/// terminator after the sigil sits exactly at the end of the line.
proof fn lemma_round_trip_line(e: Seq<u8>, p: Seq<u8>)
    requires
        line_ok(p),
        e.len() >= p.len() + 3,
        forall|i: int| 0 <= i < p.len() ==> e[i + 1] == p[i],
        e[p.len() + 1 as int] == 13,
        e[p.len() + 2 as int] == 10,
    ensures
        find_crlf(e, 1) == Some((p.len() + 1) as nat),
{
    assert(crlf_at(e, p.len() + 1 as int));
    assert forall|m: int| 1 <= m < p.len() + 1 implies !crlf_at(e, m) by {
        if m < p.len() {
            assert(e[m] == p[m - 1]);
            assert(e[m + 1] == p[m]);
        } else {
            assert(e[m + 1] == 13);
        }
    }
    lemma_find_crlf_complete(e, 1, (p.len() + 1) as nat);
}


/// Truncating a buffer to `m` bytes keeps a terminator that still fits and
/// loses any that does not.
proof fn lemma_find_crlf_prefix(s: Seq<u8>, m: int, i: nat)
    requires
        0 <= m <= s.len(),
    ensures
        match find_crlf(s, i) {
            Some(j) => if j + 2 <= m {
                find_crlf(s.take(m), i) == Some(j)
            } else {
                find_crlf(s.take(m), i) is None
            },
            None => find_crlf(s.take(m), i) is None,
        },
{
    let t = s.take(m);
    assert(forall|x: int| 0 <= x && x + 2 <= m ==> (crlf_at(t, x) == crlf_at(s, x)));
    lemma_find_crlf(s, i);
    match find_crlf(s, i) {
        Some(j) => {
            if j + 2 <= m {
                lemma_find_crlf_complete(t, i, j);
            } else {
                assert(forall|x: int| i <= x ==> !crlf_at(t, x));
                lemma_find_crlf_none(t, i);
            }
        },
        None => {
            assert(forall|x: int| i <= x ==> !crlf_at(t, x));
            lemma_find_crlf_none(t, i);
        },
    }
}

/// Prefix law for one frame: while a parseable frame's bytes are still
/// arriving, every strict prefix is `Incomplete` -- never an error and never
/// some other frame -- and once the frame is whole, further bytes after it
/// change nothing. Feeding an encoding split at any byte boundary therefore
/// ends in the same frame as feeding it at once.
#[verifier::rlimit(100)]
pub proof fn lemma_parse_prefix(s: Seq<u8>, m: int)
    requires
        0 <= m <= s.len(),
    ensures
        spec_parse(s) matches ParseResult::Parsed { f, n } ==> {
            &&& m < n ==> spec_parse(s.take(m)) is Incomplete
            &&& n <= m ==> spec_parse(s.take(m)) == spec_parse(s)
        },
    decreases s.len(), 0nat,
{
    lemma_spec_parse_bounds(s);
    let t = s.take(m);
    if spec_parse(s) is Parsed {
        if m == 0 {
            assert(spec_parse(t) is Incomplete);
        } else {
            let c = s[0];
            assert(t[0] == c);
            lemma_find_crlf_prefix(s, m, 1);
            lemma_find_crlf(s, 1);
            if c == 43 || c == 45 || c == 58 {
                match find_crlf(s, 1) {
                    Some(j) => {
                        if j + 2 <= m {
                            assert(t.subrange(1, j as int) =~= s.subrange(1, j as int));
                            assert(spec_parse(t) == spec_parse(s));
                        } else {
                            assert(spec_parse(t) is Incomplete);
                        }
                        assert(spec_parse(s) matches ParseResult::Parsed { f, n } && m < n
                            ==> spec_parse(s.take(m)) is Incomplete);
                        assert(spec_parse(s) matches ParseResult::Parsed { f, n } && n <= m
                            ==> spec_parse(s.take(m)) == spec_parse(s));
                    },
                    None => {},
                }
            } else if c == 36 {
                match find_crlf(s, 1) {
                    Some(j) => {
                        lemma_find_crlf_prefix(s, m, j + 2);
                        lemma_find_crlf(s, j + 2);
                        if j + 2 <= m {
                            assert(t.subrange(1, j as int) =~= s.subrange(1, j as int));
                            let line = s.subrange(1, j as int);
                            if line.len() == 2 && line[0] == 45 && line[1] == 49 {
                                assert(spec_parse(t) == spec_parse(s));
                            } else {
                                match find_crlf(s, j + 2) {
                                    Some(k) => {
                                        if k + 2 <= m {
                                            assert(t.subrange(j as int + 2, k as int)
                                                =~= s.subrange(j as int + 2, k as int));
                                            assert(spec_parse(t) == spec_parse(s));
                                        } else {
                                            assert(find_crlf(t, j + 2) is None);
                                            assert(spec_parse(t) is Incomplete);
                                        }
                                    },
                                    None => {},
                                }
                            }
                        }
                        assert(spec_parse(s) matches ParseResult::Parsed { f, n } && m < n
                            ==> spec_parse(s.take(m)) is Incomplete);
                        assert(spec_parse(s) matches ParseResult::Parsed { f, n } && n <= m
                            ==> spec_parse(s.take(m)) == spec_parse(s));
                    },
                    None => {},
                }
            } else if c == 42 {
                match find_crlf(s, 1) {
                    Some(j) => {
                        if j + 2 <= m {
                            assert(t.subrange(1, j as int) =~= s.subrange(1, j as int));
                            let line = s.subrange(1, j as int);
                            let rest = s.skip(j as int + 2);
                            assert(t.skip(j as int + 2) =~= rest.take(m - j - 2));
                            lemma_parse_elems_prefix(rest, dec_value(line) as nat, m - j - 2);
                            match spec_parse_elems(rest, dec_value(line) as nat) {
                                ElemsResult::Parsed { list, n: n2 } => {
                                    if j + 2 + n2 <= m {
                                        assert(spec_parse(t) == spec_parse(s));
                                    } else {
                                        assert(spec_parse(t) is Incomplete);
                                    }
                                },
                                _ => {},
                            }
                        }
                        assert(spec_parse(s) matches ParseResult::Parsed { f, n } && m < n
                            ==> spec_parse(s.take(m)) is Incomplete);
                        assert(spec_parse(s) matches ParseResult::Parsed { f, n } && n <= m
                            ==> spec_parse(s.take(m)) == spec_parse(s));
                    },
                    None => {},
                }
            } else {
                assert(false);
            }
        }
    }
}

/// Prefix law for a run of `k` consecutive frames.
pub proof fn lemma_parse_elems_prefix(s: Seq<u8>, k: nat, m: int)
    requires
        0 <= m <= s.len(),
    ensures
        spec_parse_elems(s, k) matches ElemsResult::Parsed { list, n } ==> {
            &&& m < n ==> spec_parse_elems(s.take(m), k) is Incomplete
            &&& n <= m ==> spec_parse_elems(s.take(m), k) == spec_parse_elems(s, k)
        },
    decreases s.len(), k,
{
    let t = s.take(m);
    if k == 0 {
        assert(t.len() == m);
    } else if spec_parse_elems(s, k) is Parsed {
        lemma_spec_parse_bounds(s);
        match spec_parse(s) {
            ParseResult::Parsed { f: f1, n: n1 } => {
                lemma_parse_prefix(s, m);
                if m < n1 {
                } else {
                    assert(t.skip(n1 as int) =~= s.skip(n1 as int).take(m - n1));
                    lemma_spec_parse_elems_bounds(s.skip(n1 as int), (k - 1) as nat);
                    lemma_parse_elems_prefix(s.skip(n1 as int), (k - 1) as nat, m - n1);
                    assert(spec_parse(t) == spec_parse(s));
                }
            },
            _ => {},
        }
    }
}

} // verus!
