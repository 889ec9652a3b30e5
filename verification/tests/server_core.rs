use my_redis::command::process;
use my_redis::connection::{write_frame, RecvBuffer};
use my_redis::frame::Frame;
use my_redis::store::{calculate_hash, new_sharded_db, shard_index, Partition};

#[test]
fn store_get_after_insert_until_overwritten() {
    let mut db = new_sharded_db(5);
    assert_eq!(db.get(b"hello"), None);
    db.insert(b"hello".to_vec(), b"world".to_vec());
    assert_eq!(db.get(b"hello"), Some(b"world".to_vec()));
    assert_eq!(db.get(b"hello"), Some(b"world".to_vec()));
    db.insert(b"hello".to_vec(), b"again".to_vec());
    assert_eq!(db.get(b"hello"), Some(b"again".to_vec()));
    assert_eq!(db.get(b"never"), None);
}

#[test]
fn store_single_shard_still_works() {
    let mut db = new_sharded_db(1);
    db.insert(b"a".to_vec(), b"1".to_vec());
    db.insert(b"b".to_vec(), b"2".to_vec());
    assert_eq!(db.get(b"a"), Some(b"1".to_vec()));
    assert_eq!(db.get(b"b"), Some(b"2".to_vec()));
}

#[test]
fn hash_is_deterministic() {
    assert_eq!(calculate_hash(b"hello"), calculate_hash(b"hello"));
    assert_eq!(shard_index(b"hello", 5), shard_index(b"hello", 5));
}

#[test]
fn hash_exact_values() {
    // the offset basis for an empty key, then one xor-multiply round
    assert_eq!(calculate_hash(b""), 0xcbf29ce484222325);
    let expected = (0xcbf29ce484222325u64 ^ (b'a' as u64)).wrapping_mul(0x100000001b3);
    assert_eq!(calculate_hash(b"a"), expected);
}

#[test]
fn shard_index_stays_in_range() {
    for n in 1usize..8 {
        assert!(shard_index(b"some key", n) < n);
    }
}

#[test]
fn partition_independence_scenario() {
    // two keys that land in different partitions of a five-shard store
    let (k1, k2): (&[u8], &[u8]) = (b"hello", b"other");
    assert_ne!(shard_index(k1, 5), shard_index(k2, 5));
    let mut db = new_sharded_db(5);
    db.insert(k1.to_vec(), b"v1".to_vec());
    // filling k1's partition never touches k2's
    assert_eq!(db.get(k2), None);
    db.insert(k2.to_vec(), b"v2".to_vec());
    db.insert(k1.to_vec(), b"v1b".to_vec());
    assert_eq!(db.get(k2), Some(b"v2".to_vec()));
    assert_eq!(db.get(k1), Some(b"v1b".to_vec()));
}

#[test]
fn partition_insert_and_get() {
    let mut p = Partition::new();
    assert_eq!(p.get(b"k"), None);
    p.insert(b"k".to_vec(), b"v".to_vec());
    assert_eq!(p.get(b"k"), Some(b"v".to_vec()));
    p.insert(b"k".to_vec(), b"w".to_vec());
    assert_eq!(p.get(b"k"), Some(b"w".to_vec()));
}

fn one_request(db: &mut my_redis::store::ShardedDict, wire: &[u8]) -> Vec<u8> {
    let mut buf = RecvBuffer::new();
    buf.extend(wire);
    let frame = buf.parse_frame().unwrap().unwrap();
    let response = process(&frame, db).unwrap();
    write_frame(&response)
}

#[test]
fn end_to_end_get_before_set_then_set_then_get() {
    let mut db = new_sharded_db(5);
    let reply = one_request(&mut db, b"*2\r\n$3\r\nGET\r\n$5\r\nhello\r\n");
    assert_eq!(reply, b"$-1\r\n".to_vec());
    let reply = one_request(&mut db, b"*3\r\n$3\r\nSET\r\n$5\r\nhello\r\n$5\r\nworld\r\n");
    assert_eq!(reply, b"+OK\r\n".to_vec());
    let reply = one_request(&mut db, b"*2\r\n$3\r\nGET\r\n$5\r\nhello\r\n");
    assert_eq!(reply, b"$5\r\nworld\r\n".to_vec());
}

#[test]
fn unknown_command_yields_no_response() {
    let mut db = new_sharded_db(2);
    let mut buf = RecvBuffer::new();
    buf.extend(b"*1\r\n$4\r\nPING\r\n");
    let frame = buf.parse_frame().unwrap().unwrap();
    assert_eq!(process(&frame, &mut db), None);
    let not_an_array = Frame::Simple(b"GET".to_vec());
    assert_eq!(process(&not_an_array, &mut db), None);
}
