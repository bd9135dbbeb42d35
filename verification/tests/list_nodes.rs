use redis_rocksdb::list::RedisList;
use redis_rocksdb::quick_list::QuickList;
use redis_rocksdb::quick_list_node::QuickListNode;
use redis_rocksdb::redis_rocksdb::RedisRocksdb;
use redis_rocksdb::wrap_db::{MemDb, WrapDb};
use redis_rocksdb::zip_list::ZipList;

fn head(db: &RedisRocksdb<MemDb>, key: &[u8]) -> QuickList {
    QuickList::get(db.get_db(), key).expect("").expect("")
}

fn node(db: &RedisRocksdb<MemDb>, key: &[u8]) -> QuickListNode {
    QuickListNode::get(db.get_db(), key).expect("").expect("")
}

fn node_counts(db: &RedisRocksdb<MemDb>, key: &[u8]) -> Vec<u32> {
    let h = head(db, key);
    let mut counts = Vec::new();
    let mut next = h.left();
    while let Some(k) = next {
        let n = node(db, k.as_ref());
        let zip = ZipList::get(db.get_db(), n.values_key().expect("").as_ref())
            .expect("")
            .expect("");
        assert_eq!(n.len_list(), zip.len());
        assert_eq!(n.len_bytes() as usize, zip.as_ref().len());
        counts.push(n.len_list());
        next = n.right();
    }
    assert_eq!(h.len_node() as usize, counts.len());
    assert_eq!(h.len_list(), counts.iter().sum::<u32>());
    counts
}

fn filled(key: &[u8], n: u8) -> RedisRocksdb<MemDb> {
    let mut db = RedisRocksdb::new(MemDb::new());
    for i in 0..n {
        assert_eq!(i as i32 + 1, db.rpush(key, &[i]).expect(""));
    }
    db
}

#[test]
fn first_in_first_out() {
    let mut db = RedisRocksdb::new(MemDb::new());
    let key = b"queue";
    assert_eq!(1, db.rpush(key, b"a").expect(""));
    assert_eq!(2, db.rpush(key, b"b").expect(""));
    assert_eq!(Some(b"a".to_vec()), db.lpop(key).expect(""));
    assert_eq!(Some(b"b".to_vec()), db.lpop(key).expect(""));
    assert_eq!(0, db.llen(key).expect(""));
    assert_eq!(None, db.lpop(key).expect(""));
    assert_eq!(0, head(&db, key).len_node());
}

#[test]
fn last_in_first_out() {
    let mut db = RedisRocksdb::new(MemDb::new());
    let key = b"stack";
    assert_eq!(1, db.rpush(key, b"a").expect(""));
    assert_eq!(2, db.rpush(key, b"b").expect(""));
    assert_eq!(Some(b"b".to_vec()), db.rpop(key).expect(""));
    assert_eq!(Some(b"a".to_vec()), db.rpop(key).expect(""));
    assert_eq!(0, db.llen(key).expect(""));
}

#[test]
fn push_index_set_round_trip() {
    let mut db = RedisRocksdb::new(MemDb::new());
    let key = b"k";
    assert_eq!(1, db.lpush(key, b"v").expect(""));
    assert_eq!(b"v".to_vec(), db.lindex(key, 0).expect(""));
    assert_eq!(b"v".to_vec(), db.lset(key, 0, b"longer v2").expect(""));
    assert_eq!(b"longer v2".to_vec(), db.lindex(key, 0).expect(""));
    assert_eq!(vec![1], node_counts(&db, key));
}

#[test]
fn ranges_from_either_end() {
    let db = filled(b"k", 3);
    assert_eq!(vec![vec![2u8]], db.lrange(b"k", -1, -1).expect(""));
    assert_eq!(vec![vec![0u8], vec![1], vec![2]], db.lrange(b"k", 0, -1).expect(""));
    assert_eq!(vec![vec![0u8], vec![1], vec![2]], db.lrange(b"k", -100, 100).expect(""));
    assert_eq!(vec![vec![1u8], vec![2]], db.lrange(b"k", 1, 100).expect(""));
    assert_eq!(Vec::<Vec<u8>>::new(), db.lrange(b"k", 2, 1).expect(""));
}

#[test]
fn index_counts_from_either_end_and_clamps() {
    let db = filled(b"k", 3);
    assert_eq!(vec![0u8], db.lindex(b"k", 0).expect(""));
    assert_eq!(vec![2u8], db.lindex(b"k", 2).expect(""));
    assert_eq!(vec![2u8], db.lindex(b"k", -1).expect(""));
    assert_eq!(vec![0u8], db.lindex(b"k", -3).expect(""));
    assert_eq!(vec![0u8], db.lindex(b"k", -30).expect(""));
    assert_eq!(vec![2u8], db.lindex(b"k", 30).expect(""));
    assert!(db.lindex(b"none", 0).is_err());
}

#[test]
fn push_starts_a_node_where_the_end_node_is_full() {
    // a value of one byte takes 5 bytes; with the count, 98 of them take 494
    let mut db = filled(b"k", 98);
    assert_eq!(vec![98], node_counts(&db, b"k"));
    assert_eq!(494, node(&db, head(&db, b"k").left().expect("").as_ref()).len_bytes());
    assert_eq!(99, db.rpush(b"k", &[98]).expect(""));
    assert_eq!(vec![98, 1], node_counts(&db, b"k"));
    assert_eq!(2, head(&db, b"k").len_node());
    assert_eq!(vec![97u8], db.lindex(b"k", 97).expect(""));
    assert_eq!(vec![98u8], db.lindex(b"k", 98).expect(""));
    assert_eq!(vec![98u8], db.lindex(b"k", -1).expect(""));
    assert_eq!(vec![vec![97u8], vec![98]], db.lrange(b"k", 97, 98).expect(""));
    assert_eq!(100, db.lpush(b"k", &[200]).expect(""));
    assert_eq!(vec![1, 98, 1], node_counts(&db, b"k"));
    assert_eq!(vec![200u8], db.lindex(b"k", 0).expect(""));
    assert_eq!(vec![0u8], db.lindex(b"k", 1).expect(""));
    assert_eq!(vec![vec![200u8], vec![0], vec![1]], db.lrange(b"k", 0, 2).expect(""));
    assert_eq!(100, db.lrange(b"k", 0, -1).expect("").len());
}

#[test]
fn push_of_empty_values_fills_a_node_by_its_bytes() {
    let mut db = RedisRocksdb::new(MemDb::new());
    for i in 0..123 {
        assert_eq!(i + 1, db.rpush(b"k", &[]).expect(""));
    }
    assert_eq!(vec![123], node_counts(&db, b"k"));
    assert_eq!(124, db.rpush(b"k", &[]).expect(""));
    assert_eq!(vec![123, 1], node_counts(&db, b"k"));
    assert_eq!(125, db.rpush(b"k", &[]).expect(""));
    assert_eq!(vec![123, 2], node_counts(&db, b"k"));
}

#[test]
fn a_long_value_has_a_node_of_its_own() {
    let mut db = RedisRocksdb::new(MemDb::new());
    let long = vec![7u8; 600];
    assert_eq!(1, db.rpush(b"k", &[1]).expect(""));
    assert_eq!(2, db.rpush(b"k", &long).expect(""));
    assert_eq!(3, db.rpush(b"k", &[2]).expect(""));
    assert_eq!(vec![1, 1, 1], node_counts(&db, b"k"));
    assert_eq!(long, db.lindex(b"k", 1).expect(""));
    let too_long = vec![7u8; 65536];
    assert!(db.rpush(b"k", &too_long).is_err());
    assert!(db.lset(b"k", 0, &too_long).is_err());
    assert!(db.linsert_before(b"k", &[1], &too_long).is_err());
    assert_eq!(3, db.llen(b"k").expect(""));
    let longest = vec![7u8; 65535];
    assert_eq!(4, db.lpush(b"k", &longest).expect(""));
    assert_eq!(longest, db.lindex(b"k", 0).expect(""));
}

#[test]
fn pops_drain_the_nodes_one_after_the_other() {
    let mut db = filled(b"k", 200);
    assert_eq!(vec![98, 98, 4], node_counts(&db, b"k"));
    for i in 0..99u8 {
        assert_eq!(Some(vec![i]), db.lpop(b"k").expect(""));
    }
    assert_eq!(vec![97, 4], node_counts(&db, b"k"));
    for i in 0..5u8 {
        assert_eq!(Some(vec![199 - i]), db.rpop(b"k").expect(""));
    }
    assert_eq!(vec![96], node_counts(&db, b"k"));
    let h = head(&db, b"k");
    assert_eq!(h.left().expect("").as_ref(), h.right().expect("").as_ref());
    let only = node(&db, h.left().expect("").as_ref());
    assert!(only.left().is_none());
    assert!(only.right().is_none());
    for i in 0..96u8 {
        assert_eq!(Some(vec![99 + i]), db.lpop(b"k").expect(""));
    }
    assert_eq!(None, db.rpop(b"k").expect(""));
    assert_eq!(0, db.llen(b"k").expect(""));
    let h = head(&db, b"k");
    assert!(h.left().is_none());
    assert!(h.right().is_none());
    assert_eq!(0, h.len_node());
    // the head record is all that is left of the list
    assert!(db.get_db().exist(b"k").expect(""));
    assert_eq!(1, db.rpush(b"k", &[1]).expect(""));
    assert_eq!(vec![1], node_counts(&db, b"k"));
}

#[test]
fn minted_keys_are_not_used_again() {
    let mut db = RedisRocksdb::new(MemDb::new());
    assert_eq!(1, db.rpush(b"k", &[1]).expect(""));
    let first = head(&db, b"k");
    assert_eq!(2, first.meta_key().expect("").sep());
    assert_eq!(1, first.left().expect("").sep());
    assert_eq!(first.meta_key().expect("").key(), first.left().expect("").key());
    assert_eq!(Some(vec![1u8]), db.lpop(b"k").expect(""));
    assert_eq!(1, db.rpush(b"k", &[1]).expect(""));
    let second = head(&db, b"k");
    assert_eq!(4, second.meta_key().expect("").sep());
    assert_eq!(3, second.left().expect("").sep());
    assert_eq!(first.meta_key().expect("").key(), second.meta_key().expect("").key());
}

#[test]
fn removal_of_all_in_one_pass() {
    let mut db = RedisRocksdb::new(MemDb::new());
    let v = b"v".to_vec();
    let v2 = b"v2".to_vec();
    for x in [&v2, &v, &v2, &v, &v2] {
        db.rpush(b"k", x).expect("");
    }
    assert_eq!(3, db.lrem(b"k", 0, &v2).expect(""));
    assert_eq!(vec![v.clone(), v.clone()], db.lrange(b"k", 0, -1).expect(""));
    assert_eq!(2, db.llen(b"k").expect(""));
    assert_eq!(0, db.lrem(b"k", 0, &v2).expect(""));
    assert_eq!(2, db.lrem(b"k", 5, &v).expect(""));
    assert_eq!(0, db.llen(b"k").expect(""));
    assert_eq!(0, head(&db, b"k").len_node());
}

fn striped(key: &[u8]) -> RedisRocksdb<MemDb> {
    // 300 values in four nodes: 1, 0, 0, 1, 0, 0, ...
    let mut db = RedisRocksdb::new(MemDb::new());
    for i in 0..300 {
        db.rpush(key, &[if i % 3 == 0 { 1 } else { 0 }]).expect("");
    }
    assert_eq!(vec![98, 98, 98, 6], node_counts(&db, key));
    db
}

#[test]
fn removal_from_the_left_across_nodes() {
    let mut db = striped(b"k");
    assert_eq!(40, db.lrem(b"k", 40, &[1]).expect(""));
    assert_eq!(260, db.llen(b"k").expect(""));
    // the first 40 values 1 stood at the places 0, 3, .., 117
    assert_eq!(vec![65, 91, 98, 6], node_counts(&db, b"k"));
    let all = db.lrange(b"k", 0, -1).expect("");
    assert!(all[..80].iter().all(|x| x == &vec![0u8]));
    assert_eq!(vec![vec![1u8], vec![0], vec![0], vec![1]], all[80..84].to_vec());
    assert_eq!(60, all.iter().filter(|x| x == &&vec![1u8]).count());
}

#[test]
fn removal_from_the_right_across_nodes() {
    let mut db = striped(b"k");
    assert_eq!(40, db.lrem(b"k", -40, &[1]).expect(""));
    assert_eq!(260, db.llen(b"k").expect(""));
    // the last 40 values 1 stood at the places 297, 294, .., 180
    assert_eq!(vec![98, 92, 66, 4], node_counts(&db, b"k"));
    let all = db.lrange(b"k", 0, -1).expect("");
    assert!(all[180..].iter().all(|x| x == &vec![0u8]));
    assert_eq!(vec![vec![1u8], vec![0], vec![0]], all[177..180].to_vec());
    assert_eq!(60, all.iter().filter(|x| x == &&vec![1u8]).count());
}

#[test]
fn removal_drains_nodes_in_the_middle() {
    let mut db = RedisRocksdb::new(MemDb::new());
    for i in 0..294 {
        db.rpush(b"k", &[if (98..196).contains(&i) { 1 } else { 0 }]).expect("");
    }
    assert_eq!(vec![98, 98, 98], node_counts(&db, b"k"));
    assert_eq!(98, db.lrem(b"k", 0, &[1]).expect(""));
    assert_eq!(vec![98, 98], node_counts(&db, b"k"));
    let h = head(&db, b"k");
    let first = node(&db, h.left().expect("").as_ref());
    let last = node(&db, h.right().expect("").as_ref());
    assert_eq!(first.right().expect("").as_ref(), h.right().expect("").as_ref());
    assert_eq!(last.left().expect("").as_ref(), h.left().expect("").as_ref());
    assert_eq!(196, db.lrem(b"k", -1000, &[0]).expect(""));
    assert_eq!(Vec::<u32>::new(), node_counts(&db, b"k"));
    assert_eq!(0, db.llen(b"k").expect(""));
    assert_eq!(1, db.lpush(b"k", &[5]).expect(""));
    assert_eq!(vec![5u8], db.lindex(b"k", 0).expect(""));
}

#[test]
fn insert_and_set_in_a_later_node() {
    let mut db = filled(b"k", 150);
    assert_eq!(vec![98, 52], node_counts(&db, b"k"));
    assert_eq!(151, db.linsert_before(b"k", &[120], b"before").expect(""));
    assert_eq!(152, db.linsert_after(b"k", &[120], b"after").expect(""));
    assert_eq!(vec![98, 54], node_counts(&db, b"k"));
    assert_eq!(
        vec![vec![119u8], b"before".to_vec(), vec![120], b"after".to_vec(), vec![121]],
        db.lrange(b"k", 119, 123).expect("")
    );
    assert_eq!(vec![120u8], db.lset(b"k", 121, b"middle").expect(""));
    assert_eq!(b"middle".to_vec(), db.lindex(b"k", 121).expect(""));
    assert_eq!(vec![98, 54], node_counts(&db, b"k"));
    assert!(db.lset(b"k", 152, b"x").is_err());
    assert!(db.lset(b"k", -1, b"x").is_err());
    assert_eq!(b"after".to_vec(), db.lset(b"k", 122, b"").expect(""));
    assert_eq!(Vec::<u8>::new(), db.lindex(b"k", 122).expect(""));
}

#[test]
fn insert_without_the_pivot_changes_nothing() {
    let mut db = filled(b"k", 120);
    let before = db.lrange(b"k", 0, -1).expect("");
    let counts = node_counts(&db, b"k");
    assert_eq!(-1, db.linsert_before(b"k", b"missing", b"x").expect(""));
    assert_eq!(-1, db.linsert_after(b"k", b"missing", b"x").expect(""));
    assert_eq!(before, db.lrange(b"k", 0, -1).expect(""));
    assert_eq!(counts, node_counts(&db, b"k"));
    assert_eq!(120, db.llen(b"k").expect(""));
}

#[test]
fn clear_then_use_again() {
    let mut db = filled(b"k", 150);
    db.rpush(b"other", b"stays").expect("");
    assert_eq!(2, db.clear(b"k").expect(""));
    assert_eq!(-1, db.llen(b"k").expect(""));
    assert!(!db.get_db().exist(b"k").expect(""));
    assert_eq!(0, db.clear(b"k").expect(""));
    assert_eq!(1, db.llen(b"other").expect(""));
    assert_eq!(b"stays".to_vec(), db.lindex(b"other", 0).expect(""));

    let mut fresh = RedisRocksdb::new(MemDb::new());
    assert_eq!(1, db.rpush(b"k", b"v").expect(""));
    assert_eq!(1, fresh.rpush(b"k", b"v").expect(""));
    assert_eq!(head(&fresh, b"k").as_ref(), head(&db, b"k").as_ref());
    assert_eq!(fresh.lrange(b"k", 0, -1).expect(""), db.lrange(b"k", 0, -1).expect(""));
    assert_eq!(node_counts(&fresh, b"k"), node_counts(&db, b"k"));
}

#[test]
fn push_if_the_list_is_there() {
    let mut db = RedisRocksdb::new(MemDb::new());
    assert_eq!(0, db.lpush_exists(b"k", b"a").expect(""));
    assert_eq!(0, db.rpush_exists(b"k", b"a").expect(""));
    assert_eq!(-1, db.llen(b"k").expect(""));
    assert_eq!(1, db.rpush(b"k", b"a").expect(""));
    assert_eq!(2, db.lpush_exists(b"k", b"b").expect(""));
    assert_eq!(3, db.rpush_exists(b"k", b"c").expect(""));
    assert_eq!(
        vec![b"b".to_vec(), b"a".to_vec(), b"c".to_vec()],
        db.lrange(b"k", 0, -1).expect("")
    );
}

#[test]
fn records_that_are_not_what_they_should_be_are_errors() {
    let mut store = MemDb::new();
    store.put(b"k", &[1, 2, 3]).expect("");
    let mut db = RedisRocksdb::new(store);
    assert!(db.llen(b"k").is_err());
    assert!(db.rpush(b"k", b"a").is_err());
    assert!(db.lpop(b"k").is_err());
    assert!(db.lrange(b"k", 0, -1).is_err());
    assert!(db.lrem(b"k", 0, b"a").is_err());
    assert!(db.clear(b"k").is_err());

    let mut db = filled(b"k", 3);
    let node_key = head(&db, b"k").left().expect("");
    let zip_key = node(&db, node_key.as_ref()).values_key().expect("");
    let mut store = MemDb::new();
    store.put(b"k", head(&db, b"k").as_ref()).expect("");
    store.put(node_key.as_ref(), node(&db, node_key.as_ref()).as_ref()).expect("");
    store.put(zip_key.as_ref(), &[3, 0, 0, 0, 1, 0, 9]).expect("");
    let mut broken = RedisRocksdb::new(store);
    assert_eq!(3, broken.llen(b"k").expect(""));
    assert!(broken.lindex(b"k", 0).is_err());
    assert!(broken.rpush(b"k", b"a").is_err());
    assert!(broken.rpop(b"k").is_err());
    assert!(broken.lset(b"k", 0, b"a").is_err());
    assert!(broken.linsert_after(b"k", &[0], b"a").is_err());

    let mut store = MemDb::new();
    store.put(b"k", head(&db, b"k").as_ref()).expect("");
    let mut lost = RedisRocksdb::new(store);
    assert!(lost.lindex(b"k", 0).is_err());
    assert!(lost.lpush(b"k", b"a").is_err());
    assert!(lost.lrange(b"k", 0, 0).is_err());
    assert_eq!(3, db.llen(b"k").expect(""));
    assert_eq!(Some(vec![0u8]), db.lpop(b"k").expect(""));
}

#[test]
fn lists_under_different_keys_do_not_touch_each_other() {
    let mut db = RedisRocksdb::new(MemDb::new());
    db.db.put(b"plain", b"value").expect("");
    for i in 0..120u8 {
        db.rpush(b"a", &[i]).expect("");
        db.lpush(b"b", &[i, i]).expect("");
    }
    assert_eq!(vec![98, 22], node_counts(&db, b"a"));
    // a value of two bytes takes 6 bytes; with the count, 82 of them take 496
    assert_eq!(vec![38, 82], node_counts(&db, b"b"));
    let b_before = db.lrange(b"b", 0, -1).expect("");
    assert_eq!(1, db.lrem(b"a", 0, &[7]).expect(""));
    for _ in 0..30 {
        db.lpop(b"a").expect("");
        db.rpop(b"a").expect("");
    }
    db.linsert_after(b"a", &[50], &[0, 0]).expect("");
    db.lset(b"a", 0, &[1, 1]).expect("");
    assert_eq!(b_before, db.lrange(b"b", 0, -1).expect(""));
    assert_eq!(vec![38, 82], node_counts(&db, b"b"));
    assert_eq!(vec![60], node_counts(&db, b"a"));
    assert_eq!(1, db.clear(b"a").expect(""));
    assert_eq!(b_before, db.lrange(b"b", 0, -1).expect(""));
    assert_eq!(Some(b"value".to_vec()), db.get_db().get(b"plain").expect(""));
    assert_eq!(2, db.clear(b"b").expect(""));
    assert_eq!(Some(b"value".to_vec()), db.get_db().get(b"plain").expect(""));
    assert!(!db.get_db().exist(b"a").expect(""));
    assert!(!db.get_db().exist(b"b").expect(""));
}

#[test]
fn insert_without_the_pivot_answers_so_whatever_the_value() {
    let mut db = filled(b"k", 120);
    let too_long = vec![7u8; 65536];
    let before = db.lrange(b"k", 0, -1).expect("");
    assert_eq!(-1, db.linsert_before(b"k", b"missing", &too_long).expect(""));
    assert_eq!(-1, db.linsert_after(b"k", b"missing", &too_long).expect(""));
    assert_eq!(before, db.lrange(b"k", 0, -1).expect(""));
    // with the pivot there, the value that no length mark can say is an error
    assert!(matches!(
        db.linsert_before(b"k", &[100], &too_long),
        Err(redis_rocksdb::error::RrError::Message(_))
    ));
    assert!(matches!(
        db.linsert_after(b"k", &[3], &too_long),
        Err(redis_rocksdb::error::RrError::Message(_))
    ));
    assert_eq!(before, db.lrange(b"k", 0, -1).expect(""));
    assert_eq!(vec![98, 22], node_counts(&db, b"k"));
}

#[test]
fn a_drained_node_leaves_the_store() {
    let mut db = filled(b"k", 100);
    assert_eq!(vec![98, 2], node_counts(&db, b"k"));
    let h = head(&db, b"k");
    let first = h.left().expect("");
    let last = h.right().expect("");
    let first_values = node(&db, first.as_ref()).values_key().expect("");
    let last_values = node(&db, last.as_ref()).values_key().expect("");
    assert_eq!(Some(vec![99u8]), db.rpop(b"k").expect(""));
    assert!(db.get_db().exist(last.as_ref()).expect(""));
    assert_eq!(Some(vec![98u8]), db.rpop(b"k").expect(""));
    assert!(!db.get_db().exist(last.as_ref()).expect(""));
    assert!(!db.get_db().exist(last_values.as_ref()).expect(""));
    assert!(db.get_db().exist(first.as_ref()).expect(""));
    assert!(db.get_db().exist(first_values.as_ref()).expect(""));
    for i in 0..98u8 {
        assert_eq!(Some(vec![i]), db.lpop(b"k").expect(""));
    }
    assert!(!db.get_db().exist(first.as_ref()).expect(""));
    assert!(!db.get_db().exist(first_values.as_ref()).expect(""));
    let h = head(&db, b"k");
    assert!(h.left().is_none());
    assert!(h.right().is_none());
    assert_eq!(0, h.len_node());
    assert_eq!(0, h.len_list());

    let mut db = filled(b"k", 100);
    assert_eq!(2, db.lrem(b"k", -5, &[98]).expect("") + db.lrem(b"k", 0, &[99]).expect(""));
    assert_eq!(vec![98], node_counts(&db, b"k"));
    assert!(!db.get_db().exist(last.as_ref()).expect(""));
    assert!(!db.get_db().exist(last_values.as_ref()).expect(""));
}

#[test]
fn a_head_that_counts_what_the_store_does_not_have_is_an_error() {
    let full = filled(b"k", 3);
    let node_key = head(&full, b"k").left().expect("");
    // the head alone: its end node is missing
    let mut store = MemDb::new();
    store.put(b"k", head(&full, b"k").as_ref()).expect("");
    let mut db = RedisRocksdb::new(store);
    assert!(db.lindex(b"k", 0).is_err());
    assert!(db.lindex(b"k", -1).is_err());
    assert!(db.lrange(b"k", 0, -1).is_err());
    assert!(db.lset(b"k", 0, b"a").is_err());
    assert!(db.lpop(b"k").is_err());
    assert!(db.rpop(b"k").is_err());
    assert!(db.lpush(b"k", b"a").is_err());
    assert!(db.rpush(b"k", b"a").is_err());
    assert!(db.linsert_before(b"k", b"a", b"b").is_err());
    assert!(db.lrem(b"k", 1, b"a").is_err());
    assert!(db.lrem(b"k", -1, b"a").is_err());
    assert!(db.clear(b"k").is_err());
    assert_eq!(3, db.llen(b"k").expect(""));
    // the head and the node: the packed list is missing
    let mut store = MemDb::new();
    store.put(b"k", head(&full, b"k").as_ref()).expect("");
    store.put(node_key.as_ref(), node(&full, node_key.as_ref()).as_ref()).expect("");
    let mut db = RedisRocksdb::new(store);
    assert!(db.lindex(b"k", 0).is_err());
    assert!(db.lrange(b"k", 0, -1).is_err());
    assert!(db.lset(b"k", 0, b"a").is_err());
    assert!(db.lpop(b"k").is_err());
    assert!(db.rpop(b"k").is_err());
    assert!(db.lpush(b"k", b"a").is_err());
    assert!(db.linsert_after(b"k", b"a", b"b").is_err());
    assert!(db.lrem(b"k", 0, b"a").is_err());
    // a head that counts a node and names none
    let mut h = head(&full, b"k");
    h.set_left(&None);
    h.set_right(&None);
    let mut store = MemDb::new();
    store.put(b"k", h.as_ref()).expect("");
    let mut db = RedisRocksdb::new(store);
    assert!(db.clear(b"k").is_err());
    assert!(db.lindex(b"k", 0).is_err());
    assert!(db.rpop(b"k").is_err());
}
