use redis_rocksdb::error::RrError;
use redis_rocksdb::quick_list::QuickList;
use redis_rocksdb::quick_list_node::QuickListNode;
use redis_rocksdb::types::MetaKey;
use redis_rocksdb::wrap_db::{MemDb, WrapDb};

fn key(hash: u64, sep: u16) -> MetaKey {
    let mut k = MetaKey::new();
    k.set_key(hash);
    k.set_sep(sep);
    k
}

#[test]
fn node_record_fields() {
    let mut node = QuickListNode::new();
    assert_eq!(&[0u8; 44][..], node.as_ref());
    assert_eq!(124, QuickListNode::MAX_LEN);
    assert_eq!(496, QuickListNode::MAX_BYTES);
    node.set_len_list(0x0102);
    node.set_len_bytes(0x0304_0506);
    node.set_left(&Some(&key(1, 2)));
    node.set_right(&Some(&key(3, 4)));
    node.set_values_key(&Some(&key(5, 6)));
    let mut expected = vec![2u8, 1, 0, 0, 6, 5, 4, 3];
    expected.extend_from_slice(&[1, 0, 0, 0, 0, 0, 0, 0, 2, 0]);
    expected.extend_from_slice(&[3, 0, 0, 0, 0, 0, 0, 0, 4, 0]);
    expected.extend_from_slice(&[5, 0, 0, 0, 0, 0, 0, 0, 6, 0]);
    expected.extend_from_slice(&[0; 6]);
    assert_eq!(expected.as_slice(), node.as_ref());
    assert_eq!(0x0102, node.len_list());
    assert_eq!(0x0304_0506, node.len_bytes());
    assert_eq!(key(1, 2).as_ref(), node.left().expect("").as_ref());
    assert_eq!(key(3, 4).as_ref(), node.right().expect("").as_ref());
    assert_eq!(key(5, 6).as_ref(), node.values_key().expect("").as_ref());
    node.set_right(&None);
    assert!(node.right().is_none());
    assert_eq!(key(1, 2).as_ref(), node.left().expect("").as_ref());
    assert_eq!(key(5, 6).as_ref(), node.values_key().expect("").as_ref());
    let copy = QuickListNode::from_bytes(node.as_ref()).expect("");
    assert_eq!(node.as_ref(), copy.as_ref());
    assert!(QuickListNode::from_bytes(&[0; 43]).is_none());
    assert!(QuickListNode::from_bytes(&[0; 45]).is_none());
}

#[test]
fn head_record_fields() {
    let mut head = QuickList::new();
    assert_eq!(&[0u8; 40][..], head.as_ref());
    assert!(head.meta_key().is_none());
    assert!(head.next_meta_key().is_none());
    head.set_len_node(7);
    head.set_len_list(0x0100);
    head.set_meta_key(&Some(&key(9, 0)));
    head.set_left(&Some(&key(9, 1)));
    head.set_right(&Some(&key(9, 3)));
    let mut expected = vec![7u8, 0, 0, 0, 0, 1, 0, 0];
    expected.extend_from_slice(&[9, 0, 0, 0, 0, 0, 0, 0, 0, 0]);
    expected.extend_from_slice(&[9, 0, 0, 0, 0, 0, 0, 0, 1, 0]);
    expected.extend_from_slice(&[9, 0, 0, 0, 0, 0, 0, 0, 3, 0]);
    expected.extend_from_slice(&[0; 2]);
    assert_eq!(expected.as_slice(), head.as_ref());
    assert_eq!(7, head.len_node());
    assert_eq!(0x0100, head.len_list());
    assert_eq!(key(9, 1).as_ref(), head.left().expect("").as_ref());
    assert_eq!(key(9, 3).as_ref(), head.right().expect("").as_ref());
    let next = head.next_meta_key().expect("");
    assert_eq!(key(9, 1).as_ref(), next.as_ref());
    assert_eq!(key(9, 1).as_ref(), head.meta_key().expect("").as_ref());
    let next = head.next_meta_key().expect("");
    assert_eq!(key(9, 2).as_ref(), next.as_ref());
    head.set_meta_key(&Some(&key(9, 65535)));
    assert!(head.next_meta_key().is_none());
    assert_eq!(65535, head.meta_key().expect("").sep());
    assert!(QuickList::from_bytes(&[0; 39]).is_none());
    assert_eq!(head.as_ref(), QuickList::from_bytes(head.as_ref()).expect("").as_ref());
}

#[test]
fn head_record_key_of_a_list() {
    let mut a = QuickList::new();
    let mut b = QuickList::new();
    let ka = a.init_meta_key(b"one list");
    let kb = b.init_meta_key(b"one list");
    assert_eq!(ka.as_ref(), kb.as_ref());
    assert_eq!(0, ka.sep());
    assert_eq!(ka.as_ref(), a.meta_key().expect("").as_ref());
    let mut c = QuickList::new();
    let kc = c.init_meta_key(b"another list");
    assert_ne!(ka.key(), kc.key());
    assert_eq!(1, a.next_meta_key().expect("").sep());
}

#[test]
fn records_from_the_store() {
    let mut db = MemDb::new();
    assert!(QuickList::get(&db, b"k").expect("").is_none());
    assert!(QuickListNode::get(&db, b"k").expect("").is_none());
    db.put(b"k", &[0; 40]).expect("");
    assert!(QuickList::get(&db, b"k").expect("").is_some());
    assert!(matches!(QuickListNode::get(&db, b"k"), Err(RrError::Message(_))));
    assert!(matches!(QuickList::get_node(&db, b"k"), Err(RrError::Message(_))));
    db.put(b"k", &[0; 44]).expect("");
    assert!(QuickListNode::get(&db, b"k").expect("").is_some());
    assert!(matches!(QuickList::get(&db, b"k"), Err(RrError::Message(_))));
}

#[test]
fn store_in_memory() {
    let mut db = MemDb::new();
    assert_eq!(None, db.get(b"a").expect(""));
    assert!(!db.exist(b"a").expect(""));
    db.put(b"a", b"1").expect("");
    db.put(b"b", b"2").expect("");
    db.put(b"", b"3").expect("");
    assert_eq!(Some(b"1".to_vec()), db.get(b"a").expect(""));
    assert_eq!(Some(b"2".to_vec()), db.get(b"b").expect(""));
    assert_eq!(Some(b"3".to_vec()), db.get(b"").expect(""));
    db.put(b"a", b"4").expect("");
    assert_eq!(Some(b"4".to_vec()), db.get(b"a").expect(""));
    assert_eq!(Some(b"2".to_vec()), db.get(b"b").expect(""));
    db.delete(b"a").expect("");
    db.delete(b"missing").expect("");
    assert_eq!(None, db.get(b"a").expect(""));
    assert!(db.exist(b"b").expect(""));
    assert_eq!(Some(b"3".to_vec()), db.get(b"").expect(""));
}

#[test]
fn error_texts() {
    assert_eq!("RrError: gone", RrError::not_find("gone").to_string());
    assert_eq!("RrError: none", RrError::none_error("none").to_string());
    assert_eq!("RrError: data", RrError::data_error("data").to_string());
    assert_eq!("RrError: text", RrError::message("text".to_owned()).to_string());
    assert_eq!("the store", RrError::Other("the store".to_owned()).to_string());
}
