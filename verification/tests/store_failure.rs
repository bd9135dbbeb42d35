use redis_rocksdb::error::RrError;
use redis_rocksdb::list::RedisList;
use redis_rocksdb::redis_rocksdb::RedisRocksdb;
use redis_rocksdb::wrap_db::{MemDb, Store, WrapDb};

/// A store that fails at the call with the given number, counted from 0,
/// and at every call after it.
struct Failing {
    inner: MemDb,
    calls: std::cell::Cell<usize>,
    fails_at: usize,
}

impl Failing {
    fn new(fails_at: usize) -> Self {
        Failing { inner: MemDb::new(), calls: std::cell::Cell::new(0), fails_at }
    }

    fn call(&self) -> Result<(), RrError> {
        let n = self.calls.get();
        self.calls.set(n + 1);
        if n >= self.fails_at {
            Err(RrError::Other(format!("the disk failed at call {}", n)))
        } else {
            Ok(())
        }
    }
}

impl WrapDb for Failing {
    fn view(&self) -> Store {
        unreachable!()
    }

    fn wf(&self) -> bool {
        unreachable!()
    }

    fn reliable(&self) -> bool {
        unreachable!()
    }

    fn get(&self, key: &[u8]) -> Result<Option<Vec<u8>>, RrError> {
        self.call()?;
        self.inner.get(key)
    }

    fn put(&mut self, key: &[u8], value: &[u8]) -> Result<(), RrError> {
        self.call()?;
        self.inner.put(key, value)
    }

    fn delete(&mut self, key: &[u8]) -> Result<(), RrError> {
        self.call()?;
        self.inner.delete(key)
    }

    fn exist(&self, key: &[u8]) -> Result<bool, RrError> {
        self.call()?;
        self.inner.exist(key)
    }
}

fn text(e: RrError) -> String {
    assert!(matches!(e, RrError::Other(_)));
    e.to_string()
}

#[test]
fn a_failure_of_the_store_is_handed_on_as_it_is() {
    // the first push reads the head record and writes three records
    for fails_at in 0..4 {
        let mut db = RedisRocksdb::new(Failing::new(fails_at));
        let e = db.rpush(b"k", b"v").expect_err("");
        assert_eq!(format!("the disk failed at call {}", fails_at), text(e));
    }
    let mut db = RedisRocksdb::new(Failing::new(4));
    assert_eq!(1, db.rpush(b"k", b"v").expect(""));
    assert_eq!("the disk failed at call 4", text(db.llen(b"k").expect_err("")));
    assert_eq!("the disk failed at call 5", text(db.lindex(b"k", 0).expect_err("")));
    assert_eq!("the disk failed at call 6", text(db.lpop(b"k").expect_err("")));
    assert_eq!("the disk failed at call 7", text(db.lrange(b"k", 0, 1).expect_err("")));
    assert_eq!("the disk failed at call 8", text(db.lrem(b"k", 0, b"v").expect_err("")));
    assert_eq!("the disk failed at call 9", text(db.lset(b"k", 0, b"v").expect_err("")));
    assert_eq!("the disk failed at call 10", text(db.clear(b"k").expect_err("")));
    assert_eq!(
        "the disk failed at call 11",
        text(db.linsert_after(b"k", b"v", b"w").expect_err(""))
    );
}

#[test]
fn reads_ask_the_store_for_no_more_than_they_need() {
    let mut db = RedisRocksdb::new(Failing::new(usize::MAX));
    for i in 0..250u8 {
        db.rpush(b"k", &[i]).expect("");
    }
    let before = db.get_db().calls.get();
    assert_eq!(250, db.llen(b"k").expect(""));
    assert_eq!(1, db.get_db().calls.get() - before);
    // the head record, the first node and its packed list
    let before = db.get_db().calls.get();
    assert_eq!(vec![0u8], db.lindex(b"k", 0).expect(""));
    assert_eq!(3, db.get_db().calls.get() - before);
    // the head record, three nodes and the packed list of the last
    let before = db.get_db().calls.get();
    assert_eq!(vec![249u8], db.lindex(b"k", -1).expect(""));
    assert_eq!(5, db.get_db().calls.get() - before);
    // the head record, two nodes and their packed lists
    let before = db.get_db().calls.get();
    assert_eq!(vec![vec![97u8], vec![98]], db.lrange(b"k", 97, 98).expect(""));
    assert_eq!(5, db.get_db().calls.get() - before);
    // a push at an end reads the head record, the node at that end and its
    // packed list, and writes the three
    let before = db.get_db().calls.get();
    assert_eq!(251, db.lpush(b"k", &[7]).expect(""));
    assert_eq!(6, db.get_db().calls.get() - before);
}
