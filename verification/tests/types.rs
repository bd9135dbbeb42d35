use redis_rocksdb::types::{
    read_int, read_len_type, to_little_endian_array, write_int, write_len_type, MetaKey,
};

#[test]
fn len_type_round_trip() {
    let mut data = vec![0u8; 6];
    write_len_type(&mut data, 0x0403_0201);
    assert_eq!(vec![1u8, 2, 3, 4, 0, 0], data);
    assert_eq!(0x0403_0201, read_len_type(&data));
}

#[test]
fn integers_are_little_endian() {
    assert_eq!(vec![0x34u8, 0x12], to_little_endian_array(0x1234u16));
    assert_eq!(vec![4u8, 3, 2, 1], to_little_endian_array(0x0102_0304u32));
    assert_eq!(
        vec![8u8, 7, 6, 5, 4, 3, 2, 1],
        to_little_endian_array(0x0102_0304_0506_0708u64)
    );
    let mut data = vec![9u8; 10];
    write_int(&mut data, 256u64);
    assert_eq!(vec![0u8, 1, 0, 0, 0, 0, 0, 0, 9, 9], data);
    let back: u64 = read_int(&data);
    assert_eq!(256, back);
    let short: u16 = read_int(&[0xffu8, 0xff]);
    assert_eq!(65535, short);
}

#[test]
fn meta_key_parts() {
    let mut key = MetaKey::new();
    assert_eq!(0, key.key());
    assert_eq!(0, key.sep());
    key.set_key(0x0102_0304_0506_0708);
    key.set_sep(0x0a0b);
    assert_eq!(&[8u8, 7, 6, 5, 4, 3, 2, 1, 0x0b, 0x0a], key.as_ref());
    assert_eq!(0x0102_0304_0506_0708, key.key());
    assert_eq!(0x0a0b, key.sep());
    key.add_sep(2);
    assert_eq!(0x0a0d, key.sep());
    let next = key.new_add();
    assert_eq!(0x0a0e, next.sep());
    assert_eq!(key.key(), next.key());
    assert_eq!(0x0a0d, key.sep());
}

#[test]
fn meta_key_read_write() {
    let mut data = vec![7u8; 12];
    MetaKey::write(&mut data, &None);
    assert_eq!(vec![0u8, 0, 0, 0, 0, 0, 0, 0, 0, 0, 7, 7], data);
    assert!(MetaKey::read(&data).is_none());
    let mut key = MetaKey::new();
    key.set_key(1);
    key.set_sep(2);
    MetaKey::write(&mut data, &Some(&key));
    assert_eq!(vec![1u8, 0, 0, 0, 0, 0, 0, 0, 2, 0, 7, 7], data);
    let back = MetaKey::read(&data).expect("");
    assert_eq!(1, back.key());
    assert_eq!(2, back.sep());
}

#[test]
fn signed_integers_are_little_endian() {
    assert_eq!(vec![0xffu8, 0xff], to_little_endian_array(-1i16));
    assert_eq!(vec![0u8, 0x80], to_little_endian_array(i16::MIN));
    assert_eq!(vec![0xfeu8, 0xff, 0xff, 0xff], to_little_endian_array(-2i32));
    assert_eq!(vec![0xffu8, 0xff, 0xff, 0x7f], to_little_endian_array(i32::MAX));
    assert_eq!(
        vec![0u8, 1, 0, 0, 0, 0, 0, 0],
        to_little_endian_array(256i64)
    );
    assert_eq!(
        vec![0u8, 0, 0, 0, 0, 0, 0, 0x80],
        to_little_endian_array(i64::MIN)
    );
    let mut data = vec![0u8; 16];
    write_int(&mut data, -256i64);
    assert_eq!(vec![0u8, 0xff, 0xff, 0xff, 0xff, 0xff, 0xff, 0xff], data[..8].to_vec());
    let back: i64 = read_int(&data);
    assert_eq!(-256, back);
    let b: i64 = 256;
    write_int(&mut data, b);
    let b2: i64 = read_int(&data);
    assert_eq!(b, b2);
    let small: i16 = read_int(&[0xfeu8, 0xff]);
    assert_eq!(-2, small);
    let mid: i32 = read_int(&[0u8, 0, 0, 0x80]);
    assert_eq!(i32::MIN, mid);
}
