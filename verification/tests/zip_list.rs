use redis_rocksdb::zip_list::ZipList;

#[test]
fn test_zip_list_push_left() {
    let mut zip = ZipList::new();
    zip.push_left(&[1]);
    assert_eq!(&[1, 0, 0, 0, 1, 0, 1, 1, 0], zip.as_ref());
    zip.push_left(&[2, 3]);
    assert_eq!(&[2, 0, 0, 0, 2, 0, 2, 3, 2, 0, 1, 0, 1, 1, 0], zip.as_ref());
    zip.push_left(&[4, 5, 6]);
    assert_eq!(&[3, 0, 0, 0, 3, 0, 4, 5, 6, 3, 0, 2, 0, 2, 3, 2, 0, 1, 0, 1, 1, 0], zip.as_ref());
}

#[test]
fn test_zip_list_push_right() {
    let mut zip = ZipList::new();
    zip.push_right(&[1]);

    assert_eq!(&[1, 0, 0, 0, 1, 0, 1, 1, 0], zip.as_ref());
    zip.push_right(&[2, 3]);
    assert_eq!(&[2, 0, 0, 0, 1, 0, 1, 1, 0, 2, 0, 2, 3, 2, 0], zip.as_ref());
    zip.push_right(&[4, 5, 6]);
    assert_eq!(&[3, 0, 0, 0, 1, 0, 1, 1, 0, 2, 0, 2, 3, 2, 0, 3, 0, 4, 5, 6, 3, 0], zip.as_ref());
}

#[test]
fn test_zip_list_pop_left() {
    let mut zip = ZipList::new();
    zip.push_left(&[1]);

    let v = zip.pop_left();
    assert_eq!(&[1], v.expect("").as_slice());
    assert_eq!(0, zip.len());
    assert_eq!(&[0, 0, 0, 0], zip.as_ref());

    zip.push_left(&[1]);
    zip.push_right(&[2, 3]);
    let v = zip.pop_left();
    assert_eq!(&[1], v.expect("").as_slice());
    assert_eq!(1, zip.len());
    assert_eq!(&[1, 0, 0, 0, 2, 0, 2, 3, 2, 0], zip.as_ref());
}

#[test]
fn test_zip_list_pop_right() {
    let mut zip = ZipList::new();
    zip.push_right(&[1]);

    let v = zip.pop_right();
    assert_eq!(&[1], v.expect("").as_slice());
    assert_eq!(0, zip.len());
    assert_eq!(&[0, 0, 0, 0], zip.as_ref());

    zip.push_right(&[1]);
    zip.push_right(&[2, 3]);
    let v = zip.pop_right();
    assert_eq!(&[2, 3], v.expect("").as_slice());
    assert_eq!(1, zip.len());
    assert_eq!(&[1, 0, 0, 0, 1, 0, 1, 1, 0], zip.as_ref());
}

#[test]
fn test_zip_list_set_index() {
    let mut zip = ZipList::new();
    {// one
        zip.push_right(&[1]);

        let node = zip.index(1);
        assert_eq!(node, None);

        let node = zip.index(0);
        assert_eq!(node.expect(""), &[1]);

        let node = zip.set(1, &[2, 3]);
        assert_eq!(node, None);

        let node = zip.set(0, &[2, 3]);
        assert_eq!(node.expect("").as_slice(), &[1]);

        let node = zip.index(0);
        assert_eq!(node.expect(""), &[2, 3]);

        let node = zip.set(0, &[1]);
        assert_eq!(node.expect("").as_slice(), &[2, 3]);
        let node = zip.index(0);
        assert_eq!(node.expect(""), &[1]);
    }

    { //two
        zip.push_right(&[2, 3]);

        let node = zip.set(0, &[10]);
        assert_eq!(node.expect("").as_slice(), &[1]);
        assert_eq!(&[2, 0, 0, 0, 1, 0, 10, 1, 0, 2, 0, 2, 3, 2, 0], zip.as_ref());
        let node = zip.set(0, &[1, 4, 5]);
        assert_eq!(node.expect("").as_slice(), &[10]);
        assert_eq!(&[2, 0, 0, 0, 3, 0, 1, 4, 5, 3, 0, 2, 0, 2, 3, 2, 0], zip.as_ref());
        let node = zip.set(0, &[1]);
        assert_eq!(node.expect("").as_slice(), &[1, 4, 5]);

        let node = zip.set(1, &[1]);
        assert_eq!(node.expect("").as_slice(), &[2, 3]);
        assert_eq!(&[2, 0, 0, 0, 1, 0, 1, 1, 0, 1, 0, 1, 1, 0], zip.as_ref());

        let node = zip.set(1, &[2, 3]);
        assert_eq!(node.expect("").as_slice(), &[1]);
        assert_eq!(&[2, 0, 0, 0, 1, 0, 1, 1, 0, 2, 0, 2, 3, 2, 0], zip.as_ref());
    }
    // {
    //     //three
    // }
}

#[test]
fn test_zip_list_insert_left() {
    let mut zip = ZipList::new();
    zip.insert_left(0, &[1]);
    assert_eq!(&[1, 0, 0, 0, 1, 0, 1, 1, 0], zip.as_ref());
    zip.insert_left(0, &[2, 3]);
    assert_eq!(&[2, 0, 0, 0, 2, 0, 2, 3, 2, 0, 1, 0, 1, 1, 0], zip.as_ref());
    zip.insert_left(0, &[4, 5, 6]);
    assert_eq!(&[3, 0, 0, 0, 3, 0, 4, 5, 6, 3, 0, 2, 0, 2, 3, 2, 0, 1, 0, 1, 1, 0], zip.as_ref());

    zip.clear();
    assert_eq!(&[0, 0, 0, 0], zip.as_ref());
    zip.insert_left(0, &[1]);
    assert_eq!(&[1, 0, 0, 0, 1, 0, 1, 1, 0], zip.as_ref());

    zip.insert_left(zip.len() as i32, &[2, 3]);
    assert_eq!(&[2, 0, 0, 0, 1, 0, 1, 1, 0, 2, 0, 2, 3, 2, 0], zip.as_ref());
    zip.insert_left(1, &[4, 5, 6]);
    assert_eq!(&[3, 0, 0, 0, 1, 0, 1, 1, 0, 3, 0, 4, 5, 6, 3, 0, 2, 0, 2, 3, 2, 0], zip.as_ref());
}

#[test]
fn test_zip_list_insert_right() {
    let mut zip = ZipList::new();
    zip.insert_right(0, &[1]);

    assert_eq!(&[1, 0, 0, 0, 1, 0, 1, 1, 0], zip.as_ref());
    zip.insert_right(0, &[2, 3]);
    assert_eq!(&[2, 0, 0, 0, 1, 0, 1, 1, 0, 2, 0, 2, 3, 2, 0], zip.as_ref());
    zip.insert_right(1, &[4, 5, 6]);
    assert_eq!(&[3, 0, 0, 0, 1, 0, 1, 1, 0, 2, 0, 2, 3, 2, 0, 3, 0, 4, 5, 6, 3, 0], zip.as_ref());

    zip.pop_right();
    zip.insert_right(0, &[4, 5, 6]);
    assert_eq!(&[3, 0, 0, 0, 1, 0, 1, 1, 0, 3, 0, 4, 5, 6, 3, 0, 2, 0, 2, 3, 2, 0], zip.as_ref());
}

#[test]
fn test_zip_list_insert_value_left() {
    let mut zip = ZipList::new();

    let mut re = zip.insert_value_left(&[1], &[1]);
    assert_eq!(None, re);

    zip.insert_left(0, &[1]);
    re = zip.insert_value_left(&[1], &[2, 3]);
    assert_eq!(Some(0), re);
    assert_eq!(&[2, 0, 0, 0, 2, 0, 2, 3, 2, 0, 1, 0, 1, 1, 0], zip.as_ref());
    re = zip.insert_value_left(&[1], &[4, 5, 6]);
    assert_eq!(Some(1), re);
    assert_eq!(&[3, 0, 0, 0, 2, 0, 2, 3, 2, 0, 3, 0, 4, 5, 6, 3, 0, 1, 0, 1, 1, 0], zip.as_ref());

    zip.clear();
    zip.insert_left(0, &[1]);

    re = zip.insert_value_left(&[1, 0], &[2, 3]);
    assert_eq!(None, re);
    re = zip.insert_value_left(&[1], &[2, 3]);
    assert_eq!(Some(0), re);
    re = zip.insert_value_left(&[2, 3], &[4, 5, 6]);
    assert_eq!(Some(0), re);
    assert_eq!(&[3, 0, 0, 0, 3, 0, 4, 5, 6, 3, 0, 2, 0, 2, 3, 2, 0, 1, 0, 1, 1, 0], zip.as_ref());
    re = zip.insert_value_left(&[2, 3], &[7]);
    assert_eq!(Some(1), re);
    assert_eq!(&[4, 0, 0, 0, 3, 0, 4, 5, 6, 3, 0, 1, 0, 7, 1, 0, 2, 0, 2, 3, 2, 0, 1, 0, 1, 1, 0], zip.as_ref());
}

#[test]
fn test_zip_list_insert_value_right() {
    let mut zip = ZipList::new();
    let mut re = zip.insert_value_right(&[1], &[1]);
    assert_eq!(None, re);
    zip.insert_right(0, &[1]);

    re = zip.insert_value_right(&[1], &[2, 3]);
    assert_eq!(Some(1), re);
    assert_eq!(&[2, 0, 0, 0, 1, 0, 1, 1, 0, 2, 0, 2, 3, 2, 0], zip.as_ref());

    re = zip.insert_value_right(&[1], &[4, 5, 6]);
    assert_eq!(Some(1), re);
    assert_eq!(&[3, 0, 0, 0, 1, 0, 1, 1, 0, 3, 0, 4, 5, 6, 3, 0, 2, 0, 2, 3, 2, 0], zip.as_ref());

    re = zip.insert_value_right(&[4, 5, 6], &[7]);
    assert_eq!(Some(2), re);
    assert_eq!(&[4, 0, 0, 0, 1, 0, 1, 1, 0, 3, 0, 4, 5, 6, 3, 0, 1, 0, 7, 1, 0, 2, 0, 2, 3, 2, 0], zip.as_ref());
}

#[test]
fn test_zip_list_rem() {
    let mut zip = ZipList::new();

    let mut re = zip.rem(1, &[1]);
    assert_eq!(0, re);
    re = zip.rem(0, &[1]);
    assert_eq!(0, re);
    re = zip.rem(-1, &[1]);
    assert_eq!(0, re);

    {
        zip.push_left(&[1]);
        re = zip.rem(0, &[1]);
        assert_eq!(1, re);
        assert_eq!(&[0, 0, 0, 0], zip.as_ref());

        zip.push_left(&[1]);
        re = zip.rem(1, &[1]);
        assert_eq!(1, re);

        zip.push_left(&[1]);
        re = zip.rem(-1, &[1]);
        assert_eq!(1, re);
    }

    {
        zip.clear();
        zip.push_left(&[1]);
        zip.push_left(&[1]);
        re = zip.rem(0, &[1]);
        assert_eq!(2, re);
        assert_eq!(&[0, 0, 0, 0], zip.as_ref());

        zip.push_left(&[1]);
        zip.push_left(&[1]);
        re = zip.rem(2, &[1]);
        assert_eq!(2, re);
        assert_eq!(&[0, 0, 0, 0], zip.as_ref());

        zip.push_left(&[1]);
        zip.push_left(&[1]);
        re = zip.rem(-2, &[1]);
        assert_eq!(2, re);
        assert_eq!(&[0, 0, 0, 0], zip.as_ref());
    }
    {
        zip.clear();
        zip.push_left(&[1]);
        zip.push_left(&[1]);
        re = zip.rem(1, &[1]);
        assert_eq!(1, re);
        assert_eq!(&[1, 0, 0, 0, 1, 0, 1, 1, 0], zip.as_ref());

        zip.push_left(&[1]);
        re = zip.rem(-1, &[1]);
        assert_eq!(1, re);
        assert_eq!(&[1, 0, 0, 0, 1, 0, 1, 1, 0], zip.as_ref());
    }
}

#[test]
fn test_zip_list_range() {
    let mut zip = ZipList::new();
    let mut rs = zip.range(0, 0);
    assert_eq!(Vec::<Vec<u8>>::new(), rs);
    rs = zip.range(0, 10);
    assert_eq!(Vec::<Vec<u8>>::new(), rs);
    rs = zip.range(0, 1);
    assert_eq!(Vec::<Vec<u8>>::new(), rs);

    zip.push_right(&[1]);
    rs = zip.range(0, 0);
    assert_eq!(vec![vec![1u8]], rs);
    rs = zip.range(0, 1);
    assert_eq!(vec![vec![1u8]], rs);
    rs = zip.range(0, 10);
    assert_eq!(vec![vec![1u8]], rs);

    zip.push_right(&[2, 3]);
    rs = zip.range(0, 0);
    assert_eq!(vec![vec![1u8]], rs);
    rs = zip.range(0, 1);
    assert_eq!(vec![vec![1u8], vec![2, 3]], rs);
    rs = zip.range(0, 10);
    assert_eq!(vec![vec![1u8], vec![2, 3]], rs);

    rs = zip.range(1, 1);
    assert_eq!(vec![vec![2, 3]], rs);
    rs = zip.range(1, 2);
    assert_eq!(vec![vec![2, 3]], rs);
    rs = zip.range(1, 10);
    assert_eq!(vec![vec![2, 3]], rs);

    zip.push_right(&[4, 5, 6]);
    rs = zip.range(0, 0);
    assert_eq!(vec![vec![1u8]], rs);
    rs = zip.range(0, 1);
    assert_eq!(vec![vec![1u8], vec![2, 3]], rs);
    rs = zip.range(0, 3);
    assert_eq!(vec![vec![1u8], vec![2, 3], vec![4, 5, 6]], rs);

    rs = zip.range(1, 1);
    assert_eq!(vec![vec![2, 3]], rs);
    rs = zip.range(1, 2);
    assert_eq!(vec![vec![2, 3], vec![4, 5, 6]], rs);
    rs = zip.range(1, 3);
    assert_eq!(vec![vec![2, 3], vec![4, 5, 6]], rs);

    rs = zip.range(2, 2);
    assert_eq!(vec![vec![4, 5, 6]], rs);
    rs = zip.range(2, 3);
    assert_eq!(vec![vec![4, 5, 6]], rs);
}

