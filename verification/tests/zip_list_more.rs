use redis_rocksdb::zip_list::{ZipList, ZipListIter, ZipListNode};

fn list(values: &[&[u8]]) -> ZipList {
    let mut zip = ZipList::new();
    for v in values {
        zip.push_right(v);
    }
    zip
}

#[test]
fn places_from_either_end() {
    assert_eq!(0, ZipList::count_index(3, 0));
    assert_eq!(2, ZipList::count_index(3, 2));
    assert_eq!(2, ZipList::count_index(3, 3));
    assert_eq!(2, ZipList::count_index(3, 100));
    assert_eq!(2, ZipList::count_index(3, -1));
    assert_eq!(0, ZipList::count_index(3, -3));
    assert_eq!(0, ZipList::count_index(3, -4));
    assert_eq!(-1, ZipList::count_index(0, 0));
    assert_eq!(0, ZipList::count_index(0, -1));
    assert_eq!(0, ZipList::count_index(i32::MAX, i32::MIN));
}

#[test]
fn part_of_a_range_in_a_node() {
    assert_eq!(Some((0, 9)), ZipList::count_in_index(10, 0, 0, 9));
    assert_eq!(Some((2, 5)), ZipList::count_in_index(10, 0, 2, 5));
    assert_eq!(Some((2, 9)), ZipList::count_in_index(10, 0, 2, 50));
    assert_eq!(Some((0, 0)), ZipList::count_in_index(10, 10, 5, 10));
    assert_eq!(Some((0, 9)), ZipList::count_in_index(10, 10, 5, 30));
    assert_eq!(Some((3, 3)), ZipList::count_in_index(10, 10, 13, 13));
    assert_eq!(None, ZipList::count_in_index(10, 10, 0, 9));
    assert_eq!(None, ZipList::count_in_index(10, 10, 20, 30));
    assert_eq!(None, ZipList::count_in_index(10, 0, 5, 4));
    assert_eq!(None, ZipList::count_in_index(0, 0, 0, 4));
}

#[test]
fn buffers_from_the_store() {
    let zip = list(&[&[1], &[2, 3]]);
    let copy = ZipList::from(zip.as_ref().to_vec()).expect("");
    assert_eq!(zip.as_ref(), copy.as_ref());
    assert_eq!(2, copy.len());
    assert_eq!(Some(&[2u8, 3][..]), copy.index(1));
    assert_eq!(0, ZipList::from(vec![]).expect("").len());
    assert_eq!(&[0u8, 0, 0, 0], ZipList::from(vec![1, 2]).expect("").as_ref());
    assert_eq!(0, ZipList::from(vec![0, 0, 0, 0]).expect("").len());
    // the count does not agree
    assert!(ZipList::from(vec![2, 0, 0, 0, 1, 0, 1, 1, 0]).is_none());
    assert!(ZipList::from(vec![0, 0, 0, 0, 1, 0, 1, 1, 0]).is_none());
    // the marks do not agree
    assert!(ZipList::from(vec![1, 0, 0, 0, 1, 0, 1, 2, 0]).is_none());
    // the buffer ends too early
    assert!(ZipList::from(vec![1, 0, 0, 0, 1, 0, 1, 1]).is_none());
    assert!(ZipList::from(vec![1, 0, 0, 0, 5, 0, 1, 1, 0]).is_none());
    assert!(ZipList::from(vec![1, 0, 0, 0, 1, 0]).is_none());
}

#[test]
fn inserts_at_the_edges() {
    let mut zip = list(&[&[1], &[2]]);
    assert!(!zip.insert_left(-1, &[9]));
    assert!(!zip.insert_left(3, &[9]));
    assert!(!zip.insert_right(2, &[9]));
    assert!(!zip.insert_right(-2, &[9]));
    assert_eq!(list(&[&[1], &[2]]).as_ref(), zip.as_ref());
    assert!(zip.insert_right(-1, &[0]));
    assert!(zip.insert_left(3, &[3]));
    assert!(zip.insert_right(3, &[4]));
    assert_eq!(list(&[&[0], &[1], &[2], &[3], &[4]]).as_ref(), zip.as_ref());
    assert_eq!(vec![vec![1u8], vec![2]], zip.range(1, 2));
    assert_eq!(vec![vec![0u8], vec![1]], zip.range(-5, 1));
    assert_eq!(Vec::<Vec<u8>>::new(), zip.range(3, 2));
    assert_eq!(Vec::<Vec<u8>>::new(), zip.range(5, 9));
    assert_eq!(None, zip.index(-1));
    assert_eq!(None, zip.index(5));
    assert_eq!(None, zip.set(-1, &[7]));
    assert_eq!(None, zip.set(5, &[7]));
    let mut empty = ZipList::new();
    assert!(empty.insert_right(77, &[1]));
    assert_eq!(list(&[&[1]]).as_ref(), empty.as_ref());
    assert_eq!(None, ZipList::new().pop_left());
    assert_eq!(None, ZipList::new().pop_right());
    assert_eq!(None, ZipList::new().set(0, &[1]));
    assert_eq!(None, ZipList::new().index(0));
}

#[test]
fn removal_by_count() {
    let a: &[u8] = &[1];
    let b: &[u8] = &[2, 2];
    let mut zip = list(&[a, b, a, a, b, a]);
    assert_eq!(2, zip.rem(2, a));
    assert_eq!(list(&[b, a, b, a]).as_ref(), zip.as_ref());
    let mut zip = list(&[a, b, a, a, b, a]);
    assert_eq!(2, zip.rem(-2, a));
    assert_eq!(list(&[a, b, a, b]).as_ref(), zip.as_ref());
    let mut zip = list(&[a, b, a, a, b, a]);
    assert_eq!(4, zip.rem(0, a));
    assert_eq!(list(&[b, b]).as_ref(), zip.as_ref());
    let mut zip = list(&[a, b, a, a, b, a]);
    assert_eq!(4, zip.rem(10, a));
    assert_eq!(list(&[b, b]).as_ref(), zip.as_ref());
    let mut zip = list(&[a, b, a, a, b, a]);
    assert_eq!(4, zip.rem(i32::MIN, a));
    assert_eq!(list(&[b, b]).as_ref(), zip.as_ref());
    let mut zip = list(&[a, b, a, a, b, a]);
    assert_eq!(1, zip.rem(-1, b));
    assert_eq!(list(&[a, b, a, a, a]).as_ref(), zip.as_ref());
    assert_eq!(0, zip.rem(0, &[3]));
    assert_eq!(5, zip.len());
}

#[test]
fn cursor_walks_both_ways() {
    let zip = list(&[&[1], &[2, 3], &[]]);
    let mut it = ZipListIter::new(&zip);
    assert_eq!(4, it.offset());
    assert_eq!(None, it.prev_offset());
    assert_eq!(Some(9), it.next_offset());
    assert!(it.prev().is_none());
    let first = it.next().expect("");
    assert_eq!(&[1u8], first.value());
    assert_eq!(&[1u8, 0, 1, 1, 0], first.as_ref());
    assert_eq!(5, first.bytes_of_node());
    assert_eq!(1, first.bytes_of_value());
    assert_eq!(0, first.offset());
    assert_eq!(9, it.offset());
    assert_eq!(Some(4), it.prev_offset());
    assert_eq!(Some(15), it.next_offset());
    assert_eq!(&[2u8, 3], it.next().expect("").value());
    assert_eq!(&[0u8; 0], it.next().expect("").value());
    assert!(it.next().is_none());
    assert_eq!(19, it.offset());
    assert_eq!(None, it.next_offset());
    assert_eq!(Some(15), it.prev_offset());
    assert_eq!(&[0u8; 0], it.next_back().expect("").value());
    assert_eq!(&[2u8, 3], it.prev().expect("").value());
    assert_eq!(9, it.offset());
    assert_eq!(&[1u8], it.next_back().expect("").value());
    assert!(it.next_back().is_none());
    assert_eq!(4, it.offset());
}

#[test]
fn nodes_in_a_buffer() {
    let bytes = [2u8, 0, 7, 8, 2, 0, 1, 0, 9, 1, 0];
    let first = ZipListNode::from_start(&bytes).expect("");
    assert_eq!(&[7u8, 8], first.value());
    assert_eq!(6, first.bytes_of_node());
    let last = ZipListNode::from_end(&bytes).expect("");
    assert_eq!(&[9u8], last.value());
    assert_eq!(6, last.offset());
    assert_eq!(&[9u8], ZipListNode::read_value(&bytes, 6));
    assert_eq!(2, ZipListNode::read_bytes_of_value(&bytes));
    assert_eq!(6, ZipListNode::count_bytes(&[7, 8]));
    assert!(ZipListNode::from_start(&[5, 0, 1]).is_none());
    assert!(ZipListNode::from_start(&[5]).is_none());
    assert!(ZipListNode::from_end(&[1, 5, 0]).is_none());
    assert!(ZipListNode::from_end(&[]).is_none());
    let mut out = vec![1u8];
    ZipListNode::write_value(&[7, 8], &mut out);
    assert_eq!(vec![1u8, 2, 0, 7, 8, 2, 0], out);
}

#[test]
fn a_value_put_beside_a_pivot_is_found_at_the_place_that_is_returned() {
    let mut zip = list(&[&[1], &[2], &[1]]);
    assert_eq!(Some(0), zip.find(&[1]));
    assert_eq!(Some(1), zip.find(&[2]));
    assert_eq!(None, zip.find(&[3]));
    let place = zip.insert_value_right(&[1], &[9]).expect("");
    assert_eq!(1, place);
    assert_eq!(Some(&[9u8][..]), zip.index(place));
    let place = zip.insert_value_left(&[2], &[8]).expect("");
    assert_eq!(2, place);
    assert_eq!(Some(&[8u8][..]), zip.index(place));
    let place = zip.insert_value_right(&[2], &[7]).expect("");
    assert_eq!(4, place);
    assert_eq!(Some(&[7u8][..]), zip.index(place));
    assert_eq!(list(&[&[1], &[9], &[8], &[2], &[7], &[1]]).as_ref(), zip.as_ref());
    assert_eq!(None, zip.insert_value_right(&[3], &[0]));
    assert_eq!(None, zip.insert_value_left(&[3], &[0]));
    assert_eq!(6, zip.len());
}
