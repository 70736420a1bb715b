use burrows_wheeler::mtf::{apply, reverse};
use burrows_wheeler::mtftree::MoveToFrontTree;

#[test]
fn move_to_front_test() {
    let string = "aaaabbbbeeeeeddddda";
    assert_eq!(
        apply(string.as_bytes()),
        vec![97, 0, 0, 0, 98, 0, 0, 0, 101, 0, 0, 0, 0, 101, 0, 0, 0, 0, 3]
    )
}

#[test]
fn reverse_move_to_front_test() {
    let string = "aaaabbbbeeeeeddddda".as_bytes();
    assert_eq!(reverse(&apply(string)), string)
}

#[test]
fn move_to_front_of_nothing() {
    assert_eq!(apply(&[]), Vec::<u8>::new());
    assert_eq!(reverse(&[]), Vec::<u8>::new());
}

#[test]
fn move_to_front_round_trip_over_all_bytes() {
    let mut input: Vec<u8> = (0..=255u8).collect();
    input.extend((0..=255u8).rev());
    input.extend([255, 255, 0, 0, 128]);
    let ranks = apply(&input);
    assert_eq!(ranks[0], 0);
    assert_eq!(ranks[255], 255);
    assert_eq!(ranks[256], 0);
    assert_eq!(reverse(&ranks), input);
}

#[test]
fn reverse_starts_from_the_ascending_alphabet() {
    assert_eq!(reverse(&[3, 0, 3, 255]), vec![3, 3, 2, 255]);
}

#[test]
fn count_index_test() {
    let mtft = MoveToFrontTree::new();
    for i in 0..255 {
        assert_eq!(i, mtft.count_index(i))
    }
}

#[test]
fn insert_front_test() {
    let mut mtft = MoveToFrontTree::new();
    assert_eq!(100, mtft.move_to_front(100));
    assert_eq!(0, mtft.move_to_front(100));
    assert_eq!(0, mtft.move_to_front(100));
    assert_eq!(101, mtft.move_to_front(101));
    assert_eq!(0, mtft.move_to_front(101));
    assert_eq!(1, mtft.move_to_front(100));
    assert_eq!(0, mtft.move_to_front(100));
}

#[test]
fn insert_front_test_1() {
    let mut mtft = MoveToFrontTree::new();
    assert_eq!(1, mtft.move_to_front(1));
    assert_eq!(0, mtft.move_to_front(1));
    assert_eq!(0, mtft.move_to_front(1));
    assert_eq!(2, mtft.move_to_front(2));
    assert_eq!(0, mtft.move_to_front(2));
    assert_eq!(1, mtft.move_to_front(1));
    assert_eq!(0, mtft.move_to_front(1));
}

#[test]
fn tree_gives_the_ranks_of_move_to_front() {
    let input = "aaaabbbbeeeeeddddda".as_bytes();
    let mut tree = MoveToFrontTree::new();
    let ranks: Vec<u8> = input.iter().map(|byte| tree.move_to_front(*byte)).collect();
    assert_eq!(ranks, apply(input));
    assert_eq!(tree.count_index(255), 255);
}
