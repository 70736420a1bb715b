use burrows_wheeler::bwt::{apply, reverse, shift_vector};
use burrows_wheeler::result::ErrorKind;
use burrows_wheeler::suffix::sort_cyclic_shifts;

#[test]
fn apply_test() {
    let string = "DRDOBBS";
    assert_eq!(apply(string.as_bytes()), ("OBRSDDB".bytes().collect(), 3))
}

#[test]
fn reverse_test() {
    let string = "DRDOBBS".as_bytes();
    let (buffer, initial) = apply(string);
    assert_eq!(reverse(&buffer, initial).unwrap(), string)
}

#[test]
fn sorted_rotations_of_banana() {
    // rotations: a$ban.. style check on a block without end marker
    let order = sort_cyclic_shifts("banana".as_bytes());
    // abanan(5) anaban(3) ananab(1) banana(0) nabana(4) nanaba(2)
    assert_eq!(order, vec![5, 3, 1, 0, 4, 2]);
}

#[test]
fn sorted_rotations_of_empty_and_single() {
    assert_eq!(sort_cyclic_shifts(&[]), Vec::<usize>::new());
    assert_eq!(sort_cyclic_shifts(&[7]), vec![0]);
}

#[test]
fn equal_rotations_stand_by_falling_tie_rank() {
    // "abab": the full reach is 4, so the tie rank of x is (x + 3) % 4:
    // 3 for 0 and 1 for 2, 2 for 3 and 0 for 1
    let order = sort_cyclic_shifts("abab".as_bytes());
    assert_eq!(order, vec![0, 2, 3, 1]);
    let (last, primary) = apply("abab".as_bytes());
    assert_eq!(last, "bbaa".bytes().collect::<Vec<u8>>());
    assert_eq!(primary, 0);
    assert_eq!(reverse(&last, primary).unwrap(), "abab".as_bytes());
}

#[test]
fn identical_bytes_round_trip() {
    let block = vec![9u8; 5];
    let (last, primary) = apply(&block);
    assert_eq!(last, block);
    assert_eq!(reverse(&last, primary).unwrap(), block);
}

#[test]
fn all_byte_values_round_trip() {
    let block: Vec<u8> = (0..=255u8).rev().collect();
    let (last, primary) = apply(&block);
    assert_eq!(reverse(&last, primary).unwrap(), block);
}

#[test]
fn pseudo_random_blocks_round_trip() {
    let mut state: u32 = 12345;
    for length in [1usize, 2, 3, 17, 64, 255, 1000] {
        let mut block = Vec::with_capacity(length);
        for _ in 0..length {
            state = state.wrapping_mul(1103515245).wrapping_add(12345);
            block.push((state >> 16) as u8 % 7);
        }
        let (last, primary) = apply(&block);
        assert!((primary as usize) < length);
        assert_eq!(reverse(&last, primary).unwrap(), block);
    }
}

#[test]
fn shift_vector_is_the_stable_order_of_the_bytes() {
    // sorted bytes of "OBRSDDB": B(1) B(6) D(4) D(5) O(0) R(2) S(3)
    assert_eq!(shift_vector("OBRSDDB".as_bytes()), vec![1, 6, 4, 5, 0, 2, 3]);
}

#[test]
fn reverse_reports_an_index_outside_the_block() {
    let error = reverse("OBRSDDB".as_bytes(), 7).unwrap_err();
    assert_eq!(error.kind, ErrorKind::InvalidIndex);
    let error = reverse(&[], 0).unwrap_err();
    assert_eq!(error.kind, ErrorKind::InvalidIndex);
}
