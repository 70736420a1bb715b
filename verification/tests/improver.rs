use burrows_wheeler::arithmetic;
use burrows_wheeler::arithmetic::frequencies::Frequencies;
use burrows_wheeler::improver::{decode, encode};
use burrows_wheeler::result::ErrorKind;
use burrows_wheeler::rle;

#[test]
fn mod_application_test() {
    let input = "aabbb".bytes();
    println!("{:?}", arithmetic::encode::encode(&input.collect::<Vec<_>>()));
}

#[test]
fn mod_reverse_simpliest_test() {
    let input = "aabbb";
    assert_eq!(
        input.bytes().collect::<Vec<_>>(),
        arithmetic::decode::decode(&arithmetic::encode::encode(&input.bytes().collect::<Vec<_>>()))
    );
}

#[test]
fn mod_reverse_simple_test() {
    let input = String::from("fqwefhqoiqwiwiiwfqwefhqoiqwiwiiw");
    assert_eq!(
        input.bytes().collect::<Vec<_>>(),
        arithmetic::decode::decode(&arithmetic::encode::encode(&input.bytes().collect::<Vec<_>>()))
    );
}

#[test]
fn a0_rle_test() {
    let input = "abcdef";
    let bytes = input.bytes().collect::<Vec<_>>();

    let encoded = arithmetic::encode::encode(&rle::apply(&bytes));
    let decoded = rle::reverse(&arithmetic::decode::decode(&encoded));
    assert_eq!(bytes, decoded);
}

#[test]
fn reverse_simplies_test() {
    let input = "abcdef";
    let bytes = input.bytes().collect::<Vec<_>>();
    assert_eq!(bytes, decode(&encode(&bytes)).unwrap());
}

#[test]
fn lib_reverse_simplier_test() {
    let input = "aaaaaaaaaaaaaaaaaaaaaaaaaaaaaaaaaaaaaaaaaaaaaaaaaaaaaaaaaaaaaaaaaaaaaaaaaaaaaaaaaaaaaaaaaaaa";
    let bytes = input.bytes().collect::<Vec<_>>();
    assert_eq!(bytes, decode(&encode(&bytes)).unwrap());
}

#[test]
fn lib_reverse_simple_test() {
    let input = String::from("aaaaaaaaaatttttqwojdkqwdoibbbbwjw");
    let bytes = input.bytes().collect::<Vec<_>>();
    assert_eq!(bytes, decode(&encode(&bytes)).unwrap());
}

#[test]
fn rle_application_test() {
    let input = "aaaaaaaaaatttttqwojdkqwdoibbbbwjw".bytes();
    println!("{:?}", rle::apply(&input.collect::<Vec<_>>()));
}

#[test]
fn reversing_test() {
    let input = vec![97, 97, 97];
    println!("{:?}", rle::reverse(&input));
}

#[test]
fn rle_reverse_simpliest_test() {
    let input = "abcdef";
    let bytes = input.bytes().collect::<Vec<_>>();
    assert_eq!(bytes, rle::reverse(&rle::apply(&bytes)));
}

#[test]
fn rle_reverse_simplier_test() {
    let input = "aaaaaaaaaaaaaaaaaaaaaaaaaaaaaaaaaaaaaaaaaaaaaaaaaaaaaaaaaaaaaaaaaaaaaaaaaaaaaaaaaaaaaaaaaaaa";
    let bytes = input.bytes().collect::<Vec<_>>();
    assert_eq!(bytes, rle::reverse(&rle::apply(&bytes)));
}

#[test]
fn rle_reverse_simple_test() {
    let input = String::from("aaaaaaaaaatttttqwojdkqwdoibbbbwjw");
    let bytes = input.bytes().collect::<Vec<_>>();
    assert_eq!(bytes, rle::reverse(&rle::apply(&bytes)));
}

#[test]
fn run_lengths_stand_behind_two_equal_bytes() {
    assert_eq!(rle::apply("aaab".as_bytes()), vec![b'a', b'a', 3, b'b']);
    assert_eq!(rle::apply("abb".as_bytes()), vec![b'a', b'b', b'b', 2]);
    assert_eq!(rle::apply(&[]), Vec::<u8>::new());
    assert_eq!(rle::reverse(&[97, 97, 97]), vec![97u8; 97]);
    assert_eq!(rle::reverse(&[b'a', b'a', 3, b'b']), "aaab".as_bytes());
}

#[test]
fn run_of_the_greatest_length() {
    let run = vec![7u8; 255];
    assert_eq!(rle::apply(&run), vec![7, 7, 255]);
    assert_eq!(rle::reverse(&rle::apply(&run)), run);
}

#[test]
fn run_codes_are_told_from_other_bytes() {
    assert!(rle::is_coded(&[1, 2, 3]));
    assert!(rle::is_coded(&[1, 1, 2]));
    assert!(!rle::is_coded(&[1, 1]));
    assert!(!rle::is_coded(&[1, 1, 1, 5]));
    assert!(!rle::is_coded(&[4, 4, 0]));
}

#[test]
fn model_counts_symbols() {
    let mut model = Frequencies::new();
    assert_eq!(model.get_total(), 257);
    assert_eq!(model.char_to_index(b'a' as usize), 98);
    assert_eq!(model.index_to_char(98), b'a' as i32);
    assert_eq!(model.get_low(257), 0);
    assert_eq!(model.get_high(257), 1);
    assert_eq!(model.get_low(1), 256);
    assert_eq!(model.get_high(1), 257);
    model.update(98);
    // the symbol has moved to the first number and has frequency 2
    assert_eq!(model.char_to_index(b'a' as usize), 1);
    assert_eq!(model.index_to_char(98), 0);
    assert_eq!(model.char_to_index(0), 98);
    assert_eq!(model.get_total(), 258);
    assert_eq!(model.get_high(1) - model.get_low(1), 2);
    assert_eq!(model.update_symbol_index_if_needed(5), 2);
}

#[test]
fn model_halves_at_the_limit() {
    let mut model = Frequencies::new();
    for _ in 0..(16383 - 257) {
        model.update(1);
    }
    assert_eq!(model.get_total(), 16383);
    model.update(1);
    // (16127 + 1) / 2 + 256 ones, and one more for the update
    assert_eq!(model.get_total(), 8064 + 256 + 1);
}

#[test]
fn arithmetic_code_of_nothing() {
    let code = arithmetic::encode::encode(&[]);
    assert_eq!(arithmetic::decode::decode(&code), Vec::<u8>::new());
}

#[test]
fn arithmetic_round_trip_over_all_bytes() {
    let mut input: Vec<u8> = (0..=255u8).collect();
    for i in 0..2000u32 {
        input.push((i * i % 11) as u8);
    }
    let code = arithmetic::encode::encode(&input);
    assert!(code.len() < input.len());
    assert_eq!(arithmetic::decode::decode(&code), input);
}

#[test]
fn improver_reports_bytes_that_are_no_code() {
    let error = decode(&[]).unwrap_err();
    assert_eq!(error.kind, ErrorKind::TruncatedStream);
}

#[test]
fn arithmetic_code_of_the_end_of_the_message() {
    // the end of the message has 1 of 257 parts of the range: eight bits 0
    // settle it, and the bits 0 and 1 tell the last interval apart
    assert_eq!(arithmetic::encode::encode(&[]), vec![0, 64]);
}

#[test]
fn arithmetic_code_of_a_short_message() {
    let code = arithmetic::encode::encode("aabbb".as_bytes());
    assert_eq!(code, vec![159, 95, 59, 214, 29, 76]);
    assert_eq!(arithmetic::decode::decode(&code), "aabbb".as_bytes());
}

#[test]
fn run_lengths_of_a_text() {
    assert_eq!(
        rle::apply("aaaaaaaaaatttttqwojdkqwdoibbbbwjw".as_bytes()),
        vec![
            97, 97, 10, 116, 116, 5, 113, 119, 111, 106, 100, 107, 113, 119, 100, 111, 105, 98,
            98, 4, 119, 106, 119
        ]
    );
}

#[test]
fn improver_code_of_a_short_block() {
    let code = encode("abcdef".as_bytes());
    assert_eq!(code, vec![255, 255, 243, 104, 129, 101, 135, 102, 32, 41]);
    assert_eq!(decode(&code).unwrap(), "abcdef".as_bytes());
}

#[test]
fn improver_reports_an_index_outside_the_block() {
    // the index 9 in front of a block of two bytes
    let symbols = rle::apply(&burrows_wheeler::mtf::apply(&[0, 0, 0, 9, b'a', b'b']));
    let code = arithmetic::encode::encode(&symbols);
    assert_eq!(decode(&code).unwrap_err().kind, ErrorKind::InvalidIndex);
    let restored = burrows_wheeler::improver::restore(&symbols);
    assert_eq!(restored.unwrap_err().kind, ErrorKind::InvalidIndex);
}

#[test]
fn runs_of_up_to_255_bytes_come_back() {
    let mut input = vec![3u8; 254];
    input.extend(vec![4u8; 255]);
    input.push(5);
    input.extend(vec![3u8; 2]);
    let code = rle::apply(&input);
    assert_eq!(code, vec![3, 3, 254, 4, 4, 255, 5, 3, 3, 2]);
    assert!(rle::is_coded(&code));
    assert_eq!(rle::reverse(&code), input);
}

#[test]
fn a_run_of_256_bytes_is_written_in_two_parts() {
    let run = vec![7u8; 256];
    assert_eq!(rle::apply(&run), vec![7, 7, 255, 7, 2]);
}

#[test]
fn arithmetic_round_trip_past_the_halving_of_the_model() {
    let input: Vec<u8> = (0..40000u32).map(|i| ((i * i + 7 * i) % 251) as u8).collect();
    let code = arithmetic::encode::encode(&input);
    assert_eq!(arithmetic::decode::decode(&code), input);
    let same = vec![9u8; 40000];
    let code = arithmetic::encode::encode(&same);
    assert!(code.len() < 400);
    assert_eq!(arithmetic::decode::decode(&code), same);
}
