use bit_vec::BitVec;
use burrows_wheeler::bits::vec_with;
use burrows_wheeler::huffman::decode::{decode, DecoderIterator};
use burrows_wheeler::huffman::encode::{
    build_codes, can_encode, count_frequency, encode, iter, weights_fit,
};
use burrows_wheeler::huffman::header::{code_lt, CodeDescriptor, Header};
use burrows_wheeler::huffman::iterator::{BitIterator, ByteIterator};
use burrows_wheeler::result::ErrorKind;
use std::collections::HashMap;

fn code(bits: &[u8]) -> BitVec {
    let mut result = BitVec::new();
    for bit in bits {
        result.push(*bit != 0);
    }
    result
}

fn bits_from(encoded: &BitVec, from: usize) -> BitVec {
    let mut result = BitVec::new();
    for i in from..encoded.len() {
        result.push(encoded.get(i).unwrap());
    }
    result
}

fn five_codes() -> HashMap<u8, BitVec> {
    let mut codes = HashMap::new();
    codes.insert(b'a', code(&[0, 0, 0]));
    codes.insert(b'b', code(&[0, 0, 1]));
    codes.insert(b'c', code(&[0, 1]));
    codes.insert(b'd', code(&[1, 0]));
    codes.insert(b'e', code(&[1, 1]));
    codes
}

fn five_frequencies() -> HashMap<u8, u64> {
    let mut frequencies = HashMap::new();
    frequencies.insert(b'a', 1);
    frequencies.insert(b'b', 1);
    frequencies.insert(b'c', 4);
    frequencies.insert(b'd', 4);
    frequencies.insert(b'e', 4);
    frequencies
}

fn five_descriptors() -> Vec<CodeDescriptor> {
    vec![
        CodeDescriptor { letter: b'a', code: code(&[0, 0, 0]) },
        CodeDescriptor { letter: b'b', code: code(&[0, 0, 1]) },
        CodeDescriptor { letter: b'c', code: code(&[0, 1]) },
        CodeDescriptor { letter: b'd', code: code(&[1, 0]) },
        CodeDescriptor { letter: b'e', code: code(&[1, 1]) },
    ]
}

fn four_frequencies() -> HashMap<u8, u64> {
    let mut frequencies = HashMap::new();
    frequencies.insert(b'a', 1);
    frequencies.insert(b'b', 2);
    frequencies.insert(b'c', 3);
    frequencies.insert(b'd', 4);
    frequencies
}

fn four_codes() -> HashMap<u8, BitVec> {
    let mut codes = HashMap::new();
    codes.insert(b'a', code(&[1, 1, 0]));
    codes.insert(b'b', code(&[1, 1, 1]));
    codes.insert(b'c', code(&[1, 0]));
    codes.insert(b'd', code(&[0]));
    codes
}

fn decode_all(encoded: &[u8]) -> (Vec<u8>, u32) {
    let (mut decoded_iter, initial) = decode(encoded).unwrap().unwrap();
    let mut decoded = Vec::new();
    while let Some(symbol) = decoded_iter.next() {
        decoded.push(symbol.unwrap());
    }
    (decoded, initial)
}

#[test]
fn encode_count_frequency_test() {
    let input = "abbcccdddd";
    let frequencies = count_frequency(input.as_bytes());
    assert_eq!(four_frequencies(), frequencies)
}

#[test]
fn mod_count_frequency_test() {
    let input = "abbcccdddd";
    let frequencies = count_frequency(input.as_bytes());
    let mut expected = HashMap::new();
    expected.insert('a' as u8, 1);
    expected.insert('b' as u8, 2);
    expected.insert('c' as u8, 3);
    expected.insert('d' as u8, 4);
    assert_eq!(expected, frequencies)
}

#[test]
fn encode_build_codes_test() {
    let codes = build_codes(&four_frequencies());
    assert_eq!(four_codes(), codes)
}

#[test]
fn mod_build_codes_test() {
    let mut letter_frequency = HashMap::new();
    letter_frequency.insert('a' as u8, 1);
    letter_frequency.insert('b' as u8, 2);
    letter_frequency.insert('c' as u8, 3);
    letter_frequency.insert('d' as u8, 4);
    let codes = build_codes(&letter_frequency);
    let mut expected = HashMap::new();
    expected.insert('a' as u8, code(&[1, 1, 0]));
    expected.insert('b' as u8, code(&[1, 1, 1]));
    expected.insert('c' as u8, code(&[1, 0]));
    expected.insert('d' as u8, code(&[0]));
    assert_eq!(expected, codes)
}

#[test]
fn encode_encode_test() {
    let input = "abbcccddddddddd";
    let encoded: Vec<u8> = iter(HashMap::new(), input.as_bytes(), four_codes(), 0)
        .into_iter()
        .skip(((u32::BITS + u64::BITS) / 8) as usize)
        .collect();
    let expected = vec![
        0b10011010, 0b01101000, 0b10101100, 0b01100001, 0b10100011, 0b11111101, 0b00010101,
        0b00000000,
    ];
    assert_eq!(encoded, expected)
}

#[test]
fn header_encode_test() {
    let encoded = Header::encode(five_frequencies(), &five_codes(), 2);
    let encoded = bits_from(&encoded, (u32::BITS + u64::BITS) as usize);
    let expected = code(&[
        0, 0, 0, 1, 0, 1, 1, 0, 0, 0, 0, 1, 1, 0, 1, 1, 0, 0, 0, 1, 0, 1, 0, 1, 1, 0, 0, 0, 1, 1,
        0, 1, 0, 1, 1, 0, 0, 1, 0, 0, 1, 0, 1, 1, 0, 0, 1, 0, 1,
    ]);
    assert_eq!(encoded, expected);
}

#[test]
fn decode_test() {
    let mut encoded = vec![0u8; ((u32::BITS + u64::BITS) / 8) as usize];
    let encoded_descriptors: Vec<u8> = vec![
        0b01101000, 0b11011000, 0b10101000, 0b10110001, 0b00100110, 0b01001101, 0b00000001,
    ];
    encoded_descriptors.into_iter().for_each(|x| encoded.push(x));
    let mut bit_iter = BitIterator::new(&encoded, usize::MAX);
    let decoded = Header::decode(&mut bit_iter);
    assert_eq!(five_descriptors(), decoded.unwrap().code_descriptors)
}

#[test]
fn decode_encoded_test() {
    let encoded = Header::encode(five_frequencies(), &five_codes(), 2);
    let mut bytes = Vec::new();
    let mut byte_iter = ByteIterator::new(encoded);
    while let Some(byte) = byte_iter.next() {
        bytes.push(byte);
    }
    let mut bit_iter = BitIterator::new(&bytes, usize::MAX);
    let decoded = Header::decode(&mut bit_iter).unwrap();
    assert_eq!(five_descriptors(), decoded.code_descriptors);
    assert_eq!(decoded.initial, 2);
    assert_eq!(decoded.bit_size, 3 + 3 + 4 * 2 + 4 * 2 + 4 * 2);
}

#[test]
fn decode_encoded() {
    let input = "abbcccdddddeeoifhweag128138y2o".as_bytes();
    let encoded = encode(input, 0);
    let (decoded, _) = decode_all(&encoded);
    assert_eq!(input, &decoded);
}

#[test]
fn mod_decode_encoded() {
    let input = "abbcccdddddeeoifhweag128138y2o".as_bytes();
    let encoded = encode(input, 0);
    let (decoded_iter, _) = decode(&encoded).unwrap().unwrap();
    let mut decoded_iter = decoded_iter;
    let mut decoded: Vec<u8> = Vec::new();
    while let Some(symbol) = decoded_iter.next() {
        decoded.push(symbol.unwrap());
    }
    assert_eq!(input, &decoded);
}

#[test]
fn header_holds_the_numbers_as_big_endian_bytes() {
    let encoded = encode("abbcccdddd".as_bytes(), 0x01020304);
    assert_eq!(&encoded[0..4], &[1, 2, 3, 4]);
    // 1 * 3 + 2 * 3 + 3 * 2 + 4 * 1 payload bits
    assert_eq!(&encoded[4..12], &[0, 0, 0, 0, 0, 0, 0, 19]);
    // 96 + 39 + 19 bits
    assert_eq!(encoded.len(), 20);
    let (decoded, initial) = decode_all(&encoded);
    assert_eq!(decoded, "abbcccdddd".as_bytes());
    assert_eq!(initial, 0x01020304);
}

#[test]
fn frequencies_give_the_documented_code_lengths() {
    let codes = build_codes(&four_frequencies());
    assert_eq!(codes[&b'd'].len(), 1);
    assert_eq!(codes[&b'c'].len(), 2);
    assert_eq!(codes[&b'a'].len(), 3);
    assert_eq!(codes[&b'b'].len(), 3);
}

#[test]
fn equal_frequencies_are_taken_by_byte_value() {
    let mut frequencies = HashMap::new();
    for letter in [b'z', b'y', b'x', b'w'] {
        frequencies.insert(letter, 5);
    }
    // w and x are merged first, then y and z, then the two vertices
    let codes = build_codes(&frequencies);
    assert_eq!(codes[&b'w'], code(&[0, 0]));
    assert_eq!(codes[&b'x'], code(&[0, 1]));
    assert_eq!(codes[&b'y'], code(&[1, 0]));
    assert_eq!(codes[&b'z'], code(&[1, 1]));
}

#[test]
fn no_byte_and_one_byte() {
    assert!(build_codes(&HashMap::new()).is_empty());
    let mut frequencies = HashMap::new();
    frequencies.insert(b'q', 5);
    let codes = build_codes(&frequencies);
    assert_eq!(codes.len(), 1);
    assert_eq!(codes[&b'q'], code(&[0]));
}

#[test]
fn block_of_identical_bytes() {
    let input = [b'q'; 5];
    let encoded = encode(&input, 0);
    // 96 bits of numbers, 9 bits of table, 5 bits of payload
    assert_eq!(encoded.len(), 14);
    assert_eq!(&encoded[4..12], &[0, 0, 0, 0, 0, 0, 0, 5]);
    assert!(encoded.len() - 12 < 5);
    let (mut decoded_iter, _) = decode(&encoded).unwrap().unwrap();
    let mut decoded = Vec::new();
    while let Some(symbol) = decoded_iter.next() {
        decoded.push(symbol.unwrap());
    }
    assert_eq!(decoded, input);
}

#[test]
fn empty_block() {
    let encoded = encode(&[], 7);
    assert_eq!(encoded, vec![0, 0, 0, 7, 0, 0, 0, 0, 0, 0, 0, 0]);
    let (decoded, initial) = decode_all(&encoded);
    assert!(decoded.is_empty());
    assert_eq!(initial, 7);
    assert!(decode(&[]).is_none());
}

#[test]
fn all_bytes_round_trip() {
    let mut input: Vec<u8> = (0..=255u8).collect();
    input.extend((0..200u8).map(|x| x / 3));
    let encoded = encode(&input, 3);
    let (decoded, initial) = decode_all(&encoded);
    assert_eq!(decoded, input);
    assert_eq!(initial, 3);
}

#[test]
fn order_of_code_words() {
    assert!(code_lt(&code(&[0]), &code(&[1])));
    assert!(!code_lt(&code(&[1]), &code(&[0])));
    assert!(!code_lt(&code(&[1, 0]), &code(&[1, 0])));
    // the longer one stands first if its next bit is 0, last if it is 1
    assert!(code_lt(&code(&[1, 0]), &code(&[1])));
    assert!(code_lt(&code(&[1]), &code(&[1, 1])));
    assert!(!code_lt(&code(&[1, 1]), &code(&[1])));
    assert!(code_lt(&code(&[]), &code(&[1, 0])));
}

#[test]
fn vec_with_appends_one_bit() {
    let start = code(&[1, 0]);
    assert_eq!(vec_with(&start, true), code(&[1, 0, 1]));
    assert_eq!(vec_with(&start, false), code(&[1, 0, 0]));
    assert_eq!(start, code(&[1, 0]));
}

#[test]
fn bytes_hold_the_first_bit_in_the_least_significant_place() {
    let mut byte_iter = ByteIterator::new(code(&[1, 0, 0, 0, 0, 0, 0, 0, 0, 1, 1]));
    assert_eq!(byte_iter.next(), Some(1));
    assert_eq!(byte_iter.next(), Some(6));
    assert_eq!(byte_iter.next(), None);
    let bytes = [1u8, 6];
    let mut bit_iter = BitIterator::new(&bytes, 11);
    let mut bits = Vec::new();
    while let Some(bit) = bit_iter.next() {
        bits.push(bit as u8);
    }
    assert_eq!(bits, vec![1, 0, 0, 0, 0, 0, 0, 0, 0, 1, 1]);
    assert_eq!(bit_iter.consumed(), 2);
}

#[test]
fn bit_size_limits_the_bits_read() {
    let bytes = [0xFFu8, 0xFF];
    let mut bit_iter = BitIterator::new(&bytes, 3);
    assert_eq!(bit_iter.next(), Some(true));
    bit_iter.bit_size(1);
    assert_eq!(bit_iter.next(), Some(true));
    assert_eq!(bit_iter.next(), None);
    assert_eq!(bit_iter.consumed(), 1);
    assert!(bit_iter.holds(14));
    assert!(!bit_iter.holds(15));
}

#[test]
fn corrupt_block_header_is_reported() {
    // fewer bytes than the two numbers take
    let error = decode(&[0, 0, 0]).unwrap().err().unwrap();
    assert_eq!(error.kind, ErrorKind::CorruptHeader);
    // payload bits are declared, and the table does not end
    let error = decode(&[0, 0, 0, 0, 0, 0, 0, 0, 0, 0, 0, 9, 0, 0]).unwrap().err().unwrap();
    assert_eq!(error.kind, ErrorKind::CorruptHeader);
}

#[test]
fn truncated_block_is_reported() {
    let encoded = encode("abbcccdddddeeoifhweag128138y2o".as_bytes(), 0);
    let cut = &encoded[..encoded.len() - 2];
    let error = decode(cut).unwrap().err().unwrap();
    assert_eq!(error.kind, ErrorKind::TruncatedStream);
}

#[test]
fn payload_that_ends_inside_a_code_word_is_truncated() {
    // codes a=00 b=01 c=1, payload "0": one bit declared
    let mut codes = HashMap::new();
    codes.insert(b'a', code(&[0, 0]));
    codes.insert(b'b', code(&[0, 1]));
    codes.insert(b'c', code(&[1]));
    let mut frequencies = HashMap::new();
    frequencies.insert(b'c', 1);
    // the header declares one bit; the payload written is the first bit of a
    let mut encoded = iter(frequencies, &[], codes, 0);
    let last = encoded.len() - 1;
    // table: 0 0 1 a, 1 b, 1 c = 3 + 8 + 1 + 8 + 1 + 8 = 29 bits; bit 125 is the payload
    assert_eq!(encoded.len(), 16);
    encoded[last] &= !(1 << 5);
    let (mut decoded_iter, _) = decode(&encoded).unwrap().unwrap();
    let error = decoded_iter.next().unwrap().unwrap_err();
    assert_eq!(error.kind, ErrorKind::TruncatedStream);
}

#[test]
fn unknown_code_word_is_reported() {
    // the table of one byte knows the code word 0 alone
    let mut encoded = encode(&[b'q'; 5], 0);
    let last = encoded.len() - 1;
    // 105 bits of header: bit 105 is the first payload bit, bit 1 of byte 13
    encoded[last] |= 1 << 1;
    let (mut decoded_iter, _) = decode(&encoded).unwrap().unwrap();
    let error = decoded_iter.next().unwrap().unwrap_err();
    assert_eq!(error.kind, ErrorKind::UnknownCodeWord);
}

#[test]
fn table_does_not_depend_on_the_order_of_insertion() {
    let letters = [b'a', b'b', b'c', b'd', b'e'];
    let codes = five_codes();
    let mut forward = HashMap::new();
    for letter in letters {
        forward.insert(letter, codes[&letter].clone());
    }
    let mut backward = HashMap::with_capacity(64);
    for letter in letters.iter().rev() {
        backward.insert(*letter, codes[letter].clone());
    }
    let first = Header::encode(five_frequencies(), &forward, 2);
    let second = Header::encode(five_frequencies(), &backward, 2);
    assert_eq!(first, second);
    let mut bytes = Vec::new();
    let mut byte_iter = ByteIterator::new(second);
    while let Some(byte) = byte_iter.next() {
        bytes.push(byte);
    }
    let mut bit_iter = BitIterator::new(&bytes, usize::MAX);
    let decoded = Header::decode(&mut bit_iter).unwrap();
    let mut read = HashMap::new();
    for descriptor in decoded.code_descriptors {
        read.insert(descriptor.letter, descriptor.code);
    }
    assert_eq!(read, codes);
}

#[test]
fn table_of_a_huffman_code_is_read_back() {
    let input = "the table of this text is written and read back".as_bytes();
    let frequencies = count_frequency(input);
    let codes = build_codes(&frequencies);
    let encoded = Header::encode(frequencies, &codes, 0);
    let mut bytes = Vec::new();
    let mut byte_iter = ByteIterator::new(encoded);
    while let Some(byte) = byte_iter.next() {
        bytes.push(byte);
    }
    let mut bit_iter = BitIterator::new(&bytes, usize::MAX);
    let decoded = Header::decode(&mut bit_iter).unwrap();
    assert_eq!(decoded.code_descriptors.len(), codes.len());
    for descriptor in decoded.code_descriptors {
        assert_eq!(codes[&descriptor.letter], descriptor.code);
    }
}

#[test]
fn record_of_a_short_block() {
    let encoded = encode("abbcccdddd".as_bytes(), 1);
    assert_eq!(
        encoded,
        vec![0, 0, 0, 1, 0, 0, 0, 0, 0, 0, 0, 19, 154, 104, 172, 97, 163, 253, 21, 0]
    );
}

#[test]
fn payload_alone_is_packed_from_its_first_bit() {
    let input = "abbcccddddddddd";
    let encoded = burrows_wheeler::huffman::encode::encoded_iterator(input.as_bytes(), &four_codes());
    // 110 111 111 10 10 10 and nine bits 0, the first bit of each byte in
    // its least significant place
    assert_eq!(encoded, vec![0b11111011, 0b00101011, 0b00000000]);
}

fn to_bits(bytes: Vec<u8>) -> Vec<bool> {
    bytes
        .into_iter()
        .flat_map(|x| {
            let mut vec = Vec::with_capacity(8);
            for i in 0..8 {
                vec.push(((x >> i) & 1) != 0);
            }
            vec.into_iter()
        })
        .collect()
}

#[test]
fn mod_encode_test() {
    let mut codes = HashMap::new();
    codes.insert('a' as u8, code(&[1, 1, 0]));
    codes.insert('b' as u8, code(&[1, 1, 1]));
    codes.insert('c' as u8, code(&[1, 0]));
    codes.insert('d' as u8, code(&[0]));

    let input = "abbcccddddddddd";
    let encoded: Vec<u8> =
        burrows_wheeler::huffman::encode::encoded_iterator(input.as_bytes(), &codes);

    let expected = code(&[1, 1, 0, 1, 1, 1, 1, 1, 1, 1, 0, 1, 0, 1, 0, 0, 0, 0, 0, 0, 0, 0, 0, 0]);

    assert!(to_bits(encoded).ends_with(&expected.into_iter().collect::<Vec<bool>>().as_slice()))
}

#[test]
fn frequencies_and_code_are_tested_before_a_block_is_written() {
    assert!(weights_fit(&four_frequencies()));
    let mut heavy = four_frequencies();
    heavy.insert(b'z', u64::MAX);
    assert!(!weights_fit(&heavy));
    assert!(can_encode(&four_frequencies(), "abcd".as_bytes(), &four_codes()));
    // a byte of the input without a code word
    assert!(!can_encode(&four_frequencies(), "abcde".as_bytes(), &four_codes()));
    // a byte with a frequency and without a code word
    assert!(!can_encode(&five_frequencies(), "abcd".as_bytes(), &four_codes()));
    // more payload bits than can be counted
    assert!(!can_encode(&heavy, "abcd".as_bytes(), &five_codes()));
    let mut long = four_codes();
    long.insert(b'z', code(&[1; 256]));
    assert!(!can_encode(&HashMap::new(), &[], &long));
}

#[test]
fn a_table_written_with_no_payload_bit_is_read_back() {
    let encoded = Header::encode(HashMap::new(), &five_codes(), 9);
    let mut bytes = Vec::new();
    let mut byte_iter = ByteIterator::new(encoded);
    while let Some(byte) = byte_iter.next() {
        bytes.push(byte);
    }
    assert_eq!(&bytes[..12], &[0, 0, 0, 9, 0, 0, 0, 0, 0, 0, 0, 0]);
    let mut bit_iter = BitIterator::new(&bytes, usize::MAX);
    let decoded = Header::decode(&mut bit_iter).unwrap();
    assert_eq!(five_descriptors(), decoded.code_descriptors);
    assert_eq!(decoded.initial, 9);
    assert_eq!(decoded.bit_size, 0);
}

#[test]
fn the_header_of_an_empty_block_has_no_entry() {
    let bytes = [0u8, 0, 0, 7, 0, 0, 0, 0, 0, 0, 0, 0];
    let mut bit_iter = BitIterator::new(&bytes, usize::MAX);
    let decoded = Header::decode(&mut bit_iter).unwrap();
    assert!(decoded.code_descriptors.is_empty());
    assert_eq!(decoded.initial, 7);
    assert_eq!(decoded.bit_size, 0);
    // bits are declared, and the stream ends behind the numbers
    let bytes = [0u8, 0, 0, 7, 0, 0, 0, 0, 0, 0, 0, 3];
    let mut bit_iter = BitIterator::new(&bytes, usize::MAX);
    assert!(Header::decode(&mut bit_iter).is_none());
    assert_eq!(
        decode(&bytes).unwrap().err().unwrap().kind,
        ErrorKind::CorruptHeader
    );
}

#[test]
fn declared_bits_that_the_source_lacks_are_a_failure() {
    let empty: [u8; 0] = [];
    let mut symbols = DecoderIterator::new(five_descriptors(), BitIterator::new(&empty, 8));
    let error = symbols.next().unwrap().unwrap_err();
    assert_eq!(error.kind, ErrorKind::TruncatedStream);
    // the source ends between two code words
    let one = [0u8];
    let mut symbols = DecoderIterator::new(five_descriptors(), BitIterator::new(&one, 9));
    assert_eq!(symbols.next().unwrap().unwrap(), b'a');
    assert_eq!(symbols.next().unwrap().unwrap(), b'a');
    assert_eq!(
        symbols.next().unwrap().unwrap_err().kind,
        ErrorKind::TruncatedStream
    );
    // all declared bits are read
    let mut symbols = DecoderIterator::new(five_descriptors(), BitIterator::new(&one, 6));
    assert_eq!(symbols.next().unwrap().unwrap(), b'a');
    assert_eq!(symbols.next().unwrap().unwrap(), b'a');
    assert!(symbols.next().is_none());
    let mut reader = BitIterator::new(&one, 3);
    assert_eq!(reader.allowed(), 3);
    assert_eq!(reader.next(), Some(false));
    assert_eq!(reader.allowed(), 2);
}
