use burrows_wheeler::decode::{decode, decode_block, DecodeIterator};
use burrows_wheeler::encode::{encode, encode_block, encode_windows, WindowedIterator};
use burrows_wheeler::result::{Error, ErrorKind};
use burrows_wheeler::utils::{launch, usage_line};

fn pseudo_random(length: usize, seed: u32, spread: u8) -> Vec<u8> {
    let mut state = seed;
    let mut bytes = Vec::with_capacity(length);
    for _ in 0..length {
        state = state.wrapping_mul(1103515245).wrapping_add(12345);
        bytes.push(((state >> 16) as u8) % spread);
    }
    bytes
}

#[test]
fn decode_decode_encoded() {
    let string = "qwertyuiopasdfghjkfwjeyyyyyyyqowoooolzxcvbnm,wwert6y7u89".as_bytes();
    let encoded = encode(string);
    let decoded = decode(&encoded).unwrap();
    assert_eq!(&decoded, string)
}

#[test]
fn empty_input_round_trip() {
    assert_eq!(encode(&[]), Vec::<u8>::new());
    assert_eq!(decode(&[]).unwrap(), Vec::<u8>::new());
}

#[test]
fn repeated_byte_round_trip() {
    let input = vec![b'x'; 1000];
    let encoded = encode_windows(300, &input);
    assert_eq!(decode(&encoded).unwrap(), input);
}

#[test]
fn all_byte_values_once_round_trip() {
    let input: Vec<u8> = (0..=255u8).collect();
    let encoded = encode(&input);
    assert_eq!(decode(&encoded).unwrap(), input);
}

#[test]
fn random_input_over_several_windows_round_trip() {
    for (length, window) in [(1usize, 1usize), (10, 3), (100, 7), (1000, 64), (3000, 1024)] {
        let input = pseudo_random(length, 7 + length as u32, 200);
        let encoded = encode_windows(window, &input);
        assert_eq!(decode(&encoded).unwrap(), input);
    }
}

#[test]
fn five_identical_bytes() {
    let input = [b'z'; 5];
    let record = encode_block(input.to_vec());
    // twelve bytes of numbers, then table and payload
    assert!(record.len() - 12 < 5);
    assert_eq!(&record[4..12], &[0, 0, 0, 0, 0, 0, 0, 5]);
    let (block, used) = decode_block(&record).unwrap();
    assert_eq!(block, input);
    assert_eq!(used, record.len());
}

#[test]
fn twice_the_window_gives_two_blocks() {
    let window = 50;
    let input = pseudo_random(2 * window, 99, 30);
    let encoded = encode_windows(window, &input);
    let first = encode_block(input[..window].to_vec());
    let second = encode_block(input[window..].to_vec());
    let mut joined = first.clone();
    joined.extend(second.iter());
    assert_eq!(encoded, joined);
    // each block is decoded on its own
    assert_eq!(decode_block(&first).unwrap(), (input[..window].to_vec(), first.len()));
    assert_eq!(decode_block(&second).unwrap(), (input[window..].to_vec(), second.len()));
    let mut blocks = DecodeIterator::new(&encoded);
    assert_eq!(blocks.next(), Some(Ok(input[..window].to_vec())));
    assert_eq!(blocks.next(), Some(Ok(input[window..].to_vec())));
    assert_eq!(blocks.next(), None);
}

#[test]
fn windows_of_a_stream() {
    let data = [1u8, 2, 3, 4, 5, 6, 7];
    let mut windows = WindowedIterator::from_read(3, &data);
    assert_eq!(windows.next(), Some(vec![1, 2, 3]));
    assert_eq!(windows.next(), Some(vec![4, 5, 6]));
    assert_eq!(windows.next(), Some(vec![7]));
    assert_eq!(windows.next(), None);
    let mut none = WindowedIterator::from_read(0, &data);
    assert_eq!(none.next(), None);
    assert_eq!(encode_windows(0, &data), Vec::<u8>::new());
}

#[test]
fn record_of_a_block_holds_its_primary_index() {
    let record = encode_block("DRDOBBS".as_bytes().to_vec());
    assert_eq!(&record[0..4], &[0, 0, 0, 3]);
}

#[test]
fn invalid_index_is_reported() {
    let mut record = encode_block("DRDOBBS".as_bytes().to_vec());
    record[3] = 7;
    assert_eq!(decode(&record).unwrap_err().kind, ErrorKind::InvalidIndex);
}

#[test]
fn corrupt_header_ends_the_stream() {
    let mut encoded = encode_windows(4, "abcdefgh".as_bytes());
    encoded.extend([1, 2, 3]);
    assert_eq!(decode(&encoded).unwrap_err().kind, ErrorKind::CorruptHeader);
    let mut blocks = DecodeIterator::new(&encoded);
    assert_eq!(blocks.next(), Some(Ok("abcd".as_bytes().to_vec())));
    assert_eq!(blocks.next(), Some(Ok("efgh".as_bytes().to_vec())));
    assert_eq!(blocks.next().unwrap().unwrap_err().kind, ErrorKind::CorruptHeader);
    assert_eq!(blocks.next(), None);
}

#[test]
fn truncated_stream_is_reported() {
    let encoded = encode("some text that is long enough to be cut".as_bytes());
    let cut = &encoded[..encoded.len() - 3];
    assert_eq!(decode(cut).unwrap_err().kind, ErrorKind::TruncatedStream);
}

#[test]
fn errors_carry_a_message() {
    let error = Error::new("disk on fire");
    assert_eq!(error.kind, ErrorKind::Io);
    assert_eq!(error.message, "disk on fire");
    assert_eq!(Error::of_kind(ErrorKind::UnknownCodeWord).message, "Unexpected code word");
    assert_eq!(Error::of_kind(ErrorKind::InvalidIndex).kind, ErrorKind::InvalidIndex);
}

#[test]
fn launch_wants_two_paths() {
    let args = vec!["tool".to_string(), "in".to_string(), "out".to_string()];
    assert_eq!(launch(&args), Some(("in".to_string(), "out".to_string())));
    assert_eq!(launch(&vec!["tool".to_string()]), None);
    assert_eq!(usage_line(), "Usage: <input file path> <output file path>");
}

#[test]
fn record_of_a_known_block() {
    let record = encode_block("DRDOBBS".as_bytes().to_vec());
    assert_eq!(
        record,
        vec![
            0, 0, 0, 3, 0, 0, 0, 0, 0, 0, 0, 20, 84, 22, 32, 48, 133, 139, 43, 95, 105, 57, 149,
            1
        ]
    );
    assert_eq!(encode("DRDOBBS".as_bytes()), record);
}

#[test]
fn crate_root_offers_the_coder() {
    let encoded = burrows_wheeler::encode("round and round".as_bytes());
    assert_eq!(burrows_wheeler::decode(&encoded).unwrap(), "round and round".as_bytes());
}
