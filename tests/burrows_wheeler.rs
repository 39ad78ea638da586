use algs4::burrows_wheeler_transform::{
    decode, encode, inverse_transform, key_indexed_sort, read_usize, transform, write_usize,
    DecodeError,
};
use algs4::circular_suffix_array::{create, CircularSuffixArray};
use quickcheck::quickcheck;

fn try_sort(mut input: Vec<u8>) -> bool {
    let result = key_indexed_sort(&input);
    input.sort();
    input == result
}

#[test]
fn can_sort_sample_input() {
    assert!(try_sort("ABRACADABRA!".bytes().collect()));
}

#[test]
fn can_sort_arbitrary_inputs() {
    quickcheck(try_sort as fn(Vec<u8>) -> bool);
}

fn try_encode_and_decode_usize(input: usize) -> bool {
    let mut encoded = Vec::new();
    write_usize(input, &mut encoded);
    let result = read_usize(&encoded).unwrap();
    result == input
}

#[test]
fn can_encode_and_decode_a_big_usize() {
    assert!(try_encode_and_decode_usize(usize::max_value()));
}

#[test]
fn can_encode_and_decode_arbitrary_usizes() {
    quickcheck(try_encode_and_decode_usize as fn(usize) -> bool);
}

fn try_encode_and_decode_input(input: Vec<u8>) -> bool {
    let encoded = encode(&input);
    let decoded = decode(&encoded).unwrap();
    decoded == input
}

#[test]
fn can_encode_and_decode_sample_input() {
    assert!(try_encode_and_decode_input("ABRACADABRA!".bytes().collect()));
}

#[test]
fn burrows_wheeler_transform_can_encode_and_decode_a_string_with_no_repeating_chars() {
    assert!(try_encode_and_decode_input((0..10).collect()));
}

#[test]
fn burrows_wheeler_transform_can_encode_and_decode_arbitrary_inputs() {
    quickcheck(try_encode_and_decode_input as fn(Vec<u8>) -> bool);
}

#[test]
fn matches_behaviour_of_example_from_spec() {
    let sample_input = "ABRACADABRA!";
    let CircularSuffixArray(result) = create(sample_input.as_ref());
    assert_eq!(result.len(), sample_input.len());
    let expected_indexes = vec![11, 10, 7, 0, 3, 5, 8, 1, 4, 6, 9, 2];
    for (i, &expected_index) in expected_indexes.iter().enumerate() {
        assert!(
            result[i] == expected_index,
            "Expected CSA to say index({}) is {}",
            i,
            expected_index
        );
    }
}

#[test]
fn suffix_array_of_empty_and_single_byte() {
    let CircularSuffixArray(empty) = create(&[]);
    assert!(empty.is_empty());
    let CircularSuffixArray(single) = create(&[42]);
    assert_eq!(single, vec![0]);
}

#[test]
fn transform_of_sample_input() {
    let (first, transformed) = transform(b"ABRACADABRA!");
    assert_eq!(first, 3);
    assert_eq!(transformed, b"ARD!RCAAAABB".to_vec());
}

#[test]
fn inverse_transform_of_sample_input() {
    assert_eq!(inverse_transform(3, b"ARD!RCAAAABB"), b"ABRACADABRA!".to_vec());
}

#[test]
fn encoded_sample_has_header_then_column() {
    let encoded = encode(b"ABRACADABRA!");
    let mut expected = vec![3, 0, 0, 0, 0, 0, 0, 0];
    expected.extend_from_slice(b"ARD!RCAAAABB");
    assert_eq!(encoded, expected);
}

#[test]
fn header_is_little_endian_eight_bytes() {
    let mut out = vec![9];
    write_usize(0x0102, &mut out);
    assert_eq!(out, vec![9, 2, 1, 0, 0, 0, 0, 0, 0]);
    assert_eq!(read_usize(&[2, 1, 0, 0, 0, 0, 0, 0, 77]), Ok(0x0102));
}

#[test]
fn empty_input_encodes_and_decodes_to_nothing() {
    assert!(encode(&[]).is_empty());
    assert_eq!(decode(&[]), Ok(vec![]));
}

#[test]
fn single_byte_round_trips() {
    let encoded = encode(&[7]);
    assert_eq!(encoded, vec![0, 0, 0, 0, 0, 0, 0, 0, 7]);
    assert_eq!(decode(&encoded), Ok(vec![7]));
}

#[test]
fn identical_bytes_round_trip() {
    let input = vec![0x41u8; 1000];
    let encoded = encode(&input);
    assert_eq!(encoded.len(), 1008);
    assert_eq!(&encoded[8..], &input[..]);
    assert_eq!(decode(&encoded), Ok(input));
}

#[test]
fn transformed_bytes_are_a_permutation() {
    let input = b"the quick brown fox jumps over the lazy dog".to_vec();
    let (_, mut transformed) = transform(&input);
    let mut sorted = input.clone();
    sorted.sort();
    transformed.sort();
    assert_eq!(transformed, sorted);
}

#[test]
fn truncated_header_is_an_error() {
    assert_eq!(decode(&[1, 2, 3]), Err(DecodeError::TruncatedHeader));
    assert_eq!(read_usize(&[1, 2, 3]), Err(DecodeError::TruncatedHeader));
}

#[test]
fn row_past_the_payload_is_an_error() {
    assert_eq!(decode(&[0, 0, 0, 0, 0, 0, 0, 0]), Err(DecodeError::RowOutOfRange));
    assert_eq!(
        decode(&[5, 0, 0, 0, 0, 0, 0, 0, 1, 2]),
        Err(DecodeError::RowOutOfRange)
    );
}

#[test]
fn oversized_header_is_an_error_where_usize_is_narrow() {
    let r = read_usize(&[0, 0, 0, 0, 0, 0, 0, 1]);
    if usize::BITS == 64 {
        assert_eq!(r, Ok(1usize << 56));
    } else {
        assert_eq!(r, Err(DecodeError::HeaderOutOfRange));
    }
}

#[test]
fn long_run_of_one_byte_round_trips() {
    let input = vec![7u8; 1 << 13];
    let encoded = encode(&input);
    assert_eq!(decode(&encoded), Ok(input));
}

#[test]
fn periodic_input_round_trips() {
    let input: Vec<u8> = b"abcabcabcabc".to_vec();
    let encoded = encode(&input);
    assert_eq!(decode(&encoded), Ok(input));
}
