use algs4::move_to_front::{decode, encode, move_byte_to_front};
use quickcheck::quickcheck;

#[test]
fn alphabet_is_updated_properly() {
    println!("breaking loose");
    let mut vec = vec![0, 1, 2, 3, 4, 5];
    move_byte_to_front(&mut vec, 3);
    assert_eq!(vec, vec![3, 0, 1, 2, 4, 5]);
}

fn try_encode_and_decode_input(input: Vec<u8>) -> bool {
    let encoded = encode(&input);
    let decoded = decode(&encoded);
    decoded == input
}

#[test]
fn move_to_front_can_encode_and_decode_a_string_with_no_repeating_chars() {
    assert!(try_encode_and_decode_input((0..10).collect()));
}

#[test]
fn move_to_front_can_encode_and_decode_arbitrary_inputs() {
    quickcheck(try_encode_and_decode_input as fn(Vec<u8>) -> bool);
}

#[test]
fn run_of_one_byte_codes_to_zeros() {
    let input = vec![65u8; 10];
    assert_eq!(encode(&input), vec![65, 0, 0, 0, 0, 0, 0, 0, 0, 0]);
    assert_eq!(decode(&[65, 0, 0, 0, 0, 0, 0, 0, 0, 0]), input);
}

#[test]
fn highest_byte_is_in_the_alphabet() {
    assert_eq!(encode(&[255, 255, 0]), vec![255, 0, 1]);
    assert_eq!(decode(&[255, 0, 1]), vec![255, 255, 0]);
}

#[test]
fn empty_stream_codes_to_nothing() {
    assert!(encode(&[]).is_empty());
    assert!(decode(&[]).is_empty());
}

#[test]
fn coding_keeps_the_length() {
    let input = b"bananas and abracadabra".to_vec();
    assert_eq!(encode(&input).len(), input.len());
    assert_eq!(encode(b"caab"), vec![99, 98, 0, 99]);
}

#[test]
fn full_pipeline_round_trips() {
    let input = b"ABRACADABRA! ABRACADABRA!".to_vec();
    let compressed = algs4::move_to_front::encode(&algs4::burrows_wheeler_transform::encode(&input));
    let restored = algs4::burrows_wheeler_transform::decode(&decode(&compressed)).unwrap();
    assert_eq!(restored, input);
}
