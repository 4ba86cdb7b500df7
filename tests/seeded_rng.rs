use rust_hic::seeded_rng::{decimal_digits, seed_from_digest, seed_message, stream_seed};

#[test]
fn message_is_id_then_decimal_seed() {
    assert_eq!(seed_message(222, "clinical_code_test_id"), b"clinical_code_test_id222".to_vec());
    assert_eq!(seed_message(0, ""), b"0".to_vec());
    assert_eq!(seed_message(u64::MAX, "é"), "é18446744073709551615".as_bytes().to_vec());
}

#[test]
fn decimal_digits_of_edges() {
    assert_eq!(decimal_digits(0), b"0".to_vec());
    assert_eq!(decimal_digits(9), b"9".to_vec());
    assert_eq!(decimal_digits(10), b"10".to_vec());
    assert_eq!(decimal_digits(1234567890), b"1234567890".to_vec());
}

#[test]
fn seed_is_first_bytes_of_digest() {
    let digest: Vec<u8> = (0..64).collect();
    assert_eq!(seed_from_digest(&digest), (0..32).collect::<Vec<u8>>());
}

#[test]
fn stream_seed_is_a_hash_of_the_message() {
    let s1 = stream_seed(222, "clinical_code_test_id");
    let s2 = stream_seed(222, "clinical_code_test_id");
    let s3 = stream_seed(223, "clinical_code_test_id");
    let s4 = stream_seed(2, "clinical_code_test_id22");
    assert_eq!(s1.len(), 32);
    assert_eq!(s1, s2);
    assert_ne!(s1, s3);
    assert_eq!(s1, s4);
    let message = seed_message(222, "clinical_code_test_id");
    assert_ne!(s1[..24].to_vec(), message[..24].to_vec());
}
