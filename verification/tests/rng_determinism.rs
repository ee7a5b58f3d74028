use fastcore::rng::rng_for_stream;

#[test]
fn rng_is_deterministic_for_same_seed() {
    let mut a = rng_for_stream(1234, 0);
    let mut b = rng_for_stream(1234, 0);

    for _ in 0..16 {
        assert_eq!(a.next_u64(), b.next_u64());
    }
}

#[test]
fn rng_diverges_for_different_streams() {
    let mut a = rng_for_stream(1234, 0);
    let mut b = rng_for_stream(1234, 1);

    let mut any_diff = false;
    for _ in 0..16 {
        if a.next_u64() != b.next_u64() {
            any_diff = true;
            break;
        }
    }

    assert!(any_diff, "streams should diverge");
}

#[test]
fn fill_bytes_streams_outputs_least_significant_byte_first() {
    let mut filler = rng_for_stream(77, 3);
    let mut reader = rng_for_stream(77, 3);
    let mut bytes = [0u8; 12];
    filler.fill_bytes(&mut bytes);

    let first = reader.next_u64().to_le_bytes();
    let second = reader.next_u64().to_le_bytes();
    assert_eq!(&bytes[..8], &first[..]);
    assert_eq!(&bytes[8..], &second[..4]);
    assert_eq!(filler.next_u64(), reader.next_u64());
}
