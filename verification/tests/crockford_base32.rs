use idcodec::crockford_base32::decode;
use idcodec::crockford_base32::decode_id;
use idcodec::crockford_base32::encode_id;
use idcodec::crockford_base32::encode_id_into_vec;
use idcodec::crockford_base32::encode_slow;

fn next_pseudo(state: &mut u64) -> u64 {
    let mut x = *state;
    x ^= x << 13;
    x ^= x >> 7;
    x ^= x << 17;
    *state = x;
    x
}

#[test]
fn test_encode_slow() {
    assert_eq!("gfnqb", encode_slow(12310000u64));
}

#[test]
fn test_encode_id() {
    assert_eq!("gfnqb", encode_id(12310000u64));
}

#[test]
fn crockford_base32_test_decode() {
    assert_eq!(Some(12310000u64), decode("gfnqb".as_bytes()));
    assert_eq!(Some(12310000u64), decode("GfnQb".as_bytes()));
    assert_eq!(None, decode(".gfnqb".as_bytes()));
}

#[test]
fn test_decode_id() {
    assert_eq!(Some(12310000u64), decode_id(b"gfnqb"));
    assert_eq!(Some(12310000u64), decode_id(b"GfnQb"));
    assert_eq!(None, decode_id(b".gfnqb"));
}

#[test]
fn crockford_base32_test_cyclic() {
    assert_eq!(Some(0), decode(encode_id(0).as_bytes()));
    let mut state: u64 = 0x9e3779b97f4a7c15;
    for _ in 0..1_000 {
        let i = next_pseudo(&mut state);
        let enc = encode_id(i);
        let dec = decode_id(enc.as_bytes());
        assert_eq!(Some(i), dec);
    }
}

#[test]
fn crockford_round_trip_bounds_and_small_range() {
    assert_eq!(Some(0), decode_id(encode_id(0).as_bytes()));
    assert_eq!(Some(u64::MAX), decode_id(encode_id(u64::MAX).as_bytes()));
    assert_eq!(13, encode_id(u64::MAX).len());
    for i in 0..100_000u64 {
        assert_eq!(Some(i), decode_id(encode_id(i).as_bytes()));
    }
}

#[test]
fn encode_slow_agrees_with_encode_id() {
    let mut state: u64 = 0x0123456789abcdef;
    for _ in 0..1_000 {
        let i = next_pseudo(&mut state);
        assert_eq!(encode_id(i), encode_slow(i));
    }
}

#[test]
fn encode_into_vec_appends() {
    let mut v: Vec<u8> = b"id=".to_vec();
    encode_id_into_vec(&mut v, 12310000);
    assert_eq!(b"id=gfnqb".to_vec(), v);
    let mut z: Vec<u8> = Vec::new();
    encode_id_into_vec(&mut z, 0);
    assert_eq!(b"0".to_vec(), z);
}

#[test]
fn case_insensitive_decoding() {
    assert_eq!(decode_id(b"gfnqb"), decode_id(b"GFNQB"));
    assert_eq!(decode_id(b"gfnqb"), decode_id(b"gFnQb"));
    let upper = encode_id(987654321).to_uppercase();
    assert_eq!(Some(987654321), decode_id(upper.as_bytes()));
}

#[test]
fn confusables_decode_to_same_value() {
    // 33 encodes to "11": both confusable groups can stand in.
    assert_eq!("11", encode_id(33));
    assert_eq!(Some(33), decode_id(b"11"));
    assert_eq!(Some(33), decode_id(b"Il"));
    assert_eq!(Some(33), decode_id(b"iL"));
    assert_eq!(Some(33), decode_id(b"l1"));
    // "o" and "O" stand for the digit 0.
    assert_eq!(Some(0), decode_id(b"o"));
    assert_eq!(Some(0), decode_id(b"O"));
    // 16 encodes to "g"; "g0" and "gO" both denote 16.
    assert_eq!(decode_id(b"g0"), decode_id(b"gO"));
}

#[test]
fn reserved_symbol_rejected() {
    assert_eq!(None, decode_id(b"u"));
    assert_eq!(None, decode_id(b"U"));
    assert_eq!(None, decode_id(b"gfuqb"));
    assert_eq!(None, decode(b"gfUqb"));
}

#[test]
fn crockford_invalid_bytes_rejected() {
    assert_eq!(None, decode_id(b" "));
    assert_eq!(None, decode_id(b"gfnqb!"));
    assert_eq!(None, decode_id(b"-gfnqb"));
    assert_eq!(None, decode(b"[gfnqb]"));
}

#[test]
fn crockford_overflow_rejected() {
    // Thirteen of the largest symbol denote 2^65 - 1, past the 64-bit range.
    assert_eq!(None, decode_id(b"zzzzzzzzzzzzz"));
    assert_eq!(None, decode(b"zzzzzzzzzzzzz"));
    assert_eq!(None, decode_id(b"00000000000001"));
    // Thirteen symbols still in range decode fine.
    assert_eq!(Some(u64::MAX), decode_id(b"zzzzzzzzzzzzf"));
    // Leading (most-significant) zeros do not overflow.
    assert_eq!(Some(12310000), decode_id(b"gfnqb000"));
}

#[test]
fn canonical_encoding() {
    let mut state: u64 = 0xfeedface12345678;
    for _ in 0..1_000 {
        let i = next_pseudo(&mut state);
        for &b in encode_id(i).as_bytes() {
            let canonical = b.is_ascii_digit()
                || (b.is_ascii_lowercase() && b != b'i' && b != b'l' && b != b'o' && b != b'u');
            assert!(canonical);
        }
    }
}
