use idcodec::hashid_like::decode;
use idcodec::hashid_like::encode;
use idcodec::hashid_like::encode_wr;

fn next_pseudo(state: &mut u64) -> u64 {
    let mut x = *state;
    x ^= x << 13;
    x ^= x >> 7;
    x ^= x << 17;
    *state = x;
    x
}

#[test]
fn test_encode() {
    assert_eq!("c4NP", encode(12343344));
    assert_eq!("fyha61AhGYl", encode(u64::MAX));
    assert_eq!("0", encode(0));
}

#[test]
fn hashid_like_test_decode() {
    assert_eq!(Some(12343344), decode(b"c4NP"));
    assert_eq!(Some(0), decode(b"0"));
    assert_eq!(Some(u64::MAX), decode(b"fyha61AhGYl"));
}

#[test]
fn hashid_like_test_cyclic() {
    assert_eq!(Some(0), decode(encode(0).as_bytes()));
    let mut state: u64 = 0x9e3779b97f4a7c15;
    for _ in 0..1_000 {
        let i = next_pseudo(&mut state);
        let enc = encode(i);
        let dec = decode(enc.as_bytes());
        assert_eq!(Some(i), dec);
    }
}

#[test]
fn hashid_round_trip_bounds_and_small_range() {
    assert_eq!(Some(u64::MAX), decode(encode(u64::MAX).as_bytes()));
    assert_eq!(11, encode(u64::MAX).len());
    for i in 0..100_000u64 {
        assert_eq!(Some(i), decode(encode(i).as_bytes()));
    }
}

#[test]
fn encode_wr_appends() {
    let mut v: Vec<u8> = b"id=".to_vec();
    encode_wr(&mut v, 12343344);
    assert_eq!(b"id=c4NP".to_vec(), v);
    let mut z: Vec<u8> = Vec::new();
    encode_wr(&mut z, 0);
    assert_eq!(b"0".to_vec(), z);
}

#[test]
fn case_sensitive_decoding() {
    // Lowercase and uppercase letters are distinct values.
    assert_ne!(decode(b"c4NP"), decode(b"C4np"));
    assert_ne!(decode(b"a"), decode(b"A"));
    assert_eq!(Some(10), decode(b"a"));
    assert_eq!(Some(36), decode(b"A"));
}

#[test]
fn hashid_invalid_bytes_rejected() {
    assert_eq!(None, decode(b".c4NP"));
    assert_eq!(None, decode(b"c4NP "));
    assert_eq!(None, decode(b"c-4NP"));
    assert_eq!(None, decode(b"\xff"));
}

#[test]
fn hashid_overflow_rejected() {
    // Eleven of the largest symbol denote 62^11 - 1, past the 64-bit range.
    assert_eq!(None, decode(b"ZZZZZZZZZZZ"));
    assert_eq!(None, decode(b"zzzzzzzzzzzz"));
    assert_eq!(None, decode(b"000000000001"));
    // Leading (most-significant) zeros do not overflow.
    assert_eq!(Some(12343344), decode(b"c4NP000"));
}
