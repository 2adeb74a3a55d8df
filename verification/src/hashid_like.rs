//! A base-62 codec over the alphanumeric alphabet.
//!
//! The 62 symbols are the ten digits, then the lowercase letters, then the
//! uppercase letters, in order. Encoding repeatedly divides by 62 and emits
//! the remainder's symbol, least significant first. Decoding is
//! case-sensitive: lowercase and uppercase letters are distinct values.

use vstd::prelude::*;

use crate::ascii::chars_of;
use vstd::string::StrSliceExecFns;
use vstd::string::StringExecFns;

verus! {

/// The alphabet symbol for a digit value: `'0'..='9'` for 0..=9, then
/// `'a'..='z'` for 10..=35, then `'A'..='Z'` for 36..=61.
pub open spec fn alphabet_byte(d: nat) -> u8 {
    if d < 10 {
        (48 + d) as u8  // '0'..='9'
    } else if d < 36 {
        (87 + d) as u8  // 'a'..='z'
    } else {
        (29 + d) as u8  // 'A'..='Z'
    }
}

/// The digit value of an input byte, or -1 when the byte is outside the
/// alphabet.
pub open spec fn symbol_value(b: u8) -> int {
    if 48 <= b && b <= 57 {
        b - 48
    } else if 97 <= b && b <= 122 {
        b - 87  // 'a'..='z' -> 10..=35
    } else if 65 <= b && b <= 90 {
        b - 29  // 'A'..='Z' -> 36..=61
    } else {
        -1
    }
}

/// The encoding of a value: its base-62 digits, least significant first,
/// each mapped through the alphabet. Zero encodes to the single symbol `0`.
pub open spec fn encoding(v: nat) -> Seq<u8>
    decreases v,
{
    if v < 62 {
        seq![alphabet_byte(v)]
    } else {
        seq![alphabet_byte(v % 62)] + encoding(v / 62)
    }
}

/// Whether every byte of the sequence carries a digit value.
pub open spec fn all_symbols_valid(s: Seq<u8>) -> bool {
    forall|i: int| 0 <= i < s.len() ==> symbol_value(s[i]) >= 0
}

/// The digit value of a byte, with 0 standing in for an invalid byte.
pub open spec fn digit_of(b: u8) -> nat {
    if symbol_value(b) >= 0 {
        symbol_value(b) as nat
    } else {
        0
    }
}

/// The number denoted by a sequence of symbols, least significant first.
pub open spec fn value_of(s: Seq<u8>) -> nat
    decreases s.len(),
{
    if s.len() == 0 {
        0
    } else {
        digit_of(s[0]) + 62 * value_of(s.drop_first())
    }
}

/// What decoding returns: the denoted number, provided every byte carries a
/// digit value and the number fits in 64 bits; otherwise nothing.
pub open spec fn decoded(s: Seq<u8>) -> Option<u64> {
    if all_symbols_valid(s) && value_of(s) < 0x1_0000_0000_0000_0000 {
        Some(value_of(s) as u64)
    } else {
        None
    }
}

/// The alphabet symbol for a digit value below 62.
fn alphabet_symbol(d: u64) -> (r: u8)
    requires
        d < 62,
    ensures
        r == alphabet_byte(d as nat),
{
    if d < 10 {
        (48 + d) as u8
    } else if d < 36 {
        (87 + d) as u8
    } else {
        (29 + d) as u8
    }
}

/// The digit value of an input byte, or -1 when the byte is outside the
/// alphabet.
fn symbol_value_of_byte(b: u8) -> (r: i8)
    ensures
        r as int == symbol_value(b),
{
    if 48 <= b && b <= 57 {
        (b - 48) as i8
    } else if 97 <= b && b <= 122 {
        (b - 87) as i8
    } else if 65 <= b && b <= 90 {
        (b - 29) as i8
    } else {
        -1
    }
}

/// Appends the encoding of `id` to `wr`: base-62 digits mapped through the
/// alphabet, least significant first, at least one symbol even for zero.
pub fn encode_wr(wr: &mut Vec<u8>, id: u64)
    ensures
        final(wr)@ == old(wr)@ + encoding(id as nat),
{
    let ghost orig = wr@;
    wr.push(alphabet_symbol(id % 62));
    let mut n: u64 = id / 62;
    proof {
        assert(wr@.subrange(0, orig.len() as int) =~= orig);
        assert(wr@.skip(orig.len() as int) =~= seq![alphabet_byte((id % 62) as nat)]);
        if id < 62 {
            assert(encoding(id as nat) =~= wr@.skip(orig.len() as int));
        } else {
            assert(encoding(id as nat) =~= wr@.skip(orig.len() as int) + encoding(
                (id / 62) as nat,
            ));
        }
    }
    while n != 0
        invariant
            orig.len() < wr@.len(),
            wr@.subrange(0, orig.len() as int) == orig,
            encoding(id as nat) == wr@.skip(orig.len() as int) + (if n == 0 {
                Seq::<u8>::empty()
            } else {
                encoding(n as nat)
            }),
        decreases n,
    {
        let ghost prev = wr@;
        let ghost m = n as nat;
        wr.push(alphabet_symbol(n % 62));
        n = n / 62;
        proof {
            assert(wr@.subrange(0, orig.len() as int) =~= orig);
            assert(wr@.skip(orig.len() as int) =~= prev.skip(orig.len() as int)
                + seq![alphabet_byte((m % 62) as nat)]);
            if m < 62 {
                assert(encoding(m) == seq![alphabet_byte(m)]);
                assert(m % 62 == m);
                assert(encoding(id as nat) =~= wr@.skip(orig.len() as int));
            } else {
                assert(encoding(m) == seq![alphabet_byte((m % 62) as nat)] + encoding(m / 62));
                assert(encoding(id as nat) =~= wr@.skip(orig.len() as int) + encoding(
                    (m / 62) as nat,
                ));
            }
        }
    }
    proof {
        assert(encoding(id as nat) =~= wr@.skip(orig.len() as int));
        assert(wr@ =~= orig + wr@.skip(orig.len() as int));
    }
}

/// The alphabet symbol for a digit value below 62, as a one-character
/// string slice.
fn symbol_str(d: u64) -> (r: &'static str)
    requires
        d < 62,
    ensures
        r@ == seq![alphabet_byte(d as nat) as char],
{
    let table = "0123456789abcdefghijklmnopqrstuvwxyzABCDEFGHIJKLMNOPQRSTUVWXYZ";
    proof {
        reveal_strlit("0123456789abcdefghijklmnopqrstuvwxyzABCDEFGHIJKLMNOPQRSTUVWXYZ");
        assert(table@.len() == 62);
        assert(forall|i: int| 0 <= i < table@.len() ==> (table@[i] as u32) < 128);
        assert(table.is_ascii());
        assert(table@[d as int] == alphabet_byte(d as nat) as char);
    }
    let r = table.substring_ascii(d as usize, d as usize + 1);
    proof {
        assert(r@ =~= seq![alphabet_byte(d as nat) as char]);
    }
    r
}

/// Encodes an identifier: the string of its base-62 symbols, least
/// significant first.
pub fn encode(id: u64) -> (r: String)
    ensures
        r@ == chars_of(encoding(id as nat)),
{
    let mut r = String::new();
    r.append(symbol_str(id % 62));
    let mut n: u64 = id / 62;
    proof {
        if id < 62 {
            assert(chars_of(encoding(id as nat)) =~= r@);
        } else {
            assert(chars_of(encoding(id as nat)) =~= r@ + chars_of(encoding((id / 62) as nat)));
        }
    }
    while n != 0
        invariant
            chars_of(encoding(id as nat)) == r@ + (if n == 0 {
                Seq::<char>::empty()
            } else {
                chars_of(encoding(n as nat))
            }),
        decreases n,
    {
        let ghost m = n as nat;
        r.append(symbol_str(n % 62));
        n = n / 62;
        proof {
            if m < 62 {
                assert(m % 62 == m);
                assert(chars_of(encoding(id as nat)) =~= r@);
            } else {
                assert(encoding(m) == seq![alphabet_byte((m % 62) as nat)] + encoding(m / 62));
                assert(chars_of(encoding(id as nat)) =~= r@ + chars_of(encoding((m / 62) as nat)));
            }
        }
    }
    proof {
        assert(r@ =~= chars_of(encoding(id as nat)));
    }
    r
}

/// An alphabet symbol decodes back to the digit it encodes.
proof fn lemma_symbol_round(d: nat)
    requires
        d < 62,
    ensures
        symbol_value(alphabet_byte(d)) == d,
{
}

/// The encoding of a value denotes that value, and all its symbols are
/// valid.
proof fn lemma_encoding_value(v: nat)
    ensures
        all_symbols_valid(encoding(v)),
        value_of(encoding(v)) == v,
    decreases v,
{
    if v < 62 {
        lemma_symbol_round(v);
        assert(encoding(v).drop_first() =~= Seq::<u8>::empty());
        assert(encoding(v)[0] == alphabet_byte(v));
        assert(digit_of(encoding(v)[0]) == v);
        assert(value_of(encoding(v).drop_first()) == 0);
        assert(value_of(encoding(v)) == v);
    } else {
        lemma_symbol_round(v % 62);
        lemma_encoding_value(v / 62);
        assert(encoding(v).drop_first() =~= encoding(v / 62));
        assert(encoding(v)[0] == alphabet_byte(v % 62));
        assert(digit_of(encoding(v)[0]) == v % 62);
        assert(value_of(encoding(v)) == v % 62 + 62 * (v / 62));
        assert forall|i: int| 0 <= i < encoding(v).len() implies symbol_value(
            encoding(v)[i],
        ) >= 0 by {
            if i > 0 {
                assert(encoding(v)[i] == encoding(v / 62)[i - 1]);
            }
        }
    }
}

/// Dropping a prefix of the symbols never increases the denoted number.
proof fn lemma_value_of_skip_le(s: Seq<u8>, k: int)
    requires
        0 <= k <= s.len(),
    ensures
        value_of(s.skip(k)) <= value_of(s),
    decreases k,
{
    if k == 0 {
        assert(s.skip(0) =~= s);
    } else {
        assert(s.skip(k) =~= s.drop_first().skip(k - 1));
        lemma_value_of_skip_le(s.drop_first(), k - 1);
    }
}

/// Decodes a byte string: each byte is looked up in the inverse table,
/// case-sensitively, and the values are accumulated most-significant symbol
/// first. Returns `None` when a byte is outside the alphabet or when the
/// denoted number does not fit in 64 bits.
pub fn decode(bytes: &[u8]) -> (r: Option<u64>)
    ensures
        r == decoded(bytes@),
{
    let mut id: u64 = 0;
    let mut j: usize = bytes.len();
    while j > 0
        invariant
            j <= bytes@.len(),
            id == value_of(bytes@.skip(j as int)),
            forall|i: int| j <= i < bytes@.len() ==> symbol_value(bytes@[i]) >= 0,
        decreases j,
    {
        let v: i8 = symbol_value_of_byte(bytes[j - 1]);
        if v < 0 {
            return None;
        }
        proof {
            assert(bytes@.skip(j - 1).drop_first() =~= bytes@.skip(j as int));
            assert(value_of(bytes@.skip(j - 1)) == digit_of(bytes@[j - 1]) + 62 * value_of(
                bytes@.skip(j as int),
            ));
        }
        if id > u64::MAX / 62 {
            proof {
                lemma_value_of_skip_le(bytes@, j - 1);
            }
            return None;
        }
        let shifted: u64 = id * 62;
        if (v as u64) > u64::MAX - shifted {
            proof {
                lemma_value_of_skip_le(bytes@, j - 1);
            }
            return None;
        }
        id = shifted + (v as u64);
        j = j - 1;
    }
    proof {
        assert(bytes@.skip(0) =~= bytes@);
    }
    Some(id)
}

/// 62 raised to a power.
spec fn pow62(k: nat) -> nat
    decreases k,
{
    if k == 0 {
        1
    } else {
        62 * pow62((k - 1) as nat)
    }
}

/// A value below `62^k` encodes to at most `k` symbols.
proof fn lemma_encoding_len_below(v: nat, k: nat)
    requires
        1 <= k,
        v < pow62(k),
    ensures
        encoding(v).len() <= k,
    decreases k,
{
    if v >= 62 {
        assert(pow62(k) == 62 * pow62((k - 1) as nat));
        if k == 1 {
            assert(pow62(0) == 1);
        }
        assert(62 * (v / 62) <= v);
        lemma_encoding_len_below(v / 62, (k - 1) as nat);
    }
}

/// Encoded length: every identifier encodes to between 1 and 11 symbols.
pub proof fn lemma_encoding_len(id: u64)
    ensures
        1 <= encoding(id as nat).len() <= 11,
{
    reveal_with_fuel(pow62, 12);
    assert(pow62(11) == 52036560683837093888);
    lemma_encoding_len_below(id as nat, 11);
}

/// Round trip: the encoding of every identifier decodes back to exactly
/// that identifier.
pub proof fn lemma_round_trip(id: u64)
    ensures
        decoded(encoding(id as nat)) == Some(id),
{
    lemma_encoding_value(id as nat);
}

/// Rejection: a byte string with a byte outside the alphabet decodes to
/// nothing.
pub proof fn lemma_invalid_byte_rejected(s: Seq<u8>, i: int)
    requires
        0 <= i < s.len(),
        symbol_value(s[i]) < 0,
    ensures
        decoded(s) is None,
{
}

} // verus!
