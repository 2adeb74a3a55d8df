//! A base-32 codec over Crockford's alphabet.
//!
//! The 32 symbols are `0123456789abcdefghjkmnpqrstvwxyz`: the ten digits and
//! the lowercase letters with `i`, `l`, `o` and `u` left out. Encoding takes
//! the value five bits at a time, least-significant chunk first. Decoding is
//! case-insensitive and accepts the confusable letters `O` (for `0`), `I` and
//! `L` (for `1`); `U` carries no value and is rejected.

use vstd::prelude::*;

use crate::ascii::chars_of;
use vstd::string::StrSliceExecFns;
use vstd::string::StringExecFns;

verus! {

/// The alphabet symbol for a digit value: `'0'..='9'` for 0..=9, then the
/// lowercase letters in order, skipping `i`, `l`, `o` and `u`.
pub open spec fn alphabet_byte(d: nat) -> u8 {
    if d < 10 {
        (48 + d) as u8  // '0'..='9'
    } else if d < 18 {
        (87 + d) as u8  // 'a'..='h'
    } else if d < 20 {
        (88 + d) as u8  // 'j', 'k'
    } else if d < 22 {
        (89 + d) as u8  // 'm', 'n'
    } else if d < 27 {
        (90 + d) as u8  // 'p'..='t'
    } else {
        (91 + d) as u8  // 'v'..='z'
    }
}

/// Case folding on ASCII bytes: an uppercase letter becomes lowercase,
/// anything else is unchanged.
pub open spec fn fold_byte(b: u8) -> u8 {
    if 65 <= b && b <= 90 {
        (b + 32) as u8
    } else {
        b
    }
}

/// The digit value of an input byte, or -1 when the byte carries none.
/// Uppercase and lowercase letters count alike; `o` stands for 0, `i` and
/// `l` stand for 1, and `u` is reserved and carries no value.
pub open spec fn symbol_value(b: u8) -> int {
    let c = fold_byte(b);
    if 48 <= c && c <= 57 {
        c - 48
    } else if 97 <= c && c <= 104 {
        c - 87  // 'a'..='h' -> 10..=17
    } else if c == 105 || c == 108 {
        1  // 'i', 'l' -> 1
    } else if c == 106 || c == 107 {
        c - 88  // 'j', 'k' -> 18, 19
    } else if c == 109 || c == 110 {
        c - 89  // 'm', 'n' -> 20, 21
    } else if c == 111 {
        0  // 'o' -> 0
    } else if 112 <= c && c <= 116 {
        c - 90  // 'p'..='t' -> 22..=26
    } else if 118 <= c && c <= 122 {
        c - 91  // 'v'..='z' -> 27..=31
    } else {
        -1  // includes the reserved 'u'
    }
}

/// The encoding of a value: its base-32 digits, least significant first,
/// each mapped through the alphabet. Zero encodes to the single symbol `0`.
pub open spec fn encoding(v: nat) -> Seq<u8>
    decreases v,
{
    if v < 32 {
        seq![alphabet_byte(v)]
    } else {
        seq![alphabet_byte(v % 32)] + encoding(v / 32)
    }
}

/// Whether every byte of the sequence carries a digit value.
pub open spec fn all_symbols_valid(s: Seq<u8>) -> bool {
    forall|i: int| 0 <= i < s.len() ==> symbol_value(s[i]) >= 0
}

/// The digit value of a byte, with 0 standing in for an invalid byte.
pub open spec fn digit_of(b: u8) -> nat {
    if symbol_value(b) >= 0 {
        symbol_value(b) as nat
    } else {
        0
    }
}

/// The number denoted by a sequence of symbols, least significant first.
pub open spec fn value_of(s: Seq<u8>) -> nat
    decreases s.len(),
{
    if s.len() == 0 {
        0
    } else {
        digit_of(s[0]) + 32 * value_of(s.drop_first())
    }
}

/// What decoding returns: the denoted number, provided every byte carries a
/// digit value and the number fits in 64 bits; otherwise nothing.
pub open spec fn decoded(s: Seq<u8>) -> Option<u64> {
    if all_symbols_valid(s) && value_of(s) < 0x1_0000_0000_0000_0000 {
        Some(value_of(s) as u64)
    } else {
        None
    }
}

/// The alphabet symbol for a digit value below 32.
fn alphabet_symbol(d: u64) -> (r: u8)
    requires
        d < 32,
    ensures
        r == alphabet_byte(d as nat),
{
    if d < 10 {
        (48 + d) as u8
    } else if d < 18 {
        (87 + d) as u8
    } else if d < 20 {
        (88 + d) as u8
    } else if d < 22 {
        (89 + d) as u8
    } else if d < 27 {
        (90 + d) as u8
    } else {
        (91 + d) as u8
    }
}

/// The digit value of an input byte, or -1 when the byte carries none.
fn symbol_value_of_byte(b: u8) -> (r: i8)
    ensures
        r as int == symbol_value(b),
{
    let c: u8 = if 65 <= b && b <= 90 {
        b + 32
    } else {
        b
    };
    if 48 <= c && c <= 57 {
        (c - 48) as i8
    } else if 97 <= c && c <= 104 {
        (c - 87) as i8
    } else if c == 105 || c == 108 {
        1
    } else if c == 106 || c == 107 {
        (c - 88) as i8
    } else if c == 109 || c == 110 {
        (c - 89) as i8
    } else if c == 111 {
        0
    } else if 112 <= c && c <= 116 {
        (c - 90) as i8
    } else if 118 <= c && c <= 122 {
        (c - 91) as i8
    } else {
        -1
    }
}

/// Appends the encoding of `id` to `vec`: base-32 digits mapped through the
/// alphabet, least significant first, at least one symbol even for zero.
pub fn encode_id_into_vec(vec: &mut Vec<u8>, id: u64)
    ensures
        final(vec)@ == old(vec)@ + encoding(id as nat),
{
    let ghost orig = vec@;
    vec.push(alphabet_symbol(id % 32));
    let mut n: u64 = id / 32;
    proof {
        assert(vec@.subrange(0, orig.len() as int) =~= orig);
        assert(vec@.skip(orig.len() as int) =~= seq![alphabet_byte((id % 32) as nat)]);
        if id < 32 {
            assert(encoding(id as nat) =~= vec@.skip(orig.len() as int));
        } else {
            assert(encoding(id as nat) =~= vec@.skip(orig.len() as int) + encoding(
                (id / 32) as nat,
            ));
        }
    }
    while n != 0
        invariant
            orig.len() < vec@.len(),
            vec@.subrange(0, orig.len() as int) == orig,
            encoding(id as nat) == vec@.skip(orig.len() as int) + (if n == 0 {
                Seq::<u8>::empty()
            } else {
                encoding(n as nat)
            }),
        decreases n,
    {
        let ghost prev = vec@;
        let ghost m = n as nat;
        vec.push(alphabet_symbol(n % 32));
        n = n / 32;
        proof {
            assert(vec@.subrange(0, orig.len() as int) =~= orig);
            assert(vec@.skip(orig.len() as int) =~= prev.skip(orig.len() as int)
                + seq![alphabet_byte((m % 32) as nat)]);
            if m < 32 {
                assert(encoding(m) == seq![alphabet_byte(m)]);
                assert(m % 32 == m);
                assert(encoding(id as nat) =~= vec@.skip(orig.len() as int));
            } else {
                assert(encoding(m) == seq![alphabet_byte((m % 32) as nat)] + encoding(m / 32));
                assert(encoding(id as nat) =~= vec@.skip(orig.len() as int) + encoding(
                    (m / 32) as nat,
                ));
            }
        }
    }
    proof {
        assert(encoding(id as nat) =~= vec@.skip(orig.len() as int));
        assert(vec@ =~= orig + vec@.skip(orig.len() as int));
    }
}

/// A byte the encoder may emit: a digit or a lowercase letter other than
/// `i`, `l`, `o`, `u`.
pub open spec fn canonical_byte(b: u8) -> bool {
    (48 <= b && b <= 57) || (97 <= b && b <= 122 && b != 105 && b != 108 && b != 111 && b != 117)
}

/// Every byte of an encoding is canonical: never an uppercase letter, never
/// a confusable symbol.
proof fn lemma_encoding_bytes_canonical(v: nat)
    ensures
        forall|i: int| 0 <= i < encoding(v).len() ==> canonical_byte(encoding(v)[i]),
    decreases v,
{
    if v >= 32 {
        lemma_encoding_bytes_canonical(v / 32);
        assert forall|i: int| 0 <= i < encoding(v).len() implies canonical_byte(
            encoding(v)[i],
        ) by {
            if i > 0 {
                assert(encoding(v)[i] == encoding(v / 32)[i - 1]);
            }
        }
    }
}

/// A canonical symbol decodes back to the digit it encodes.
proof fn lemma_symbol_round(d: nat)
    requires
        d < 32,
    ensures
        symbol_value(alphabet_byte(d)) == d,
{
}

/// The encoding of a value denotes that value, and all its symbols are
/// valid.
proof fn lemma_encoding_value(v: nat)
    ensures
        all_symbols_valid(encoding(v)),
        value_of(encoding(v)) == v,
    decreases v,
{
    if v < 32 {
        lemma_symbol_round(v);
        assert(encoding(v).drop_first() =~= Seq::<u8>::empty());
        assert(encoding(v)[0] == alphabet_byte(v));
        assert(digit_of(encoding(v)[0]) == v);
        assert(value_of(encoding(v).drop_first()) == 0);
        assert(value_of(encoding(v)) == v);
    } else {
        lemma_symbol_round(v % 32);
        lemma_encoding_value(v / 32);
        assert(encoding(v).drop_first() =~= encoding(v / 32));
        assert(encoding(v)[0] == alphabet_byte(v % 32));
        assert(digit_of(encoding(v)[0]) == v % 32);
        assert(value_of(encoding(v)) == v % 32 + 32 * (v / 32));
        assert forall|i: int| 0 <= i < encoding(v).len() implies symbol_value(
            encoding(v)[i],
        ) >= 0 by {
            if i > 0 {
                assert(encoding(v)[i] == encoding(v / 32)[i - 1]);
            }
        }
    }
}

/// Dropping a prefix of the symbols never increases the denoted number.
proof fn lemma_value_of_skip_le(s: Seq<u8>, k: int)
    requires
        0 <= k <= s.len(),
    ensures
        value_of(s.skip(k)) <= value_of(s),
    decreases k,
{
    if k == 0 {
        assert(s.skip(0) =~= s);
    } else {
        assert(s.skip(k) =~= s.drop_first().skip(k - 1));
        lemma_value_of_skip_le(s.drop_first(), k - 1);
    }
}

/// Decodes a byte string: each byte is case-folded and looked up in the
/// inverse table (with `O` counting as `0`, and `I` and `L` as `1`); the
/// values are accumulated most-significant symbol first. Returns `None` when
/// a byte carries no value (including the reserved `U`) or when the denoted
/// number does not fit in 64 bits.
pub fn decode_id(bytes: &[u8]) -> (r: Option<u64>)
    ensures
        r == decoded(bytes@),
{
    let mut id: u64 = 0;
    let mut j: usize = bytes.len();
    while j > 0
        invariant
            j <= bytes@.len(),
            id == value_of(bytes@.skip(j as int)),
            forall|i: int| j <= i < bytes@.len() ==> symbol_value(bytes@[i]) >= 0,
        decreases j,
    {
        let v: i8 = symbol_value_of_byte(bytes[j - 1]);
        if v < 0 {
            return None;
        }
        proof {
            assert(bytes@.skip(j - 1).drop_first() =~= bytes@.skip(j as int));
            assert(value_of(bytes@.skip(j - 1)) == digit_of(bytes@[j - 1]) + 32 * value_of(
                bytes@.skip(j as int),
            ));
        }
        if id > u64::MAX / 32 {
            proof {
                lemma_value_of_skip_le(bytes@, j - 1);
            }
            return None;
        }
        id = id * 32 + (v as u64);
        j = j - 1;
    }
    proof {
        assert(bytes@.skip(0) =~= bytes@);
    }
    Some(id)
}

/// Decodes a byte string. The accepted inputs and the result are exactly
/// those of [`decode_id`]; the two names share one canonical decoding.
pub fn decode(bytes: &[u8]) -> (r: Option<u64>)
    ensures
        r == decoded(bytes@),
{
    decode_id(bytes)
}

/// The alphabet symbol for a digit value below 32, as a one-character
/// string slice.
fn symbol_str(d: u64) -> (r: &'static str)
    requires
        d < 32,
    ensures
        r@ == seq![alphabet_byte(d as nat) as char],
{
    let table = "0123456789abcdefghjkmnpqrstvwxyz";
    proof {
        reveal_strlit("0123456789abcdefghjkmnpqrstvwxyz");
        assert(table@.len() == 32);
        assert(forall|i: int| 0 <= i < table@.len() ==> (table@[i] as u32) < 128);
        assert(table.is_ascii());
        assert(table@[d as int] == alphabet_byte(d as nat) as char);
    }
    let r = table.substring_ascii(d as usize, d as usize + 1);
    proof {
        assert(r@ =~= seq![alphabet_byte(d as nat) as char]);
    }
    r
}

/// Encodes an identifier: the string of its base-32 symbols, least
/// significant first, always lowercase and never a confusable letter.
pub fn encode_id(id: u64) -> (r: String)
    ensures
        r@ == chars_of(encoding(id as nat)),
{
    let mut r = String::new();
    r.append(symbol_str(id % 32));
    let mut n: u64 = id / 32;
    proof {
        if id < 32 {
            assert(chars_of(encoding(id as nat)) =~= r@);
        } else {
            assert(chars_of(encoding(id as nat)) =~= r@ + chars_of(encoding((id / 32) as nat)));
        }
    }
    while n != 0
        invariant
            chars_of(encoding(id as nat)) == r@ + (if n == 0 {
                Seq::<char>::empty()
            } else {
                chars_of(encoding(n as nat))
            }),
        decreases n,
    {
        let ghost m = n as nat;
        r.append(symbol_str(n % 32));
        n = n / 32;
        proof {
            if m < 32 {
                assert(m % 32 == m);
                assert(chars_of(encoding(id as nat)) =~= r@);
            } else {
                assert(encoding(m) == seq![alphabet_byte((m % 32) as nat)] + encoding(m / 32));
                assert(chars_of(encoding(id as nat)) =~= r@ + chars_of(encoding((m / 32) as nat)));
            }
        }
    }
    proof {
        assert(r@ =~= chars_of(encoding(id as nat)));
    }
    r
}

/// Encodes an identifier by chunking its binary representation five bits at
/// a time, low bits first. Produces the same string as [`encode_id`].
pub fn encode_slow(id: u64) -> (r: String)
    ensures
        r@ == chars_of(encoding(id as nat)),
{
    let mut r = String::new();
    proof {
        lemma_five_bit_chunk(id);
    }
    r.append(symbol_str(id & 31));
    let mut n: u64 = id >> 5;
    proof {
        if id < 32 {
            assert(chars_of(encoding(id as nat)) =~= r@);
        } else {
            assert(chars_of(encoding(id as nat)) =~= r@ + chars_of(encoding((id / 32) as nat)));
        }
    }
    while n != 0
        invariant
            chars_of(encoding(id as nat)) == r@ + (if n == 0 {
                Seq::<char>::empty()
            } else {
                chars_of(encoding(n as nat))
            }),
        decreases n,
    {
        let ghost m = n as nat;
        proof {
            lemma_five_bit_chunk(n);
        }
        r.append(symbol_str(n & 31));
        n = n >> 5;
        proof {
            if m < 32 {
                assert(m % 32 == m);
                assert(chars_of(encoding(id as nat)) =~= r@);
            } else {
                assert(encoding(m) == seq![alphabet_byte((m % 32) as nat)] + encoding(m / 32));
                assert(chars_of(encoding(id as nat)) =~= r@ + chars_of(encoding((m / 32) as nat)));
            }
        }
    }
    proof {
        assert(r@ =~= chars_of(encoding(id as nat)));
    }
    r
}

/// Masking the low five bits is reduction modulo 32, and shifting right by
/// five is division by 32.
proof fn lemma_five_bit_chunk(x: u64)
    by (bit_vector)
    ensures
        x & 31 == x % 32,
        x >> 5 == x / 32,
        x & 31 < 32,
{
}

/// 32 raised to a power.
spec fn pow32(k: nat) -> nat
    decreases k,
{
    if k == 0 {
        1
    } else {
        32 * pow32((k - 1) as nat)
    }
}

/// A value below `32^k` encodes to at most `k` symbols.
proof fn lemma_encoding_len_below(v: nat, k: nat)
    requires
        1 <= k,
        v < pow32(k),
    ensures
        encoding(v).len() <= k,
    decreases k,
{
    if v >= 32 {
        assert(pow32(k) == 32 * pow32((k - 1) as nat));
        if k == 1 {
            assert(pow32(0) == 1);
        }
        assert(32 * (v / 32) <= v);
        lemma_encoding_len_below(v / 32, (k - 1) as nat);
    }
}

/// Encoded length: every identifier encodes to between 1 and 13 symbols.
pub proof fn lemma_encoding_len(id: u64)
    ensures
        1 <= encoding(id as nat).len() <= 13,
{
    reveal_with_fuel(pow32, 14);
    assert(pow32(13) == 0x2_0000_0000_0000_0000);
    lemma_encoding_len_below(id as nat, 13);
}

/// Round trip: the encoding of every identifier decodes back to exactly
/// that identifier.
pub proof fn lemma_round_trip(id: u64)
    ensures
        decoded(encoding(id as nat)) == Some(id),
{
    lemma_encoding_value(id as nat);
}

/// Canonical encoding: the encoder only emits digits and lowercase
/// letters, and never the confusable `i`, `l`, `o` or the reserved `u`.
pub proof fn lemma_encoding_canonical(id: u64)
    ensures
        forall|i: int|
            0 <= i < encoding(id as nat).len() ==> canonical_byte(encoding(id as nat)[i]),
{
    lemma_encoding_bytes_canonical(id as nat);
}

/// Two byte strings whose symbols carry the same values decode alike.
proof fn lemma_value_congruence(s: Seq<u8>, t: Seq<u8>)
    requires
        s.len() == t.len(),
        forall|i: int| 0 <= i < s.len() ==> symbol_value(s[i]) == symbol_value(t[i]),
    ensures
        all_symbols_valid(s) == all_symbols_valid(t),
        value_of(s) == value_of(t),
    decreases s.len(),
{
    if s.len() > 0 {
        assert forall|i: int|
            0 <= i < s.drop_first().len() implies symbol_value(s.drop_first()[i]) == symbol_value(
            t.drop_first()[i],
        ) by {
            assert(s.drop_first()[i] == s[i + 1]);
            assert(t.drop_first()[i] == t[i + 1]);
        }
        lemma_value_congruence(s.drop_first(), t.drop_first());
        if all_symbols_valid(s) {
            assert forall|i: int| 0 <= i < t.len() implies symbol_value(t[i]) >= 0 by {
                assert(symbol_value(s[i]) >= 0);
            }
        }
        if all_symbols_valid(t) {
            assert forall|i: int| 0 <= i < s.len() implies symbol_value(s[i]) >= 0 by {
                assert(symbol_value(t[i]) >= 0);
            }
        }
    } else {
        assert(all_symbols_valid(s));
        assert(all_symbols_valid(t));
    }
}

/// The uppercase form of an ASCII byte string: each lowercase letter raised,
/// every other byte unchanged.
pub open spec fn upper_ascii(s: Seq<u8>) -> Seq<u8> {
    s.map_values(
        |b: u8|
            if 97 <= b && b <= 122 {
                (b - 32) as u8
            } else {
                b
            },
    )
}

/// The lowercase form of an ASCII byte string: each uppercase letter
/// lowered, every other byte unchanged.
pub open spec fn lower_ascii(s: Seq<u8>) -> Seq<u8> {
    s.map_values(
        |b: u8|
            if 65 <= b && b <= 90 {
                (b + 32) as u8
            } else {
                b
            },
    )
}

/// Case insensitivity: a byte string, its uppercase form and its lowercase
/// form all decode alike.
pub proof fn lemma_case_insensitive(s: Seq<u8>)
    ensures
        decoded(upper_ascii(s)) == decoded(s),
        decoded(lower_ascii(s)) == decoded(s),
{
    lemma_value_congruence(upper_ascii(s), s);
    lemma_value_congruence(lower_ascii(s), s);
}

/// Whether two bytes are interchangeable on decode: equal, or both standing
/// for 0 (`0`, `O`, `o`), or both standing for 1 (`1`, `I`, `i`, `L`, `l`).
pub open spec fn confusable_pair(a: u8, b: u8) -> bool {
    ||| a == b
    ||| ((a == 48 || a == 79 || a == 111) && (b == 48 || b == 79 || b == 111))
    ||| ((a == 49 || a == 73 || a == 105 || a == 76 || a == 108) && (b == 49 || b == 73 || b
        == 105 || b == 76 || b == 108))
}

/// Confusable acceptance: substituting `O` for `0`, or `I`/`L` for `1`, in
/// any mix of cases, leaves the decoded value unchanged.
pub proof fn lemma_confusables_accepted(s: Seq<u8>, t: Seq<u8>)
    requires
        s.len() == t.len(),
        forall|i: int| 0 <= i < s.len() ==> confusable_pair(s[i], t[i]),
    ensures
        decoded(s) == decoded(t),
{
    assert forall|i: int| 0 <= i < s.len() implies symbol_value(s[i]) == symbol_value(t[i]) by {
        assert(confusable_pair(s[i], t[i]));
    }
    lemma_value_congruence(s, t);
}

/// Rejection: a byte string with a byte outside the alphabet decodes to
/// nothing.
pub proof fn lemma_invalid_byte_rejected(s: Seq<u8>, i: int)
    requires
        0 <= i < s.len(),
        symbol_value(s[i]) < 0,
    ensures
        decoded(s) is None,
{
}

/// Reserved symbol rejection: a byte string containing `U` or `u` decodes
/// to nothing.
pub proof fn lemma_reserved_byte_rejected(s: Seq<u8>, i: int)
    requires
        0 <= i < s.len(),
        s[i] == 85 || s[i] == 117,
    ensures
        decoded(s) is None,
{
    lemma_invalid_byte_rejected(s, i);
}

} // verus!
