//! Key generation: the URL and the sequence number are joined as text,
//! hashed to 64 bits, and the hash's little-endian bytes are written in
//! base 62.

use vstd::prelude::*;
use std::collections::hash_map::DefaultHasher;
use std::hash::Hasher;
use vstd::bytes::{spec_u64_to_le_bytes, u64_to_le_bytes};
use vstd::std_specs::hash::DefaultHasherAdditionalSpecFns;
use vstd::string::*;
use vstd::utf8::encode_utf8;

verus! {

/// The decimal digit character of value `d`, below ten.
pub open spec fn digit_char(d: nat) -> char {
    ((d + 48) as u8) as char
}

/// The decimal text of `n`, without sign or leading zeros.
pub open spec fn decimal(n: nat) -> Seq<char>
    decreases n,
{
    if n < 10 {
        seq![digit_char(n)]
    } else {
        decimal(n / 10).push(digit_char(n % 10))
    }
}

fn digit_text(d: u32) -> (r: &'static str)
    requires
        d < 10,
    ensures
        r@ == seq![digit_char(d as nat)],
{
    proof {
        reveal_strlit("0");
        reveal_strlit("1");
        reveal_strlit("2");
        reveal_strlit("3");
        reveal_strlit("4");
        reveal_strlit("5");
        reveal_strlit("6");
        reveal_strlit("7");
        reveal_strlit("8");
        reveal_strlit("9");
    }
    match d {
        0 => "0",
        1 => "1",
        2 => "2",
        3 => "3",
        4 => "4",
        5 => "5",
        6 => "6",
        7 => "7",
        8 => "8",
        _ => "9",
    }
}

/// Appends the decimal text of `n` to `s`.
pub fn push_decimal(s: &mut String, n: u32)
    ensures
        final(s)@ == old(s)@ + decimal(n as nat),
    decreases n,
{
    if n >= 10 {
        push_decimal(s, n / 10);
    }
    s.append(digit_text(n % 10));
    assert(s@ =~= old(s)@ + decimal(n as nat));
}

/// The 64-bit hash of a text: what `DefaultHasher` yields after being fed
/// the text's UTF-8 bytes and then the terminator byte `0xff`.
pub open spec fn text_hash(t: Seq<char>) -> u64 {
    DefaultHasher::spec_finish(seq![encode_utf8(t), seq![0xffu8]])
}

/// Hashes a text with the standard library's `DefaultHasher`, feeding it
/// the same bytes that hashing a `str` or a `String` feeds it: the UTF-8
/// bytes, then the byte `0xff`, which no UTF-8 text holds and which so
/// keeps distinct texts from running into one another.
pub fn calculate_hash(t: &str) -> (r: u64)
    ensures
        r == text_hash(t@),
{
    let mut s = DefaultHasher::new();
    let bytes = t.as_bytes();
    assert(bytes@ == encode_utf8(t@));
    s.write(bytes);
    let mut terminator: Vec<u8> = Vec::new();
    terminator.push(0xffu8);
    assert(terminator@ =~= seq![0xffu8]);
    s.write(terminator.as_slice());
    assert(s@ =~= seq![encode_utf8(t@), seq![0xffu8]]);
    s.finish()
}

/// The base-62 digit of value `d`: `0`-`9`, then `A`-`Z`, then `a`-`z`.
pub open spec fn base62_char(d: nat) -> char {
    if d < 10 {
        ((d + 48) as u8) as char
    } else if d < 36 {
        ((d + 55) as u8) as char
    } else {
        ((d + 61) as u8) as char
    }
}

/// The value of a byte sequence read as a big-endian unsigned integer.
pub open spec fn be_value(b: Seq<u8>) -> nat
    decreases b.len(),
{
    if b.len() == 0 {
        0
    } else {
        be_value(b.drop_last()) * 256 + b.last() as nat
    }
}

/// The base-62 digits of `n`, least significant first; none for zero.
pub open spec fn base62_digits(n: nat) -> Seq<char>
    decreases n,
{
    if n == 0 {
        seq![]
    } else {
        seq![base62_char(n % 62)] + base62_digits(n / 62)
    }
}

/// The base-62 text of a byte buffer: the buffer behind a leading byte 1,
/// read as a big-endian number, in base-62 digits, least significant
/// first. The empty buffer gives the empty text.
pub open spec fn base62_encode(b: Seq<u8>) -> Seq<char> {
    if b.len() == 0 {
        seq![]
    } else {
        base62_digits(be_value(seq![1u8] + b))
    }
}

/// Relies on `base_62::encode`, which prefixes the buffer with the byte 1,
/// reads it as a big-endian number and writes its base-62 digits, least
/// significant first, in the alphabet `0-9A-Za-z`.
#[verifier::external_body]
fn encode_base62(b: &[u8]) -> (r: String)
    ensures
        r@ == base62_encode(b@),
{
    base_62::encode(b)
}

/// The text that is hashed for the key of sequence number `n`.
pub open spec fn key_input(url: Seq<char>, n: nat) -> Seq<char> {
    url + decimal(n)
}

/// The key minted for `url` under sequence number `n`.
pub open spec fn key_of(url: Seq<char>, n: nat) -> Seq<char> {
    base62_encode(spec_u64_to_le_bytes(text_hash(key_input(url, n))))
}

/// Mints the key for `url` under sequence number `seq`: the URL and the
/// decimal text of `seq` are joined, hashed, and the hash's little-endian
/// bytes are written in base 62.
pub fn generate_key(url: &str, seq: u32) -> (r: String)
    ensures
        r@ == key_of(url@, seq as nat),
{
    let mut text = url.to_owned();
    push_decimal(&mut text, seq);
    let hash = calculate_hash(text.as_str());
    let bytes = u64_to_le_bytes(hash);
    encode_base62(bytes.as_slice())
}

/// Distinct numbers have distinct decimal texts.
pub proof fn lemma_decimal_injective(m: nat, n: nat)
    requires
        decimal(m) == decimal(n),
    ensures
        m == n,
    decreases m + n,
{
    lemma_decimal_nonempty(m / 10);
    lemma_decimal_nonempty(n / 10);
    if m >= 10 && n >= 10 {
        assert(decimal(m).drop_last() =~= decimal(m / 10));
        assert(decimal(n).drop_last() =~= decimal(n / 10));
        lemma_decimal_injective(m / 10, n / 10);
        assert(decimal(m).last() == digit_char(m % 10));
        assert(decimal(n).last() == digit_char(n % 10));
    } else if m >= 10 {
        assert(decimal(m).len() == decimal(m / 10).len() + 1);
        assert(decimal(n).len() == 1);
    } else if n >= 10 {
        assert(decimal(n).len() == decimal(n / 10).len() + 1);
        assert(decimal(m).len() == 1);
    } else {
        assert(decimal(m)[0] == digit_char(m));
        assert(decimal(n)[0] == digit_char(n));
    }
}

/// A decimal text has at least one digit.
pub proof fn lemma_decimal_nonempty(n: nat)
    ensures
        decimal(n).len() >= 1,
    decreases n,
{
    if n >= 10 {
        lemma_decimal_nonempty(n / 10);
    }
}

/// For one URL, distinct sequence numbers give distinct hash inputs: only
/// a collision of the hash itself can give two such calls one key.
pub proof fn lemma_same_url_inputs_differ(url: Seq<char>, m: nat, n: nat)
    requires
        m != n,
    ensures
        key_input(url, m) != key_input(url, n),
{
    if key_input(url, m) == key_input(url, n) {
        assert(key_input(url, m).subrange(url.len() as int, key_input(url, m).len() as int)
            =~= decimal(m));
        assert(key_input(url, n).subrange(url.len() as int, key_input(url, n).len() as int)
            =~= decimal(n));
        lemma_decimal_injective(m, n);
    }
}

/// No base-62 digit string holds a `-`.
pub proof fn lemma_base62_no_dash(n: nat)
    ensures
        forall|j: int| 0 <= j < base62_digits(n).len() ==> base62_digits(n)[j] != '-',
    decreases n,
{
    if n != 0 {
        lemma_base62_no_dash(n / 62);
        let d = base62_digits(n);
        assert forall|j: int| 0 <= j < d.len() implies d[j] != '-' by {
            if j > 0 {
                assert(d[j] == base62_digits(n / 62)[j - 1]);
            }
        }
    }
}

/// No generated key holds a `-`.
pub proof fn lemma_key_no_dash(url: Seq<char>, n: nat)
    ensures
        forall|j: int| 0 <= j < key_of(url, n).len() ==> key_of(url, n)[j] != '-',
{
    let b = spec_u64_to_le_bytes(text_hash(key_input(url, n)));
    if b.len() != 0 {
        lemma_base62_no_dash(be_value(seq![1u8] + b));
    }
}

} // verus!
