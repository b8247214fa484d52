//! ASCII text building blocks: decimal and hexadecimal digits and ASCII strings.

use vstd::prelude::*;
use vstd::utf8::{decode_utf8, encode_utf8, valid_utf8, is_ascii_chars};

verus! {

/// ASCII decimal digits of `n`, most significant first.
pub open spec fn dec_digits(n: nat) -> Seq<u8>
    decreases n,
{
    if n < 10 {
        seq![(48 + n) as u8]
    } else {
        dec_digits(n / 10) + seq![(48 + n % 10) as u8]
    }
}

/// ASCII text of a signed integer: a minus sign for negative values, then the digits.
pub open spec fn signed_dec(n: int) -> Seq<u8> {
    if n < 0 { seq![45u8] + dec_digits((-n) as nat) } else { dec_digits(n as nat) }
}

/// Lowercase hexadecimal digit of a value below 16.
pub open spec fn hex_digit(d: nat) -> u8 {
    if d < 10 { (48 + d) as u8 } else { (87 + d) as u8 }
}

/// Two lowercase hexadecimal digits of a byte.
pub open spec fn hex_byte(b: u8) -> Seq<u8> {
    seq![hex_digit((b / 16) as nat), hex_digit((b % 16) as nat)]
}

/// Lowercase hexadecimal text of a byte string, two digits per byte.
pub open spec fn hex_bytes(b: Seq<u8>) -> Seq<u8>
    decreases b.len(),
{
    if b.len() == 0 { Seq::empty() } else { hex_bytes(b.drop_last()) + hex_byte(b.last()) }
}

/// The characters of an ASCII byte string.
pub open spec fn ascii_chars(b: Seq<u8>) -> Seq<char> {
    b.map_values(|x: u8| x as char)
}

pub open spec fn is_ascii_bytes(b: Seq<u8>) -> bool {
    forall|i: int| 0 <= i < b.len() ==> #[trigger] b[i] < 128
}

pub proof fn lemma_dec_digits_ascii(n: nat)
    ensures
        is_ascii_bytes(dec_digits(n)),
        dec_digits(n).len() >= 1,
    decreases n,
{
    if n >= 10 {
        lemma_dec_digits_ascii(n / 10);
        let d = dec_digits(n);
        assert forall|i: int| 0 <= i < d.len() implies #[trigger] d[i] < 128 by {
            if i < dec_digits(n / 10).len() {
                assert(d[i] == dec_digits(n / 10)[i]);
            }
        }
    }
}

pub proof fn lemma_hex_bytes_ascii(b: Seq<u8>)
    ensures
        is_ascii_bytes(hex_bytes(b)),
        hex_bytes(b).len() == 2 * b.len(),
    decreases b.len(),
{
    if b.len() > 0 {
        lemma_hex_bytes_ascii(b.drop_last());
        let h = hex_bytes(b);
        let p = hex_bytes(b.drop_last());
        assert forall|i: int| 0 <= i < h.len() implies #[trigger] h[i] < 128 by {
            if i < p.len() {
                assert(h[i] == p[i]);
            }
        }
    }
}

/// ASCII bytes are valid UTF-8 and decode to the same characters.
pub proof fn lemma_ascii_utf8(b: Seq<u8>)
    requires
        is_ascii_bytes(b),
    ensures
        valid_utf8(b),
        decode_utf8(b) == ascii_chars(b),
        encode_utf8(ascii_chars(b)) == b,
{
    let c = ascii_chars(b);
    assert forall|i: int| 0 <= i < c.len() implies '\0' <= #[trigger] c[i] <= '\u{7f}' by {
        assert(b[i] < 128);
    }
    assert(is_ascii_chars(c));
    vstd::utf8::is_ascii_chars_encode_utf8(c);
    assert forall|i: int| 0 <= i < b.len() implies encode_utf8(c)[i] == b[i] by {
        assert(c[i] as u8 == encode_utf8(c)[i]);
        assert(c[i] == b[i] as char);
    }
    assert(encode_utf8(c) =~= b);
    vstd::utf8::encode_utf8_valid_utf8(c);
    vstd::utf8::encode_utf8_decode_utf8(c);
}

/// Appends the decimal digits of `n`.
pub fn push_decimal(n: u64, out: &mut Vec<u8>)
    ensures
        final(out)@ == old(out)@ + dec_digits(n as nat),
    decreases n,
{
    if n >= 10 {
        push_decimal(n / 10, out);
    }
    let d = (n % 10) as u8;
    let ghost mid = out@;
    out.push(48 + d);
    if n >= 10 {
        assert(out@ =~= old(out)@ + dec_digits(n as nat));
    } else {
        assert(out@ =~= old(out)@ + dec_digits(n as nat));
    }
}

/// Appends the decimal text of a signed 64-bit integer.
pub fn push_signed_decimal(n: i64, out: &mut Vec<u8>)
    ensures
        final(out)@ == old(out)@ + signed_dec(n as int),
{
    if n < 0 {
        out.push(45);
        let m: u64 = if n == i64::MIN { 9223372036854775808u64 } else { (-n) as u64 };
        let ghost mid = out@;
        push_decimal(m, out);
        assert(out@ =~= old(out)@ + signed_dec(n as int));
    } else {
        push_decimal(n as u64, out);
    }
}

fn hex_char(d: u8) -> (c: u8)
    requires
        d < 16,
    ensures
        c == hex_digit(d as nat),
{
    if d < 10 { 48 + d } else { 87 + d }
}

/// Appends two lowercase hexadecimal digits per byte of `bytes`.
pub fn push_hex(bytes: &[u8], out: &mut Vec<u8>)
    ensures
        final(out)@ == old(out)@ + hex_bytes(bytes@),
{
    let mut i: usize = 0;
    while i < bytes.len()
        invariant
            i <= bytes@.len(),
            out@ == old(out)@ + hex_bytes(bytes@.subrange(0, i as int)),
        decreases bytes@.len() - i,
    {
        let b = bytes[i];
        out.push(hex_char(b / 16));
        out.push(hex_char(b % 16));
        i = i + 1;
        assert(bytes@.subrange(0, i as int).drop_last() =~= bytes@.subrange(0, i - 1));
        assert(out@ =~= old(out)@ + hex_bytes(bytes@.subrange(0, i as int)));
    }
    assert(bytes@.subrange(0, i as int) =~= bytes@);
}

/// Builds a string from bytes through `String::from_utf8`; by its documentation
/// it succeeds exactly on valid UTF-8 and then holds the decoded characters.
#[verifier::external_body]
pub(crate) fn utf8_to_string(bytes: Vec<u8>) -> (res: Option<String>)
    ensures
        res is Some <==> valid_utf8(bytes@),
        res matches Some(s) ==> s@ == decode_utf8(bytes@),
{
    String::from_utf8(bytes).ok()
}

/// The string of an ASCII byte string.
pub fn ascii_string(bytes: Vec<u8>) -> (s: String)
    requires
        is_ascii_bytes(bytes@),
    ensures
        s@ == ascii_chars(bytes@),
{
    proof {
        lemma_ascii_utf8(bytes@);
    }
    match utf8_to_string(bytes) {
        Some(s) => s,
        None => String::new(),
    }
}

/// A concatenation of ASCII byte strings is ASCII.
pub proof fn lemma_ascii_concat(a: Seq<u8>, b: Seq<u8>)
    requires
        is_ascii_bytes(a),
        is_ascii_bytes(b),
    ensures
        is_ascii_bytes(a + b),
{
    assert forall|i: int| 0 <= i < (a + b).len() implies #[trigger] (a + b)[i] < 128 by {
        if i < a.len() {
            assert((a + b)[i] == a[i]);
        } else {
            assert((a + b)[i] == b[i - a.len()]);
        }
    }
}

/// The text of a signed integer is ASCII.
pub proof fn lemma_signed_dec_ascii(n: int)
    ensures
        is_ascii_bytes(signed_dec(n)),
{
    if n < 0 {
        lemma_dec_digits_ascii((-n) as nat);
        assert(is_ascii_bytes(seq![45u8]));
        lemma_ascii_concat(seq![45u8], dec_digits((-n) as nat));
    } else {
        lemma_dec_digits_ascii(n as nat);
    }
}

/// The UTF-8 bytes of a concatenation are the concatenation of the bytes.
pub proof fn lemma_encode_concat(a: Seq<char>, b: Seq<char>)
    ensures
        encode_utf8(a + b) == encode_utf8(a) + encode_utf8(b),
    decreases a.len(),
{
    if a.len() == 0 {
        assert(a + b =~= b);
    } else {
        lemma_encode_concat(a.drop_first(), b);
        assert((a + b).drop_first() =~= a.drop_first() + b);
        assert((a + b)[0] == a[0]);
    }
}

/// Appends the UTF-8 bytes of a string.
pub fn push_text(s: &String, out: &mut Vec<u8>)
    ensures
        final(out)@ == old(out)@ + encode_utf8(s@),
{
    out.extend_from_slice(s.as_str().as_bytes());
}

/// Appends the UTF-8 bytes of `s` to bytes that encode `pre`.
pub fn push_str_utf8(out: &mut Vec<u8>, s: &str, Ghost(pre): Ghost<Seq<char>>)
    requires
        old(out)@ == encode_utf8(pre),
    ensures
        final(out)@ == encode_utf8(pre + s@),
{
    out.extend_from_slice(s.as_bytes());
    proof {
        lemma_encode_concat(pre, s@);
    }
}

/// Appends the UTF-8 bytes of `s` to bytes that encode `pre`.
pub fn push_string_utf8(out: &mut Vec<u8>, s: &String, Ghost(pre): Ghost<Seq<char>>)
    requires
        old(out)@ == encode_utf8(pre),
    ensures
        final(out)@ == encode_utf8(pre + s@),
{
    push_text(s, out);
    proof {
        lemma_encode_concat(pre, s@);
    }
}

/// The empty byte string encodes the empty text.
pub proof fn lemma_encode_empty()
    ensures
        encode_utf8(Seq::<char>::empty()) == Seq::<u8>::empty(),
{
    lemma_ascii_utf8(Seq::<u8>::empty());
    assert(ascii_chars(Seq::<u8>::empty()) =~= Seq::<char>::empty());
}

/// The string whose UTF-8 bytes are `bytes`, known to encode the characters `c`.
pub(crate) fn string_of_utf8(bytes: Vec<u8>, Ghost(c): Ghost<Seq<char>>) -> (s: String)
    requires
        bytes@ == encode_utf8(c),
    ensures
        s@ == c,
{
    proof {
        vstd::utf8::encode_utf8_valid_utf8(c);
        vstd::utf8::encode_utf8_decode_utf8(c);
    }
    match utf8_to_string(bytes) {
        Some(s) => s,
        None => String::new(),
    }
}

/// A copy of a byte slice.
pub fn copy_bytes(b: &[u8]) -> (v: Vec<u8>)
    ensures
        v@ == b@,
{
    let mut v: Vec<u8> = Vec::new();
    let mut i: usize = 0;
    while i < b.len()
        invariant
            i <= b@.len(),
            v@ == b@.subrange(0, i as int),
        decreases b@.len() - i,
    {
        v.push(b[i]);
        i = i + 1;
        assert(v@ =~= b@.subrange(0, i as int));
    }
    assert(v@ =~= b@);
    v
}

} // verus!
