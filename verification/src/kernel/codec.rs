//! Canonical, bounded, byte-for-byte deterministic encoding.
//!
//! Unsigned integers are written as LEB128 varints; the decoder rejects every
//! overlong or otherwise non-canonical encoding, so each value has exactly one
//! accepted byte form.

use vstd::prelude::*;
use vstd::string::StringSliceAdditionalSpecFns;

verus! {

/// 64 MiB: the default bound on a decoded length.
pub const DEFAULT_MAX_BOUND: usize = 64 * 1024 * 1024;

#[derive(Debug, Clone, PartialEq, Eq, Structural)]
pub enum CodecError {
    UnexpectedEof,
    NonCanonicalEncoding,
    BoundedLengthExceeded,
    TrailingBytes,
    InvalidUtf8,
}

impl CodecError {
    /// Human-readable description of the error.
    pub fn message(&self) -> (m: &'static str)
        ensures
            m@ == (match self {
                CodecError::UnexpectedEof => "Unexpected end of file during decoding"@,
                CodecError::NonCanonicalEncoding => "Non-canonical overlong varint encoding rejected"@,
                CodecError::BoundedLengthExceeded => "Declared length exceeds maximum allowed bound"@,
                CodecError::TrailingBytes => "Unconsumed trailing bytes found after decoding"@,
                CodecError::InvalidUtf8 => "String is not valid UTF-8"@,
            }),
    {
        match self {
            CodecError::UnexpectedEof => "Unexpected end of file during decoding",
            CodecError::NonCanonicalEncoding => "Non-canonical overlong varint encoding rejected",
            CodecError::BoundedLengthExceeded => "Declared length exceeds maximum allowed bound",
            CodecError::TrailingBytes => "Unconsumed trailing bytes found after decoding",
            CodecError::InvalidUtf8 => "String is not valid UTF-8",
        }
    }
}

/// The canonical LEB128 bytes of `v`: seven bits per byte, least significant
/// group first, continuation bit set on every byte but the last.
pub open spec fn varint_bytes(v: nat) -> Seq<u8>
    decreases v,
{
    if v < 128 {
        seq![v as u8]
    } else {
        seq![(v % 128 + 128) as u8] + varint_bytes(v / 128)
    }
}

/// The number that a byte sequence denotes when read as little-endian 7-bit groups.
pub open spec fn le7(b: Seq<u8>) -> nat
    decreases b.len(),
{
    if b.len() == 0 {
        0
    } else {
        (b[0] % 128) as nat + 128 * le7(b.drop_first())
    }
}

/// Position (relative to `st`) of the first byte without continuation bit among
/// the at most ten bytes from `st + i` on, if there is one before the input ends.
pub open spec fn terminal_from(s: Seq<u8>, st: int, i: int) -> Option<int>
    decreases 10 - i,
{
    if i >= 10 || i < 0 || st + i >= s.len() || st + i < 0 {
        None
    } else if s[st + i] < 128 {
        Some(i)
    } else {
        terminal_from(s, st, i + 1)
    }
}

/// Outcome of decoding a varint of `s` at offset `st`: the result and the offset after it.
pub open spec fn decode_varint_spec(s: Seq<u8>, st: int) -> (Result<u64, CodecError>, int) {
    match terminal_from(s, st, 0) {
        None => if s.len() - st < 10 {
            (Err(CodecError::UnexpectedEof), if st >= s.len() { st } else { s.len() as int })
        } else {
            (Err(CodecError::NonCanonicalEncoding), st + 10)
        },
        Some(i) => {
            let end = st + i + 1;
            if i > 0 && s[st + i] == 0 {
                (Err(CodecError::NonCanonicalEncoding), end)
            } else if le7(s.subrange(st, end)) > u64::MAX {
                (Err(CodecError::NonCanonicalEncoding), end)
            } else {
                (Ok(le7(s.subrange(st, end)) as u64), end)
            }
        },
    }
}

pub open spec fn pow128(n: nat) -> nat
    decreases n,
{
    if n == 0 { 1 } else { 128 * pow128((n - 1) as nat) }
}

proof fn lemma_low7(x: u64)
    ensures
        (x & 0x7f) == x % 128,
        (x >> 7u64) == x / 128,
        (x & 0x7f) < 128,
{
    assert((x & 0x7f) == x % 128) by (bit_vector);
    assert((x >> 7u64) == x / 128) by (bit_vector);
    assert((x & 0x7f) < 128) by (bit_vector);
}

proof fn lemma_set_high(b: u8)
    requires
        b < 128,
    ensures
        (b | 0x80u8) == b + 128,
{
    assert(b < 128 ==> (b | 0x80u8) == b + 128) by (bit_vector);
}

proof fn lemma_low7_u8(b: u8)
    ensures
        (b & 0x7fu8) == b % 128,
{
    assert((b & 0x7fu8) == b % 128) by (bit_vector);
}

/// Every canonical encoding ends in a byte without continuation bit, all earlier
/// bytes carry it, the last byte is nonzero unless it is the only one, and the
/// bytes denote the encoded value.
pub proof fn lemma_varint_shape(v: nat)
    ensures
        varint_bytes(v).len() >= 1,
        forall|j: int| 0 <= j < varint_bytes(v).len() - 1 ==> varint_bytes(v)[j] >= 128,
        varint_bytes(v)[varint_bytes(v).len() - 1] < 128,
        varint_bytes(v).len() > 1 ==> varint_bytes(v)[varint_bytes(v).len() - 1] != 0,
        le7(varint_bytes(v)) == v,
    decreases v,
{
    if v < 128 {
        assert(varint_bytes(v).drop_first() =~= Seq::<u8>::empty());
        assert(le7(Seq::<u8>::empty()) == 0);
    } else {
        lemma_varint_shape(v / 128);
        let t = varint_bytes(v / 128);
        let b = varint_bytes(v);
        assert(b == seq![(v % 128 + 128) as u8] + t);
        assert(b.drop_first() =~= t);
        assert(b[0] % 128 == v % 128);
        assert forall|j: int| 0 <= j < b.len() - 1 implies b[j] >= 128 by {
            if j > 0 {
                assert(b[j] == t[j - 1]);
            }
        }
        assert(b[b.len() - 1] == t[t.len() - 1]);
        assert(le7(b) == (b[0] % 128) as nat + 128 * le7(t));
        if t.len() == 1 {
            assert(v / 128 >= 1);
            assert(t[0] == (v / 128) as u8);
        }
    }
}

/// An encoding of a value below `128^n` has at most `n` bytes.
pub proof fn lemma_varint_len_bound(v: nat, n: nat)
    requires
        n >= 1,
        v < pow128(n),
    ensures
        varint_bytes(v).len() <= n,
    decreases n,
{
    if v >= 128 {
        assert(pow128(n) == 128 * pow128((n - 1) as nat));
        if n == 1 {
            assert(pow128(0) == 1);
        }
        assert(v / 128 < pow128((n - 1) as nat));
        lemma_varint_len_bound(v / 128, (n - 1) as nat);
    }
}

pub proof fn lemma_u64_fits_ten_groups(v: u64)
    ensures
        varint_bytes(v as nat).len() <= 10,
{
    reveal_with_fuel(pow128, 11);
    assert(pow128(10) == 1180591620717411303424nat);
    lemma_varint_len_bound(v as nat, 10);
}

proof fn lemma_terminal_found(s: Seq<u8>, st: int, i: int, t: int)
    requires
        0 <= st,
        0 <= i <= t < 10,
        st + t < s.len(),
        s[st + t] < 128,
        forall|k: int| st + i <= k < st + t ==> s[k] >= 128,
    ensures
        terminal_from(s, st, i) == Some(t),
    decreases t - i,
{
    if i < t {
        lemma_terminal_found(s, st, i + 1, t);
    }
}

proof fn lemma_terminal_facts(s: Seq<u8>, st: int, i: int)
    requires
        terminal_from(s, st, i) is Some,
        0 <= i,
    ensures
        ({
            let t = terminal_from(s, st, i)->0;
            &&& i <= t < 10
            &&& 0 <= st + t < s.len()
            &&& s[st + t] < 128
            &&& forall|k: int| st + i <= k < st + t ==> s[k] >= 128
        }),
    decreases 10 - i,
{
    if !(s[st + i] < 128) {
        lemma_terminal_facts(s, st, i + 1);
    }
}

proof fn lemma_le7_positive(b: Seq<u8>)
    requires
        b.len() >= 1,
        b[b.len() - 1] % 128 != 0,
    ensures
        le7(b) >= 1,
    decreases b.len(),
{
    if b.len() > 1 {
        assert(b.drop_first()[b.drop_first().len() - 1] == b[b.len() - 1]);
        lemma_le7_positive(b.drop_first());
    }
}

/// A byte string of canonical shape is the encoding of the number it denotes.
pub proof fn lemma_canonical_shape_is_encoding(b: Seq<u8>)
    requires
        b.len() >= 1,
        forall|j: int| 0 <= j < b.len() - 1 ==> b[j] >= 128,
        b[b.len() - 1] < 128,
        b.len() > 1 ==> b[b.len() - 1] != 0,
    ensures
        varint_bytes(le7(b)) == b,
    decreases b.len(),
{
    if b.len() == 1 {
        assert(b.drop_first() =~= Seq::<u8>::empty());
        assert(le7(Seq::<u8>::empty()) == 0);
        assert(le7(b) == b[0] as nat);
        assert(varint_bytes(le7(b)) =~= b);
    } else {
        let r = b.drop_first();
        assert forall|j: int| 0 <= j < r.len() - 1 implies r[j] >= 128 by {
            assert(r[j] == b[j + 1]);
        }
        assert(r[r.len() - 1] == b[b.len() - 1]);
        lemma_canonical_shape_is_encoding(r);
        lemma_le7_positive(r);
        let x = le7(r);
        let v = le7(b);
        assert(v == (b[0] - 128) as nat + 128 * x);
        assert(v % 128 == (b[0] - 128) as nat);
        assert(v / 128 == x);
        assert(varint_bytes(v) == seq![(v % 128 + 128) as u8] + varint_bytes(v / 128));
        assert(varint_bytes(v) =~= b);
    }
}

proof fn lemma_le7_suffix_le(b: Seq<u8>, k: int)
    requires
        0 <= k <= b.len(),
    ensures
        le7(b) >= le7(b.subrange(k, b.len() as int)),
    decreases k,
{
    if k == 0 {
        assert(b.subrange(0, b.len() as int) =~= b);
    } else {
        lemma_le7_suffix_le(b.drop_first(), k - 1);
        assert(b.drop_first().subrange(k - 1, b.drop_first().len() as int) =~= b.subrange(k, b.len() as int));
    }
}

/// Decoding the encoding of any `u64`, followed by anything, gives the value back
/// and consumes exactly the encoding.
pub proof fn law_varint_roundtrip(v: u64, rest: Seq<u8>)
    ensures
        decode_varint_spec(varint_bytes(v as nat) + rest, 0) == (
            Ok::<u64, CodecError>(v),
            varint_bytes(v as nat).len() as int,
        ),
{
    let b = varint_bytes(v as nat);
    let s = b + rest;
    lemma_varint_shape(v as nat);
    lemma_u64_fits_ten_groups(v);
    let t = b.len() - 1;
    assert forall|k: int| 0 + 0 <= k < 0 + t implies s[k] >= 128 by {
        assert(s[k] == b[k]);
    }
    assert(s[0 + t] == b[t]);
    lemma_terminal_found(s, 0, 0, t);
    assert(s.subrange(0, t + 1) =~= b);
}

/// Decoding at the end of any prefix the encoding of any `u64`, followed by
/// anything, gives the value back and consumes exactly the encoding.
pub proof fn law_varint_roundtrip_after(prefix: Seq<u8>, v: u64, rest: Seq<u8>)
    ensures
        decode_varint_spec(prefix + varint_bytes(v as nat) + rest, prefix.len() as int) == (
            Ok::<u64, CodecError>(v),
            (prefix.len() + varint_bytes(v as nat).len()) as int,
        ),
{
    let b = varint_bytes(v as nat);
    let s = prefix + b + rest;
    let st = prefix.len() as int;
    lemma_varint_shape(v as nat);
    lemma_u64_fits_ten_groups(v);
    let t = b.len() - 1;
    assert forall|k: int| st + 0 <= k < st + t implies s[k] >= 128 by {
        assert(s[k] == b[k - st]);
    }
    assert(s[st + t] == b[t]);
    lemma_terminal_found(s, st, 0, t);
    assert(s.subrange(st, st + t + 1) =~= b);
}

/// Decoding accepts only canonical encodings: whatever it accepts is exactly the
/// encoding of the value it returns.
pub proof fn law_varint_canonical(s: Seq<u8>, st: int)
    requires
        0 <= st,
        decode_varint_spec(s, st).0 is Ok,
    ensures
        ({
            let (r, end) = decode_varint_spec(s, st);
            &&& st < end <= s.len()
            &&& s.subrange(st, end) == varint_bytes(r->Ok_0 as nat)
        }),
{
    lemma_terminal_facts(s, st, 0);
    let t = terminal_from(s, st, 0)->0;
    let body = s.subrange(st, st + t + 1);
    assert forall|j: int| 0 <= j < body.len() - 1 implies body[j] >= 128 by {
        assert(body[j] == s[st + j]);
        assert(st + 0 <= st + j < st + t);
    }
    assert(body[body.len() - 1] == s[st + t]);
    lemma_canonical_shape_is_encoding(body);
}

/// Appends the canonical varint encoding of `value` to `out`.
pub fn encode_varint(value: u64, out: &mut Vec<u8>)
    ensures
        final(out)@ == old(out)@ + varint_bytes(value as nat),
{
    let mut v = value;
    loop
        invariant_except_break
            out@ + varint_bytes(v as nat) == old(out)@ + varint_bytes(value as nat),
        ensures
            out@ == old(out)@ + varint_bytes(value as nat),
        decreases v,
    {
        proof {
            lemma_low7(v);
        }
        let byte = (v & 0x7F) as u8;
        let next = v >> 7;
        if next != 0 {
            proof {
                lemma_set_high(byte);
            }
            let ghost before = out@;
            out.push(byte | 0x80);
            assert(varint_bytes(v as nat) == seq![(v % 128 + 128) as u8] + varint_bytes(next as nat));
            assert(out@ + varint_bytes(next as nat) =~= before + varint_bytes(v as nat));
            v = next;
        } else {
            let ghost before = out@;
            out.push(byte);
            assert(v < 128);
            assert(out@ =~= before + varint_bytes(v as nat));
            assert(out@ == old(out)@ + varint_bytes(value as nat));
            break;
        }
    }
}

/// Decodes a canonical varint at `*offset`, advancing the offset past the bytes
/// examined; overlong and out-of-range encodings are rejected.
pub fn decode_varint(slice: &[u8], offset: &mut usize) -> (res: Result<u64, CodecError>)
    ensures
        (res, *final(offset) as int) == decode_varint_spec(slice@, *old(offset) as int),
{
    let ghost s = slice@;
    let start = *offset;
    let len = slice.len();
    let mut i: usize = 0;
    let mut last: u8 = 0;
    loop
        invariant_except_break
            *offset == start + i,
        invariant
            s == slice@,
            len == s.len(),
            start == *old(offset),
            i < 10,
            i > 0 ==> start + i <= len,
            forall|k: int| start <= k < start + i ==> s[k] >= 128,
            terminal_from(s, start as int, 0) == terminal_from(s, start as int, i as int),
        ensures
            i < 10,
            start + i < len,
            *offset == start + i + 1,
            last == s[start + i],
            last < 128,
            forall|k: int| start <= k < start + i ==> s[k] >= 128,
            terminal_from(s, start as int, 0) == Some(i as int),
        decreases 10 - i,
    {
        if *offset >= len {
            assert(terminal_from(s, start as int, i as int) is None);
            return Err(CodecError::UnexpectedEof);
        }
        let byte = slice[*offset];
        *offset = *offset + 1;
        if byte < 128 {
            last = byte;
            assert(last == s[start + i]);
            break;
        }
        if i == 9 {
            assert(terminal_from(s, start as int, 10) is None);
            return Err(CodecError::NonCanonicalEncoding);
        }
        i = i + 1;
    }
    let end = start + i + 1;
    if i > 0 && last == 0 {
        return Err(CodecError::NonCanonicalEncoding);
    }
    let ghost body = s.subrange(start as int, end as int);
    let mut acc: u64 = 0;
    let mut j: usize = i + 1;
    while j > 0
        invariant
            s == slice@,
            len == s.len(),
            start == *old(offset),
            i < 10,
            terminal_from(s, start as int, 0) == Some(i as int),
            !(i > 0 && s[start + i] == 0),
            end == start + i + 1,
            end <= len,
            body == s.subrange(start as int, end as int),
            0 <= j <= i + 1,
            acc as nat == le7(s.subrange(start + j, end as int)),
            *offset == end,
        decreases j,
    {
        let b = slice[start + j - 1];
        proof {
            lemma_low7_u8(b);
            assert(s.subrange(start + j - 1, end as int).drop_first() =~= s.subrange(start + j, end as int));
        }
        let low = (b & 0x7F) as u64;
        let scaled = acc.checked_mul(128);
        match scaled {
            None => {
                proof {
                    let sub = s.subrange(start + j - 1, end as int);
                    assert(sub[0] == b);
                    assert(le7(sub) == (sub[0] % 128) as nat + 128 * le7(sub.drop_first()));
                    lemma_le7_suffix_le(body, (j - 1) as int);
                    assert(body.subrange(j - 1, body.len() as int) =~= s.subrange(start + j - 1, end as int));
                    assert(acc * 128 > u64::MAX);
                    assert(le7(sub) > u64::MAX);
                    assert(le7(body) > u64::MAX);
                }
                return Err(CodecError::NonCanonicalEncoding);
            },
            Some(m) => {
                match m.checked_add(low) {
                    None => {
                        proof {
                            let sub = s.subrange(start + j - 1, end as int);
                            assert(sub[0] == b);
                            assert(le7(sub) == (sub[0] % 128) as nat + 128 * le7(sub.drop_first()));
                            lemma_le7_suffix_le(body, (j - 1) as int);
                            assert(body.subrange(j - 1, body.len() as int) =~= s.subrange(start + j - 1, end as int));
                        }
                        return Err(CodecError::NonCanonicalEncoding);
                    },
                    Some(a) => {
                        proof {
                            let sub = s.subrange(start + j - 1, end as int);
                            assert(sub[0] == b);
                            assert(le7(sub) == (sub[0] % 128) as nat + 128 * le7(sub.drop_first()));
                        }
                        acc = a;
                    },
                }
            },
        }
        j = j - 1;
    }
    assert(s.subrange(start as int, end as int) == body);
    Ok(acc)
}

/// Appends `data` prefixed by its varint length.
pub fn encode_bytes_bounded(data: &[u8], out: &mut Vec<u8>)
    ensures
        final(out)@ == old(out)@ + varint_bytes(data@.len()) + data@,
{
    encode_varint(data.len() as u64, out);
    out.extend_from_slice(data);
}

/// Outcome of decoding a length-prefixed byte string of at most `max_len` bytes at `st`.
pub open spec fn decode_bytes_spec(s: Seq<u8>, st: int, max_len: nat) -> (Result<Seq<u8>, CodecError>, int) {
    let (r, o) = decode_varint_spec(s, st);
    match r {
        Err(e) => (Err(e), o),
        Ok(n) => if n > max_len {
            (Err(CodecError::BoundedLengthExceeded), o)
        } else if o + n > s.len() {
            (Err(CodecError::UnexpectedEof), o)
        } else {
            (Ok(s.subrange(o, o + n)), o + n)
        },
    }
}

/// Decodes a length-prefixed byte string whose declared length must not exceed `max_len`.
pub fn decode_bytes_bounded(slice: &[u8], offset: &mut usize, max_len: usize) -> (res: Result<Vec<u8>, CodecError>)
    ensures
        ({
            let (r, o) = decode_bytes_spec(slice@, *old(offset) as int, max_len as nat);
            &&& *final(offset) as int == o
            &&& match r {
                Ok(b) => res matches Ok(v) && v@ == b,
                Err(e) => res == Err::<Vec<u8>, CodecError>(e),
            }
        }),
{
    let ghost st = *offset as int;
    let n = decode_varint(slice, offset)?;
    proof {
        law_varint_canonical(slice@, st);
    }
    if n > max_len as u64 {
        return Err(CodecError::BoundedLengthExceeded);
    }
    let len = n as usize;
    if len > slice.len() - *offset {
        return Err(CodecError::UnexpectedEof);
    }
    let mut bytes: Vec<u8> = Vec::with_capacity(len);
    let start = *offset;
    let slen = slice.len();
    let mut k: usize = 0;
    while k < len
        invariant
            slen == slice@.len(),
            start + len <= slen,
            k <= len,
            bytes@ == slice@.subrange(start as int, start + k),
        decreases len - k,
    {
        bytes.push(slice[start + k]);
        k = k + 1;
        assert(bytes@ =~= slice@.subrange(start as int, start + k));
    }
    *offset = start + len;
    Ok(bytes)
}

/// Appends the UTF-8 bytes of `s` prefixed by their varint length.
pub fn encode_str_bounded(s: &str, out: &mut Vec<u8>)
    ensures
        final(out)@ == old(out)@ + varint_bytes(s.spec_bytes().len()) + s.spec_bytes(),
{
    encode_bytes_bounded(s.as_bytes(), out);
}

/// Decodes a length-prefixed UTF-8 string of at most `max_len` bytes.
pub fn decode_str_bounded(slice: &[u8], offset: &mut usize, max_len: usize) -> (res: Result<String, CodecError>)
    ensures
        ({
            let (r, o) = decode_bytes_spec(slice@, *old(offset) as int, max_len as nat);
            &&& *final(offset) as int == o
            &&& match r {
                Ok(b) => if vstd::utf8::valid_utf8(b) {
                    res matches Ok(v) && v@ == vstd::utf8::decode_utf8(b)
                } else {
                    res == Err::<String, CodecError>(CodecError::InvalidUtf8)
                },
                Err(e) => res == Err::<String, CodecError>(e),
            }
        }),
{
    let bytes = decode_bytes_bounded(slice, offset, max_len)?;
    match crate::kernel::text::utf8_to_string(bytes) {
        Some(s) => Ok(s),
        None => Err(CodecError::InvalidUtf8),
    }
}

/// Runs `decode_fn` from offset 0 and accepts its value only when it consumed
/// the whole buffer; an error of `decode_fn` is passed through unchanged.
pub fn decode_exact<T, F>(slice: &[u8], decode_fn: F) -> (res: Result<T, CodecError>)
    where
        F: FnOnce(&[u8], &mut usize) -> Result<T, CodecError>,
    requires
        forall|o: &mut usize| *o == 0 ==> call_requires(decode_fn, (slice, o)),
    ensures
        exists|o: &mut usize, r: Result<T, CodecError>|
            #![trigger call_ensures(decode_fn, (slice, o), r)]
            {
                &&& *o == 0
                &&& call_ensures(decode_fn, (slice, o), r)
                &&& res == match r {
                    Err(e) => Err(e),
                    Ok(v) => if *final(o) == slice@.len() { Ok(v) } else { Err(CodecError::TrailingBytes) },
                }
            },
{
    let mut offset: usize = 0;
    let r = decode_fn(slice, &mut offset);
    match r {
        Err(e) => Err(e),
        Ok(v) => {
            if offset != slice.len() {
                Err(CodecError::TrailingBytes)
            } else {
                Ok(v)
            }
        },
    }
}


/// Length-prefixed bytes round trip: decoding, at the end of any prefix, what
/// `encode_bytes_bounded` appended for data within the bound gives back
/// exactly that data, whatever follows, and moves past the encoding.
pub proof fn law_bytes_roundtrip_after(prefix: Seq<u8>, d: Seq<u8>, rest: Seq<u8>, max_len: nat)
    requires
        d.len() <= max_len,
        d.len() <= u64::MAX,
    ensures
        decode_bytes_spec(prefix + varint_bytes(d.len()) + d + rest, prefix.len() as int, max_len) == (
            Ok::<Seq<u8>, CodecError>(d),
            (prefix.len() + varint_bytes(d.len()).len() + d.len()) as int,
        ),
{
    let n = d.len() as u64;
    let vb = varint_bytes(d.len());
    assert(prefix + vb + d + rest =~= prefix + vb + (d + rest));
    law_varint_roundtrip_after(prefix, n, d + rest);
    let s = prefix + vb + d + rest;
    let o = prefix.len() + vb.len();
    assert(s.subrange(o as int, (o + d.len()) as int) =~= d);
}


/// A declared length above the bound is refused, right after the length.
pub proof fn law_bytes_over_bound_refused(prefix: Seq<u8>, d: Seq<u8>, rest: Seq<u8>, max_len: nat)
    requires
        d.len() > max_len,
        d.len() <= u64::MAX,
    ensures
        decode_bytes_spec(prefix + varint_bytes(d.len()) + d + rest, prefix.len() as int, max_len) == (
            Err::<Seq<u8>, CodecError>(CodecError::BoundedLengthExceeded),
            (prefix.len() + varint_bytes(d.len()).len()) as int,
        ),
{
    let vb = varint_bytes(d.len());
    assert(prefix + vb + d + rest =~= prefix + vb + (d + rest));
    law_varint_roundtrip_after(prefix, d.len() as u64, d + rest);
}

/// Fewer bytes than the declared length is an unexpected end of input.
pub proof fn law_bytes_truncated_refused(prefix: Seq<u8>, n: u64, t: Seq<u8>, max_len: nat)
    requires
        t.len() < n,
        n <= max_len,
    ensures
        decode_bytes_spec(prefix + varint_bytes(n as nat) + t, prefix.len() as int, max_len) == (
            Err::<Seq<u8>, CodecError>(CodecError::UnexpectedEof),
            (prefix.len() + varint_bytes(n as nat).len()) as int,
        ),
{
    law_varint_roundtrip_after(prefix, n, t);
    assert(prefix + varint_bytes(n as nat) + t =~= prefix + varint_bytes(n as nat) + t);
}

/// Strings round trip: the bytes of the UTF-8 encoding of a text within the
/// bound decode to those bytes, which are valid UTF-8 and decode to the text.
pub proof fn law_str_roundtrip_after(prefix: Seq<u8>, text: Seq<char>, rest: Seq<u8>, max_len: nat)
    requires
        vstd::utf8::encode_utf8(text).len() <= max_len,
        vstd::utf8::encode_utf8(text).len() <= u64::MAX,
    ensures
        ({
            let b = vstd::utf8::encode_utf8(text);
            let (r, o) = decode_bytes_spec(prefix + varint_bytes(b.len()) + b + rest, prefix.len() as int, max_len);
            &&& r == Ok::<Seq<u8>, CodecError>(b)
            &&& o == prefix.len() + varint_bytes(b.len()).len() + b.len()
            &&& vstd::utf8::valid_utf8(b)
            &&& vstd::utf8::decode_utf8(b) == text
        }),
{
    let b = vstd::utf8::encode_utf8(text);
    law_bytes_roundtrip_after(prefix, b, rest, max_len);
    vstd::utf8::encode_utf8_valid_utf8(text);
    vstd::utf8::encode_utf8_decode_utf8(text);
}

} // verus!
