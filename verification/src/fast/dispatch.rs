//! Implementation tiers and population counts with a bit-by-bit reference.

use vstd::prelude::*;

verus! {

/// The number of one bits of `n`.
pub open spec fn bit_count(n: nat) -> nat
    decreases n,
{
    if n == 0 { 0 } else { n % 2 + bit_count(n / 2) }
}

/// The number of one bits over a sequence of words.
pub open spec fn popcount_words(s: Seq<u64>) -> nat
    decreases s.len(),
{
    if s.len() == 0 { 0 } else { popcount_words(s.drop_last()) + bit_count(s.last() as nat) }
}

/// Two to the power `k`.
pub open spec fn p2(k: nat) -> nat
    decreases k,
{
    if k == 0 { 1 } else { 2 * p2((k - 1) as nat) }
}

proof fn lemma_bit_count_below(n: nat, k: nat)
    requires
        n < p2(k),
    ensures
        bit_count(n) <= k,
    decreases k,
{
    if k > 0 && n > 0 {
        lemma_bit_count_below(n / 2, (k - 1) as nat);
    }
}

proof fn lemma_p2_64()
    ensures
        p2(64) == 0x1_0000_0000_0000_0000,
{
    reveal_with_fuel(p2, 17);
    assert(p2(16) == 0x1_0000);
    lemma_p2_add(16, 16);
    assert(p2(32) == 0x1_0000 * 0x1_0000);
    lemma_p2_add(32, 32);
    assert(p2(64) == 0x1_0000_0000 * 0x1_0000_0000);
}

proof fn lemma_p2_add(a: nat, b: nat)
    ensures
        p2(a + b) == p2(a) * p2(b),
    decreases b,
{
    let x = p2(a);
    if b == 0 {
        assert(p2(b) == 1);
        assert(x * 1 == x) by (nonlinear_arith);
    } else {
        let b1 = (b - 1) as nat;
        lemma_p2_add(a, b1);
        let y = p2(b1);
        assert(a + b == (a + b1) + 1);
        assert(p2(a + b) == 2 * p2(a + b1));
        assert(p2(b) == 2 * y);
        assert(x * (2 * y) == 2 * (x * y)) by (nonlinear_arith);
    }
}

/// A word has at most 64 one bits.
pub proof fn lemma_word_bits(x: u64)
    ensures
        bit_count(x as nat) <= 64,
{
    lemma_p2_64();
    lemma_bit_count_below(x as nat, 64);
}

/// `u64::count_ones`: by its documentation, the number of ones in the binary representation.
pub assume_specification[ u64::count_ones ](x: u64) -> (r: u32)
    ensures
        r as nat == bit_count(x as nat),
;

/// The count of one bits of the words before `i`, step by step.
proof fn lemma_popcount_prefix(s: Seq<u64>, i: int)
    requires
        0 <= i < s.len(),
    ensures
        popcount_words(s.subrange(0, i + 1)) == popcount_words(s.subrange(0, i)) + bit_count(s[i] as nat),
        popcount_words(s.subrange(0, i + 1)) <= 64 * (i + 1),
    decreases i,
{
    assert(s.subrange(0, i + 1).drop_last() =~= s.subrange(0, i));
    lemma_word_bits(s[i]);
    if i > 0 {
        lemma_popcount_prefix(s, i - 1);
    }
}

/// The bit-by-bit count of one word, added to `count`.
fn add_bits_naive(count: u64, word: u64) -> (c: u64)
    requires
        count + bit_count(word as nat) <= u64::MAX,
    ensures
        c == count + bit_count(word as nat),
{
    let mut c = count;
    let mut v = word;
    while v > 0
        invariant
            c + bit_count(v as nat) == count + bit_count(word as nat),
            count + bit_count(word as nat) <= u64::MAX,
        decreases v,
    {
        assert(v & 1 == v % 2 && v >> 1 == v / 2) by (bit_vector);
        c = c + (v & 1);
        v = v >> 1;
    }
    c
}

/// Counts the one bits of the words, bit by bit.
pub fn count_bits_naive(data: &[u64]) -> (n: u64)
    requires
        data@.len() * 64 <= u64::MAX,
    ensures
        n == popcount_words(data@),
{
    let mut count: u64 = 0;
    let mut i: usize = 0;
    while i < data.len()
        invariant
            i <= data@.len(),
            data@.len() * 64 <= u64::MAX,
            count == popcount_words(data@.subrange(0, i as int)),
        decreases data@.len() - i,
    {
        proof {
            lemma_popcount_prefix(data@, i as int);
        }
        count = add_bits_naive(count, data[i]);
        i = i + 1;
    }
    assert(data@.subrange(0, i as int) =~= data@);
    count
}

/// Counts the one bits of the words with the processor's population count.
pub fn count_bits_fast(data: &[u64]) -> (n: u64)
    requires
        data@.len() * 64 <= u64::MAX,
    ensures
        n == popcount_words(data@),
{
    let mut count: u64 = 0;
    let mut i: usize = 0;
    while i < data.len()
        invariant
            i <= data@.len(),
            data@.len() * 64 <= u64::MAX,
            count == popcount_words(data@.subrange(0, i as int)),
        decreases data@.len() - i,
    {
        proof {
            lemma_popcount_prefix(data@, i as int);
        }
        count = count + data[i].count_ones() as u64;
        i = i + 1;
    }
    assert(data@.subrange(0, i as int) =~= data@);
    count
}

#[derive(Debug, Clone, Copy, PartialEq, Eq, Structural)]
pub enum CpuImplementation {
    Scalar,
    Avx2,
    Avx512,
}

/// The code under which a tier is cached.
pub open spec fn tier_code(t: CpuImplementation) -> u8 {
    match t {
        CpuImplementation::Scalar => 0,
        CpuImplementation::Avx2 => 1,
        CpuImplementation::Avx512 => 2,
    }
}

impl CpuImplementation {
    /// The code under which the tier is cached.
    pub fn code(self) -> (c: u8)
        ensures
            c == tier_code(self),
    {
        match self {
            CpuImplementation::Scalar => 0,
            CpuImplementation::Avx2 => 1,
            CpuImplementation::Avx512 => 2,
        }
    }

    /// The tier a cached code stands for; an unknown code means the scalar tier.
    pub fn from_code(c: u8) -> (t: CpuImplementation)
        ensures
            c == 1 ==> t == CpuImplementation::Avx2,
            c == 2 ==> t == CpuImplementation::Avx512,
            c != 1 && c != 2 ==> t == CpuImplementation::Scalar,
    {
        match c {
            1 => CpuImplementation::Avx2,
            2 => CpuImplementation::Avx512,
            _ => CpuImplementation::Scalar,
        }
    }

    /// The tier chosen from detected processor features: the vector tier needs
    /// all three of AVX2, BMI2 and POPCNT; otherwise the portable scalar tier.
    pub fn from_features(avx2: bool, bmi2: bool, popcnt: bool) -> (t: CpuImplementation)
        ensures
            t == (if avx2 && bmi2 && popcnt { CpuImplementation::Avx2 } else { CpuImplementation::Scalar }),
    {
        if avx2 && bmi2 && popcnt {
            CpuImplementation::Avx2
        } else {
            CpuImplementation::Scalar
        }
    }

    /// The scalar tier, for tests and unsupported feature sets.
    pub fn forced_scalar() -> (t: CpuImplementation)
        ensures
            t == CpuImplementation::Scalar,
    {
        CpuImplementation::Scalar
    }
}

/// A cached tier reads back as itself.
pub proof fn law_tier_code_roundtrip(t: CpuImplementation)
    ensures
        t == CpuImplementation::Scalar ==> tier_code(t) != 1 && tier_code(t) != 2,
        t == CpuImplementation::Avx2 ==> tier_code(t) == 1,
        t == CpuImplementation::Avx512 ==> tier_code(t) == 2,
{
}

pub struct FastOps;

impl FastOps {
    /// The population count of the words, on the fastest portable path.
    pub fn popcount_slice(data: &[u64]) -> (n: u64)
        requires
            data@.len() * 64 <= u64::MAX,
        ensures
            n == popcount_words(data@),
    {
        count_bits_fast(data)
    }

    /// The population count of the words, bit by bit.
    pub fn popcount_scalar(data: &[u64]) -> (n: u64)
        requires
            data@.len() * 64 <= u64::MAX,
        ensures
            n == popcount_words(data@),
    {
        count_bits_naive(data)
    }
}

} // verus!
