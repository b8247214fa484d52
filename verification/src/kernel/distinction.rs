//! Distinctions: explicit, domain-relative predicates with a declared cost.

use vstd::prelude::*;

verus! {

#[derive(Debug, Clone, PartialEq, Eq, Hash)]
pub struct DomainId(pub String);

#[derive(Debug, Clone, PartialEq, Eq, Hash)]
pub struct PredicateId(pub String);

#[derive(Debug, Clone, Copy, PartialEq, Eq, Hash, PartialOrd, Ord)]
pub struct Cost(pub u64);

#[derive(Debug, Clone, PartialEq, Eq)]
pub enum DistinctionError {
    MissingDomain,
    MissingPredicate,
    EvaluationFailed(String),
}

#[derive(Debug, Clone, PartialEq, Eq, Hash)]
pub struct Distinction {
    pub domain: DomainId,
    pub predicate: PredicateId,
    pub cost: Cost,
}

/// The Unicode `White_Space` property.
pub open spec fn is_white_space(c: char) -> bool {
    let u = c as u32;
    ||| 9 <= u <= 13
    ||| u == 32
    ||| u == 0x85
    ||| u == 0xA0
    ||| u == 0x1680
    ||| 0x2000 <= u <= 0x200A
    ||| u == 0x2028
    ||| u == 0x2029
    ||| u == 0x202F
    ||| u == 0x205F
    ||| u == 0x3000
}

/// The text without its leading whitespace.
pub open spec fn trim_start_ws(s: Seq<char>) -> Seq<char>
    decreases s.len(),
{
    if s.len() > 0 && is_white_space(s[0]) { trim_start_ws(s.drop_first()) } else { s }
}

/// The text without its trailing whitespace.
pub open spec fn trim_end_ws(s: Seq<char>) -> Seq<char>
    decreases s.len(),
{
    if s.len() > 0 && is_white_space(s.last()) { trim_end_ws(s.drop_last()) } else { s }
}

/// The text without leading and trailing whitespace.
pub open spec fn trim_ws(s: Seq<char>) -> Seq<char> {
    trim_end_ws(trim_start_ws(s))
}

/// Empty or made of whitespace only.
pub open spec fn is_blank(s: Seq<char>) -> bool {
    forall|i: int| 0 <= i < s.len() ==> is_white_space(#[trigger] s[i])
}

/// `str::trim`: by its documentation, the string slice with leading and trailing
/// whitespace removed, whitespace being the Unicode `White_Space` property.
#[verifier::external_body]
fn trim_whitespace(s: &str) -> (t: &str)
    ensures
        t@ == trim_ws(s@),
{
    s.trim()
}

proof fn lemma_trim_start(s: Seq<char>)
    ensures
        trim_start_ws(s).len() == 0 <==> is_blank(s),
        trim_start_ws(s).len() > 0 ==> !is_white_space(trim_start_ws(s)[0]),
    decreases s.len(),
{
    if s.len() > 0 && is_white_space(s[0]) {
        let t = s.drop_first();
        lemma_trim_start(t);
        if is_blank(t) {
            assert forall|i: int| 0 <= i < s.len() implies is_white_space(#[trigger] s[i]) by {
                if i > 0 {
                    assert(s[i] == t[i - 1]);
                }
            }
        }
        if is_blank(s) {
            assert forall|i: int| 0 <= i < t.len() implies is_white_space(#[trigger] t[i]) by {
                assert(t[i] == s[i + 1]);
            }
        }
    } else if s.len() > 0 {
        assert(!is_white_space(s[0]));
    }
}

proof fn lemma_trim_end(s: Seq<char>)
    ensures
        trim_end_ws(s).len() == 0 <==> is_blank(s),
        trim_end_ws(s).len() > 0 ==> trim_end_ws(s)[0] == s[0],
    decreases s.len(),
{
    if s.len() > 0 && is_white_space(s.last()) {
        let t = s.drop_last();
        lemma_trim_end(t);
        if is_blank(t) {
            assert forall|i: int| 0 <= i < s.len() implies is_white_space(#[trigger] s[i]) by {
                if i < t.len() {
                    assert(s[i] == t[i]);
                }
            }
        }
        if is_blank(s) {
            assert forall|i: int| 0 <= i < t.len() implies is_white_space(#[trigger] t[i]) by {
                assert(t[i] == s[i]);
            }
        }
    } else if s.len() > 0 {
        assert(!is_white_space(s[s.len() - 1]));
    }
}

/// Trimming leaves nothing exactly when the text is blank.
pub proof fn lemma_trim_empty_iff_blank(s: Seq<char>)
    ensures
        trim_ws(s).len() == 0 <==> is_blank(s),
{
    lemma_trim_start(s);
    let t = trim_start_ws(s);
    lemma_trim_end(t);
    if t.len() > 0 {
        assert(!is_white_space(t[0]));
        assert(!is_blank(t));
    }
}

pub(crate) fn is_blank_str(s: &str) -> (b: bool)
    ensures
        b == is_blank(s@),
{
    proof {
        lemma_trim_empty_iff_blank(s@);
    }
    trim_whitespace(s).is_empty()
}

/// The sum of the bytes.
pub open spec fn byte_sum(b: Seq<u8>) -> nat
    decreases b.len(),
{
    if b.len() == 0 { 0 } else { byte_sum(b.drop_last()) + b.last() as nat }
}

/// What a distinction says of an input: whether its bytes have an even sum.
pub open spec fn distinction_holds(d: Distinction, input: Seq<u8>) -> bool {
    byte_sum(input) % 2 == 0
}

/// The outcome of `Distinction::new`.
pub open spec fn distinction_new_result(domain: Seq<char>, predicate: Seq<char>, cost: u64) -> Result<
    (Seq<char>, Seq<char>, u64),
    DistinctionError,
> {
    if is_blank(domain) {
        Err(DistinctionError::MissingDomain)
    } else if is_blank(predicate) {
        Err(DistinctionError::MissingPredicate)
    } else {
        Ok((domain, predicate, cost))
    }
}

impl Distinction {
    /// A distinction names a non-blank domain and predicate; its cost is kept as given.
    pub fn new(domain: &str, predicate: &str, cost: u64) -> (res: Result<Distinction, DistinctionError>)
        ensures
            match distinction_new_result(domain@, predicate@, cost) {
                Ok(_) => res matches Ok(d) && d.domain.0@ == domain@ && d.predicate.0@ == predicate@ && d.cost
                    == Cost(cost),
                Err(e) => res == Err::<Distinction, DistinctionError>(e),
            },
    {
        if is_blank_str(domain) {
            return Err(DistinctionError::MissingDomain);
        }
        if is_blank_str(predicate) {
            return Err(DistinctionError::MissingPredicate);
        }
        Ok(
            Distinction {
                domain: DomainId(domain.to_owned()),
                predicate: PredicateId(predicate.to_owned()),
                cost: Cost(cost),
            },
        )
    }

    /// Whether the bytes of `input_bytes` have an even sum.
    pub fn evaluate(&self, input_bytes: &[u8]) -> (b: bool)
        ensures
            b == distinction_holds(*self, input_bytes@),
    {
        let mut even = true;
        let mut i: usize = 0;
        while i < input_bytes.len()
            invariant
                i <= input_bytes@.len(),
                even == (byte_sum(input_bytes@.subrange(0, i as int)) % 2 == 0),
            decreases input_bytes@.len() - i,
        {
            let b = input_bytes[i];
            proof {
                let p = input_bytes@.subrange(0, i as int);
                assert(input_bytes@.subrange(0, i + 1).drop_last() =~= p);
            }
            even = even == (b % 2 == 0);
            i = i + 1;
        }
        assert(input_bytes@.subrange(0, i as int) =~= input_bytes@);
        even
    }
}

/// Whether every distinction gives the two inputs the same value.
pub open spec fn equivalent_under(ds: Seq<Distinction>, a: Seq<u8>, b: Seq<u8>) -> bool {
    forall|i: int| 0 <= i < ds.len() ==> distinction_holds(#[trigger] ds[i], a) == distinction_holds(ds[i], b)
}

/// Whether two inputs are equivalent relative to a set of distinctions.
pub fn are_equivalent_under_distinctions(state_a: &[u8], state_b: &[u8], distinctions: &[Distinction]) -> (b: bool)
    ensures
        b == equivalent_under(distinctions@, state_a@, state_b@),
{
    let mut i: usize = 0;
    while i < distinctions.len()
        invariant
            i <= distinctions@.len(),
            equivalent_under(distinctions@.subrange(0, i as int), state_a@, state_b@),
        decreases distinctions@.len() - i,
    {
        if distinctions[i].evaluate(state_a) != distinctions[i].evaluate(state_b) {
            return false;
        }
        i = i + 1;
        assert forall|k: int| 0 <= k < i implies distinction_holds(
            #[trigger] distinctions@.subrange(0, i as int)[k],
            state_a@,
        ) == distinction_holds(distinctions@.subrange(0, i as int)[k], state_b@) by {
            assert(distinctions@.subrange(0, i as int)[k] == distinctions@[k]);
        }
    }
    assert(distinctions@.subrange(0, i as int) =~= distinctions@);
    true
}

/// Equivalence under distinctions is reflexive, symmetric and transitive.
pub proof fn law_equivalence_relation(ds: Seq<Distinction>, a: Seq<u8>, b: Seq<u8>, c: Seq<u8>)
    ensures
        equivalent_under(ds, a, a),
        equivalent_under(ds, a, b) ==> equivalent_under(ds, b, a),
        equivalent_under(ds, a, b) && equivalent_under(ds, b, c) ==> equivalent_under(ds, a, c),
{
}

} // verus!
