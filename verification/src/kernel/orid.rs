//! Content addressing by ORID (Origin Resource Identifier) with domain separation.

use vstd::prelude::*;
use crate::kernel::text::{hex_bytes, push_hex, ascii_chars, ascii_string, is_ascii_bytes, lemma_hex_bytes_ascii};

verus! {

/// SHA-256 digest of a byte string, as computed by the `sha2` crate.
pub uninterp spec fn sha256_digest(data: Seq<u8>) -> Seq<u8>;

/// Computes SHA-256 through `sha2::Sha256::digest`. The contract names the
/// result: it is `sha256_digest` of the input bytes; nothing more is claimed.
#[verifier::external_body]
fn sha256(data: &[u8]) -> (out: [u8; 32])
    ensures
        out@ == sha256_digest(data@),
{
    <sha2::Sha256 as sha2::Digest>::digest(data).into()
}

#[derive(Debug, Clone, Copy, PartialEq, Eq, Hash, Structural)]
pub enum ObjectKind {
    Entity,
    Observation,
    Claim,
    Evidence,
    Operator,
    Obligation,
    Commit,
    Artifact,
}

pub open spec fn kind_tag(kind: ObjectKind) -> Seq<u8> {
    match kind {
        ObjectKind::Entity => seq![101u8, 110u8, 116u8, 105u8, 116u8, 121u8],
        ObjectKind::Observation => seq![111u8, 98u8, 115u8, 101u8, 114u8, 118u8, 97u8, 116u8, 105u8, 111u8, 110u8],
        ObjectKind::Claim => seq![99u8, 108u8, 97u8, 105u8, 109u8],
        ObjectKind::Evidence => seq![101u8, 118u8, 105u8, 100u8, 101u8, 110u8, 99u8, 101u8],
        ObjectKind::Operator => seq![111u8, 112u8, 101u8, 114u8, 97u8, 116u8, 111u8, 114u8],
        ObjectKind::Obligation => seq![111u8, 98u8, 108u8, 105u8, 103u8, 97u8, 116u8, 105u8, 111u8, 110u8],
        ObjectKind::Commit => seq![99u8, 111u8, 109u8, 109u8, 105u8, 116u8],
        ObjectKind::Artifact => seq![97u8, 114u8, 116u8, 105u8, 102u8, 97u8, 99u8, 116u8],
    }
}

/// The domain-separation prefix `origin:<kind>:v1\0` hashed in front of the canonical bytes.
pub open spec fn spec_domain_prefix(kind: ObjectKind) -> Seq<u8> {
    seq![111u8, 114u8, 105u8, 103u8, 105u8, 110u8, 58u8] + kind_tag(kind) + seq![58u8, 118u8, 49u8, 0u8]
}

impl ObjectKind {
    pub fn domain_prefix(self) -> (out: Vec<u8>)
        ensures
            out@ == spec_domain_prefix(self),
    {
        let mut out: Vec<u8> = vec![111u8, 114u8, 105u8, 103u8, 105u8, 110u8, 58u8];
        let tag: Vec<u8> = match self {
            ObjectKind::Entity => vec![101u8, 110u8, 116u8, 105u8, 116u8, 121u8],
            ObjectKind::Observation => vec![111u8, 98u8, 115u8, 101u8, 114u8, 118u8, 97u8, 116u8, 105u8, 111u8, 110u8],
            ObjectKind::Claim => vec![99u8, 108u8, 97u8, 105u8, 109u8],
            ObjectKind::Evidence => vec![101u8, 118u8, 105u8, 100u8, 101u8, 110u8, 99u8, 101u8],
            ObjectKind::Operator => vec![111u8, 112u8, 101u8, 114u8, 97u8, 116u8, 111u8, 114u8],
            ObjectKind::Obligation => vec![111u8, 98u8, 108u8, 105u8, 103u8, 97u8, 116u8, 105u8, 111u8, 110u8],
            ObjectKind::Commit => vec![99u8, 111u8, 109u8, 109u8, 105u8, 116u8],
            ObjectKind::Artifact => vec![97u8, 114u8, 116u8, 105u8, 102u8, 97u8, 99u8, 116u8],
        };
        out.extend_from_slice(tag.as_slice());
        out.extend_from_slice(&[58u8, 118u8, 49u8, 0u8]);
        assert(out@ =~= spec_domain_prefix(self));
        out
    }
}

/// `id` is the identifier of `bytes` under `kind`.
pub open spec fn is_orid_of(id: ORID, kind: ObjectKind, bytes: Seq<u8>) -> bool {
    id.kind == kind && id.hash@ == sha256_digest(spec_domain_prefix(kind) + bytes)
}

#[derive(Debug, Clone, Copy, Eq, Hash)]
pub struct ORID {
    pub kind: ObjectKind,
    pub hash: [u8; 32],
}

impl ORID {
    /// The identifier of `canonical_bytes` under `kind`: the kind and the
    /// SHA-256 digest of the domain prefix followed by the bytes.
    pub fn compute(kind: ObjectKind, canonical_bytes: &[u8]) -> (id: ORID)
        ensures
            id.kind == kind,
            id.hash@ == sha256_digest(spec_domain_prefix(kind) + canonical_bytes@),
    {
        let mut buf = kind.domain_prefix();
        buf.extend_from_slice(canonical_bytes);
        assert(buf@ =~= spec_domain_prefix(kind) + canonical_bytes@);
        let hash = sha256(buf.as_slice());
        ORID { kind, hash }
    }
}

impl PartialEq for ORID {
    fn eq(&self, other: &ORID) -> (res: bool)
        ensures
            res == (*self == *other),
    {
        if self.kind != other.kind {
            return false;
        }
        broadcast use vstd::array::group_array_axioms;
        let mut i: usize = 0;
        while i < 32
            invariant
                i <= 32,
                forall|j: int| 0 <= j < i ==> self.hash[j] == other.hash[j],
            decreases 32 - i,
        {
            if self.hash[i] != other.hash[i] {
                assert(self.hash@[i as int] != other.hash@[i as int]);
                return false;
            }
            i = i + 1;
        }
        assert(self.hash =~= other.hash);
        true
    }
}

impl vstd::std_specs::cmp::PartialEqSpecImpl for ORID {
    open spec fn obeys_eq_spec() -> bool {
        true
    }

    open spec fn eq_spec(&self, other: &ORID) -> bool {
        *self == *other
    }
}


/// The variant name of a kind, as ASCII bytes.
pub open spec fn kind_name(kind: ObjectKind) -> Seq<u8> {
    match kind {
        ObjectKind::Entity => seq![69u8, 110u8, 116u8, 105u8, 116u8, 121u8],
        ObjectKind::Observation => seq![79u8, 98u8, 115u8, 101u8, 114u8, 118u8, 97u8, 116u8, 105u8, 111u8, 110u8],
        ObjectKind::Claim => seq![67u8, 108u8, 97u8, 105u8, 109u8],
        ObjectKind::Evidence => seq![69u8, 118u8, 105u8, 100u8, 101u8, 110u8, 99u8, 101u8],
        ObjectKind::Operator => seq![79u8, 112u8, 101u8, 114u8, 97u8, 116u8, 111u8, 114u8],
        ObjectKind::Obligation => seq![79u8, 98u8, 108u8, 105u8, 103u8, 97u8, 116u8, 105u8, 111u8, 110u8],
        ObjectKind::Commit => seq![67u8, 111u8, 109u8, 109u8, 105u8, 116u8],
        ObjectKind::Artifact => seq![65u8, 114u8, 116u8, 105u8, 102u8, 97u8, 99u8, 116u8],
    }
}

/// The display text of an ORID: `orid:<Kind>:` followed by the first eight
/// digest bytes in lowercase hexadecimal.
pub open spec fn orid_display(o: ORID) -> Seq<u8> {
    seq![111u8, 114u8, 105u8, 100u8, 58u8] + kind_name(o.kind) + seq![58u8] + hex_bytes(o.hash@.subrange(0, 8))
}

impl ORID {
    /// Appends the display text of this ORID.
    pub fn push_display(&self, out: &mut Vec<u8>)
        ensures
            final(out)@ == old(out)@ + orid_display(*self),
    {
        out.extend_from_slice(&[111u8, 114u8, 105u8, 100u8, 58u8]);
        let name: Vec<u8> = match self.kind {
            ObjectKind::Entity => vec![69u8, 110u8, 116u8, 105u8, 116u8, 121u8],
            ObjectKind::Observation => vec![79u8, 98u8, 115u8, 101u8, 114u8, 118u8, 97u8, 116u8, 105u8, 111u8, 110u8],
            ObjectKind::Claim => vec![67u8, 108u8, 97u8, 105u8, 109u8],
            ObjectKind::Evidence => vec![69u8, 118u8, 105u8, 100u8, 101u8, 110u8, 99u8, 101u8],
            ObjectKind::Operator => vec![79u8, 112u8, 101u8, 114u8, 97u8, 116u8, 111u8, 114u8],
            ObjectKind::Obligation => vec![79u8, 98u8, 108u8, 105u8, 103u8, 97u8, 116u8, 105u8, 111u8, 110u8],
            ObjectKind::Commit => vec![67u8, 111u8, 109u8, 109u8, 105u8, 116u8],
            ObjectKind::Artifact => vec![65u8, 114u8, 116u8, 105u8, 102u8, 97u8, 99u8, 116u8],
        };
        out.extend_from_slice(name.as_slice());
        out.push(58u8);
        let head = [self.hash[0], self.hash[1], self.hash[2], self.hash[3], self.hash[4], self.hash[5], self.hash[6], self.hash[7]];
        assert(head@ =~= self.hash@.subrange(0, 8));
        push_hex(&head, out);
        assert(out@ =~= old(out)@ + orid_display(*self));
    }

    /// The display text of this ORID as a string.
    pub fn to_display_string(&self) -> (s: String)
        ensures
            s@ == ascii_chars(orid_display(*self)),
    {
        let mut b: Vec<u8> = Vec::new();
        self.push_display(&mut b);
        proof {
            lemma_hex_bytes_ascii(self.hash@.subrange(0, 8));
            let d = orid_display(*self);
            let h = hex_bytes(self.hash@.subrange(0, 8));
            let pre = seq![111u8, 114u8, 105u8, 100u8, 58u8] + kind_name(self.kind) + seq![58u8];
            assert(d == pre + h);
            assert forall|i: int| 0 <= i < d.len() implies #[trigger] d[i] < 128 by {
                if i >= pre.len() {
                    assert(d[i] == h[i - pre.len()]);
                }
            }
            assert(b@ =~= d);
        }
        ascii_string(b)
    }
}

} // verus!

verus! {

/// An object has one identifier.
pub proof fn lemma_orid_unique(a: ORID, b: ORID, kind: ObjectKind, bytes: Seq<u8>)
    requires
        is_orid_of(a, kind, bytes),
        is_orid_of(b, kind, bytes),
    ensures
        a == b,
{
    broadcast use vstd::array::group_array_axioms;
    assert(a.hash@ == b.hash@);
    assert(a.hash =~= b.hash);
}

/// Byte strings compared lexicographically from position `i` on: `a` comes no later than `b`.
pub open spec fn lex_le_from(a: Seq<u8>, b: Seq<u8>, i: int) -> bool
    decreases a.len() - i,
{
    if i < 0 || i >= a.len() {
        true
    } else if i >= b.len() {
        false
    } else if a[i] < b[i] {
        true
    } else if a[i] > b[i] {
        false
    } else {
        lex_le_from(a, b, i + 1)
    }
}

/// The digest of `a` comes no later than that of `b` in lexicographic order.
pub open spec fn hash_le(a: ORID, b: ORID) -> bool {
    lex_le_from(a.hash@, b.hash@, 0)
}

proof fn lemma_lex_total(a: Seq<u8>, b: Seq<u8>, i: int)
    requires
        a.len() == b.len(),
        0 <= i,
    ensures
        lex_le_from(a, b, i) || lex_le_from(b, a, i),
    decreases a.len() - i,
{
    if i < a.len() && a[i] == b[i] {
        lemma_lex_total(a, b, i + 1);
    }
}

proof fn lemma_lex_trans(a: Seq<u8>, b: Seq<u8>, c: Seq<u8>, i: int)
    requires
        a.len() == b.len(),
        b.len() == c.len(),
        0 <= i,
        lex_le_from(a, b, i),
        lex_le_from(b, c, i),
    ensures
        lex_le_from(a, c, i),
    decreases a.len() - i,
{
    if i < a.len() && a[i] == b[i] && b[i] == c[i] {
        lemma_lex_trans(a, b, c, i + 1);
    }
}

/// Lexicographic order on digests is total and transitive.
pub proof fn lemma_hash_le_order(a: ORID, b: ORID, c: ORID)
    ensures
        hash_le(a, b) || hash_le(b, a),
        hash_le(a, b) && hash_le(b, c) ==> hash_le(a, c),
{
    lemma_lex_total(a.hash@, b.hash@, 0);
    if hash_le(a, b) && hash_le(b, c) {
        lemma_lex_trans(a.hash@, b.hash@, c.hash@, 0);
    }
}

/// Whether the digest of `a` comes no later than that of `b`.
pub fn hash_le_exec(a: &ORID, b: &ORID) -> (r: bool)
    ensures
        r == hash_le(*a, *b),
{
    let mut i: usize = 0;
    while i < 32
        invariant
            i <= 32,
            lex_le_from(a.hash@, b.hash@, 0) == lex_le_from(a.hash@, b.hash@, i as int),
        decreases 32 - i,
    {
        if a.hash[i] < b.hash[i] {
            return true;
        }
        if a.hash[i] > b.hash[i] {
            return false;
        }
        i = i + 1;
    }
    true
}

/// Sorted by digest, in lexicographic order.
pub open spec fn sorted_by_hash(s: Seq<ORID>) -> bool {
    forall|i: int, j: int| 0 <= i < j < s.len() ==> hash_le(#[trigger] s[i], #[trigger] s[j])
}

/// The identifiers sorted by digest; identifiers with the same digest keep their order.
pub fn sort_by_hash(v: Vec<ORID>) -> (out: Vec<ORID>)
    ensures
        out@.len() == v@.len(),
        out@.to_multiset() == v@.to_multiset(),
        sorted_by_hash(out@),
{
    let mut out: Vec<ORID> = Vec::new();
    let mut i: usize = 0;
    proof {
        assert(v@.subrange(0, 0) =~= out@);
    }
    while i < v.len()
        invariant
            i <= v@.len(),
            out@.len() == i,
            out@.to_multiset() == v@.subrange(0, i as int).to_multiset(),
            sorted_by_hash(out@),
        decreases v@.len() - i,
    {
        let x = v[i];
        let mut pos: usize = out.len();
        while pos > 0
            invariant
                pos <= out@.len(),
                forall|k: int| pos <= k < out@.len() ==> !hash_le(#[trigger] out@[k], x),
            ensures
                pos <= out@.len(),
                forall|k: int| pos <= k < out@.len() ==> !hash_le(#[trigger] out@[k], x),
                pos == 0 || hash_le(out@[pos - 1], x),
            decreases pos,
        {
            if hash_le_exec(&out[pos - 1], &x) {
                break;
            }
            pos = pos - 1;
        }
        let ghost o0 = out@;
        proof {
            assert forall|k: int| 0 <= k < pos implies hash_le(#[trigger] o0[k], x) by {
                if pos > 0 {
                    lemma_hash_le_order(o0[k], o0[pos - 1], x);
                    if k < pos - 1 {
                        assert(hash_le(o0[k], o0[pos - 1]));
                    }
                }
            }
        }
        out.insert(pos, x);
        proof {
            let n = out@;
            assert(n == o0.insert(pos as int, x));
            assert forall|a: int, b: int| 0 <= a < b < n.len() implies hash_le(#[trigger] n[a], #[trigger] n[b]) by {
                if b < pos {
                    assert(n[a] == o0[a] && n[b] == o0[b]);
                } else if b == pos {
                    assert(n[a] == o0[a]);
                } else if a == pos {
                    assert(n[b] == o0[b - 1]);
                    lemma_hash_le_order(x, o0[b - 1], x);
                } else if a < pos {
                    assert(n[a] == o0[a] && n[b] == o0[b - 1]);
                } else {
                    assert(n[a] == o0[a - 1] && n[b] == o0[b - 1]);
                }
            }
            broadcast use vstd::seq_lib::group_to_multiset_ensures;
            assert(n.remove(pos as int) =~= o0);
            assert(n[pos as int] == x);
            assert(o0.to_multiset() =~= n.to_multiset().remove(x));
            assert(n.to_multiset().contains(x));
            assert(n.to_multiset() =~= o0.to_multiset().insert(x));
            assert(v@.subrange(0, i + 1) =~= v@.subrange(0, i as int).push(x));
        }
        i = i + 1;
    }
    assert(v@.subrange(0, i as int) =~= v@);
    out
}

} // verus!
