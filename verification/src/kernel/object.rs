//! The seven core objects and their canonical byte encodings.
//!
//! The same semantic object always yields the same bytes: strings and byte
//! strings are prefixed by their length as a big-endian u64, integers are
//! big-endian, identifiers contribute their 32 digest bytes.

use vstd::prelude::*;
use vstd::string::StringSliceAdditionalSpecFns;
use vstd::utf8::encode_utf8;
use crate::kernel::causal_status::{causal_code, CausalStatus};
use crate::kernel::orid::ORID;
use crate::kernel::status::{status_code, Status};

verus! {

/// Big-endian bytes of a u64.
pub open spec fn be64(v: u64) -> Seq<u8> {
    seq![
        (v >> 56u64) as u8,
        (v >> 48u64) as u8,
        (v >> 40u64) as u8,
        (v >> 32u64) as u8,
        (v >> 24u64) as u8,
        (v >> 16u64) as u8,
        (v >> 8u64) as u8,
        v as u8,
    ]
}

/// A byte string prefixed by its length as a big-endian u64.
pub open spec fn length_prefixed(b: Seq<u8>) -> Seq<u8> {
    be64(b.len() as u64) + b
}

/// The UTF-8 bytes of a string, length-prefixed.
pub open spec fn prefixed_text(s: Seq<char>) -> Seq<u8> {
    length_prefixed(encode_utf8(s))
}

/// The digest bytes of a sequence of identifiers, one after the other.
pub open spec fn hash_concat(ids: Seq<ORID>) -> Seq<u8>
    decreases ids.len(),
{
    if ids.len() == 0 {
        Seq::empty()
    } else {
        hash_concat(ids.drop_last()) + ids.last().hash@
    }
}

/// Appends the big-endian bytes of `v`.
pub fn push_be64(v: u64, out: &mut Vec<u8>)
    ensures
        final(out)@ == old(out)@ + be64(v),
{
    out.push((v >> 56u64) as u8);
    out.push((v >> 48u64) as u8);
    out.push((v >> 40u64) as u8);
    out.push((v >> 32u64) as u8);
    out.push((v >> 24u64) as u8);
    out.push((v >> 16u64) as u8);
    out.push((v >> 8u64) as u8);
    out.push(v as u8);
    assert(out@ =~= old(out)@ + be64(v));
}

/// Appends a byte string prefixed by its length.
pub fn push_length_prefixed(bytes: &[u8], out: &mut Vec<u8>)
    ensures
        final(out)@ == old(out)@ + length_prefixed(bytes@),
{
    push_be64(bytes.len() as u64, out);
    out.extend_from_slice(bytes);
    assert(out@ =~= old(out)@ + length_prefixed(bytes@));
}

/// Appends the UTF-8 bytes of a string prefixed by their length.
pub fn push_prefixed_text(s: &str, out: &mut Vec<u8>)
    ensures
        final(out)@ == old(out)@ + prefixed_text(s@),
{
    push_length_prefixed(s.as_bytes(), out);
}

/// Appends the digest bytes of each identifier in order.
pub fn push_hashes(ids: &[ORID], out: &mut Vec<u8>)
    ensures
        final(out)@ == old(out)@ + hash_concat(ids@),
{
    let mut i: usize = 0;
    while i < ids.len()
        invariant
            i <= ids@.len(),
            out@ == old(out)@ + hash_concat(ids@.subrange(0, i as int)),
        decreases ids@.len() - i,
    {
        out.extend_from_slice(&ids[i].hash);
        i = i + 1;
        assert(ids@.subrange(0, i as int).drop_last() =~= ids@.subrange(0, i - 1));
        assert(out@ =~= old(out)@ + hash_concat(ids@.subrange(0, i as int)));
    }
    assert(ids@.subrange(0, i as int) =~= ids@);
}

pub trait Canonical {
    /// The canonical bytes of the object.
    spec fn canonical_spec(&self) -> Seq<u8>;

    /// Appends the canonical bytes of the object to `out`.
    fn encode_canonical(&self, out: &mut Vec<u8>)
        ensures
            final(out)@ == old(out)@ + self.canonical_spec(),
    ;

    /// The canonical bytes of the object, in a fresh buffer.
    fn canonical_bytes(&self) -> (b: Vec<u8>)
        ensures
            b@ == self.canonical_spec(),
    {
        let mut buf: Vec<u8> = Vec::new();
        self.encode_canonical(&mut buf);
        assert(buf@ =~= self.canonical_spec());
        buf
    }
}

#[derive(Debug, PartialEq, Eq)]
pub struct Entity {
    pub domain_id: String,
    pub name: String,
}

impl Clone for Entity {
    fn clone(&self) -> (c: Self)
        ensures
            c.domain_id@ == self.domain_id@,
            c.name@ == self.name@,
    {
        Entity { domain_id: self.domain_id.clone(), name: self.name.clone() }
    }
}

impl Canonical for Entity {
    open spec fn canonical_spec(&self) -> Seq<u8> {
        prefixed_text(self.domain_id@) + prefixed_text(self.name@)
    }

    fn encode_canonical(&self, out: &mut Vec<u8>) {
        push_prefixed_text(self.domain_id.as_str(), out);
        push_prefixed_text(self.name.as_str(), out);
        assert(out@ =~= old(out)@ + self.canonical_spec());
    }
}

#[derive(Debug, Clone, PartialEq, Eq)]
pub struct Observation {
    pub source_id: String,
    pub timestamp: u64,
    pub payload: Vec<u8>,
}

impl Canonical for Observation {
    open spec fn canonical_spec(&self) -> Seq<u8> {
        prefixed_text(self.source_id@) + be64(self.timestamp) + length_prefixed(self.payload@)
    }

    fn encode_canonical(&self, out: &mut Vec<u8>) {
        push_prefixed_text(self.source_id.as_str(), out);
        push_be64(self.timestamp, out);
        push_length_prefixed(self.payload.as_slice(), out);
        assert(out@ =~= old(out)@ + self.canonical_spec());
    }
}

#[derive(Debug, PartialEq, Eq)]
pub struct Claim {
    pub id: ORID,
    pub statement: String,
    pub status: Status,
    pub provenance_roots: Vec<ORID>,
}

/// What a claim says: its id, statement, status and provenance roots.
pub open spec fn claim_view(c: Claim) -> (ORID, Seq<char>, Status, Seq<ORID>) {
    (c.id, c.statement@, c.status, c.provenance_roots@)
}

impl Clone for Claim {
    fn clone(&self) -> (c: Self)
        ensures
            claim_view(c) == claim_view(*self),
    {
        let roots = self.provenance_roots.clone();
        assert(roots@ =~= self.provenance_roots@);
        Claim { id: self.id, statement: self.statement.clone(), status: self.status, provenance_roots: roots }
    }
}

impl Canonical for Claim {
    open spec fn canonical_spec(&self) -> Seq<u8> {
        self.id.hash@ + prefixed_text(self.statement@) + seq![status_code(self.status)] + be64(
            self.provenance_roots@.len() as u64,
        ) + hash_concat(self.provenance_roots@)
    }

    fn encode_canonical(&self, out: &mut Vec<u8>) {
        out.extend_from_slice(&self.id.hash);
        push_prefixed_text(self.statement.as_str(), out);
        out.push(self.status.code());
        push_be64(self.provenance_roots.len() as u64, out);
        push_hashes(self.provenance_roots.as_slice(), out);
        assert(out@ =~= old(out)@ + self.canonical_spec());
    }
}

#[derive(Debug, PartialEq, Eq)]
pub struct Evidence {
    pub id: ORID,
    pub raw_orid: ORID,
    pub source_id: String,
    pub observed_at_timestamp: u64,
}

impl Clone for Evidence {
    fn clone(&self) -> (c: Self)
        ensures
            c == *self,
    {
        Evidence {
            id: self.id,
            raw_orid: self.raw_orid,
            source_id: self.source_id.clone(),
            observed_at_timestamp: self.observed_at_timestamp,
        }
    }
}

impl Canonical for Evidence {
    open spec fn canonical_spec(&self) -> Seq<u8> {
        self.id.hash@ + self.raw_orid.hash@ + prefixed_text(self.source_id@) + be64(self.observed_at_timestamp)
    }

    fn encode_canonical(&self, out: &mut Vec<u8>) {
        out.extend_from_slice(&self.id.hash);
        out.extend_from_slice(&self.raw_orid.hash);
        push_prefixed_text(self.source_id.as_str(), out);
        push_be64(self.observed_at_timestamp, out);
        assert(out@ =~= old(out)@ + self.canonical_spec());
    }
}

#[derive(Debug, PartialEq, Eq)]
pub struct Operator {
    pub id: ORID,
    pub name: String,
    pub domain_schema: String,
    pub status: CausalStatus,
    pub cost: u64,
}

impl Clone for Operator {
    fn clone(&self) -> (c: Self)
        ensures
            c == *self,
    {
        Operator {
            id: self.id,
            name: self.name.clone(),
            domain_schema: self.domain_schema.clone(),
            status: self.status,
            cost: self.cost,
        }
    }
}

impl Canonical for Operator {
    open spec fn canonical_spec(&self) -> Seq<u8> {
        self.id.hash@ + prefixed_text(self.name@) + prefixed_text(self.domain_schema@) + seq![
            causal_code(self.status),
        ] + be64(self.cost)
    }

    fn encode_canonical(&self, out: &mut Vec<u8>) {
        out.extend_from_slice(&self.id.hash);
        push_prefixed_text(self.name.as_str(), out);
        push_prefixed_text(self.domain_schema.as_str(), out);
        out.push(self.status.code());
        push_be64(self.cost, out);
        assert(out@ =~= old(out)@ + self.canonical_spec());
    }
}

#[derive(Debug, PartialEq, Eq)]
pub struct Obligation {
    pub id: ORID,
    pub claim_id: ORID,
    pub obligation_kind: String,
    pub resolved: bool,
}

/// The contents of an obligation.
pub open spec fn obligation_view(o: Obligation) -> (ORID, ORID, Seq<char>, bool) {
    (o.id, o.claim_id, o.obligation_kind@, o.resolved)
}

impl Clone for Obligation {
    fn clone(&self) -> (c: Self)
        ensures
            obligation_view(c) == obligation_view(*self),
    {
        Obligation {
            id: self.id,
            claim_id: self.claim_id,
            obligation_kind: self.obligation_kind.clone(),
            resolved: self.resolved,
        }
    }
}

impl Canonical for Obligation {
    open spec fn canonical_spec(&self) -> Seq<u8> {
        self.id.hash@ + self.claim_id.hash@ + prefixed_text(self.obligation_kind@) + seq![
            if self.resolved { 1u8 } else { 0u8 },
        ]
    }

    fn encode_canonical(&self, out: &mut Vec<u8>) {
        out.extend_from_slice(&self.id.hash);
        out.extend_from_slice(&self.claim_id.hash);
        push_prefixed_text(self.obligation_kind.as_str(), out);
        out.push(if self.resolved { 1 } else { 0 });
        assert(out@ =~= old(out)@ + self.canonical_spec());
    }
}

#[derive(Debug, Clone, PartialEq, Eq)]
pub struct Artifact {
    pub id: ORID,
    pub name: String,
    pub data: Vec<u8>,
}

impl Canonical for Artifact {
    open spec fn canonical_spec(&self) -> Seq<u8> {
        self.id.hash@ + prefixed_text(self.name@) + length_prefixed(self.data@)
    }

    fn encode_canonical(&self, out: &mut Vec<u8>) {
        out.extend_from_slice(&self.id.hash);
        push_prefixed_text(self.name.as_str(), out);
        push_length_prefixed(self.data.as_slice(), out);
        assert(out@ =~= old(out)@ + self.canonical_spec());
    }
}

} // verus!
