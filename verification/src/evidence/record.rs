//! Evidence records: mandatory fields, a qualified acquisition method, and the
//! rule that evidence without a raw object cannot support a verified status.

use vstd::prelude::*;
use vstd::string::StringExecFns;
use crate::kernel::distinction::{is_blank, is_blank_str};
use crate::kernel::object::{be64, prefixed_text, push_be64, push_prefixed_text, Canonical};
use crate::kernel::orid::{is_orid_of, ObjectKind, ORID};

verus! {

#[derive(Debug, Clone, PartialEq, Eq)]
pub enum EvidenceError {
    Malformed(String),
    MissingField(&'static str),
    UntrustedDomain(String),
}

#[derive(Debug, Clone, PartialEq, Eq)]
pub struct EvidenceRecord {
    pub raw_object_orid: Option<ORID>,
    pub source_identity: String,
    pub acquisition_method: String,
    pub timestamp: u64,
    pub correlation_domain: String,
    pub trust_domain: String,
}

/// `p` occurs in `h` as a contiguous run of characters.
pub open spec fn has_substring(h: Seq<char>, p: Seq<char>) -> bool {
    exists|i: int| 0 <= i <= h.len() - p.len() && #[trigger] h.subrange(i, i + p.len()) == p
}

/// `str::contains` with a string pattern: by its documentation, whether the
/// pattern matches a sub-slice of the string.
#[verifier::external_body]
fn str_contains(haystack: &str, pattern: &str) -> (b: bool)
    ensures
        b == has_substring(haystack@, pattern@),
{
    haystack.contains(pattern)
}

/// A method is qualified by a namespace: it holds `::` or `/`.
pub open spec fn method_qualified(m: Seq<char>) -> bool {
    has_substring(m, "::"@) || has_substring(m, "/"@)
}

/// Every mandatory field is present, the timestamp is set and the method is qualified.
pub open spec fn fields_valid(source: Seq<char>, method: Seq<char>, timestamp: u64, corr: Seq<char>, trust: Seq<char>) -> bool {
    &&& !is_blank(source)
    &&& !is_blank(method)
    &&& !is_blank(corr)
    &&& !is_blank(trust)
    &&& timestamp != 0
    &&& method_qualified(method)
}

pub open spec fn record_valid(r: EvidenceRecord) -> bool {
    fields_valid(r.source_identity@, r.acquisition_method@, r.timestamp, r.correlation_domain@, r.trust_domain@)
}

/// The error reported for invalid fields, checking them in order.
pub open spec fn fields_error(
    source: Seq<char>,
    method: Seq<char>,
    timestamp: u64,
    corr: Seq<char>,
    trust: Seq<char>,
    e: EvidenceError,
) -> bool {
    if is_blank(source) {
        e matches EvidenceError::MissingField(f) && f@ == "source_identity"@
    } else if is_blank(method) {
        e matches EvidenceError::MissingField(f) && f@ == "acquisition_method"@
    } else if is_blank(corr) {
        e matches EvidenceError::MissingField(f) && f@ == "correlation_domain"@
    } else if is_blank(trust) {
        e matches EvidenceError::MissingField(f) && f@ == "trust_domain"@
    } else if timestamp == 0 {
        e matches EvidenceError::Malformed(m) && m@ == "Timestamp cannot be zero"@
    } else {
        e matches EvidenceError::Malformed(m) && m@ == "Acquisition method '"@ + method
            + "' lacks valid namespace qualification"@
    }
}

pub open spec fn validation_error(r: EvidenceRecord, e: EvidenceError) -> bool {
    fields_error(r.source_identity@, r.acquisition_method@, r.timestamp, r.correlation_domain@, r.trust_domain@, e)
}

/// The canonical bytes of a record.
pub open spec fn record_bytes(r: EvidenceRecord) -> Seq<u8> {
    let head = match r.raw_object_orid {
        Some(o) => seq![1u8] + o.hash@,
        None => seq![0u8],
    };
    head + prefixed_text(r.source_identity@) + prefixed_text(r.acquisition_method@) + be64(r.timestamp)
        + prefixed_text(r.correlation_domain@) + prefixed_text(r.trust_domain@)
}

impl EvidenceRecord {
    /// A record whose fields pass validation.
    pub fn new(
        raw_object_orid: Option<ORID>,
        source_identity: &str,
        acquisition_method: &str,
        timestamp: u64,
        correlation_domain: &str,
        trust_domain: &str,
    ) -> (res: Result<EvidenceRecord, EvidenceError>)
        ensures
            match res {
                Ok(r) => {
                    &&& r.raw_object_orid == raw_object_orid
                    &&& r.source_identity@ == source_identity@
                    &&& r.acquisition_method@ == acquisition_method@
                    &&& r.timestamp == timestamp
                    &&& r.correlation_domain@ == correlation_domain@
                    &&& r.trust_domain@ == trust_domain@
                    &&& fields_valid(source_identity@, acquisition_method@, timestamp, correlation_domain@, trust_domain@)
                },
                Err(e) => {
                    &&& !fields_valid(source_identity@, acquisition_method@, timestamp, correlation_domain@, trust_domain@)
                    &&& fields_error(source_identity@, acquisition_method@, timestamp, correlation_domain@, trust_domain@, e)
                },
            },
    {
        let record = EvidenceRecord {
            raw_object_orid,
            source_identity: source_identity.to_owned(),
            acquisition_method: acquisition_method.to_owned(),
            timestamp,
            correlation_domain: correlation_domain.to_owned(),
            trust_domain: trust_domain.to_owned(),
        };
        match record.validate() {
            Ok(()) => Ok(record),
            Err(e) => Err(e),
        }
    }

    /// Checks the mandatory fields, the timestamp and the method's qualification, in that order.
    pub fn validate(&self) -> (res: Result<(), EvidenceError>)
        ensures
            res is Ok <==> record_valid(*self),
            res matches Err(e) ==> validation_error(*self, e),
    {
        if is_blank_str(self.source_identity.as_str()) {
            return Err(EvidenceError::MissingField("source_identity"));
        }
        if is_blank_str(self.acquisition_method.as_str()) {
            return Err(EvidenceError::MissingField("acquisition_method"));
        }
        if is_blank_str(self.correlation_domain.as_str()) {
            return Err(EvidenceError::MissingField("correlation_domain"));
        }
        if is_blank_str(self.trust_domain.as_str()) {
            return Err(EvidenceError::MissingField("trust_domain"));
        }
        if self.timestamp == 0 {
            return Err(EvidenceError::Malformed("Timestamp cannot be zero".to_owned()));
        }
        if !str_contains(self.acquisition_method.as_str(), "::") && !str_contains(self.acquisition_method.as_str(), "/") {
            let msg = "Acquisition method '".to_owned().concat(self.acquisition_method.as_str()).concat(
                "' lacks valid namespace qualification",
            );
            return Err(EvidenceError::Malformed(msg));
        }
        Ok(())
    }

    /// Only a valid record that names its raw object can support a verified status.
    pub fn can_support_verified(&self) -> (b: bool)
        ensures
            b == (self.raw_object_orid is Some && record_valid(*self)),
    {
        if self.raw_object_orid.is_none() {
            return false;
        }
        self.validate().is_ok()
    }

    /// The content identifier of the record.
    pub fn id(&self) -> (id: ORID)
        ensures
            is_orid_of(id, ObjectKind::Evidence, record_bytes(*self)),
    {
        let buf = self.canonical_bytes();
        ORID::compute(ObjectKind::Evidence, buf.as_slice())
    }
}

impl Canonical for EvidenceRecord {
    open spec fn canonical_spec(&self) -> Seq<u8> {
        record_bytes(*self)
    }

    fn encode_canonical(&self, out: &mut Vec<u8>) {
        match &self.raw_object_orid {
            Some(orid) => {
                out.push(1u8);
                out.extend_from_slice(&orid.hash);
            },
            None => out.push(0u8),
        }
        push_prefixed_text(self.source_identity.as_str(), out);
        push_prefixed_text(self.acquisition_method.as_str(), out);
        push_be64(self.timestamp, out);
        push_prefixed_text(self.correlation_domain.as_str(), out);
        push_prefixed_text(self.trust_domain.as_str(), out);
        assert(out@ =~= old(out)@ + record_bytes(*self));
    }
}

/// Evidence that names no raw object never supports a verified status.
pub proof fn law_no_raw_object_no_verified(r: EvidenceRecord)
    requires
        r.raw_object_orid is None,
    ensures
        !(r.raw_object_orid is Some && record_valid(r)),
{
}

} // verus!
