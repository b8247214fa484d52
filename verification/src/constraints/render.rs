//! The text of a list of constraints as Rust's `Debug` formatting renders it,
//! which seeds the identifier of an unsatisfiability proof.

use vstd::prelude::*;
use vstd::utf8::encode_utf8;
use crate::constraints::Constraint;
use crate::kernel::text::{push_signed_decimal, push_text, signed_dec};

verus! {

/// What `format!("{:?}", s)` gives for a string `s`: the string quoted, with
/// its special characters escaped.
pub uninterp spec fn str_debug(s: Seq<char>) -> Seq<char>;

/// std's `Debug` of a `str`, through `format!`. The result is named, not
/// stated: it depends on the string alone.
#[verifier::external_body]
fn debug_str(s: &str) -> (d: String)
    ensures
        d@ == str_debug(s@),
{
    format!("{:?}", s)
}

/// The bytes of a name as `Debug` renders it.
pub open spec fn name_text(s: Seq<char>) -> Seq<u8> {
    encode_utf8(str_debug(s))
}

/// A term `(coefficient, name)`.
pub open spec fn term_text(t: (i64, String)) -> Seq<u8> {
    seq![40u8] + signed_dec(t.0 as int) + seq![44u8, 32u8] + name_text(t.1@) + seq![41u8]
}

/// The first `k` terms, separated by `, `.
pub open spec fn terms_text(ts: Seq<(i64, String)>, k: int) -> Seq<u8>
    decreases k,
{
    if k <= 0 {
        Seq::empty()
    } else if k == 1 {
        term_text(ts[0])
    } else {
        terms_text(ts, k - 1) + seq![44u8, 32u8] + term_text(ts[k - 1])
    }
}

/// A constraint: its variant's name and its fields in brackets.
pub open spec fn constraint_text(c: Constraint) -> Seq<u8> {
    match c {
        Constraint::VarEquals(n, t) => seq![86u8, 97u8, 114u8, 69u8, 113u8, 117u8, 97u8, 108u8, 115u8, 40u8] + name_text(n@) + seq![44u8, 32u8] + signed_dec(t as int) + seq![41u8],
        Constraint::VarLessThan(n, t) => seq![86u8, 97u8, 114u8, 76u8, 101u8, 115u8, 115u8, 84u8, 104u8, 97u8, 110u8, 40u8] + name_text(n@) + seq![44u8, 32u8] + signed_dec(t as int) + seq![41u8],
        Constraint::VarGreaterThan(n, t) => seq![86u8, 97u8, 114u8, 71u8, 114u8, 101u8, 97u8, 116u8, 101u8, 114u8, 84u8, 104u8, 97u8, 110u8, 40u8] + name_text(n@) + seq![44u8, 32u8] + signed_dec(t as int) + seq![41u8],
        Constraint::NotEquals(n, t) => seq![78u8, 111u8, 116u8, 69u8, 113u8, 117u8, 97u8, 108u8, 115u8, 40u8] + name_text(n@) + seq![44u8, 32u8] + signed_dec(t as int) + seq![41u8],
        Constraint::LinearGe(ts, r) => seq![76u8, 105u8, 110u8, 101u8, 97u8, 114u8, 71u8, 101u8, 40u8, 91u8] + terms_text(ts@, ts@.len() as int) + seq![93u8, 44u8, 32u8] + signed_dec(
            r as int,
        ) + seq![41u8],
    }
}

/// The first `k` constraints, separated by `, `.
pub open spec fn constraints_upto(cs: Seq<Constraint>, k: int) -> Seq<u8>
    decreases k,
{
    if k <= 0 {
        Seq::empty()
    } else if k == 1 {
        constraint_text(cs[0])
    } else {
        constraints_upto(cs, k - 1) + seq![44u8, 32u8] + constraint_text(cs[k - 1])
    }
}

/// A list of constraints, in square brackets.
pub open spec fn constraints_text(cs: Seq<Constraint>) -> Seq<u8> {
    seq![91u8] + constraints_upto(cs, cs.len() as int) + seq![93u8]
}

fn push_name(n: &String, out: &mut Vec<u8>)
    ensures
        final(out)@ == old(out)@ + name_text(n@),
{
    let d = debug_str(n.as_str());
    push_text(&d, out);
}

fn push_terms(ts: &Vec<(i64, String)>, out: &mut Vec<u8>)
    ensures
        final(out)@ == old(out)@ + terms_text(ts@, ts@.len() as int),
{
    let mut k: usize = 0;
    while k < ts.len()
        invariant
            k <= ts@.len(),
            out@ == old(out)@ + terms_text(ts@, k as int),
        decreases ts@.len() - k,
    {
        let ghost before = out@;
        if k > 0 {
            out.extend_from_slice(&[44u8, 32u8]);
        }
        out.push(40u8);
        push_signed_decimal(ts[k].0, out);
        out.extend_from_slice(&[44u8, 32u8]);
        push_name(&ts[k].1, out);
        out.push(41u8);
        assert(out@ =~= old(out)@ + terms_text(ts@, k + 1));
        k = k + 1;
    }
}

fn push_constraint(c: &Constraint, out: &mut Vec<u8>)
    ensures
        final(out)@ == old(out)@ + constraint_text(*c),
{
    match c {
        Constraint::VarEquals(n, t) => {
            out.extend_from_slice(&[86u8, 97u8, 114u8, 69u8, 113u8, 117u8, 97u8, 108u8, 115u8, 40u8]);
            push_name(n, out);
            out.extend_from_slice(&[44u8, 32u8]);
            push_signed_decimal(*t, out);
            out.push(41u8);
            assert(out@ =~= old(out)@ + constraint_text(*c));
        },
        Constraint::VarLessThan(n, t) => {
            out.extend_from_slice(&[86u8, 97u8, 114u8, 76u8, 101u8, 115u8, 115u8, 84u8, 104u8, 97u8, 110u8, 40u8]);
            push_name(n, out);
            out.extend_from_slice(&[44u8, 32u8]);
            push_signed_decimal(*t, out);
            out.push(41u8);
            assert(out@ =~= old(out)@ + constraint_text(*c));
        },
        Constraint::VarGreaterThan(n, t) => {
            out.extend_from_slice(&[86u8, 97u8, 114u8, 71u8, 114u8, 101u8, 97u8, 116u8, 101u8, 114u8, 84u8, 104u8, 97u8, 110u8, 40u8]);
            push_name(n, out);
            out.extend_from_slice(&[44u8, 32u8]);
            push_signed_decimal(*t, out);
            out.push(41u8);
            assert(out@ =~= old(out)@ + constraint_text(*c));
        },
        Constraint::NotEquals(n, t) => {
            out.extend_from_slice(&[78u8, 111u8, 116u8, 69u8, 113u8, 117u8, 97u8, 108u8, 115u8, 40u8]);
            push_name(n, out);
            out.extend_from_slice(&[44u8, 32u8]);
            push_signed_decimal(*t, out);
            out.push(41u8);
            assert(out@ =~= old(out)@ + constraint_text(*c));
        },
        Constraint::LinearGe(ts, r) => {
            out.extend_from_slice(&[76u8, 105u8, 110u8, 101u8, 97u8, 114u8, 71u8, 101u8, 40u8, 91u8]);
            push_terms(ts, out);
            out.extend_from_slice(&[93u8, 44u8, 32u8]);
            push_signed_decimal(*r, out);
            out.push(41u8);
            assert(out@ =~= old(out)@ + constraint_text(*c));
        },
    }
}

/// Appends the `Debug` text of the constraints.
pub fn push_constraints_text(cs: &[Constraint], out: &mut Vec<u8>)
    ensures
        final(out)@ == old(out)@ + constraints_text(cs@),
{
    out.push(91u8);
    let mut k: usize = 0;
    while k < cs.len()
        invariant
            k <= cs@.len(),
            out@ == old(out)@ + seq![91u8] + constraints_upto(cs@, k as int),
        decreases cs@.len() - k,
    {
        if k > 0 {
            out.extend_from_slice(&[44u8, 32u8]);
        }
        push_constraint(&cs[k], out);
        assert(out@ =~= old(out)@ + seq![91u8] + constraints_upto(cs@, k + 1));
        k = k + 1;
    }
    out.push(93u8);
    assert(out@ =~= old(out)@ + constraints_text(cs@));
}

} // verus!
