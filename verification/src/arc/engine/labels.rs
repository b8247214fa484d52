//! The text of the ids and labels the bridge engine gives hypotheses and
//! actions: ASCII built from fixed words, decimal numbers and event texts.

use vstd::prelude::*;
use crate::arc::observation::GridEvent;
use crate::kernel::text::{
    ascii_chars, dec_digits, is_ascii_bytes, lemma_ascii_concat, lemma_ascii_utf8, lemma_dec_digits_ascii,
    lemma_encode_concat, lemma_signed_dec_ascii, push_decimal, push_signed_decimal, push_text, signed_dec,
    string_of_utf8,
};
use vstd::utf8::encode_utf8;

verus! {

pub open spec fn lit_moved() -> Seq<u8> {
    seq![79u8, 98u8, 106u8, 101u8, 99u8, 116u8, 77u8, 111u8, 118u8, 101u8, 100u8, 32u8, 123u8, 32u8, 105u8, 100u8, 58u8, 32u8]
}

pub open spec fn lit_dx() -> Seq<u8> {
    seq![44u8, 32u8, 100u8, 120u8, 58u8, 32u8]
}

pub open spec fn lit_dy() -> Seq<u8> {
    seq![44u8, 32u8, 100u8, 121u8, 58u8, 32u8]
}

pub open spec fn lit_close() -> Seq<u8> {
    seq![32u8, 125u8]
}

pub open spec fn lit_appeared() -> Seq<u8> {
    seq![
        79u8, 98u8, 106u8, 101u8, 99u8, 116u8, 65u8, 112u8, 112u8, 101u8, 97u8, 114u8, 101u8, 100u8, 32u8, 123u8, 32u8,
        105u8, 100u8, 58u8, 32u8,
    ]
}

pub open spec fn lit_color() -> Seq<u8> {
    seq![44u8, 32u8, 99u8, 111u8, 108u8, 111u8, 114u8, 58u8, 32u8]
}

pub open spec fn lit_centroid() -> Seq<u8> {
    seq![44u8, 32u8, 99u8, 101u8, 110u8, 116u8, 114u8, 111u8, 105u8, 100u8, 58u8, 32u8, 91u8]
}

pub open spec fn lit_comma() -> Seq<u8> {
    seq![44u8, 32u8]
}

pub open spec fn lit_bracket_close() -> Seq<u8> {
    seq![93u8, 32u8, 125u8]
}

pub open spec fn lit_disappeared() -> Seq<u8> {
    seq![
        79u8, 98u8, 106u8, 101u8, 99u8, 116u8, 68u8, 105u8, 115u8, 97u8, 112u8, 112u8, 101u8, 97u8, 114u8, 101u8, 100u8,
        32u8, 123u8, 32u8, 105u8, 100u8, 58u8, 32u8,
    ]
}

pub open spec fn lit_color_changed() -> Seq<u8> {
    seq![67u8, 111u8, 108u8, 111u8, 114u8, 67u8, 104u8, 97u8, 110u8, 103u8, 101u8, 100u8, 32u8, 123u8, 32u8, 105u8, 100u8, 58u8, 32u8]
}

pub open spec fn lit_old_color() -> Seq<u8> {
    seq![44u8, 32u8, 111u8, 108u8, 100u8, 95u8, 99u8, 111u8, 108u8, 111u8, 114u8, 58u8, 32u8]
}

pub open spec fn lit_new_color() -> Seq<u8> {
    seq![44u8, 32u8, 110u8, 101u8, 119u8, 95u8, 99u8, 111u8, 108u8, 111u8, 114u8, 58u8, 32u8]
}

pub open spec fn lit_restructured() -> Seq<u8> {
    seq![
        71u8, 114u8, 105u8, 100u8, 82u8, 101u8, 115u8, 116u8, 114u8, 117u8, 99u8, 116u8, 117u8, 114u8, 101u8, 100u8, 32u8,
        123u8, 32u8, 112u8, 105u8, 120u8, 101u8, 108u8, 95u8, 100u8, 101u8, 108u8, 116u8, 97u8, 58u8, 32u8,
    ]
}

/// The debug text of an event: its variant name and its fields in braces.
pub open spec fn event_text(e: GridEvent) -> Seq<u8> {
    match e {
        GridEvent::ObjectMoved { id, dx, dy } => lit_moved() + dec_digits(id as nat) + lit_dx() + signed_dec(dx as int)
            + lit_dy() + signed_dec(dy as int) + lit_close(),
        GridEvent::ObjectAppeared { id, color, centroid } => lit_appeared() + dec_digits(id as nat) + lit_color()
            + dec_digits(color as nat) + lit_centroid() + dec_digits(centroid[0] as nat) + lit_comma() + dec_digits(
            centroid[1] as nat,
        ) + lit_bracket_close(),
        GridEvent::ObjectDisappeared { id } => lit_disappeared() + dec_digits(id as nat) + lit_close(),
        GridEvent::ColorChanged { id, old_color, new_color } => lit_color_changed() + dec_digits(id as nat)
            + lit_old_color() + dec_digits(old_color as nat) + lit_new_color() + dec_digits(new_color as nat)
            + lit_close(),
        GridEvent::GridRestructured { pixel_delta } => lit_restructured() + dec_digits(pixel_delta as nat) + lit_close(),
    }
}

/// The id of the hypothesis induced for event `e` after action `a`:
/// `H_trans_act<a>_ev<event text>`.
pub open spec fn induced_id(a: u8, e: GridEvent) -> Seq<char> {
    ascii_chars(
        seq![72u8, 95u8, 116u8, 114u8, 97u8, 110u8, 115u8, 95u8, 97u8, 99u8, 116u8] + dec_digits(a as nat) + seq![
            95u8,
            101u8,
            118u8,
        ] + event_text(e),
    )
}

proof fn lemma_lit_ascii(b: Seq<u8>)
    requires
        forall|i: int| 0 <= i < b.len() ==> #[trigger] b[i] < 128,
    ensures
        is_ascii_bytes(b),
{
}

/// The debug text of an event is ASCII.
pub proof fn lemma_event_text_ascii(e: GridEvent)
    ensures
        is_ascii_bytes(event_text(e)),
{
    lemma_lit_ascii(lit_moved());
    lemma_lit_ascii(lit_dx());
    lemma_lit_ascii(lit_dy());
    lemma_lit_ascii(lit_close());
    lemma_lit_ascii(lit_appeared());
    lemma_lit_ascii(lit_color());
    lemma_lit_ascii(lit_centroid());
    lemma_lit_ascii(lit_comma());
    lemma_lit_ascii(lit_bracket_close());
    lemma_lit_ascii(lit_disappeared());
    lemma_lit_ascii(lit_color_changed());
    lemma_lit_ascii(lit_old_color());
    lemma_lit_ascii(lit_new_color());
    lemma_lit_ascii(lit_restructured());
    match e {
        GridEvent::ObjectMoved { id, dx, dy } => {
            lemma_dec_digits_ascii(id as nat);
            lemma_signed_dec_ascii(dx as int);
            lemma_signed_dec_ascii(dy as int);
            let a = lit_moved() + dec_digits(id as nat);
            lemma_ascii_concat(lit_moved(), dec_digits(id as nat));
            lemma_ascii_concat(a, lit_dx());
            lemma_ascii_concat(a + lit_dx(), signed_dec(dx as int));
            lemma_ascii_concat(a + lit_dx() + signed_dec(dx as int), lit_dy());
            lemma_ascii_concat(a + lit_dx() + signed_dec(dx as int) + lit_dy(), signed_dec(dy as int));
            lemma_ascii_concat(a + lit_dx() + signed_dec(dx as int) + lit_dy() + signed_dec(dy as int), lit_close());
        },
        GridEvent::ObjectAppeared { id, color, centroid } => {
            lemma_dec_digits_ascii(id as nat);
            lemma_dec_digits_ascii(color as nat);
            lemma_dec_digits_ascii(centroid[0] as nat);
            lemma_dec_digits_ascii(centroid[1] as nat);
            let a = lit_appeared() + dec_digits(id as nat);
            lemma_ascii_concat(lit_appeared(), dec_digits(id as nat));
            lemma_ascii_concat(a, lit_color());
            let b = a + lit_color() + dec_digits(color as nat);
            lemma_ascii_concat(a + lit_color(), dec_digits(color as nat));
            lemma_ascii_concat(b, lit_centroid());
            let c = b + lit_centroid() + dec_digits(centroid[0] as nat);
            lemma_ascii_concat(b + lit_centroid(), dec_digits(centroid[0] as nat));
            lemma_ascii_concat(c, lit_comma());
            lemma_ascii_concat(c + lit_comma(), dec_digits(centroid[1] as nat));
            lemma_ascii_concat(c + lit_comma() + dec_digits(centroid[1] as nat), lit_bracket_close());
        },
        GridEvent::ObjectDisappeared { id } => {
            lemma_dec_digits_ascii(id as nat);
            lemma_ascii_concat(lit_disappeared(), dec_digits(id as nat));
            lemma_ascii_concat(lit_disappeared() + dec_digits(id as nat), lit_close());
        },
        GridEvent::ColorChanged { id, old_color, new_color } => {
            lemma_dec_digits_ascii(id as nat);
            lemma_dec_digits_ascii(old_color as nat);
            lemma_dec_digits_ascii(new_color as nat);
            let a = lit_color_changed() + dec_digits(id as nat);
            lemma_ascii_concat(lit_color_changed(), dec_digits(id as nat));
            lemma_ascii_concat(a, lit_old_color());
            let b = a + lit_old_color() + dec_digits(old_color as nat);
            lemma_ascii_concat(a + lit_old_color(), dec_digits(old_color as nat));
            lemma_ascii_concat(b, lit_new_color());
            lemma_ascii_concat(b + lit_new_color(), dec_digits(new_color as nat));
            lemma_ascii_concat(b + lit_new_color() + dec_digits(new_color as nat), lit_close());
        },
        GridEvent::GridRestructured { pixel_delta } => {
            lemma_dec_digits_ascii(pixel_delta as nat);
            lemma_ascii_concat(lit_restructured(), dec_digits(pixel_delta as nat));
            lemma_ascii_concat(lit_restructured() + dec_digits(pixel_delta as nat), lit_close());
        },
    }
}

/// Appends the debug text of an event.
pub fn push_event_text(e: &GridEvent, out: &mut Vec<u8>)
    ensures
        final(out)@ == old(out)@ + event_text(*e),
{
    let ghost o = out@;
    match e {
        GridEvent::ObjectMoved { id, dx, dy } => {
            out.extend_from_slice(&[79, 98, 106, 101, 99, 116, 77, 111, 118, 101, 100, 32, 123, 32, 105, 100, 58, 32]);
            push_decimal(*id as u64, out);
            out.extend_from_slice(&[44, 32, 100, 120, 58, 32]);
            push_signed_decimal(*dx as i64, out);
            out.extend_from_slice(&[44, 32, 100, 121, 58, 32]);
            push_signed_decimal(*dy as i64, out);
            out.extend_from_slice(&[32, 125]);
        },
        GridEvent::ObjectAppeared { id, color, centroid } => {
            out.extend_from_slice(
                &[79, 98, 106, 101, 99, 116, 65, 112, 112, 101, 97, 114, 101, 100, 32, 123, 32, 105, 100, 58, 32],
            );
            push_decimal(*id as u64, out);
            out.extend_from_slice(&[44, 32, 99, 111, 108, 111, 114, 58, 32]);
            push_decimal(*color as u64, out);
            out.extend_from_slice(&[44, 32, 99, 101, 110, 116, 114, 111, 105, 100, 58, 32, 91]);
            push_decimal(centroid[0] as u64, out);
            out.extend_from_slice(&[44, 32]);
            push_decimal(centroid[1] as u64, out);
            out.extend_from_slice(&[93, 32, 125]);
        },
        GridEvent::ObjectDisappeared { id } => {
            out.extend_from_slice(
                &[79, 98, 106, 101, 99, 116, 68, 105, 115, 97, 112, 112, 101, 97, 114, 101, 100, 32, 123, 32, 105, 100, 58, 32],
            );
            push_decimal(*id as u64, out);
            out.extend_from_slice(&[32, 125]);
        },
        GridEvent::ColorChanged { id, old_color, new_color } => {
            out.extend_from_slice(&[67, 111, 108, 111, 114, 67, 104, 97, 110, 103, 101, 100, 32, 123, 32, 105, 100, 58, 32]);
            push_decimal(*id as u64, out);
            out.extend_from_slice(&[44, 32, 111, 108, 100, 95, 99, 111, 108, 111, 114, 58, 32]);
            push_decimal(*old_color as u64, out);
            out.extend_from_slice(&[44, 32, 110, 101, 119, 95, 99, 111, 108, 111, 114, 58, 32]);
            push_decimal(*new_color as u64, out);
            out.extend_from_slice(&[32, 125]);
        },
        GridEvent::GridRestructured { pixel_delta } => {
            out.extend_from_slice(
                &[
                    71, 114, 105, 100, 82, 101, 115, 116, 114, 117, 99, 116, 117, 114, 101, 100, 32, 123, 32, 112, 105,
                    120, 101, 108, 95, 100, 101, 108, 116, 97, 58, 32,
                ],
            );
            push_decimal(*pixel_delta as u64, out);
            out.extend_from_slice(&[32, 125]);
        },
    }
    assert(out@ =~= o + event_text(*e));
}

/// The id of the hypothesis induced for event `e` after action `a`.
pub fn make_induced_id(a: u8, e: &GridEvent) -> (s: String)
    ensures
        s@ == induced_id(a, *e),
{
    let mut b: Vec<u8> = Vec::new();
    b.extend_from_slice(&[72, 95, 116, 114, 97, 110, 115, 95, 97, 99, 116]);
    push_decimal(a as u64, &mut b);
    b.extend_from_slice(&[95, 101, 118]);
    push_event_text(e, &mut b);
    let ghost raw = seq![72u8, 95u8, 116u8, 114u8, 97u8, 110u8, 115u8, 95u8, 97u8, 99u8, 116u8] + dec_digits(a as nat)
        + seq![95u8, 101u8, 118u8] + event_text(*e);
    proof {
        assert(b@ =~= raw);
        lemma_lit_ascii(seq![72u8, 95u8, 116u8, 114u8, 97u8, 110u8, 115u8, 95u8, 97u8, 99u8, 116u8]);
        lemma_lit_ascii(seq![95u8, 101u8, 118u8]);
        lemma_dec_digits_ascii(a as nat);
        lemma_event_text_ascii(*e);
        let p = seq![72u8, 95u8, 116u8, 114u8, 97u8, 110u8, 115u8, 95u8, 97u8, 99u8, 116u8];
        lemma_ascii_concat(p, dec_digits(a as nat));
        lemma_ascii_concat(p + dec_digits(a as nat), seq![95u8, 101u8, 118u8]);
        lemma_ascii_concat(p + dec_digits(a as nat) + seq![95u8, 101u8, 118u8], event_text(*e));
        lemma_ascii_utf8(raw);
    }
    string_of_utf8(b, Ghost(induced_id(a, *e)))
}


/// The decimal text of a number.
pub open spec fn num(n: nat) -> Seq<char> {
    ascii_chars(dec_digits(n))
}

pub open spec fn lit_p() -> Seq<u8> {
    seq![80u8]
}

pub open spec fn lit_discriminate() -> Seq<u8> {
    seq![68u8, 105u8, 115u8, 99u8, 114u8, 105u8, 109u8, 105u8, 110u8, 97u8, 116u8, 101u8, 95u8]
}

pub open spec fn lit_vs() -> Seq<u8> {
    seq![95u8, 118u8, 115u8, 95u8]
}

pub open spec fn lit_receipt() -> Seq<u8> {
    seq![124u8, 82u8, 101u8, 99u8, 101u8, 105u8, 112u8, 116u8, 58u8]
}

pub open spec fn lit_probe() -> Seq<u8> {
    seq![80u8, 114u8, 111u8, 98u8, 101u8, 95u8]
}

pub open spec fn lit_select() -> Seq<u8> {
    seq![83u8, 101u8, 108u8, 101u8, 99u8, 116u8, 95u8, 111u8, 98u8, 106u8, 95u8]
}

pub open spec fn lit_x() -> Seq<u8> {
    seq![95u8, 120u8]
}

pub open spec fn lit_y() -> Seq<u8> {
    seq![95u8, 121u8]
}

pub open spec fn lit_probe_dir() -> Seq<u8> {
    seq![80u8, 114u8, 111u8, 98u8, 101u8, 95u8, 100u8, 105u8, 114u8, 95u8, 97u8, 99u8, 116u8, 105u8, 111u8, 110u8, 95u8]
}

pub open spec fn lit_sweep() -> Seq<u8> {
    seq![69u8, 120u8, 112u8, 108u8, 111u8, 114u8, 97u8, 116u8, 105u8, 111u8, 110u8, 83u8, 119u8, 101u8, 101u8, 112u8, 95u8, 120u8]
}

pub open spec fn lit_simple() -> Seq<u8> {
    seq![83u8, 105u8, 109u8, 112u8, 108u8, 101u8, 69u8, 120u8, 112u8, 108u8, 111u8, 114u8, 101u8, 95u8]
}

pub open spec fn lit_spatial() -> Seq<u8> {
    seq![83u8, 112u8, 97u8, 116u8, 105u8, 97u8, 108u8, 69u8, 120u8, 112u8, 108u8, 111u8, 114u8, 101u8, 95u8]
}

pub open spec fn lit_fallback() -> Seq<u8> {
    seq![72u8, 95u8, 102u8, 97u8, 108u8, 108u8, 98u8, 97u8, 99u8, 107u8]
}

/// The id of the receipt issued at a step: `P<step>`.
pub open spec fn receipt_label(step: u64) -> Seq<char> {
    ascii_chars(lit_p()) + num(step as nat)
}

/// `Discriminate_<h1>_vs_<h2>|Receipt:<rid>`.
pub open spec fn discriminate_label(h1: Seq<char>, h2: Seq<char>, rid: Seq<char>) -> Seq<char> {
    ascii_chars(lit_discriminate()) + h1 + ascii_chars(lit_vs()) + h2 + ascii_chars(lit_receipt()) + rid
}

/// `Probe_<h>|Receipt:<rid>`.
pub open spec fn probe_label(h: Seq<char>, rid: Seq<char>) -> Seq<char> {
    ascii_chars(lit_probe()) + h + ascii_chars(lit_receipt()) + rid
}

/// `Select_obj_<id>_x<x>_y<y>`.
pub open spec fn select_label(id: u32, x: u8, y: u8) -> Seq<char> {
    ascii_chars(lit_select()) + num(id as nat) + ascii_chars(lit_x()) + num(x as nat) + ascii_chars(lit_y()) + num(
        y as nat,
    )
}

/// `Probe_dir_action_<d>`.
pub open spec fn probe_dir_label(d: u8) -> Seq<char> {
    ascii_chars(lit_probe_dir()) + num(d as nat)
}

/// `ExplorationSweep_x<x>_y<y>`.
pub open spec fn sweep_label(x: u8, y: u8) -> Seq<char> {
    ascii_chars(lit_sweep()) + num(x as nat) + ascii_chars(lit_y()) + num(y as nat)
}

/// `SimpleExplore_<id>`.
pub open spec fn simple_label(id: u8) -> Seq<char> {
    ascii_chars(lit_simple()) + num(id as nat)
}

/// `SpatialExplore_<id>`.
pub open spec fn spatial_label(id: u8) -> Seq<char> {
    ascii_chars(lit_spatial()) + num(id as nat)
}

/// `H_fallback`.
pub open spec fn fallback_label() -> Seq<char> {
    ascii_chars(lit_fallback())
}

/// Appends ASCII bytes to the UTF-8 bytes of the characters `c`.
fn add_ascii(out: &mut Vec<u8>, lit: &[u8], Ghost(c): Ghost<Seq<char>>)
    requires
        old(out)@ == encode_utf8(c),
        forall|i: int| 0 <= i < lit@.len() ==> #[trigger] lit@[i] < 128,
    ensures
        final(out)@ == encode_utf8(c + ascii_chars(lit@)),
{
    out.extend_from_slice(lit);
    proof {
        assert(is_ascii_bytes(lit@));
        lemma_ascii_utf8(lit@);
        lemma_encode_concat(c, ascii_chars(lit@));
    }
}

/// Appends the UTF-8 bytes of a string to those of the characters `c`.
fn add_text(out: &mut Vec<u8>, s: &String, Ghost(c): Ghost<Seq<char>>)
    requires
        old(out)@ == encode_utf8(c),
    ensures
        final(out)@ == encode_utf8(c + s@),
{
    push_text(s, out);
    proof {
        lemma_encode_concat(c, s@);
    }
}

/// Appends the decimal digits of `n` to the UTF-8 bytes of the characters `c`.
fn add_number(out: &mut Vec<u8>, n: u64, Ghost(c): Ghost<Seq<char>>)
    requires
        old(out)@ == encode_utf8(c),
    ensures
        final(out)@ == encode_utf8(c + num(n as nat)),
{
    push_decimal(n, out);
    proof {
        lemma_dec_digits_ascii(n as nat);
        lemma_ascii_utf8(dec_digits(n as nat));
        lemma_encode_concat(c, num(n as nat));
    }
}

pub fn make_receipt_label(step: u64) -> (s: String)
    ensures
        s@ == receipt_label(step),
{
    let ghost c0 = Seq::<char>::empty();
    let mut b: Vec<u8> = Vec::new();
    let p: [u8; 1] = [80];
    assert(p@ =~= lit_p());
    add_ascii(&mut b, &p, Ghost(c0));
    let ghost c1 = c0 + ascii_chars(lit_p());
    assert(c1 =~= ascii_chars(lit_p()));
    add_number(&mut b, step, Ghost(c1));
    assert(c1 + num(step as nat) =~= receipt_label(step));
    string_of_utf8(b, Ghost(receipt_label(step)))
}

pub fn make_discriminate_label(h1: &String, h2: &String, rid: &String) -> (s: String)
    ensures
        s@ == discriminate_label(h1@, h2@, rid@),
{
    let ghost c0 = Seq::<char>::empty();
    let mut b: Vec<u8> = Vec::new();
    add_ascii(&mut b, &[68, 105, 115, 99, 114, 105, 109, 105, 110, 97, 116, 101, 95], Ghost(c0));
    let ghost c1 = c0 + ascii_chars(lit_discriminate());
    assert(c1 =~= ascii_chars(lit_discriminate()));
    add_text(&mut b, h1, Ghost(c1));
    let ghost c2 = c1 + h1@;
    add_ascii(&mut b, &[95, 118, 115, 95], Ghost(c2));
    let ghost c3 = c2 + ascii_chars(lit_vs());
    add_text(&mut b, h2, Ghost(c3));
    let ghost c4 = c3 + h2@;
    add_ascii(&mut b, &[124, 82, 101, 99, 101, 105, 112, 116, 58], Ghost(c4));
    let ghost c5 = c4 + ascii_chars(lit_receipt());
    add_text(&mut b, rid, Ghost(c5));
    assert(c5 + rid@ =~= discriminate_label(h1@, h2@, rid@));
    string_of_utf8(b, Ghost(discriminate_label(h1@, h2@, rid@)))
}

pub fn make_probe_label(h: &String, rid: &String) -> (s: String)
    ensures
        s@ == probe_label(h@, rid@),
{
    let ghost c0 = Seq::<char>::empty();
    let mut b: Vec<u8> = Vec::new();
    add_ascii(&mut b, &[80, 114, 111, 98, 101, 95], Ghost(c0));
    let ghost c1 = c0 + ascii_chars(lit_probe());
    assert(c1 =~= ascii_chars(lit_probe()));
    add_text(&mut b, h, Ghost(c1));
    let ghost c2 = c1 + h@;
    add_ascii(&mut b, &[124, 82, 101, 99, 101, 105, 112, 116, 58], Ghost(c2));
    let ghost c3 = c2 + ascii_chars(lit_receipt());
    add_text(&mut b, rid, Ghost(c3));
    assert(c3 + rid@ =~= probe_label(h@, rid@));
    string_of_utf8(b, Ghost(probe_label(h@, rid@)))
}

pub fn make_select_label(id: u32, x: u8, y: u8) -> (s: String)
    ensures
        s@ == select_label(id, x, y),
{
    let ghost c0 = Seq::<char>::empty();
    let mut b: Vec<u8> = Vec::new();
    add_ascii(&mut b, &[83, 101, 108, 101, 99, 116, 95, 111, 98, 106, 95], Ghost(c0));
    let ghost c1 = c0 + ascii_chars(lit_select());
    assert(c1 =~= ascii_chars(lit_select()));
    add_number(&mut b, id as u64, Ghost(c1));
    let ghost c2 = c1 + num(id as nat);
    add_ascii(&mut b, &[95, 120], Ghost(c2));
    let ghost c3 = c2 + ascii_chars(lit_x());
    add_number(&mut b, x as u64, Ghost(c3));
    let ghost c4 = c3 + num(x as nat);
    add_ascii(&mut b, &[95, 121], Ghost(c4));
    let ghost c5 = c4 + ascii_chars(lit_y());
    add_number(&mut b, y as u64, Ghost(c5));
    assert(c5 + num(y as nat) =~= select_label(id, x, y));
    string_of_utf8(b, Ghost(select_label(id, x, y)))
}

pub fn make_probe_dir_label(d: u8) -> (s: String)
    ensures
        s@ == probe_dir_label(d),
{
    let ghost c0 = Seq::<char>::empty();
    let mut b: Vec<u8> = Vec::new();
    add_ascii(&mut b, &[80, 114, 111, 98, 101, 95, 100, 105, 114, 95, 97, 99, 116, 105, 111, 110, 95], Ghost(c0));
    let ghost c1 = c0 + ascii_chars(lit_probe_dir());
    assert(c1 =~= ascii_chars(lit_probe_dir()));
    add_number(&mut b, d as u64, Ghost(c1));
    assert(c1 + num(d as nat) =~= probe_dir_label(d));
    string_of_utf8(b, Ghost(probe_dir_label(d)))
}

pub fn make_sweep_label(x: u8, y: u8) -> (s: String)
    ensures
        s@ == sweep_label(x, y),
{
    let ghost c0 = Seq::<char>::empty();
    let mut b: Vec<u8> = Vec::new();
    add_ascii(&mut b, &[69, 120, 112, 108, 111, 114, 97, 116, 105, 111, 110, 83, 119, 101, 101, 112, 95, 120], Ghost(c0));
    let ghost c1 = c0 + ascii_chars(lit_sweep());
    assert(c1 =~= ascii_chars(lit_sweep()));
    add_number(&mut b, x as u64, Ghost(c1));
    let ghost c2 = c1 + num(x as nat);
    add_ascii(&mut b, &[95, 121], Ghost(c2));
    let ghost c3 = c2 + ascii_chars(lit_y());
    add_number(&mut b, y as u64, Ghost(c3));
    assert(c3 + num(y as nat) =~= sweep_label(x, y));
    string_of_utf8(b, Ghost(sweep_label(x, y)))
}

pub fn make_simple_label(id: u8) -> (s: String)
    ensures
        s@ == simple_label(id),
{
    let ghost c0 = Seq::<char>::empty();
    let mut b: Vec<u8> = Vec::new();
    add_ascii(&mut b, &[83, 105, 109, 112, 108, 101, 69, 120, 112, 108, 111, 114, 101, 95], Ghost(c0));
    let ghost c1 = c0 + ascii_chars(lit_simple());
    assert(c1 =~= ascii_chars(lit_simple()));
    add_number(&mut b, id as u64, Ghost(c1));
    assert(c1 + num(id as nat) =~= simple_label(id));
    string_of_utf8(b, Ghost(simple_label(id)))
}

pub fn make_spatial_label(id: u8) -> (s: String)
    ensures
        s@ == spatial_label(id),
{
    let ghost c0 = Seq::<char>::empty();
    let mut b: Vec<u8> = Vec::new();
    add_ascii(&mut b, &[83, 112, 97, 116, 105, 97, 108, 69, 120, 112, 108, 111, 114, 101, 95], Ghost(c0));
    let ghost c1 = c0 + ascii_chars(lit_spatial());
    assert(c1 =~= ascii_chars(lit_spatial()));
    add_number(&mut b, id as u64, Ghost(c1));
    assert(c1 + num(id as nat) =~= spatial_label(id));
    string_of_utf8(b, Ghost(spatial_label(id)))
}

pub fn make_fallback_label() -> (s: String)
    ensures
        s@ == fallback_label(),
{
    let ghost c0 = Seq::<char>::empty();
    let mut b: Vec<u8> = Vec::new();
    add_ascii(&mut b, &[72, 95, 102, 97, 108, 108, 98, 97, 99, 107], Ghost(c0));
    assert(c0 + ascii_chars(lit_fallback()) =~= fallback_label());
    string_of_utf8(b, Ghost(fallback_label()))
}

} // verus!
