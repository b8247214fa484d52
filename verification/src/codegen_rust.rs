//! Lowering of operator programs to safe Rust source: a function that charges
//! the budget and checks its guard before each instruction.

use vstd::prelude::*;
use vstd::utf8::encode_utf8;
use crate::kernel::opcode::OpCode;
use crate::kernel::text::{
    ascii_chars, dec_digits, lemma_ascii_utf8, lemma_dec_digits_ascii, lemma_encode_concat, lemma_encode_empty, push_decimal,
    push_str_utf8, push_string_utf8, string_of_utf8,
};

verus! {

/// The Rust code generator.
pub struct RustCodegen;

/// An instruction as the lowering reads it: the id of its result, its
/// opcode, and the id of its first operand, if any.
pub struct OirInstructionText {
    pub result_id: String,
    pub opcode: OpCode,
    pub first_operand: Option<String>,
}

/// A program as the lowering reads it: its name and its instructions, in order.
pub struct OirModuleText {
    pub name: String,
    pub instructions: Vec<OirInstructionText>,
}

pub open spec fn instr_view(i: OirInstructionText) -> (Seq<char>, OpCode, Option<Seq<char>>) {
    (
        i.result_id@,
        i.opcode,
        match i.first_operand {
            Some(o) => Some(o@),
            None => None,
        },
    )
}

pub open spec fn instr_views(s: Seq<OirInstructionText>) -> Seq<(Seq<char>, OpCode, Option<Seq<char>>)> {
    s.map_values(|i: OirInstructionText| instr_view(i))
}

/// `s` with every `from` replaced by `to`.
pub open spec fn replaced(s: Seq<char>, from: char, to: Seq<char>) -> Seq<char>
    decreases s.len(),
{
    if s.len() == 0 {
        Seq::empty()
    } else {
        replaced(s.drop_last(), from, to) + (if s.last() == from {
            to
        } else {
            seq![s.last()]
        })
    }
}

/// std's `str::replace` with a character pattern: every occurrence of `from`
/// replaced by `to`, as its documentation states.
#[verifier::external_body]
fn replace_char(s: &str, from: char, to: &str) -> (r: String)
    ensures
        r@ == replaced(s@, from, to@),
{
    s.replace(from, to)
}

/// The variable a value id becomes: `%` spelled `var_`.
pub open spec fn var_text(id: Seq<char>) -> Seq<char> {
    replaced(id, '%', "var_"@)
}

/// The decimal text of a number.
pub open spec fn num_text(n: nat) -> Seq<char> {
    ascii_chars(dec_digits(n))
}

/// The name of an opcode, as `Debug` prints it.
pub open spec fn opcode_name(op: OpCode) -> Seq<char> {
    match op {
        OpCode::Observe => "Observe"@,
        OpCode::Propose => "Propose"@,
        OpCode::Relate => "Relate"@,
        OpCode::Refine => "Refine"@,
        OpCode::Query => "Query"@,
        OpCode::Intervene => "Intervene"@,
        OpCode::Verify => "Verify"@,
        OpCode::Commit => "Commit"@,
        OpCode::Compile => "Compile"@,
    }
}

/// The argument an instruction's first operand gives, or the text `"none"`.
pub open spec fn operand_text(o: Option<Seq<char>>) -> Seq<char> {
    match o {
        Some(v) => var_text(v),
        None => "\"none\""@,
    }
}

/// What instruction number `idx` computes, after `let ` and its variable.
pub open spec fn op_text(idx: nat, i: (Seq<char>, OpCode, Option<Seq<char>>)) -> Seq<char> {
    match i.1 {
        OpCode::Observe => " = format!(\"obs_"@ + num_text(idx) + "\");"@,
        OpCode::Propose => " = format!(\"claim_from_{}\", "@ + operand_text(i.2) + ");"@,
        OpCode::Relate => " = format!(\"rel_"@ + num_text(idx) + "\");"@,
        OpCode::Refine => " = format!(\"ref_"@ + num_text(idx) + "\");"@,
        OpCode::Query => " = format!(\"query_"@ + num_text(idx) + "\");"@,
        OpCode::Intervene => " = format!(\"int_"@ + num_text(idx) + "\");"@,
        OpCode::Verify => " = format!(\"verified_{}\", "@ + operand_text(i.2) + ");"@,
        OpCode::Commit => " = format!(\"commit_"@ + num_text(idx) + "\");"@,
        OpCode::Compile => " = format!(\"compiled_"@ + num_text(idx) + "\");"@,
    }
}

/// The lines of instruction number `idx`: the budget charge, the guard, then
/// the statement.
pub open spec fn instr_text(idx: nat, i: (Seq<char>, OpCode, Option<Seq<char>>)) -> Seq<char> {
    "    // Charge budget tick for instruction "@ + num_text(idx) + "\n    if budget.cpu_steps_remaining == 0 {\n        return Err(\"BudgetExhausted\".to_string());\n    }\n    budget.cpu_steps_remaining -= 1;\n\n    // Invariant guard check for "@ + opcode_name(i.1) + "\n    let guard_passed = true; // Formal contract guard\n    if !guard_passed {\n        return Err(\"InvariantGuardViolation\".to_string());\n    }\n\n    let "@ + var_text(i.0) + op_text(idx, i)
        + "\n\n"@
}

/// The lines of the first `k` instructions.
pub open spec fn body_upto(ins: Seq<(Seq<char>, OpCode, Option<Seq<char>>)>, k: int) -> Seq<char>
    decreases k,
{
    if k <= 0 {
        Seq::empty()
    } else {
        body_upto(ins, k - 1) + instr_text((k - 1) as nat, ins[k - 1])
    }
}

/// The header of the generated file, up to the opening of the function.
pub open spec fn header_text(name: Seq<char>) -> Seq<char> {
    "// AUDIT-LENSES: Grace Hopper, Dennis Ritchie, Niklaus Wirth\n// Generated automatically by OIR->Rust Lowering Compiler. DO NOT EDIT DIRECTLY.\n#![forbid(unsafe_code)]\n\nuse origin_core::state::Budget;\n\npub fn execute_"@ + replaced(name, '-', "_"@) + "(budget: &mut Budget) -> Result<String, String> {\n"@
}

/// The last line returns the value of the last instruction.
pub open spec fn footer_text(ins: Seq<(Seq<char>, OpCode, Option<Seq<char>>)>) -> Seq<char> {
    if ins.len() == 0 {
        "    Ok(\"empty_module\".to_string())\n}\n"@
    } else {
        "    Ok("@ + var_text(ins.last().0) + ")\n}\n"@
    }
}

/// The source of a program named `name` with the given instructions.
pub open spec fn lowered_source(name: Seq<char>, ins: Seq<(Seq<char>, OpCode, Option<Seq<char>>)>) -> Seq<char> {
    header_text(name) + body_upto(ins, ins.len() as int) + footer_text(ins)
}

fn push_num(out: &mut Vec<u8>, n: usize, Ghost(pre): Ghost<Seq<char>>)
    requires
        old(out)@ == encode_utf8(pre),
    ensures
        final(out)@ == encode_utf8(pre + num_text(n as nat)),
{
    push_decimal(n as u64, out);
    proof {
        lemma_dec_digits_ascii(n as nat);
        lemma_ascii_utf8(dec_digits(n as nat));
        lemma_encode_concat(pre, num_text(n as nat));
    }
}

fn push_operand(out: &mut Vec<u8>, o: &Option<String>, Ghost(pre): Ghost<Seq<char>>)
    requires
        old(out)@ == encode_utf8(pre),
    ensures
        final(out)@ == encode_utf8(
            pre + operand_text(
                match *o {
                    Some(v) => Some(v@),
                    None => None,
                },
            ),
        ),
{
    match o {
        Some(v) => {
            let t = replace_char(v.as_str(), '%', "var_");
            push_string_utf8(out, &t, Ghost(pre));
        },
        None => {
            push_str_utf8(out, "\"none\"", Ghost(pre));
        },
    }
}

fn opcode_str(op: OpCode) -> (s: &'static str)
    ensures
        s@ == opcode_name(op),
{
    match op {
        OpCode::Observe => "Observe",
        OpCode::Propose => "Propose",
        OpCode::Relate => "Relate",
        OpCode::Refine => "Refine",
        OpCode::Query => "Query",
        OpCode::Intervene => "Intervene",
        OpCode::Verify => "Verify",
        OpCode::Commit => "Commit",
        OpCode::Compile => "Compile",
    }
}

fn push_op(out: &mut Vec<u8>, idx: usize, ins: &OirInstructionText, Ghost(pre): Ghost<Seq<char>>)
    requires
        old(out)@ == encode_utf8(pre),
    ensures
        final(out)@ == encode_utf8(pre + op_text(idx as nat, instr_view(*ins))),
{
    match ins.opcode {
        OpCode::Observe => {
            push_str_utf8(out, " = format!(\"obs_", Ghost(pre));
            push_num(out, idx, Ghost(pre + " = format!(\"obs_"@));
            push_str_utf8(out, "\");", Ghost(pre + " = format!(\"obs_"@ + num_text(idx as nat)));
            assert(pre + " = format!(\"obs_"@ + num_text(idx as nat) + "\");"@ =~= pre + op_text(idx as nat, instr_view(*ins)));
        },
        OpCode::Propose => {
            push_str_utf8(out, " = format!(\"claim_from_{}\", ", Ghost(pre));
            push_operand(out, &ins.first_operand, Ghost(pre + " = format!(\"claim_from_{}\", "@));
            push_str_utf8(out, ");", Ghost(pre + " = format!(\"claim_from_{}\", "@ + operand_text(instr_view(*ins).2)));
            assert(pre + " = format!(\"claim_from_{}\", "@ + operand_text(instr_view(*ins).2) + ");"@ =~= pre + op_text(idx as nat, instr_view(*ins)));
        },
        OpCode::Relate => {
            push_str_utf8(out, " = format!(\"rel_", Ghost(pre));
            push_num(out, idx, Ghost(pre + " = format!(\"rel_"@));
            push_str_utf8(out, "\");", Ghost(pre + " = format!(\"rel_"@ + num_text(idx as nat)));
            assert(pre + " = format!(\"rel_"@ + num_text(idx as nat) + "\");"@ =~= pre + op_text(idx as nat, instr_view(*ins)));
        },
        OpCode::Refine => {
            push_str_utf8(out, " = format!(\"ref_", Ghost(pre));
            push_num(out, idx, Ghost(pre + " = format!(\"ref_"@));
            push_str_utf8(out, "\");", Ghost(pre + " = format!(\"ref_"@ + num_text(idx as nat)));
            assert(pre + " = format!(\"ref_"@ + num_text(idx as nat) + "\");"@ =~= pre + op_text(idx as nat, instr_view(*ins)));
        },
        OpCode::Query => {
            push_str_utf8(out, " = format!(\"query_", Ghost(pre));
            push_num(out, idx, Ghost(pre + " = format!(\"query_"@));
            push_str_utf8(out, "\");", Ghost(pre + " = format!(\"query_"@ + num_text(idx as nat)));
            assert(pre + " = format!(\"query_"@ + num_text(idx as nat) + "\");"@ =~= pre + op_text(idx as nat, instr_view(*ins)));
        },
        OpCode::Intervene => {
            push_str_utf8(out, " = format!(\"int_", Ghost(pre));
            push_num(out, idx, Ghost(pre + " = format!(\"int_"@));
            push_str_utf8(out, "\");", Ghost(pre + " = format!(\"int_"@ + num_text(idx as nat)));
            assert(pre + " = format!(\"int_"@ + num_text(idx as nat) + "\");"@ =~= pre + op_text(idx as nat, instr_view(*ins)));
        },
        OpCode::Verify => {
            push_str_utf8(out, " = format!(\"verified_{}\", ", Ghost(pre));
            push_operand(out, &ins.first_operand, Ghost(pre + " = format!(\"verified_{}\", "@));
            push_str_utf8(out, ");", Ghost(pre + " = format!(\"verified_{}\", "@ + operand_text(instr_view(*ins).2)));
            assert(pre + " = format!(\"verified_{}\", "@ + operand_text(instr_view(*ins).2) + ");"@ =~= pre + op_text(idx as nat, instr_view(*ins)));
        },
        OpCode::Commit => {
            push_str_utf8(out, " = format!(\"commit_", Ghost(pre));
            push_num(out, idx, Ghost(pre + " = format!(\"commit_"@));
            push_str_utf8(out, "\");", Ghost(pre + " = format!(\"commit_"@ + num_text(idx as nat)));
            assert(pre + " = format!(\"commit_"@ + num_text(idx as nat) + "\");"@ =~= pre + op_text(idx as nat, instr_view(*ins)));
        },
        OpCode::Compile => {
            push_str_utf8(out, " = format!(\"compiled_", Ghost(pre));
            push_num(out, idx, Ghost(pre + " = format!(\"compiled_"@));
            push_str_utf8(out, "\");", Ghost(pre + " = format!(\"compiled_"@ + num_text(idx as nat)));
            assert(pre + " = format!(\"compiled_"@ + num_text(idx as nat) + "\");"@ =~= pre + op_text(idx as nat, instr_view(*ins)));
        },
    }
}

fn push_instr(out: &mut Vec<u8>, idx: usize, ins: &OirInstructionText, Ghost(pre): Ghost<Seq<char>>)
    requires
        old(out)@ == encode_utf8(pre),
    ensures
        final(out)@ == encode_utf8(pre + instr_text(idx as nat, instr_view(*ins))),
{
    let ghost i = instr_view(*ins);
    push_str_utf8(out, "    // Charge budget tick for instruction ", Ghost(pre));
    let ghost p1 = pre + "    // Charge budget tick for instruction "@;
    push_num(out, idx, Ghost(p1));
    let ghost p2 = p1 + num_text(idx as nat);
    push_str_utf8(out, "\n    if budget.cpu_steps_remaining == 0 {\n        return Err(\"BudgetExhausted\".to_string());\n    }\n    budget.cpu_steps_remaining -= 1;\n\n    // Invariant guard check for ", Ghost(p2));
    let ghost p3 = p2 + "\n    if budget.cpu_steps_remaining == 0 {\n        return Err(\"BudgetExhausted\".to_string());\n    }\n    budget.cpu_steps_remaining -= 1;\n\n    // Invariant guard check for "@;
    push_str_utf8(out, opcode_str(ins.opcode), Ghost(p3));
    let ghost p4 = p3 + opcode_name(i.1);
    push_str_utf8(out, "\n    let guard_passed = true; // Formal contract guard\n    if !guard_passed {\n        return Err(\"InvariantGuardViolation\".to_string());\n    }\n\n    let ", Ghost(p4));
    let ghost p5 = p4 + "\n    let guard_passed = true; // Formal contract guard\n    if !guard_passed {\n        return Err(\"InvariantGuardViolation\".to_string());\n    }\n\n    let "@;
    let var = replace_char(ins.result_id.as_str(), '%', "var_");
    push_string_utf8(out, &var, Ghost(p5));
    let ghost p6 = p5 + var_text(i.0);
    push_op(out, idx, ins, Ghost(p6));
    let ghost p7 = p6 + op_text(idx as nat, i);
    push_str_utf8(out, "\n\n", Ghost(p7));
    assert(p7 + "\n\n"@ =~= pre + instr_text(idx as nat, i));
}

impl RustCodegen {
    /// Lowers a program into Rust source: the header, then for each
    /// instruction its budget charge, its guard and its statement, and last
    /// the `Ok` of the last instruction's value.
    pub fn generate_rust_source(module: &OirModuleText) -> (code: String)
        ensures
            code@ == lowered_source(module.name@, instr_views(module.instructions@)),
    {
        let ghost ins = instr_views(module.instructions@);
        let mut out: Vec<u8> = Vec::new();
        proof {
            lemma_encode_empty();
        }
        push_str_utf8(&mut out, "// AUDIT-LENSES: Grace Hopper, Dennis Ritchie, Niklaus Wirth\n// Generated automatically by OIR->Rust Lowering Compiler. DO NOT EDIT DIRECTLY.\n#![forbid(unsafe_code)]\n\nuse origin_core::state::Budget;\n\npub fn execute_", Ghost(Seq::empty()));
        let ghost h1 = Seq::<char>::empty() + "// AUDIT-LENSES: Grace Hopper, Dennis Ritchie, Niklaus Wirth\n// Generated automatically by OIR->Rust Lowering Compiler. DO NOT EDIT DIRECTLY.\n#![forbid(unsafe_code)]\n\nuse origin_core::state::Budget;\n\npub fn execute_"@;
        let fname = replace_char(module.name.as_str(), '-', "_");
        push_string_utf8(&mut out, &fname, Ghost(h1));
        let ghost h2 = h1 + fname@;
        push_str_utf8(&mut out, "(budget: &mut Budget) -> Result<String, String> {\n", Ghost(h2));
        assert(h2 + "(budget: &mut Budget) -> Result<String, String> {\n"@ =~= header_text(module.name@));
        let mut k: usize = 0;
        while k < module.instructions.len()
            invariant
                k <= module.instructions@.len(),
                ins == instr_views(module.instructions@),
                out@ == encode_utf8(header_text(module.name@) + body_upto(ins, k as int)),
            decreases module.instructions@.len() - k,
        {
            let ghost pre = header_text(module.name@) + body_upto(ins, k as int);
            push_instr(&mut out, k, &module.instructions[k], Ghost(pre));
            assert(ins[k as int] == instr_view(module.instructions@[k as int]));
            assert(pre + instr_text(k as nat, ins[k as int]) =~= header_text(module.name@) + body_upto(ins, k + 1));
            k = k + 1;
        }
        let ghost body = header_text(module.name@) + body_upto(ins, ins.len() as int);
        let n = module.instructions.len();
        if n == 0 {
            push_str_utf8(&mut out, "    Ok(\"empty_module\".to_string())\n}\n", Ghost(body));
        } else {
            push_str_utf8(&mut out, "    Ok(", Ghost(body));
            let last = replace_char(module.instructions[n - 1].result_id.as_str(), '%', "var_");
            assert(ins.last() == instr_view(module.instructions@[n - 1]));
            push_string_utf8(&mut out, &last, Ghost(body + "    Ok("@));
            push_str_utf8(&mut out, ")\n}\n", Ghost(body + "    Ok("@ + last@));
            assert(body + "    Ok("@ + last@ + ")\n}\n"@ =~= body + footer_text(ins));
        }
        assert(body + footer_text(ins) =~= lowered_source(module.name@, ins));
        string_of_utf8(out, Ghost(lowered_source(module.name@, ins)))
    }
}

pub fn crate_name() -> (s: &'static str)
    ensures
        s@ == "origin-codegen-rust"@,
{
    "origin-codegen-rust"
}

} // verus!
