//! The micro instruction set: exactly nine opcodes, each with a one-byte code.

use vstd::prelude::*;
use crate::kernel::text::copy_bytes;

verus! {

#[derive(Debug, Clone, Copy, PartialEq, Eq, Hash, Structural)]
pub enum OpCode {
    Observe,
    Propose,
    Relate,
    Refine,
    Query,
    Intervene,
    Verify,
    Commit,
    Compile,
}

/// The byte code of an opcode, from 1 (`Observe`) to 9 (`Compile`).
pub open spec fn opcode_byte(op: OpCode) -> u8 {
    match op {
        OpCode::Observe => 1,
        OpCode::Propose => 2,
        OpCode::Relate => 3,
        OpCode::Refine => 4,
        OpCode::Query => 5,
        OpCode::Intervene => 6,
        OpCode::Verify => 7,
        OpCode::Commit => 8,
        OpCode::Compile => 9,
    }
}

/// The opcode with byte code `b`, if there is one.
pub open spec fn opcode_of_byte(b: u8) -> Option<OpCode> {
    if 1 <= b <= 9 {
        Some(choose|op: OpCode| opcode_byte(op) == b)
    } else {
        None
    }
}

/// All opcodes in byte-code order.
pub open spec fn all_opcodes() -> Seq<OpCode> {
    seq![
        OpCode::Observe,
        OpCode::Propose,
        OpCode::Relate,
        OpCode::Refine,
        OpCode::Query,
        OpCode::Intervene,
        OpCode::Verify,
        OpCode::Commit,
        OpCode::Compile,
    ]
}

impl OpCode {
    pub const ALL: [OpCode; 9] = [
        OpCode::Observe,
        OpCode::Propose,
        OpCode::Relate,
        OpCode::Refine,
        OpCode::Query,
        OpCode::Intervene,
        OpCode::Verify,
        OpCode::Commit,
        OpCode::Compile,
    ];

    /// The number of opcodes.
    pub fn count() -> (n: usize)
        ensures
            n == all_opcodes().len(),
            n == 9,
    {
        9
    }

    pub fn byte_value(self) -> (b: u8)
        ensures
            b == opcode_byte(self),
    {
        match self {
            OpCode::Observe => 1,
            OpCode::Propose => 2,
            OpCode::Relate => 3,
            OpCode::Refine => 4,
            OpCode::Query => 5,
            OpCode::Intervene => 6,
            OpCode::Verify => 7,
            OpCode::Commit => 8,
            OpCode::Compile => 9,
        }
    }

    pub fn from_u8(b: u8) -> (r: Option<OpCode>)
        ensures
            r == opcode_of_byte(b),
    {
        let r = match b {
            1 => Some(OpCode::Observe),
            2 => Some(OpCode::Propose),
            3 => Some(OpCode::Relate),
            4 => Some(OpCode::Refine),
            5 => Some(OpCode::Query),
            6 => Some(OpCode::Intervene),
            7 => Some(OpCode::Verify),
            8 => Some(OpCode::Commit),
            9 => Some(OpCode::Compile),
            _ => None,
        };
        proof {
            if let Some(op) = r {
                lemma_byte_injective(op, choose|o: OpCode| opcode_byte(o) == b);
            }
        }
        r
    }
}

proof fn lemma_byte_injective(a: OpCode, b: OpCode)
    requires
        opcode_byte(a) == opcode_byte(b),
    ensures
        a == b,
{
}

/// Every opcode has a byte code from 1 to 9, and decoding that byte gives the opcode back.
pub proof fn law_opcode_byte_roundtrip(op: OpCode)
    ensures
        1 <= opcode_byte(op) <= 9,
        opcode_of_byte(opcode_byte(op)) == Some(op),
{
    let b = opcode_byte(op);
    assert(opcode_byte(op) == b);
    lemma_byte_injective(op, choose|o: OpCode| opcode_byte(o) == b);
}

/// A byte decodes to an opcode exactly when it lies from 1 to 9, and then encodes back to itself.
pub proof fn law_byte_opcode_roundtrip(b: u8)
    ensures
        opcode_of_byte(b) is Some <==> 1 <= b <= 9,
        opcode_of_byte(b) matches Some(op) ==> opcode_byte(op) == b,
{
    if 1 <= b <= 9 {
        let w = match b {
            1 => OpCode::Observe,
            2 => OpCode::Propose,
            3 => OpCode::Relate,
            4 => OpCode::Refine,
            5 => OpCode::Query,
            6 => OpCode::Intervene,
            7 => OpCode::Verify,
            8 => OpCode::Commit,
            _ => OpCode::Compile,
        };
        assert(opcode_byte(w) == b);
    }
}

/// The nine opcodes are distinct and every opcode is among them.
pub proof fn law_exactly_nine_opcodes(op: OpCode)
    ensures
        all_opcodes().len() == 9,
        all_opcodes().contains(op),
        all_opcodes().no_duplicates(),
{
    let s = all_opcodes();
    assert(s[opcode_byte(op) - 1] == op);
    assert forall|i: int, j: int| 0 <= i < s.len() && 0 <= j < s.len() && i != j implies s[i] != s[j] by {
        assert(opcode_byte(s[i]) == i + 1);
        assert(opcode_byte(s[j]) == j + 1);
    }
}

#[derive(Debug, Clone, PartialEq, Eq)]
pub struct Instruction {
    pub opcode: OpCode,
    pub payload: Vec<u8>,
}

impl Instruction {
    pub fn new(opcode: OpCode, payload: &[u8]) -> (i: Instruction)
        ensures
            i.opcode == opcode,
            i.payload@ == payload@,
    {
        Instruction { opcode, payload: copy_bytes(payload) }
    }
}

} // verus!
