use vstd::prelude::*;

use crate::opcode::OpCode;

verus! {

/// A decoded instruction with the offset of its opcode byte in the raw code.
#[derive(Clone, Copy, Debug, PartialEq, Eq, Structural)]
pub struct Block {
    pub opcode: OpCode,
    pub position: usize,
}

impl Block {
    pub fn new(opcode: OpCode, position: usize) -> (r: Block)
        ensures
            r.opcode == opcode,
            r.position == position,
    {
        Block { opcode, position }
    }
}

} // verus!
