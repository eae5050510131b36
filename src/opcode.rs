use vstd::prelude::*;

use crate::word::{be_val, word_of, Word};

verus! {

/// One decoded instruction. The nullary variants are the single-byte opcodes; the
/// parametrised ones carry their index (and, for pushes, the immediate value).
#[allow(non_camel_case_types)]
#[derive(Clone, Copy, Debug, PartialEq, Eq, Structural)]
pub enum OpCode {
    STOP,
    ADD,
    MUL,
    SUB,
    DIV,
    SDIV,
    MOD,
    SMOD,
    ADDMOD,
    MULMOD,
    EXP,
    SIGNEXTEND,
    LT,
    GT,
    SLT,
    SGT,
    EQ,
    ISZERO,
    AND,
    OR,
    XOR,
    NOT,
    BYTE,
    SHL,
    SHR,
    SAR,
    SHA3,
    ADDRESS,
    BALANCE,
    ORIGIN,
    CALLER,
    CALLVALUE,
    CALLDATALOAD,
    CALLDATASIZE,
    CALLDATACOPY,
    CODESIZE,
    CODECOPY,
    GASPRICE,
    EXTCODESIZE,
    EXTCODECOPY,
    RETURNDATASIZE,
    RETURNDATACOPY,
    EXTCODEHASH,
    BLOCKHASH,
    COINBASE,
    TIMESTAMP,
    NUMBER,
    DIFFICULTY,
    GASLIMIT,
    CHAINID,
    SELFBALANCE,
    BASEFEE,
    POP,
    MLOAD,
    MSTORE,
    MSTORE8,
    SLOAD,
    SSTORE,
    JUMP,
    JUMPI,
    PC,
    MSIZE,
    GAS,
    JUMPDEST,
    PUSH,
    DUP,
    SWAP,
    CREATE,
    CALL,
    CALLCODE,
    RETURN,
    DELEGATECALL,
    CREATE2,
    STATICCALL,
    REVERT,
    SELFDESTRUCT,
    /// `PUSH1`..`PUSH32`: the byte count and the immediate value.
    PUSHN(u8, Word),
    /// `DUP1`..`DUP16`.
    DUPN(u8),
    /// `SWAP1`..`SWAP16`.
    SWAPN(u8),
    /// `LOG0`..`LOG4`.
    LOGN(u8),
    /// A byte outside the table.
    INVALID(u8),
}

/// Whether `b` is a push opcode.
pub open spec fn is_push_byte(b: u8) -> bool {
    0x60 <= b <= 0x7f
}

/// How many immediate bytes follow the opcode byte `b`.
pub open spec fn immediate_len(b: u8) -> nat {
    if is_push_byte(b) {
        (b - 0x5f) as nat
    } else {
        0
    }
}

/// How many immediate bytes an instruction occupied in the code.
pub open spec fn immediate_len_of(op: OpCode) -> nat {
    match op {
        OpCode::PUSHN(n, _) => n as nat,
        _ => 0,
    }
}

/// The instruction of a table byte (one with no immediate and no index).
pub open spec fn table_opcode(b: u8) -> OpCode {
    match b {
        0x00 => OpCode::STOP,
        0x01 => OpCode::ADD,
        0x02 => OpCode::MUL,
        0x03 => OpCode::SUB,
        0x04 => OpCode::DIV,
        0x05 => OpCode::SDIV,
        0x06 => OpCode::MOD,
        0x07 => OpCode::SMOD,
        0x08 => OpCode::ADDMOD,
        0x09 => OpCode::MULMOD,
        0x0a => OpCode::EXP,
        0x0b => OpCode::SIGNEXTEND,
        0x10 => OpCode::LT,
        0x11 => OpCode::GT,
        0x12 => OpCode::SLT,
        0x13 => OpCode::SGT,
        0x14 => OpCode::EQ,
        0x15 => OpCode::ISZERO,
        0x16 => OpCode::AND,
        0x17 => OpCode::OR,
        0x18 => OpCode::XOR,
        0x19 => OpCode::NOT,
        0x1a => OpCode::BYTE,
        0x1b => OpCode::SHL,
        0x1c => OpCode::SHR,
        0x1d => OpCode::SAR,
        0x20 => OpCode::SHA3,
        0x30 => OpCode::ADDRESS,
        0x31 => OpCode::BALANCE,
        0x32 => OpCode::ORIGIN,
        0x33 => OpCode::CALLER,
        0x34 => OpCode::CALLVALUE,
        0x35 => OpCode::CALLDATALOAD,
        0x36 => OpCode::CALLDATASIZE,
        0x37 => OpCode::CALLDATACOPY,
        0x38 => OpCode::CODESIZE,
        0x39 => OpCode::CODECOPY,
        0x3a => OpCode::GASPRICE,
        0x3b => OpCode::EXTCODESIZE,
        0x3c => OpCode::EXTCODECOPY,
        0x3d => OpCode::RETURNDATASIZE,
        0x3e => OpCode::RETURNDATACOPY,
        0x3f => OpCode::EXTCODEHASH,
        0x40 => OpCode::BLOCKHASH,
        0x41 => OpCode::COINBASE,
        0x42 => OpCode::TIMESTAMP,
        0x43 => OpCode::NUMBER,
        0x44 => OpCode::DIFFICULTY,
        0x45 => OpCode::GASLIMIT,
        0x46 => OpCode::CHAINID,
        0x47 => OpCode::SELFBALANCE,
        0x48 => OpCode::BASEFEE,
        0x50 => OpCode::POP,
        0x51 => OpCode::MLOAD,
        0x52 => OpCode::MSTORE,
        0x53 => OpCode::MSTORE8,
        0x54 => OpCode::SLOAD,
        0x55 => OpCode::SSTORE,
        0x56 => OpCode::JUMP,
        0x57 => OpCode::JUMPI,
        0x58 => OpCode::PC,
        0x59 => OpCode::MSIZE,
        0x5a => OpCode::GAS,
        0x5b => OpCode::JUMPDEST,
        0xb0 => OpCode::PUSH,
        0xb1 => OpCode::DUP,
        0xb2 => OpCode::SWAP,
        0xf0 => OpCode::CREATE,
        0xf1 => OpCode::CALL,
        0xf2 => OpCode::CALLCODE,
        0xf3 => OpCode::RETURN,
        0xf4 => OpCode::DELEGATECALL,
        0xf5 => OpCode::CREATE2,
        0xfa => OpCode::STATICCALL,
        0xfd => OpCode::REVERT,
        0xff => OpCode::SELFDESTRUCT,
        _ => OpCode::INVALID(b),
    }
}

/// The instruction that opcode byte `b` stands for, with `imm` the bytes of its immediate.
pub open spec fn opcode_spec(b: u8, imm: Seq<u8>) -> OpCode {
    if is_push_byte(b) {
        OpCode::PUSHN((b - 0x5f) as u8, word_of(be_val(imm)))
    } else if 0x80 <= b <= 0x8f {
        OpCode::DUPN((b - 0x7f) as u8)
    } else if 0x90 <= b <= 0x9f {
        OpCode::SWAPN((b - 0x8f) as u8)
    } else if 0xa0 <= b <= 0xa4 {
        OpCode::LOGN((b - 0xa0) as u8)
    } else {
        table_opcode(b)
    }
}

/// Looks up a table byte.
fn lookup_table(b: u8) -> (r: OpCode)
    ensures
        r == table_opcode(b),
{
    match b {
        0x00 => OpCode::STOP,
        0x01 => OpCode::ADD,
        0x02 => OpCode::MUL,
        0x03 => OpCode::SUB,
        0x04 => OpCode::DIV,
        0x05 => OpCode::SDIV,
        0x06 => OpCode::MOD,
        0x07 => OpCode::SMOD,
        0x08 => OpCode::ADDMOD,
        0x09 => OpCode::MULMOD,
        0x0a => OpCode::EXP,
        0x0b => OpCode::SIGNEXTEND,
        0x10 => OpCode::LT,
        0x11 => OpCode::GT,
        0x12 => OpCode::SLT,
        0x13 => OpCode::SGT,
        0x14 => OpCode::EQ,
        0x15 => OpCode::ISZERO,
        0x16 => OpCode::AND,
        0x17 => OpCode::OR,
        0x18 => OpCode::XOR,
        0x19 => OpCode::NOT,
        0x1a => OpCode::BYTE,
        0x1b => OpCode::SHL,
        0x1c => OpCode::SHR,
        0x1d => OpCode::SAR,
        0x20 => OpCode::SHA3,
        0x30 => OpCode::ADDRESS,
        0x31 => OpCode::BALANCE,
        0x32 => OpCode::ORIGIN,
        0x33 => OpCode::CALLER,
        0x34 => OpCode::CALLVALUE,
        0x35 => OpCode::CALLDATALOAD,
        0x36 => OpCode::CALLDATASIZE,
        0x37 => OpCode::CALLDATACOPY,
        0x38 => OpCode::CODESIZE,
        0x39 => OpCode::CODECOPY,
        0x3a => OpCode::GASPRICE,
        0x3b => OpCode::EXTCODESIZE,
        0x3c => OpCode::EXTCODECOPY,
        0x3d => OpCode::RETURNDATASIZE,
        0x3e => OpCode::RETURNDATACOPY,
        0x3f => OpCode::EXTCODEHASH,
        0x40 => OpCode::BLOCKHASH,
        0x41 => OpCode::COINBASE,
        0x42 => OpCode::TIMESTAMP,
        0x43 => OpCode::NUMBER,
        0x44 => OpCode::DIFFICULTY,
        0x45 => OpCode::GASLIMIT,
        0x46 => OpCode::CHAINID,
        0x47 => OpCode::SELFBALANCE,
        0x48 => OpCode::BASEFEE,
        0x50 => OpCode::POP,
        0x51 => OpCode::MLOAD,
        0x52 => OpCode::MSTORE,
        0x53 => OpCode::MSTORE8,
        0x54 => OpCode::SLOAD,
        0x55 => OpCode::SSTORE,
        0x56 => OpCode::JUMP,
        0x57 => OpCode::JUMPI,
        0x58 => OpCode::PC,
        0x59 => OpCode::MSIZE,
        0x5a => OpCode::GAS,
        0x5b => OpCode::JUMPDEST,
        0xb0 => OpCode::PUSH,
        0xb1 => OpCode::DUP,
        0xb2 => OpCode::SWAP,
        0xf0 => OpCode::CREATE,
        0xf1 => OpCode::CALL,
        0xf2 => OpCode::CALLCODE,
        0xf3 => OpCode::RETURN,
        0xf4 => OpCode::DELEGATECALL,
        0xf5 => OpCode::CREATE2,
        0xfa => OpCode::STATICCALL,
        0xfd => OpCode::REVERT,
        0xff => OpCode::SELFDESTRUCT,
        _ => OpCode::INVALID(b),
    }
}

/// The instruction of opcode byte `b` with immediate bytes `imm`.
pub fn decode_opcode(b: u8, imm: &[u8]) -> (r: OpCode)
    requires
        imm@.len() == immediate_len(b),
    ensures
        r == opcode_spec(b, imm@),
{
    if 0x60 <= b && b <= 0x7f {
        let v = Word::from_be_bytes(imm);
        proof {
            v.lemma_word_of_value();
        }
        OpCode::PUSHN(b - 0x5f, v)
    } else if 0x80 <= b && b <= 0x8f {
        OpCode::DUPN(b - 0x7f)
    } else if 0x90 <= b && b <= 0x9f {
        OpCode::SWAPN(b - 0x8f)
    } else if 0xa0 <= b && b <= 0xa4 {
        OpCode::LOGN(b - 0xa0)
    } else {
        lookup_table(b)
    }
}

} // verus!
