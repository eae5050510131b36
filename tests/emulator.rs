use evm_utils::block::Block;
use evm_utils::emulator::{read_memory, write_memory, Emulator, ExecutionError};
use evm_utils::opcode::OpCode;
use evm_utils::parser::{code_bytes, parse};
use evm_utils::word::Word;

const ADDER: &str = "600f8060093d393df36000356020350160005260206000f3";

fn word_bytes(v: u64) -> Vec<u8> {
    Word::from_u64(v).to_be_bytes()
}

fn emulator_for<'a>(hex: &str, calldata: &'a [u8]) -> Emulator<'a> {
    Emulator::new(code_bytes(hex).unwrap(), parse(hex).unwrap(), calldata)
}

#[test]
fn adder_deploys_then_adds() {
    let mut calldata = word_bytes(100);
    calldata.extend(word_bytes(100));
    // The full program is a deployer: it returns the code that follows it.
    let mut deploy = emulator_for(ADDER, &calldata);
    assert_eq!(deploy.run_until_halt(100), Ok(true));
    let runtime = deploy.return_data.clone().unwrap();
    assert_eq!(runtime, code_bytes("6000356020350160005260206000f3").unwrap());
    // Running what it returned on the two words adds them.
    let units = evm_utils::parser::decode_bytes(&runtime).unwrap();
    let mut emu = Emulator::new(runtime, units, &calldata);
    assert_eq!(emu.run_until_halt(100), Ok(true));
    assert_eq!(emu.return_data, Some(word_bytes(200)));
}

#[test]
fn adder_deployer_step_by_step() {
    let calldata: Vec<u8> = vec![];
    let mut emu = emulator_for(ADDER, &calldata);
    assert!(!emu.is_end());
    assert_eq!(emu.current_block(), Some(Block { opcode: OpCode::PUSHN(1, Word::from_u64(0x0f)), position: 0 }));
    emu.run().unwrap();
    emu.run().unwrap();
    assert_eq!(emu.stack, vec![Word::from_u64(0x0f), Word::from_u64(0x0f)]);
    assert_eq!(emu.get_stack(0), Ok(Word::from_u64(0x0f)));
    assert_eq!(emu.get_stack(2), Err(ExecutionError::StackUnderflow));
    while !emu.is_end() {
        emu.run().unwrap();
    }
    assert_eq!(emu.block_index, 7);
    assert_eq!(emu.return_data.as_ref().map(|d| d.len()), Some(15));
    // A halted run stays as it is.
    emu.run().unwrap();
    assert_eq!(emu.block_index, 7);
}

#[test]
fn add_on_empty_stack_underflows() {
    let calldata: Vec<u8> = vec![];
    let units = parse("01").unwrap();
    assert_eq!(units, vec![Block { opcode: OpCode::ADD, position: 0 }]);
    let mut emu = emulator_for("01", &calldata);
    assert_eq!(emu.run(), Err(ExecutionError::StackUnderflow));
    let mut one = emulator_for("600101", &calldata);
    assert_eq!(one.run_until_halt(10), Err(ExecutionError::StackUnderflow));
}

#[test]
fn use_stack_pops_or_underflows() {
    let calldata: Vec<u8> = vec![];
    let mut emu = emulator_for("6007", &calldata);
    assert_eq!(emu.use_stack(), Err(ExecutionError::StackUnderflow));
    emu.run().unwrap();
    assert_eq!(emu.use_stack(), Ok(Word::from_u64(7)));
    assert!(emu.stack.is_empty());
}

#[test]
fn unsupported_opcode_is_refused() {
    let calldata: Vec<u8> = vec![];
    let mut emu = emulator_for("600100", &calldata);
    assert_eq!(emu.run_until_halt(10), Err(ExecutionError::UnsupportedOpcode { byte_position: 2 }));
    let mut bad = emulator_for("fe", &calldata);
    assert_eq!(bad.run(), Err(ExecutionError::UnsupportedOpcode { byte_position: 0 }));
}

#[test]
fn jumpi_taken_lands_on_jumpdest() {
    // PUSH1 1, PUSH1 7, JUMPI, PUSH1 0xaa, JUMPDEST, PUSH1 0xbb
    let calldata: Vec<u8> = vec![];
    let mut emu = emulator_for("600160075760aa5b60bb", &calldata);
    assert_eq!(emu.run_until_halt(3), Ok(false));
    assert_eq!(emu.block_index, 4);
    assert_eq!(emu.run_until_halt(10), Ok(true));
    assert_eq!(emu.stack, vec![Word::from_u64(0xbb)]);
}

#[test]
fn jumpi_with_zero_condition_falls_through() {
    // The target 0x63 is not even a unit: a zero condition never looks at it.
    let calldata: Vec<u8> = vec![];
    let mut emu = emulator_for("600060635760aa", &calldata);
    assert_eq!(emu.run_until_halt(10), Ok(true));
    assert_eq!(emu.stack, vec![Word::from_u64(0xaa)]);
}

#[test]
fn jump_to_non_jumpdest_fails() {
    let calldata: Vec<u8> = vec![];
    // Target 5 is the PUSH1 unit, not a JUMPDEST.
    let mut emu = emulator_for("60016005576001", &calldata);
    assert_eq!(
        emu.run_until_halt(10),
        Err(ExecutionError::InvalidJumpDestination { target: Word::from_u64(5) })
    );
    // Target 1 is inside an immediate: no unit starts there.
    let mut inside = emulator_for("6001565b", &calldata);
    assert_eq!(
        inside.run_until_halt(10),
        Err(ExecutionError::InvalidJumpDestination { target: Word::from_u64(1) })
    );
    let mut jump = emulator_for("6003565b6009", &calldata);
    assert_eq!(jump.run_until_halt(10), Ok(true));
    assert_eq!(jump.stack, vec![Word::from_u64(9)]);
}

#[test]
fn eq_shr_and_returndatasize() {
    let calldata: Vec<u8> = vec![];
    // 5 == 5, then 0x80 >> 4, then RETURNDATASIZE; SAR shifts the same way.
    let mut emu = emulator_for("6005600514608060041c3d60ff60041d", &calldata);
    assert_eq!(emu.run_until_halt(20), Ok(true));
    assert_eq!(
        emu.stack,
        vec![Word::from_u64(1), Word::from_u64(8), Word::from_u64(0), Word::from_u64(0x0f)]
    );
    let mut ne = emulator_for("6005600614", &calldata);
    ne.run_until_halt(5).unwrap();
    assert_eq!(ne.stack, vec![Word::from_u64(0)]);
    let mut big_shift = emulator_for("60ff6101001c", &calldata);
    big_shift.run_until_halt(5).unwrap();
    assert_eq!(big_shift.stack, vec![Word::zero()]);
}

#[test]
fn calldataload_pads_with_zeros() {
    let calldata: Vec<u8> = vec![0xab, 0xcd];
    let mut emu = emulator_for("600035", &calldata);
    emu.run_until_halt(5).unwrap();
    let mut expected = vec![0u8; 32];
    expected[0] = 0xab;
    expected[1] = 0xcd;
    assert_eq!(emu.stack, vec![Word::from_be_bytes(&expected)]);
    let mut far = emulator_for(&format!("7f{}35", "ff".repeat(32)), &calldata);
    far.run_until_halt(5).unwrap();
    assert_eq!(far.stack, vec![Word::zero()]);
}

#[test]
fn mstore_grows_memory_and_return_reads_it() {
    let calldata: Vec<u8> = vec![];
    // MSTORE 0x2a at offset 1.
    let mut emu = emulator_for("602a600152", &calldata);
    emu.run_until_halt(10).unwrap();
    assert_eq!(emu.memory.len(), 33);
    assert_eq!(emu.memory[32], 0x2a);
    assert_eq!(emu.memory[0], 0);
    // The same, then RETURN 40 bytes from offset 0: the tail past memory reads as zeros.
    let mut ret = emulator_for("602a60015260286000f3", &calldata);
    assert_eq!(ret.run_until_halt(10), Ok(true));
    let mut expected = vec![0u8; 40];
    expected[32] = 0x2a;
    assert_eq!(ret.return_data, Some(expected));
}

#[test]
fn memory_range_that_cannot_be_addressed() {
    let calldata: Vec<u8> = vec![];
    let push_max = format!("7f{}", "ff".repeat(32));
    let mut emu = emulator_for(&format!("6001{}52", push_max), &calldata);
    assert_eq!(emu.run_until_halt(10), Err(ExecutionError::MemoryRangeInvalid));
    let mut ret = emulator_for(&format!("6002{}f3", push_max), &calldata);
    assert_eq!(ret.run_until_halt(10), Err(ExecutionError::MemoryRangeInvalid));
    let mut empty = emulator_for(&format!("6000{}f3", push_max), &calldata);
    assert_eq!(empty.run_until_halt(10), Ok(true));
    assert_eq!(empty.return_data, Some(vec![]));
}

#[test]
fn codecopy_pads_past_code_end() {
    let calldata: Vec<u8> = vec![];
    // CODECOPY 8 bytes of code from offset 2 to memory offset 0; the code is 7 bytes long.
    let mut emu = emulator_for("60086002600039", &calldata);
    assert_eq!(emu.run_until_halt(10), Ok(true));
    assert_eq!(emu.memory, vec![0x60, 0x02, 0x60, 0x00, 0x39, 0, 0, 0]);
}

#[test]
fn dup_copies_from_below() {
    let calldata: Vec<u8> = vec![];
    let mut emu = emulator_for("6001600260038182", &calldata);
    assert_eq!(emu.run_until_halt(10), Ok(true));
    let w = |v: u64| Word::from_u64(v);
    assert_eq!(emu.stack, vec![w(1), w(2), w(3), w(2), w(2)]);
    let mut under = emulator_for("6001600282", &calldata);
    assert_eq!(under.run_until_halt(10), Err(ExecutionError::StackUnderflow));
}

#[test]
fn step_budget_stops_a_loop() {
    let calldata: Vec<u8> = vec![];
    // JUMPDEST, PUSH1 0, JUMP: loops forever.
    let mut emu = emulator_for("5b600056", &calldata);
    assert_eq!(emu.run_until_halt(1000), Ok(false));
    assert!(!emu.is_end());
}

#[test]
fn memory_write_then_read() {
    let mut mem: Vec<u8> = vec![1, 2, 3];
    write_memory(&mut mem, 5, &[9, 8]);
    assert_eq!(mem, vec![1, 2, 3, 0, 0, 9, 8]);
    assert_eq!(read_memory(&mem, 5, 2), vec![9, 8]);
    assert_eq!(read_memory(&mem, 6, 4), vec![8, 0, 0, 0]);
    assert_eq!(read_memory(&mem, 100, 3), vec![0, 0, 0]);
    write_memory(&mut mem, 1, &[7]);
    assert_eq!(mem, vec![1, 7, 3, 0, 0, 9, 8]);
    write_memory(&mut mem, 50, &[]);
    assert_eq!(mem.len(), 7);
}
