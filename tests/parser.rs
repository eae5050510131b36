use evm_utils::block::Block;
use evm_utils::opcode::OpCode;
use evm_utils::parser::{code_bytes, decode_bytes, from_hex, is_hex_digit, parse, DecodeError};
use evm_utils::word::Word;

fn push1(v: u64, position: usize) -> Block {
    Block { opcode: OpCode::PUSHN(1, Word::from_u64(v)), position }
}

fn op(opcode: OpCode, position: usize) -> Block {
    Block { opcode, position }
}

#[test]
fn test_parse() {
    let bytecode = "600f8060093d393df36000356020350160005260206000f3";
    let parsed = parse(bytecode).unwrap();
    assert_eq!(
        parsed,
        vec![
            push1(0x0f, 0),
            op(OpCode::DUPN(1), 2),
            push1(0x09, 3),
            op(OpCode::RETURNDATASIZE, 5),
            op(OpCode::CODECOPY, 6),
            op(OpCode::RETURNDATASIZE, 7),
            op(OpCode::RETURN, 8),
            push1(0x00, 9),
            op(OpCode::CALLDATALOAD, 11),
            push1(0x20, 12),
            op(OpCode::CALLDATALOAD, 14),
            op(OpCode::ADD, 15),
            push1(0x00, 16),
            op(OpCode::MSTORE, 18),
            push1(0x20, 19),
            push1(0x00, 21),
            op(OpCode::RETURN, 23),
        ]
    );
}

#[test]
fn parse_accepts_prefix_and_upper_case() {
    let a = parse("0x600F01").unwrap();
    let b = parse("600f01").unwrap();
    assert_eq!(a, b);
    assert_eq!(a, vec![push1(0x0f, 0), op(OpCode::ADD, 2)]);
}

#[test]
fn parse_empty_input() {
    assert_eq!(parse("").unwrap(), vec![]);
    assert_eq!(parse("0x").unwrap(), vec![]);
}

#[test]
fn truncated_push_is_an_error() {
    assert_eq!(parse("6001"), Ok(vec![push1(1, 0)]));
    assert_eq!(parse("61ff"), Err(DecodeError::TruncatedImmediate { at_byte_offset: 0 }));
    assert_eq!(parse("0160"), Err(DecodeError::TruncatedImmediate { at_byte_offset: 1 }));
    assert_eq!(decode_bytes(&[0x7f; 32]), Err(DecodeError::TruncatedImmediate { at_byte_offset: 0 }));
}

#[test]
fn malformed_hex_reports_the_offset() {
    assert_eq!(parse("6g"), Err(DecodeError::MalformedHex { at_char_offset: 1 }));
    assert_eq!(parse("600"), Err(DecodeError::MalformedHex { at_char_offset: 2 }));
    assert_eq!(parse("0x0z"), Err(DecodeError::MalformedHex { at_char_offset: 3 }));
    assert_eq!(parse("x0"), Err(DecodeError::MalformedHex { at_char_offset: 0 }));
    assert_eq!(code_bytes("01 02"), Err(DecodeError::MalformedHex { at_char_offset: 2 }));
}

#[test]
fn code_bytes_spells_bytes() {
    assert_eq!(code_bytes("0x00ff7A"), Ok(vec![0x00, 0xff, 0x7a]));
    assert_eq!(code_bytes(""), Ok(vec![]));
}

#[test]
fn push32_round_trip() {
    let mut code = vec![0x7f];
    code.extend((1u8..=32).collect::<Vec<u8>>());
    code.push(0x5b);
    let units = decode_bytes(&code).unwrap();
    assert_eq!(units.len(), 2);
    let mut bytes = Vec::new();
    for b in 1u8..=32 {
        bytes.push(b);
    }
    assert_eq!(units[0], Block { opcode: OpCode::PUSHN(32, Word::from_be_bytes(&bytes)), position: 0 });
    assert_eq!(units[1], op(OpCode::JUMPDEST, 33));
    match units[0].opcode {
        OpCode::PUSHN(_, w) => assert_eq!(w.to_be_bytes(), bytes),
        _ => panic!("not a push"),
    }
}

#[test]
fn positions_follow_immediates() {
    let units = parse("61aabb5b62010203fe").unwrap();
    let positions: Vec<usize> = units.iter().map(|u| u.position).collect();
    assert_eq!(positions, vec![0, 3, 4, 8]);
    assert_eq!(units[0].opcode, OpCode::PUSHN(2, Word::from_u64(0xaabb)));
    assert_eq!(units[2].opcode, OpCode::PUSHN(3, Word::from_u64(0x010203)));
}

#[test]
fn parametrised_and_unknown_opcodes() {
    let units = decode_bytes(&[0x80, 0x8f, 0x90, 0x9f, 0xa0, 0xa4, 0xa5, 0x0c, 0x1c, 0x1d]).unwrap();
    let ops: Vec<OpCode> = units.iter().map(|u| u.opcode).collect();
    assert_eq!(
        ops,
        vec![
            OpCode::DUPN(1),
            OpCode::DUPN(16),
            OpCode::SWAPN(1),
            OpCode::SWAPN(16),
            OpCode::LOGN(0),
            OpCode::LOGN(4),
            OpCode::INVALID(0xa5),
            OpCode::INVALID(0x0c),
            OpCode::SHR,
            OpCode::SAR,
        ]
    );
}

#[test]
fn hex_digits() {
    assert!(is_hex_digit('0'));
    assert!(is_hex_digit('f'));
    assert!(is_hex_digit('F'));
    assert!(!is_hex_digit('g'));
    assert!(!is_hex_digit('x'));
    assert_eq!(from_hex('f', 'f'), 0xff);
    assert_eq!(from_hex('0', 'A'), 0x0a);
    assert_eq!(from_hex('7', 'c'), 0x7c);
}

#[test]
fn block_new_keeps_fields() {
    let b = Block::new(OpCode::JUMPDEST, 7);
    assert_eq!(b.opcode, OpCode::JUMPDEST);
    assert_eq!(b.position, 7);
}
