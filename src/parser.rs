use vstd::prelude::*;
use vstd::slice::slice_subrange;
use vstd::string::StringSliceAdditionalSpecFns;

use crate::block::Block;
use crate::opcode::{decode_opcode, immediate_len, immediate_len_of, is_push_byte, opcode_spec, OpCode};
use crate::word::{
    be_val, lemma_be_val_bound, lemma_pow256_monotonic, lemma_pow256_word, Word,
};

verus! {

/// Why a piece of text is not decodable bytecode.
#[derive(Clone, Copy, Debug, PartialEq, Eq, Structural)]
pub enum DecodeError {
    /// A push opcode at this byte offset has fewer immediate bytes after it than it needs.
    TruncatedImmediate { at_byte_offset: usize },
    /// The text at this offset is not a hex digit, or is a digit left without a partner.
    MalformedHex { at_char_offset: usize },
}

/// Whether `c` is an ASCII hex digit, in either case.
pub open spec fn is_hex_char(c: char) -> bool {
    ('0' <= c && c <= '9') || ('a' <= c && c <= 'f') || ('A' <= c && c <= 'F')
}

/// The value of a hex digit.
pub open spec fn hex_char_value(c: char) -> nat {
    if '0' <= c && c <= '9' {
        (c as nat - '0' as nat) as nat
    } else if 'a' <= c && c <= 'f' {
        (c as nat - 'a' as nat + 10) as nat
    } else {
        (c as nat - 'A' as nat + 10) as nat
    }
}

/// Whether a text byte is a hex digit.
pub open spec fn is_hex_byte(b: u8) -> bool {
    is_hex_char(b as char)
}

/// The byte that two hex digits spell.
pub open spec fn hex_pair_value(hi: u8, lo: u8) -> u8 {
    (16 * hex_char_value(hi as char) + hex_char_value(lo as char)) as u8
}

/// The bytes that the text `s` spells from offset `i` on, two hex digits to a byte; or
/// the offset of the first byte that breaks the pattern.
pub open spec fn hex_pairs(s: Seq<u8>, i: nat) -> Result<Seq<u8>, nat>
    decreases s.len() - i,
{
    if i >= s.len() {
        Ok(Seq::empty())
    } else if !is_hex_byte(s[i as int]) {
        Err(i)
    } else if i + 1 >= s.len() {
        Err(i)
    } else if !is_hex_byte(s[i + 1 as int]) {
        Err(i + 1)
    } else {
        match hex_pairs(s, i + 2) {
            Ok(rest) => Ok(seq![hex_pair_value(s[i as int], s[i + 1 as int])] + rest),
            Err(e) => Err(e),
        }
    }
}

/// Where the hex digits start: after one leading `0x`, if there is one.
pub open spec fn hex_start(s: Seq<u8>) -> nat {
    if s.len() >= 2 && s[0] == 0x30 && s[1] == 0x78 {
        2
    } else {
        0
    }
}

/// The raw code that a hex text spells, or where the text is malformed.
pub open spec fn code_bytes_spec(s: Seq<u8>) -> Result<Seq<u8>, DecodeError> {
    match hex_pairs(s, hex_start(s)) {
        Ok(b) => Ok(b),
        Err(i) => Err(DecodeError::MalformedHex { at_char_offset: i as usize }),
    }
}

/// The units decoded from the raw code, starting at byte offset `pos`.
pub open spec fn decode_at(code: Seq<u8>, pos: nat) -> Result<Seq<Block>, DecodeError>
    decreases code.len() - pos,
{
    if pos >= code.len() {
        Ok(Seq::empty())
    } else {
        let b = code[pos as int];
        let next = pos + 1 + immediate_len(b);
        if next > code.len() {
            Err(DecodeError::TruncatedImmediate { at_byte_offset: pos as usize })
        } else {
            let unit = Block {
                opcode: opcode_spec(b, code.subrange(pos + 1 as int, next as int)),
                position: pos as usize,
            };
            match decode_at(code, next) {
                Ok(rest) => Ok(seq![unit] + rest),
                Err(e) => Err(e),
            }
        }
    }
}

/// The decoding of a whole raw code.
pub open spec fn decode_spec(code: Seq<u8>) -> Result<Seq<Block>, DecodeError> {
    decode_at(code, 0)
}

/// The decoding of a hex text.
pub open spec fn parse_spec(s: Seq<u8>) -> Result<Seq<Block>, DecodeError> {
    match code_bytes_spec(s) {
        Ok(code) => decode_spec(code),
        Err(e) => Err(e),
    }
}

/// `done` followed by what `rest` holds, if it holds units.
pub open spec fn prefixed<T, E>(done: Seq<T>, rest: Result<Seq<T>, E>) -> Result<Seq<T>, E> {
    match rest {
        Ok(r) => Ok(done + r),
        Err(e) => Err(e),
    }
}

/// The view of an executable result.
pub open spec fn result_view<T, E>(r: Result<Vec<T>, E>) -> Result<Seq<T>, E> {
    match r {
        Ok(v) => Ok(v@),
        Err(e) => Err(e),
    }
}

/// Each unit of a decoding from `pos` sits in the code where its opcode byte is, holds
/// what that byte and its immediate say, and the next unit starts right after it.
proof fn lemma_decode_at_facts(code: Seq<u8>, pos: nat)
    requires
        code.len() <= usize::MAX,
        decode_at(code, pos) is Ok,
    ensures
        ({
            let s = decode_at(code, pos)->Ok_0;
            &&& s.len() > 0 ==> s[0].position == pos
            &&& forall|i: int|
                0 <= i < s.len() ==> {
                    let p = #[trigger] s[i].position as int;
                    let end = p + 1 + immediate_len(code[p]);
                    &&& pos <= p < code.len()
                    &&& end <= code.len()
                    &&& s[i].opcode == opcode_spec(code[p], code.subrange(p + 1, end))
                    &&& immediate_len_of(s[i].opcode) == immediate_len(code[p])
                }
            &&& forall|i: int|
                0 <= i < s.len() - 1 ==> s[i + 1].position == s[i].position + 1
                    + immediate_len_of(#[trigger] s[i].opcode)
        }),
    decreases code.len() - pos,
{
    if pos < code.len() {
        let b = code[pos as int];
        let next = pos + 1 + immediate_len(b);
        lemma_decode_at_facts(code, next);
        let rest = decode_at(code, next)->Ok_0;
        let s = decode_at(code, pos)->Ok_0;
        assert(s[0].opcode == opcode_spec(b, code.subrange(pos + 1 as int, next as int)));
        assert(forall|i: int| 0 < i < s.len() ==> s[i] == rest[i - 1]);
    }
}

/// Positions are gap-correct: in a successful decoding the first unit starts at offset 0,
/// and each next unit starts one opcode byte plus the earlier unit's immediate later.
pub proof fn lemma_positions_gap_correct(code: Seq<u8>)
    requires
        code.len() <= usize::MAX,
        decode_spec(code) is Ok,
    ensures
        ({
            let s = decode_spec(code)->Ok_0;
            &&& s.len() > 0 ==> s[0].position == 0
            &&& forall|i: int|
                0 <= i < s.len() - 1 ==> s[i + 1].position == s[i].position + 1
                    + immediate_len_of(#[trigger] s[i].opcode)
        }),
{
    lemma_decode_at_facts(code, 0);
}

/// Push round trip: a push unit comes from a push byte, takes the `byte - 0x5f` bytes
/// after it as its immediate, and holds their big-endian value; a push that runs past
/// the end of the code fails the decoding with `TruncatedImmediate` at its offset.
pub proof fn lemma_push_round_trip(code: Seq<u8>)
    requires
        code.len() <= usize::MAX,
    ensures
        decode_spec(code) is Ok ==> ({
            let s = decode_spec(code)->Ok_0;
            forall|i: int|
                0 <= i < s.len() ==> (#[trigger] s[i].opcode matches OpCode::PUSHN(n, w) ==> {
                    let p = s[i].position as int;
                    &&& is_push_byte(code[p])
                    &&& n == code[p] - 0x5f
                    &&& p + 1 + n <= code.len()
                    &&& w.value() == be_val(code.subrange(p + 1, p + 1 + n))
                })
        }),
        decode_spec(code) is Err ==> ({
            let e = decode_spec(code)->Err_0;
            &&& e is TruncatedImmediate
            &&& is_push_byte(code[e->at_byte_offset as int])
            &&& e->at_byte_offset + 1 + immediate_len(code[e->at_byte_offset as int]) > code.len()
        }),
{
    if decode_spec(code) is Ok {
        lemma_decode_at_facts(code, 0);
        let s = decode_spec(code)->Ok_0;
        assert forall|i: int| 0 <= i < s.len() implies (#[trigger] s[i].opcode matches OpCode::PUSHN(
            n,
            w,
        ) ==> {
            let p = s[i].position as int;
            &&& is_push_byte(code[p])
            &&& n == code[p] - 0x5f
            &&& p + 1 + n <= code.len()
            &&& w.value() == be_val(code.subrange(p + 1, p + 1 + n))
        }) by {
            let p = s[i].position as int;
            let imm = code.subrange(p + 1, p + 1 + immediate_len(code[p]));
            lemma_be_val_bound(imm);
            lemma_pow256_monotonic(imm.len(), 32);
            lemma_pow256_word();
            Word::lemma_value_of_word_of(be_val(imm));
        }
    } else {
        lemma_decode_err(code, 0);
    }
}

/// A failed decoding from `pos` names a push whose immediate runs past the end.
proof fn lemma_decode_err(code: Seq<u8>, pos: nat)
    requires
        code.len() <= usize::MAX,
        decode_at(code, pos) is Err,
    ensures
        ({
            let e = decode_at(code, pos)->Err_0;
            &&& e is TruncatedImmediate
            &&& pos <= e->at_byte_offset < code.len()
            &&& is_push_byte(code[e->at_byte_offset as int])
            &&& e->at_byte_offset + 1 + immediate_len(code[e->at_byte_offset as int]) > code.len()
        }),
    decreases code.len() - pos,
{
    let b = code[pos as int];
    let next = pos + 1 + immediate_len(b);
    if next <= code.len() {
        lemma_decode_err(code, next);
    }
}

/// Whether `c` is an ASCII hex digit.
pub fn is_hex_digit(c: char) -> (r: bool)
    ensures
        r == is_hex_char(c),
{
    ('0' <= c && c <= '9') || ('a' <= c && c <= 'f') || ('A' <= c && c <= 'F')
}

/// The value of one hex digit.
fn hex_digit_value(c: char) -> (r: u8)
    requires
        is_hex_char(c),
    ensures
        r == hex_char_value(c),
{
    if '0' <= c && c <= '9' {
        (c as u32 - '0' as u32) as u8
    } else if 'a' <= c && c <= 'f' {
        (c as u32 - 'a' as u32 + 10) as u8
    } else {
        (c as u32 - 'A' as u32 + 10) as u8
    }
}

/// The byte that two hex digits spell, high digit first.
pub fn from_hex(hi: char, lo: char) -> (r: u8)
    requires
        is_hex_char(hi),
        is_hex_char(lo),
    ensures
        r == 16 * hex_char_value(hi) + hex_char_value(lo),
{
    hex_digit_value(hi) * 16 + hex_digit_value(lo)
}

/// The raw code that a hex text spells, after one optional leading `0x`.
pub fn code_bytes(input: &str) -> (r: Result<Vec<u8>, DecodeError>)
    ensures
        result_view(r) == code_bytes_spec(input.spec_bytes()),
{
    let s = input.as_bytes();
    let ghost text = s@;
    let mut i: usize = if s.len() >= 2 && s[0] == 0x30 && s[1] == 0x78 {
        2
    } else {
        0
    };
    let mut out: Vec<u8> = Vec::new();
    proof {
        assert(out@ + Seq::<u8>::empty() =~= out@);
    }
    while i < s.len()
        invariant
            text == s@,
            text == input.spec_bytes(),
            i <= text.len(),
            hex_pairs(text, hex_start(text)) == prefixed(out@, hex_pairs(text, i as nat)),
        decreases text.len() - i,
    {
        let hi = s[i] as char;
        if !is_hex_digit(hi) {
            return Err(DecodeError::MalformedHex { at_char_offset: i });
        }
        if i + 1 >= s.len() {
            return Err(DecodeError::MalformedHex { at_char_offset: i });
        }
        let lo = s[i + 1] as char;
        if !is_hex_digit(lo) {
            return Err(DecodeError::MalformedHex { at_char_offset: i + 1 });
        }
        let b = from_hex(hi, lo);
        proof {
            let rest = hex_pairs(text, (i + 2) as nat);
            assert(prefixed(out@, prefixed(seq![b], rest)) == prefixed(out@.push(b), rest)) by {
                if let Ok(r) = rest {
                    assert(out@ + (seq![b] + r) =~= out@.push(b) + r);
                }
            }
        }
        out.push(b);
        i = i + 2;
    }
    proof {
        assert(out@ + Seq::<u8>::empty() =~= out@);
    }
    Ok(out)
}

/// Decodes raw code into its units, each with the offset of its opcode byte.
pub fn decode_bytes(code: &[u8]) -> (r: Result<Vec<Block>, DecodeError>)
    ensures
        result_view(r) == decode_spec(code@),
{
    let mut out: Vec<Block> = Vec::new();
    let mut pos: usize = 0;
    proof {
        assert(out@ + Seq::<Block>::empty() =~= out@);
    }
    while pos < code.len()
        invariant
            pos <= code@.len(),
            decode_spec(code@) == prefixed(out@, decode_at(code@, pos as nat)),
        decreases code@.len() - pos,
    {
        let b = code[pos];
        let n: usize = if 0x60 <= b && b <= 0x7f {
            (b - 0x5f) as usize
        } else {
            0
        };
        if n >= code.len() - pos {
            return Err(DecodeError::TruncatedImmediate { at_byte_offset: pos });
        }
        let imm = slice_subrange(code, pos + 1, pos + 1 + n);
        let op = decode_opcode(b, imm);
        let unit = Block::new(op, pos);
        proof {
            let rest = decode_at(code@, (pos + 1 + n) as nat);
            assert(prefixed(out@, prefixed(seq![unit], rest)) == prefixed(out@.push(unit), rest))
                by {
                if let Ok(r) = rest {
                    assert(out@ + (seq![unit] + r) =~= out@.push(unit) + r);
                }
            }
        }
        out.push(unit);
        pos = pos + 1 + n;
    }
    proof {
        assert(out@ + Seq::<Block>::empty() =~= out@);
    }
    Ok(out)
}

/// Decodes a hex text, with one optional leading `0x`, into its units.
pub fn parse(input: &str) -> (r: Result<Vec<Block>, DecodeError>)
    ensures
        result_view(r) == parse_spec(input.spec_bytes()),
{
    match code_bytes(input) {
        Ok(code) => decode_bytes(code.as_slice()),
        Err(e) => Err(e),
    }
}

} // verus!
