use vstd::arithmetic::power2::pow2;
use vstd::prelude::*;

use crate::block::Block;
use crate::opcode::OpCode;
use crate::word::{be_val, word_modulus, word_of, Word};

verus! {

/// Why a step of execution failed. Each is fatal to the run.
#[derive(Clone, Copy, Debug, PartialEq, Eq, Structural)]
pub enum ExecutionError {
    /// An instruction needed more stack entries than there were.
    StackUnderflow,
    /// A taken jump whose target is not the offset of a `JUMPDEST` unit.
    InvalidJumpDestination { target: Word },
    /// The unit at this byte offset holds an instruction that is not executed here.
    UnsupportedOpcode { byte_position: usize },
    /// A memory range whose end does not fit in an address.
    MemoryRangeInvalid,
}

/// `len` bytes of `mem` from `offset` on, with zeros past its end.
pub open spec fn mem_read(mem: Seq<u8>, offset: nat, len: nat) -> Seq<u8> {
    Seq::new(len, |i: int| if offset + i < mem.len() { mem[offset + i] } else { 0u8 })
}

/// `mem` with `data` written at `offset`, grown with zeros to cover what was written.
pub open spec fn mem_write(mem: Seq<u8>, offset: nat, data: Seq<u8>) -> Seq<u8> {
    if data.len() == 0 {
        mem
    } else {
        let end = offset + data.len();
        let len = if end > mem.len() {
            end
        } else {
            mem.len()
        };
        Seq::new(
            len,
            |i: int|
                if offset <= i < end {
                    data[i - offset]
                } else if i < mem.len() {
                    mem[i]
                } else {
                    0u8
                },
        )
    }
}

/// Reads `len` bytes at `offset`; what lies past the end of `mem` reads as zero.
pub fn read_memory(mem: &[u8], offset: usize, len: usize) -> (r: Vec<u8>)
    ensures
        r@ == mem_read(mem@, offset as nat, len as nat),
{
    let mut out: Vec<u8> = Vec::new();
    let mut k: usize = 0;
    while k < len
        invariant
            k <= len,
            out@.len() == k,
            forall|j: int| 0 <= j < k ==> out@[j] == mem_read(mem@, offset as nat, len as nat)[j],
        decreases len - k,
    {
        if offset < mem.len() && k < mem.len() - offset {
            out.push(mem[offset + k]);
        } else {
            out.push(0);
        }
        k = k + 1;
    }
    proof {
        assert(out@ =~= mem_read(mem@, offset as nat, len as nat));
    }
    out
}

/// Writes `data` at `offset`, first growing `mem` with zeros where it is too short.
pub fn write_memory(mem: &mut Vec<u8>, offset: usize, data: &[u8])
    requires
        offset + data@.len() <= usize::MAX,
    ensures
        final(mem)@ == mem_write(old(mem)@, offset as nat, data@),
{
    if data.len() == 0 {
        return;
    }
    let ghost start = old(mem)@;
    let end = offset + data.len();
    while mem.len() < end
        invariant
            end == offset + data@.len(),
            start.len() <= mem@.len() <= if end > start.len() {
                end as nat
            } else {
                start.len()
            },
            forall|i: int| 0 <= i < start.len() ==> mem@[i] == start[i],
            forall|i: int| start.len() <= i < mem@.len() ==> mem@[i] == 0u8,
        decreases end - mem@.len(),
    {
        mem.push(0);
    }
    let mut k: usize = 0;
    while k < data.len()
        invariant
            end == offset + data@.len(),
            k <= data@.len(),
            mem@.len() == (if end > start.len() {
                end as nat
            } else {
                start.len()
            }),
            forall|i: int|
                0 <= i < mem@.len() ==> mem@[i] == (if offset <= i < offset + k {
                    data@[i - offset]
                } else if i < start.len() {
                    start[i]
                } else {
                    0u8
                }),
        decreases data@.len() - k,
    {
        mem.set(offset + k, data[k]);
        k = k + 1;
    }
    proof {
        assert(mem@ =~= mem_write(start, offset as nat, data@));
    }
}

/// What the interpreter holds between steps, as mathematical values.
pub struct MachineState {
    pub stack: Seq<Word>,
    pub memory: Seq<u8>,
    pub block_index: nat,
    pub return_data: Option<Seq<u8>>,
}

/// The first index from `from` on whose unit starts at byte offset `target`.
pub open spec fn position_index(code: Seq<Block>, target: nat, from: nat) -> Option<nat>
    decreases code.len() - from,
{
    if from >= code.len() {
        None
    } else if code[from as int].position == target {
        Some(from)
    } else {
        position_index(code, target, from + 1)
    }
}

/// Where a jump to byte offset `target` lands: the unit at that offset, if it is a `JUMPDEST`.
pub open spec fn jump_dest(code: Seq<Block>, target: nat) -> Option<nat> {
    match position_index(code, target, 0) {
        Some(i) => if code[i as int].opcode == OpCode::JUMPDEST {
            Some(i)
        } else {
            None
        },
        None => None,
    }
}

/// How many stack entries an instruction takes, or `None` where it is not executed here.
pub open spec fn stack_needs(op: OpCode) -> Option<nat> {
    match op {
        OpCode::PUSHN(_, _) => Some(0),
        OpCode::DUPN(n) => if n == 0 {
            None
        } else {
            Some(n as nat)
        },
        OpCode::JUMPDEST => Some(0),
        OpCode::RETURNDATASIZE => Some(0),
        OpCode::JUMP => Some(1),
        OpCode::CALLDATALOAD => Some(1),
        OpCode::JUMPI => Some(2),
        OpCode::ADD => Some(2),
        OpCode::EQ => Some(2),
        OpCode::SHR => Some(2),
        OpCode::SAR => Some(2),
        OpCode::MSTORE => Some(2),
        OpCode::RETURN => Some(2),
        OpCode::CODECOPY => Some(3),
        _ => None,
    }
}

/// A right shift of `v` by `s` bits.
pub open spec fn shr_value(v: nat, s: nat) -> nat {
    if s >= 256 {
        0
    } else {
        v / pow2(s)
    }
}

/// The entry `k` places below the top of `s` (0 is the top).
pub open spec fn peek(s: Seq<Word>, k: int) -> Word {
    s[s.len() - 1 - k]
}

/// The state after a step that moves on to the next unit with a new stack.
pub open spec fn advance(st: MachineState, stack: Seq<Word>) -> MachineState {
    MachineState { stack, block_index: st.block_index + 1, ..st }
}

/// The state after a taken jump to byte offset `target`.
pub open spec fn jump_to(code: Seq<Block>, st: MachineState, stack: Seq<Word>, target: Word) -> Result<
    MachineState,
    ExecutionError,
> {
    match jump_dest(code, target.value()) {
        Some(i) => Ok(MachineState { stack, block_index: i, ..st }),
        None => Err(ExecutionError::InvalidJumpDestination { target }),
    }
}

/// What executing `op` does to `st`, once its stack entries are known to be there.
pub open spec fn execute(
    code: Seq<Block>,
    raw: Seq<u8>,
    calldata: Seq<u8>,
    st: MachineState,
    op: OpCode,
) -> Result<MachineState, ExecutionError> {
    let s = st.stack;
    let k = stack_needs(op)->Some_0;
    let rest = s.subrange(0, s.len() - k);
    match op {
        OpCode::PUSHN(_, v) => Ok(advance(st, s.push(v))),
        OpCode::DUPN(n) => Ok(advance(st, s.push(s[s.len() - n]))),
        OpCode::JUMPDEST => Ok(advance(st, s)),
        OpCode::RETURNDATASIZE => Ok(advance(st, s.push(word_of(0)))),
        OpCode::JUMP => jump_to(code, st, rest, peek(s, 0)),
        OpCode::JUMPI => if peek(s, 1).value() == 0 {
            Ok(advance(st, rest))
        } else {
            jump_to(code, st, rest, peek(s, 0))
        },
        OpCode::ADD => Ok(
            advance(
                st,
                rest.push(word_of((peek(s, 0).value() + peek(s, 1).value()) % word_modulus())),
            ),
        ),
        OpCode::EQ => Ok(
            advance(
                st,
                rest.push(
                    if peek(s, 0) == peek(s, 1) {
                        word_of(1)
                    } else {
                        word_of(0)
                    },
                ),
            ),
        ),
        OpCode::SHR | OpCode::SAR => Ok(
            advance(st, rest.push(word_of(shr_value(peek(s, 1).value(), peek(s, 0).value())))),
        ),
        OpCode::CALLDATALOAD => Ok(
            advance(st, rest.push(word_of(be_val(mem_read(calldata, peek(s, 0).value(), 32))))),
        ),
        OpCode::CODECOPY => {
            let (dest, offset, size) = (peek(s, 0).value(), peek(s, 1).value(), peek(s, 2).value());
            if size == 0 {
                Ok(advance(st, rest))
            } else if dest + size > usize::MAX {
                Err(ExecutionError::MemoryRangeInvalid)
            } else {
                Ok(
                    MachineState {
                        memory: mem_write(st.memory, dest, mem_read(raw, offset, size)),
                        ..advance(st, rest)
                    },
                )
            }
        },
        OpCode::MSTORE => {
            let offset = peek(s, 0).value();
            if offset + 32 > usize::MAX {
                Err(ExecutionError::MemoryRangeInvalid)
            } else {
                Ok(
                    MachineState {
                        memory: mem_write(st.memory, offset, peek(s, 1).bytes()),
                        ..advance(st, rest)
                    },
                )
            }
        },
        OpCode::RETURN => {
            let (offset, size) = (peek(s, 0).value(), peek(s, 1).value());
            if size == 0 {
                Ok(MachineState { return_data: Some(Seq::empty()), ..advance(st, rest) })
            } else if offset + size > usize::MAX {
                Err(ExecutionError::MemoryRangeInvalid)
            } else {
                Ok(
                    MachineState {
                        return_data: Some(mem_read(st.memory, offset, size)),
                        ..advance(st, rest)
                    },
                )
            }
        },
        _ => Ok(st),
    }
}

/// Whether a run has halted: it returned, or it ran off the end of the code.
pub open spec fn halted(code: Seq<Block>, st: MachineState) -> bool {
    st.return_data is Some || st.block_index >= code.len()
}

/// One step of execution. A halted state stays as it is.
pub open spec fn step(code: Seq<Block>, raw: Seq<u8>, calldata: Seq<u8>, st: MachineState) -> Result<
    MachineState,
    ExecutionError,
> {
    if halted(code, st) {
        Ok(st)
    } else {
        let unit = code[st.block_index as int];
        match stack_needs(unit.opcode) {
            None => Err(ExecutionError::UnsupportedOpcode { byte_position: unit.position }),
            Some(k) => if st.stack.len() < k {
                Err(ExecutionError::StackUnderflow)
            } else {
                execute(code, raw, calldata, st, unit.opcode)
            },
        }
    }
}

/// No unit starts at an offset that no address can hold.
proof fn lemma_position_index_large(code: Seq<Block>, target: nat, from: nat)
    requires
        target > usize::MAX,
    ensures
        position_index(code, target, from) is None,
    decreases code.len() - from,
{
    if from < code.len() {
        lemma_position_index_large(code, target, from + 1);
    }
}

/// Reads at or past the end of a buffer give zeros, wherever they start.
proof fn lemma_mem_read_past_end(mem: Seq<u8>, a: nat, b: nat, len: nat)
    requires
        a >= mem.len(),
        b >= mem.len(),
    ensures
        mem_read(mem, a, len) == mem_read(mem, b, len),
        mem_read(mem, a, len) == Seq::new(len, |i: int| 0u8),
{
    assert(mem_read(mem, a, len) =~= mem_read(mem, b, len));
    assert(mem_read(mem, a, len) =~= Seq::new(len, |i: int| 0u8));
}

/// How many stack entries an instruction takes, or `None` where it is not executed here.
fn stack_needs_of(op: &OpCode) -> (r: Option<usize>)
    ensures
        r matches Some(k) ==> stack_needs(*op) == Some(k as nat),
        r is None ==> stack_needs(*op) is None,
{
    match op {
        OpCode::PUSHN(_, _) => Some(0),
        OpCode::DUPN(n) => if *n == 0 {
            None
        } else {
            Some(*n as usize)
        },
        OpCode::JUMPDEST => Some(0),
        OpCode::RETURNDATASIZE => Some(0),
        OpCode::JUMP => Some(1),
        OpCode::CALLDATALOAD => Some(1),
        OpCode::JUMPI => Some(2),
        OpCode::ADD => Some(2),
        OpCode::EQ => Some(2),
        OpCode::SHR => Some(2),
        OpCode::SAR => Some(2),
        OpCode::MSTORE => Some(2),
        OpCode::RETURN => Some(2),
        OpCode::CODECOPY => Some(3),
        _ => None,
    }
}

/// At most `n` steps from `st`; a halted state stays as it is, and an error ends the run.
pub open spec fn run_steps(code: Seq<Block>, raw: Seq<u8>, calldata: Seq<u8>, st: MachineState, n: nat) -> Result<
    MachineState,
    ExecutionError,
>
    decreases n,
{
    if n == 0 {
        Ok(st)
    } else {
        match step(code, raw, calldata, st) {
            Ok(next) => run_steps(code, raw, calldata, next, (n - 1) as nat),
            Err(e) => Err(e),
        }
    }
}

/// A halted state is a fixed point of running.
proof fn lemma_run_steps_halted(
    code: Seq<Block>,
    raw: Seq<u8>,
    calldata: Seq<u8>,
    st: MachineState,
    n: nat,
)
    requires
        halted(code, st),
    ensures
        run_steps(code, raw, calldata, st, n) == Ok::<MachineState, ExecutionError>(st),
    decreases n,
{
    if n > 0 {
        lemma_run_steps_halted(code, raw, calldata, st, (n - 1) as nat);
    }
}

/// Memory round trip: bytes written at `offset` read back unchanged from `offset`.
pub proof fn lemma_memory_round_trip(mem: Seq<u8>, offset: nat, data: Seq<u8>)
    ensures
        mem_read(mem_write(mem, offset, data), offset, data.len()) == data,
{
    assert(mem_read(mem_write(mem, offset, data), offset, data.len()) =~= data);
}

/// Memory past what was ever written reads as zeros.
pub proof fn lemma_memory_read_past_end(mem: Seq<u8>, offset: nat, len: nat)
    requires
        offset >= mem.len(),
    ensures
        mem_read(mem, offset, len) == Seq::new(len, |i: int| 0u8),
{
    lemma_mem_read_past_end(mem, offset, offset, len);
}

/// The first unit at `target` from `from` on is at `i`, when none before it is.
proof fn lemma_position_index_found(code: Seq<Block>, target: nat, from: nat, i: nat)
    requires
        from <= i < code.len(),
        code[i as int].position == target,
        forall|j: int| from <= j < i ==> code[j].position != target,
    ensures
        position_index(code, target, from) == Some(i),
    decreases i - from,
{
    if from < i {
        lemma_position_index_found(code, target, from + 1, i);
    }
}

/// A unit found by `position_index` starts at the target.
proof fn lemma_position_index_sound(code: Seq<Block>, target: nat, from: nat)
    ensures
        position_index(code, target, from) matches Some(i) ==> i < code.len()
            && code[i as int].position == target,
    decreases code.len() - from,
{
    if from < code.len() {
        lemma_position_index_sound(code, target, from + 1);
    }
}

/// Jump semantics of `JUMPI`, with `t` the target on top of the stack and `c` the
/// condition below it. A zero condition falls through to the next unit, whatever the
/// target. A non-zero one lands on a `JUMPDEST` unit that starts at byte offset `t`, or
/// fails with `InvalidJumpDestination`; it fails whenever no `JUMPDEST` unit starts at
/// `t`, and, where unit offsets increase along the code, it lands on the one that does.
pub proof fn lemma_jumpi_semantics(
    code: Seq<Block>,
    raw: Seq<u8>,
    calldata: Seq<u8>,
    st: MachineState,
)
    requires
        !halted(code, st),
        code[st.block_index as int].opcode == OpCode::JUMPI,
        st.stack.len() >= 2,
    ensures
        ({
            let t = peek(st.stack, 0);
            let c = peek(st.stack, 1);
            let rest = st.stack.subrange(0, st.stack.len() - 2);
            let r = step(code, raw, calldata, st);
            &&& c.value() == 0 ==> r == Ok::<MachineState, ExecutionError>(advance(st, rest))
            &&& c.value() != 0 ==> match r {
                Ok(next) => {
                    &&& next == MachineState { stack: rest, block_index: next.block_index, ..st }
                    &&& next.block_index < code.len()
                    &&& code[next.block_index as int].position == t.value()
                    &&& code[next.block_index as int].opcode == OpCode::JUMPDEST
                },
                Err(e) => e == ExecutionError::InvalidJumpDestination { target: t },
            }
            &&& c.value() != 0 && (forall|i: int|
                0 <= i < code.len() && #[trigger] code[i].position == t.value() ==> code[i].opcode
                    != OpCode::JUMPDEST) ==> r == Err::<MachineState, ExecutionError>(
                ExecutionError::InvalidJumpDestination { target: t },
            )
            &&& forall|i: int|
                0 <= i < code.len() && c.value() != 0 && #[trigger] code[i].position == t.value()
                    && code[i].opcode == OpCode::JUMPDEST && (forall|j: int, k: int|
                    0 <= j < k < code.len() ==> code[j].position < code[k].position) ==> r == Ok::<
                    MachineState,
                    ExecutionError,
                >(MachineState { stack: rest, block_index: i as nat, ..st })
        }),
{
    let t = peek(st.stack, 0);
    lemma_position_index_sound(code, t.value(), 0);
    assert forall|i: int|
        0 <= i < code.len() && peek(st.stack, 1).value() != 0 && #[trigger] code[i].position
            == t.value() && code[i].opcode == OpCode::JUMPDEST && (forall|j: int, k: int|
            0 <= j < k < code.len() ==> code[j].position < code[k].position) implies step(
        code,
        raw,
        calldata,
        st,
    ) == Ok::<MachineState, ExecutionError>(
        MachineState {
            stack: st.stack.subrange(0, st.stack.len() - 2),
            block_index: i as nat,
            ..st
        },
    ) by {
        assert forall|j: int| 0 <= j < i implies code[j].position != t.value() by {
            assert(code[j].position < code[i].position);
        }
        lemma_position_index_found(code, t.value(), 0, i as nat);
    }
}

/// The interpreter: the code it runs, its call input, and its stack, memory and result.
pub struct Emulator<'a> {
    pub calldata: &'a [u8],
    pub raw_code: Vec<u8>,
    pub code: Vec<Block>,
    pub block_index: usize,
    pub stack: Vec<Word>,
    pub memory: Vec<u8>,
    pub return_data: Option<Vec<u8>>,
}

/// The view of an optional byte vector.
pub open spec fn bytes_view(v: Option<Vec<u8>>) -> Option<Seq<u8>> {
    match v {
        Some(b) => Some(b@),
        None => None,
    }
}

impl<'a> Emulator<'a> {
    /// The state of the run, as mathematical values.
    pub open spec fn state(&self) -> MachineState {
        MachineState {
            stack: self.stack@,
            memory: self.memory@,
            block_index: self.block_index as nat,
            return_data: bytes_view(self.return_data),
        }
    }

    /// What the next step gives.
    pub open spec fn next_state(&self) -> Result<MachineState, ExecutionError> {
        step(self.code@, self.raw_code@, self.calldata@, self.state())
    }

    /// The code and call input stay as they were.
    pub open spec fn same_program(&self, other: &Emulator<'a>) -> bool {
        &&& self.calldata@ == other.calldata@
        &&& self.raw_code@ == other.raw_code@
        &&& self.code@ == other.code@
    }

    /// Only the stack may differ.
    pub open spec fn same_but_stack(&self, other: &Emulator<'a>) -> bool {
        &&& self.same_program(other)
        &&& self.block_index == other.block_index
        &&& self.memory@ == other.memory@
        &&& bytes_view(self.return_data) == bytes_view(other.return_data)
    }

    /// A step from `self` ended in `after` with result `r`, as `step` says.
    pub open spec fn stepped_to(&self, after: &Emulator<'a>, r: Result<(), ExecutionError>) -> bool {
        &&& self.same_program(after)
        &&& match r {
            Ok(()) => self.next_state() == Ok::<MachineState, ExecutionError>(after.state()),
            Err(e) => self.next_state() == Err::<MachineState, ExecutionError>(e),
        }
    }

    /// A fresh run of `code` (decoded from `raw_code`) on `calldata`: empty stack and
    /// memory, at the first unit, not yet returned.
    pub fn new(raw_code: Vec<u8>, code: Vec<Block>, calldata: &'a [u8]) -> (r: Emulator<'a>)
        ensures
            r.raw_code@ == raw_code@,
            r.code@ == code@,
            r.calldata@ == calldata@,
            r.state() == (MachineState {
                stack: Seq::empty(),
                memory: Seq::empty(),
                block_index: 0,
                return_data: None,
            }),
    {
        let r = Emulator {
            calldata,
            raw_code,
            code,
            block_index: 0,
            stack: Vec::new(),
            memory: Vec::new(),
            return_data: None,
        };
        proof {
            assert(r.stack@ =~= Seq::<Word>::empty());
            assert(r.memory@ =~= Seq::<u8>::empty());
        }
        r
    }

    /// Whether the run has halted.
    pub fn is_end(&self) -> (r: bool)
        ensures
            r == halted(self.code@, self.state()),
    {
        self.return_data.is_some() || self.block_index >= self.code.len()
    }

    /// The unit about to run, if there is one.
    pub fn current_block(&self) -> (r: Option<Block>)
        ensures
            r == (if self.block_index < self.code@.len() {
                Some(self.code@[self.block_index as int])
            } else {
                None
            }),
    {
        if self.block_index < self.code.len() {
            Some(self.code[self.block_index])
        } else {
            None
        }
    }

    /// The stack entry `position` places below the top (0 is the top).
    pub fn get_stack(&self, position: usize) -> (r: Result<Word, ExecutionError>)
        ensures
            position < self.stack@.len() ==> r == Ok::<Word, ExecutionError>(
                peek(self.stack@, position as int),
            ),
            position >= self.stack@.len() ==> r == Err::<Word, ExecutionError>(
                ExecutionError::StackUnderflow,
            ),
    {
        if position < self.stack.len() {
            Ok(self.stack[self.stack.len() - 1 - position])
        } else {
            Err(ExecutionError::StackUnderflow)
        }
    }

    /// Pops the top of the stack.
    pub fn use_stack(&mut self) -> (r: Result<Word, ExecutionError>)
        ensures
            final(self).same_but_stack(old(self)),
            old(self).stack@.len() > 0 ==> r == Ok::<Word, ExecutionError>(
                old(self).stack@.last(),
            ) && final(self).stack@ == old(self).stack@.drop_last(),
            old(self).stack@.len() == 0 ==> r == Err::<Word, ExecutionError>(
                ExecutionError::StackUnderflow,
            ) && final(self).stack@ == old(self).stack@,
    {
        match self.stack.pop() {
            Some(w) => Ok(w),
            None => Err(ExecutionError::StackUnderflow),
        }
    }
    /// Moves on to the next unit.
    fn advance_index(&mut self)
        requires
            old(self).block_index < old(self).code@.len(),
        ensures
            final(self).block_index == old(self).block_index + 1,
            final(self).calldata == old(self).calldata,
            final(self).raw_code == old(self).raw_code,
            final(self).code == old(self).code,
            final(self).stack == old(self).stack,
            final(self).memory == old(self).memory,
            final(self).return_data == old(self).return_data,
    {
        let len = self.code.len();
        assert(self.block_index < len);
        self.block_index = self.block_index + 1;
    }

    /// Runs until the run halts, an error comes, or `max_steps` steps have run. Tells
    /// whether the run has halted.
    pub fn run_until_halt(&mut self, max_steps: usize) -> (r: Result<bool, ExecutionError>)
        ensures
            old(self).same_program(final(self)),
            match r {
                Ok(h) => run_steps(
                    old(self).code@,
                    old(self).raw_code@,
                    old(self).calldata@,
                    old(self).state(),
                    max_steps as nat,
                ) == Ok::<MachineState, ExecutionError>(final(self).state()) && h == halted(
                    final(self).code@,
                    final(self).state(),
                ),
                Err(e) => run_steps(
                    old(self).code@,
                    old(self).raw_code@,
                    old(self).calldata@,
                    old(self).state(),
                    max_steps as nat,
                ) == Err::<MachineState, ExecutionError>(e),
            },
    {
        let mut i: usize = 0;
        while i < max_steps
            invariant
                i <= max_steps,
                old(self).same_program(self),
                run_steps(
                    old(self).code@,
                    old(self).raw_code@,
                    old(self).calldata@,
                    old(self).state(),
                    max_steps as nat,
                ) == run_steps(
                    self.code@,
                    self.raw_code@,
                    self.calldata@,
                    self.state(),
                    (max_steps - i) as nat,
                ),
            decreases max_steps - i,
        {
            if self.is_end() {
                proof {
                    lemma_run_steps_halted(
                        self.code@,
                        self.raw_code@,
                        self.calldata@,
                        self.state(),
                        (max_steps - i) as nat,
                    );
                }
                return Ok(true);
            }
            match self.run() {
                Ok(()) => {},
                Err(e) => return Err(e),
            }
            i = i + 1;
        }
        Ok(self.is_end())
    }

    /// Runs one step: the unit at `block_index`, as `step` says. A halted run stays as it is.
    pub fn run(&mut self) -> (r: Result<(), ExecutionError>)
        ensures
            old(self).stepped_to(final(self), r),
    {
        if self.is_end() {
            return Ok(());
        }
        let block = self.code[self.block_index];
        match stack_needs_of(&block.opcode) {
            None => {
                return Err(ExecutionError::UnsupportedOpcode { byte_position: block.position });
            },
            Some(k) => {
                if self.stack.len() < k {
                    return Err(ExecutionError::StackUnderflow);
                }
            },
        }
        match block.opcode {
            OpCode::PUSHN(n, v) => self.eval_pushn(n, v),
            OpCode::DUPN(n) => self.eval_dupn(n),
            OpCode::RETURNDATASIZE => self.eval_returndatasize(),
            OpCode::CALLDATALOAD => self.eval_calldataload(),
            OpCode::CODECOPY => self.eval_codecopy(),
            OpCode::RETURN => self.eval_return(),
            OpCode::SHR => self.eval_shr(),
            OpCode::SAR => self.eval_shr(),
            OpCode::EQ => self.eval_eq(),
            OpCode::JUMP => self.eval_jump(),
            OpCode::JUMPI => self.eval_jumpi(),
            OpCode::JUMPDEST => self.eval_jumpdest(),
            OpCode::ADD => self.eval_add(),
            OpCode::MSTORE => self.eval_mstore(),
            _ => Ok(()),
        }
    }

    /// The preconditions shared by the evaluators: a unit to run holding `op`, with the
    /// stack entries it takes.
    pub open spec fn ready_for(&self, op: OpCode) -> bool {
        &&& !halted(self.code@, self.state())
        &&& self.code@[self.block_index as int].opcode == op
        &&& stack_needs(op) is Some
        &&& self.stack@.len() >= stack_needs(op)->Some_0
    }

    fn eval_pushn(&mut self, n: u8, value: Word) -> (r: Result<(), ExecutionError>)
        requires
            old(self).ready_for(OpCode::PUSHN(n, value)),
        ensures
            old(self).stepped_to(final(self), r),
    {
        self.stack.push(value);
        self.advance_index();
        Ok(())
    }

    fn eval_dupn(&mut self, n: u8) -> (r: Result<(), ExecutionError>)
        requires
            old(self).ready_for(OpCode::DUPN(n)),
        ensures
            old(self).stepped_to(final(self), r),
    {
        let value = match self.get_stack(n as usize - 1) {
            Ok(v) => v,
            Err(e) => return Err(e),
        };
        self.stack.push(value);
        self.advance_index();
        Ok(())
    }

    fn eval_returndatasize(&mut self) -> (r: Result<(), ExecutionError>)
        requires
            old(self).ready_for(OpCode::RETURNDATASIZE),
        ensures
            old(self).stepped_to(final(self), r),
    {
        let z = Word::zero();
        proof {
            z.lemma_word_of_value();
        }
        self.stack.push(z);
        self.advance_index();
        Ok(())
    }

    fn eval_jumpdest(&mut self) -> (r: Result<(), ExecutionError>)
        requires
            old(self).ready_for(OpCode::JUMPDEST),
        ensures
            old(self).stepped_to(final(self), r),
    {
        self.advance_index();
        Ok(())
    }

    fn eval_add(&mut self) -> (r: Result<(), ExecutionError>)
        requires
            old(self).ready_for(OpCode::ADD),
        ensures
            old(self).stepped_to(final(self), r),
    {
        let ghost s = self.stack@;
        let l = match self.use_stack() {
            Ok(v) => v,
            Err(e) => return Err(e),
        };
        let r = match self.use_stack() {
            Ok(v) => v,
            Err(e) => return Err(e),
        };
        let sum = l.add(&r);
        proof {
            sum.lemma_word_of_value();
            assert(self.stack@ =~= s.subrange(0, s.len() - 2));
        }
        self.stack.push(sum);
        self.advance_index();
        Ok(())
    }

    fn eval_eq(&mut self) -> (r: Result<(), ExecutionError>)
        requires
            old(self).ready_for(OpCode::EQ),
        ensures
            old(self).stepped_to(final(self), r),
    {
        let ghost s = self.stack@;
        let l = match self.use_stack() {
            Ok(v) => v,
            Err(e) => return Err(e),
        };
        let r = match self.use_stack() {
            Ok(v) => v,
            Err(e) => return Err(e),
        };
        let v = if l == r {
            Word::from_u64(1)
        } else {
            Word::from_u64(0)
        };
        proof {
            v.lemma_word_of_value();
            assert(self.stack@ =~= s.subrange(0, s.len() - 2));
        }
        self.stack.push(v);
        self.advance_index();
        Ok(())
    }

    /// Right shift; `SAR` is executed the same way.
    fn eval_shr(&mut self) -> (r: Result<(), ExecutionError>)
        requires
            old(self).ready_for(OpCode::SHR) || old(self).ready_for(OpCode::SAR),
        ensures
            old(self).stepped_to(final(self), r),
    {
        let ghost s = self.stack@;
        let shift = match self.use_stack() {
            Ok(v) => v,
            Err(e) => return Err(e),
        };
        let value = match self.use_stack() {
            Ok(v) => v,
            Err(e) => return Err(e),
        };
        let v = value.shr(&shift);
        proof {
            v.lemma_word_of_value();
            assert(self.stack@ =~= s.subrange(0, s.len() - 2));
        }
        self.stack.push(v);
        self.advance_index();
        Ok(())
    }

    fn eval_calldataload(&mut self) -> (r: Result<(), ExecutionError>)
        requires
            old(self).ready_for(OpCode::CALLDATALOAD),
        ensures
            old(self).stepped_to(final(self), r),
    {
        let ghost s = self.stack@;
        let offset = match self.use_stack() {
            Ok(v) => v,
            Err(e) => return Err(e),
        };
        let v = match offset.to_usize() {
            Some(o) => {
                let bytes = read_memory(self.calldata, o, 32);
                Word::from_be_bytes(bytes.as_slice())
            },
            None => {
                let end = self.calldata.len();
                proof {
                    lemma_mem_read_past_end(self.calldata@, offset.value(), end as nat, 32);
                }
                let bytes = read_memory(self.calldata, end, 32);
                Word::from_be_bytes(bytes.as_slice())
            },
        };
        proof {
            v.lemma_word_of_value();
            assert(self.stack@ =~= s.subrange(0, s.len() - 1));
        }
        self.stack.push(v);
        self.advance_index();
        Ok(())
    }

    fn eval_codecopy(&mut self) -> (r: Result<(), ExecutionError>)
        requires
            old(self).ready_for(OpCode::CODECOPY),
        ensures
            old(self).stepped_to(final(self), r),
    {
        let ghost s = self.stack@;
        let dest_offset = match self.use_stack() {
            Ok(v) => v,
            Err(e) => return Err(e),
        };
        let offset = match self.use_stack() {
            Ok(v) => v,
            Err(e) => return Err(e),
        };
        let size = match self.use_stack() {
            Ok(v) => v,
            Err(e) => return Err(e),
        };
        proof {
            assert(self.stack@ =~= s.subrange(0, s.len() - 3));
        }
        if size.is_zero() {
            self.advance_index();
            return Ok(());
        }
        let (d, n) = match (dest_offset.to_usize(), size.to_usize()) {
            (Some(d), Some(n)) => (d, n),
            _ => return Err(ExecutionError::MemoryRangeInvalid),
        };
        if d > usize::MAX - n {
            return Err(ExecutionError::MemoryRangeInvalid);
        }
        let data = match offset.to_usize() {
            Some(o) => read_memory(self.raw_code.as_slice(), o, n),
            None => {
                let end = self.raw_code.len();
                proof {
                    lemma_mem_read_past_end(self.raw_code@, offset.value(), end as nat, n as nat);
                }
                read_memory(self.raw_code.as_slice(), end, n)
            },
        };
        write_memory(&mut self.memory, d, data.as_slice());
        self.advance_index();
        Ok(())
    }

    fn eval_mstore(&mut self) -> (r: Result<(), ExecutionError>)
        requires
            old(self).ready_for(OpCode::MSTORE),
        ensures
            old(self).stepped_to(final(self), r),
    {
        let ghost s = self.stack@;
        let offset = match self.use_stack() {
            Ok(v) => v,
            Err(e) => return Err(e),
        };
        let value = match self.use_stack() {
            Ok(v) => v,
            Err(e) => return Err(e),
        };
        proof {
            assert(self.stack@ =~= s.subrange(0, s.len() - 2));
        }
        let o = match offset.to_usize() {
            Some(o) => o,
            None => return Err(ExecutionError::MemoryRangeInvalid),
        };
        if o > usize::MAX - 32 {
            return Err(ExecutionError::MemoryRangeInvalid);
        }
        let bytes = value.to_be_bytes();
        write_memory(&mut self.memory, o, bytes.as_slice());
        self.advance_index();
        Ok(())
    }

    fn eval_return(&mut self) -> (r: Result<(), ExecutionError>)
        requires
            old(self).ready_for(OpCode::RETURN),
        ensures
            old(self).stepped_to(final(self), r),
    {
        let ghost s = self.stack@;
        let offset = match self.use_stack() {
            Ok(v) => v,
            Err(e) => return Err(e),
        };
        let size = match self.use_stack() {
            Ok(v) => v,
            Err(e) => return Err(e),
        };
        proof {
            assert(self.stack@ =~= s.subrange(0, s.len() - 2));
        }
        if size.is_zero() {
            let empty: Vec<u8> = Vec::new();
            proof {
                assert(empty@ =~= Seq::<u8>::empty());
            }
            self.return_data = Some(empty);
            self.advance_index();
            return Ok(());
        }
        let (o, n) = match (offset.to_usize(), size.to_usize()) {
            (Some(o), Some(n)) => (o, n),
            _ => return Err(ExecutionError::MemoryRangeInvalid),
        };
        if o > usize::MAX - n {
            return Err(ExecutionError::MemoryRangeInvalid);
        }
        let data = read_memory(self.memory.as_slice(), o, n);
        self.return_data = Some(data);
        self.advance_index();
        Ok(())
    }

    /// The index of the `JUMPDEST` unit at byte offset `target`, if there is one.
    fn find_jump_dest(&self, target: &Word) -> (r: Option<usize>)
        ensures
            r matches Some(i) ==> jump_dest(self.code@, target.value()) == Some(i as nat),
            r is None ==> jump_dest(self.code@, target.value()) is None,
    {
        let t = match target.to_usize() {
            Some(t) => t,
            None => {
                proof {
                    lemma_position_index_large(self.code@, target.value(), 0);
                }
                return None;
            },
        };
        let mut i: usize = 0;
        while i < self.code.len()
            invariant
                i <= self.code@.len(),
                t == target.value(),
                position_index(self.code@, t as nat, 0) == position_index(
                    self.code@,
                    t as nat,
                    i as nat,
                ),
            decreases self.code@.len() - i,
        {
            if self.code[i].position == t {
                if self.code[i].opcode == OpCode::JUMPDEST {
                    return Some(i);
                } else {
                    return None;
                }
            }
            i = i + 1;
        }
        None
    }

    fn eval_jump(&mut self) -> (r: Result<(), ExecutionError>)
        requires
            old(self).ready_for(OpCode::JUMP),
        ensures
            old(self).stepped_to(final(self), r),
    {
        let ghost s = self.stack@;
        let target = match self.use_stack() {
            Ok(v) => v,
            Err(e) => return Err(e),
        };
        proof {
            assert(self.stack@ =~= s.subrange(0, s.len() - 1));
        }
        match self.find_jump_dest(&target) {
            Some(i) => {
                self.block_index = i;
                Ok(())
            },
            None => Err(ExecutionError::InvalidJumpDestination { target }),
        }
    }

    fn eval_jumpi(&mut self) -> (r: Result<(), ExecutionError>)
        requires
            old(self).ready_for(OpCode::JUMPI),
        ensures
            old(self).stepped_to(final(self), r),
    {
        let ghost s = self.stack@;
        let target = match self.use_stack() {
            Ok(v) => v,
            Err(e) => return Err(e),
        };
        let condition = match self.use_stack() {
            Ok(v) => v,
            Err(e) => return Err(e),
        };
        proof {
            assert(self.stack@ =~= s.subrange(0, s.len() - 2));
        }
        if condition.is_zero() {
            self.advance_index();
            return Ok(());
        }
        match self.find_jump_dest(&target) {
            Some(i) => {
                self.block_index = i;
                Ok(())
            },
            None => Err(ExecutionError::InvalidJumpDestination { target }),
        }
    }
}

} // verus!
