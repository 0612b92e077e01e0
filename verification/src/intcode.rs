//! An Intcode virtual machine: a flat, growable memory of signed 64-bit
//! integers, an instruction pointer, a relative base, and a pair of
//! value queues for input and output.
//!
//! The meaning of a machine is given by the small-step function [`step`]
//! over the mathematical state [`MState`]; `VM::run` is proved to drive the
//! machine along that relation until it halts, faults, or blocks waiting
//! for input.

use std::collections::VecDeque;
use vstd::prelude::*;
use vstd::string::StringSliceAdditionalSpecFns;

verus! {

/// Number of memory cells every machine owns: programs are padded (or
/// truncated) to this size so self-extending programs can write past
/// their own text.
pub const MEMORY_SIZE: usize = 4000;

/// The step budget of one `run` call; for every practical purpose,
/// unbounded.
pub const RUN_FUEL: u64 = 0x1000_0000_0000_0000;

/// How an instruction operand is interpreted to obtain a value or a
/// destination cell.
#[derive(Debug, Clone, Copy, PartialEq, Eq, Structural)]
pub enum Address {
    Position(i64),
    Immediate(i64),
    Relative(i64),
}

/// A decoded operation together with its typed operands.
#[derive(Debug, Clone, Copy, PartialEq, Eq, Structural)]
pub enum Instruction {
    Halt,
    Add(Address, Address, Address),
    Multiply(Address, Address, Address),
    Input(Address),
    Output(Address),
    JumpNZ(Address, Address),
    JumpZ(Address, Address),
    IfLess(Address, Address, Address),
    IfEqual(Address, Address, Address),
    AdjustSP(Address),
    Unknown(i64),
}

/// The reason a machine stopped abnormally.
#[derive(Debug, Clone, Copy, PartialEq, Eq, Structural)]
pub enum Fault {
    /// An effective address (or the instruction pointer) left memory.
    OutOfBounds,
    /// The opcode digits named no operation.
    UnknownOpcode(i64),
    /// An addressing-mode digit was not 0, 1 or 2.
    BadMode,
    /// An arithmetic result did not fit a 64-bit cell, or the relative
    /// base left the 64-bit range.
    Overflow,
}

/// The life cycle of a machine: `Halted` and `Faulted` are terminal.
#[derive(Debug, Clone, Copy, PartialEq, Eq, Structural)]
pub enum State {
    Ready,
    Running,
    Halted,
    Faulted(Fault),
}

/// The mathematical state of a machine: what `VM` looks like to contracts.
#[verifier::ext_equal]
pub ghost struct MState {
    pub mem: Seq<i64>,
    pub ip: int,
    pub sp: int,
    pub input: Seq<i64>,
    pub output: Seq<i64>,
    pub last: i64,
    pub state: State,
}

/// The operand for a decoded addressing-mode digit.
pub open spec fn spec_addr(mode: int, value: i64) -> Address {
    if mode == 0 {
        Address::Position(value)
    } else if mode == 1 {
        Address::Immediate(value)
    } else {
        Address::Relative(value)
    }
}

/// The opcode encoded by a non-negative instruction word: its last two
/// decimal digits.
pub open spec fn opcode(w: i64) -> int {
    (w as int) % 100
}

/// The addressing-mode digit of parameter `k` (1-based) of a
/// non-negative instruction word.
pub open spec fn mode(w: i64, k: int) -> int {
    if k == 1 {
        ((w as int) / 100) % 10
    } else if k == 2 {
        ((w as int) / 1000) % 10
    } else {
        ((w as int) / 10000) % 10
    }
}

/// The opcode an out-of-range (negative) instruction word reports:
/// the remainder Rust's `%` computes.
pub open spec fn neg_opcode(w: i64) -> int {
    -((-(w as int)) % 100)
}

/// Whether `opc` names an operation.
pub open spec fn recognized(opc: int) -> bool {
    opc == 1 || opc == 2 || opc == 3 || opc == 4 || opc == 5 || opc == 6 || opc == 7 || opc == 8
        || opc == 9 || opc == 99
}

/// Word count of the instruction with opcode `opc`, the opcode word
/// included.
pub open spec fn words(opc: int) -> int {
    if opc == 1 || opc == 2 || opc == 7 || opc == 8 {
        4
    } else if opc == 5 || opc == 6 {
        3
    } else if opc == 3 || opc == 4 || opc == 9 {
        2
    } else {
        1
    }
}

/// Whether every addressing-mode digit the instruction at hand uses is
/// 0, 1 or 2.
pub open spec fn modes_ok(w: i64) -> bool {
    let n = words(opcode(w)) - 1;
    &&& n >= 1 ==> mode(w, 1) <= 2
    &&& n >= 2 ==> mode(w, 2) <= 2
    &&& n >= 3 ==> mode(w, 3) <= 2
}

/// Whether decoding at `ip` reads only allocated memory and meets only
/// addressing modes that exist. `VM::op` demands this; `VM::run` checks it
/// and faults instead.
pub open spec fn decode_ok(mem: Seq<i64>, ip: int) -> bool {
    &&& 0 <= ip < mem.len()
    &&& mem[ip] >= 0 && recognized(opcode(mem[ip])) ==> {
        &&& ip + words(opcode(mem[ip])) <= mem.len()
        &&& modes_ok(mem[ip])
    }
}

/// The instruction encoded at `ip`. Meaningful whenever
/// `decode_ok(mem, ip)` holds.
pub open spec fn decode(mem: Seq<i64>, ip: int) -> Instruction {
    let w = mem[ip];
    if w < 0 {
        Instruction::Unknown(neg_opcode(w) as i64)
    } else {
        let opc = opcode(w);
        let a1 = spec_addr(mode(w, 1), mem[ip + 1]);
        let a2 = spec_addr(mode(w, 2), mem[ip + 2]);
        let a3 = spec_addr(mode(w, 3), mem[ip + 3]);
        if opc == 1 {
            Instruction::Add(a1, a2, a3)
        } else if opc == 2 {
            Instruction::Multiply(a1, a2, a3)
        } else if opc == 3 {
            Instruction::Input(a1)
        } else if opc == 4 {
            Instruction::Output(a1)
        } else if opc == 5 {
            Instruction::JumpNZ(a1, a2)
        } else if opc == 6 {
            Instruction::JumpZ(a1, a2)
        } else if opc == 7 {
            Instruction::IfLess(a1, a2, a3)
        } else if opc == 8 {
            Instruction::IfEqual(a1, a2, a3)
        } else if opc == 9 {
            Instruction::AdjustSP(a1)
        } else if opc == 99 {
            Instruction::Halt
        } else {
            Instruction::Unknown(opc as i64)
        }
    }
}

/// Word count of a decoded instruction, the opcode word included;
/// `Unknown` has none and must never advance the instruction pointer.
pub open spec fn arity_spec(i: Instruction) -> int {
    match i {
        Instruction::Halt => 1,
        Instruction::Add(_, _, _) => 4,
        Instruction::Multiply(_, _, _) => 4,
        Instruction::Input(_) => 2,
        Instruction::Output(_) => 2,
        Instruction::JumpNZ(_, _) => 3,
        Instruction::JumpZ(_, _) => 3,
        Instruction::IfLess(_, _, _) => 4,
        Instruction::IfEqual(_, _, _) => 4,
        Instruction::AdjustSP(_) => 2,
        Instruction::Unknown(_) => 0,
    }
}

/// Whether reading through `a` stays inside memory.
pub open spec fn read_ok(s: MState, a: Address) -> bool {
    match a {
        Address::Immediate(_) => true,
        Address::Position(p) => 0 <= p < s.mem.len(),
        Address::Relative(r) => 0 <= s.sp + r < s.mem.len(),
    }
}

/// The value obtained by reading through `a`.
pub open spec fn read_val(s: MState, a: Address) -> i64 {
    match a {
        Address::Immediate(v) => v,
        Address::Position(p) => s.mem[p as int],
        Address::Relative(r) => s.mem[s.sp + r],
    }
}

/// The memory cell a write through `a` lands in. An `Immediate` target
/// writes to the cell its value names.
pub open spec fn write_addr(s: MState, a: Address) -> int {
    match a {
        Address::Immediate(v) => v as int,
        Address::Position(p) => p as int,
        Address::Relative(r) => s.sp + r,
    }
}

/// Whether writing through `a` stays inside memory.
pub open spec fn write_ok(s: MState, a: Address) -> bool {
    0 <= write_addr(s, a) < s.mem.len()
}

/// The state after writing `val` through `a`.
pub open spec fn spec_set(s: MState, a: Address, val: i64) -> MState {
    MState { mem: s.mem.update(write_addr(s, a), val), ..s }
}

/// The state after stopping with fault `f`.
pub open spec fn fault_state(s: MState, f: Fault) -> MState {
    MState { state: State::Faulted(f), ..s }
}

/// Whether `v` fits a 64-bit cell.
pub open spec fn fits_i64(v: int) -> bool {
    i64::MIN <= v <= i64::MAX
}

/// Whether the machine is blocked: running, the next instruction is a
/// well-formed `Input`, and the input queue is empty. The only
/// suspension point of a machine.
pub open spec fn blocked(s: MState) -> bool {
    &&& s.state == State::Running
    &&& 0 <= s.ip < s.mem.len()
    &&& s.mem[s.ip] >= 0
    &&& opcode(s.mem[s.ip]) == 3
    &&& s.ip + 2 <= s.mem.len()
    &&& modes_ok(s.mem[s.ip])
    &&& s.input.len() == 0
}

/// Whether the machine can make no step on its own: terminal, never
/// started, or blocked on input.
pub open spec fn quiescent(s: MState) -> bool {
    s.state != State::Running || blocked(s)
}

/// One decode-execute step of the machine. Deterministic and total:
/// a machine that is not running, or is blocked on input, steps to
/// itself.
pub open spec fn step(s: MState) -> MState {
    if s.state != State::Running {
        s
    } else if !(0 <= s.ip < s.mem.len()) {
        fault_state(s, Fault::OutOfBounds)
    } else {
        let w = s.mem[s.ip];
        if w < 0 {
            fault_state(s, Fault::UnknownOpcode(neg_opcode(w) as i64))
        } else if !recognized(opcode(w)) {
            fault_state(s, Fault::UnknownOpcode(opcode(w) as i64))
        } else if s.ip + words(opcode(w)) > s.mem.len() {
            fault_state(s, Fault::OutOfBounds)
        } else if !modes_ok(w) {
            fault_state(s, Fault::BadMode)
        } else {
            step_decoded(s, decode(s.mem, s.ip))
        }
    }
}

/// The effect of one well-formed decoded instruction.
pub open spec fn step_decoded(s: MState, i: Instruction) -> MState {
    match i {
        Instruction::Halt => MState { state: State::Halted, ..s },
        Instruction::Add(a, b, c) => step_arith(s, a, b, c, true),
        Instruction::Multiply(a, b, c) => step_arith(s, a, b, c, false),
        Instruction::Input(a) => {
            if s.input.len() == 0 {
                s
            } else if !write_ok(s, a) {
                // The value is taken off the queue before the write is
                // attempted, so a doomed `Input` still consumes it.
                MState {
                    input: s.input.subrange(1, s.input.len() as int),
                    state: State::Faulted(Fault::OutOfBounds),
                    ..s
                }
            } else {
                MState {
                    mem: s.mem.update(write_addr(s, a), s.input[0]),
                    input: s.input.subrange(1, s.input.len() as int),
                    ip: s.ip + 2,
                    ..s
                }
            }
        },
        Instruction::Output(a) => {
            if !read_ok(s, a) {
                fault_state(s, Fault::OutOfBounds)
            } else {
                let v = read_val(s, a);
                MState { output: s.output.push(v), last: v, ip: s.ip + 2, ..s }
            }
        },
        Instruction::JumpNZ(a, b) => step_jump(s, a, b, true),
        Instruction::JumpZ(a, b) => step_jump(s, a, b, false),
        Instruction::IfLess(a, b, c) => step_compare(s, a, b, c, true),
        Instruction::IfEqual(a, b, c) => step_compare(s, a, b, c, false),
        Instruction::AdjustSP(a) => {
            if !read_ok(s, a) {
                fault_state(s, Fault::OutOfBounds)
            } else if !fits_i64(s.sp + read_val(s, a)) {
                fault_state(s, Fault::Overflow)
            } else {
                MState { sp: s.sp + read_val(s, a), ip: s.ip + 2, ..s }
            }
        },
        Instruction::Unknown(code) => fault_state(s, Fault::UnknownOpcode(code)),
    }
}

/// Add or Multiply: read both operands, then store the (checked) result.
pub open spec fn step_arith(s: MState, a: Address, b: Address, c: Address, add: bool) -> MState {
    if !read_ok(s, a) || !read_ok(s, b) {
        fault_state(s, Fault::OutOfBounds)
    } else {
        let v = if add {
            read_val(s, a) + read_val(s, b)
        } else {
            read_val(s, a) * read_val(s, b)
        };
        if !fits_i64(v) {
            fault_state(s, Fault::Overflow)
        } else if !write_ok(s, c) {
            fault_state(s, Fault::OutOfBounds)
        } else {
            MState { mem: s.mem.update(write_addr(s, c), v as i64), ip: s.ip + 4, ..s }
        }
    }
}

/// JumpNZ or JumpZ: overwrite the instruction pointer when the predicate
/// holds, advance past the instruction otherwise. A target outside
/// memory is fatal at the jump itself.
pub open spec fn step_jump(s: MState, a: Address, b: Address, nonzero: bool) -> MState {
    if !read_ok(s, a) || !read_ok(s, b) {
        fault_state(s, Fault::OutOfBounds)
    } else {
        let taken = if nonzero {
            read_val(s, a) != 0
        } else {
            read_val(s, a) == 0
        };
        if taken {
            let t = read_val(s, b);
            if !(0 <= t < s.mem.len()) {
                fault_state(s, Fault::OutOfBounds)
            } else {
                MState { ip: t as int, ..s }
            }
        } else {
            MState { ip: s.ip + 3, ..s }
        }
    }
}

/// IfLess or IfEqual: store 1 when the comparison holds, 0 otherwise.
pub open spec fn step_compare(s: MState, a: Address, b: Address, c: Address, less: bool) -> MState {
    if !read_ok(s, a) || !read_ok(s, b) {
        fault_state(s, Fault::OutOfBounds)
    } else if !write_ok(s, c) {
        fault_state(s, Fault::OutOfBounds)
    } else {
        let hit = if less {
            read_val(s, a) < read_val(s, b)
        } else {
            read_val(s, a) == read_val(s, b)
        };
        let v: i64 = if hit {
            1
        } else {
            0
        };
        MState { mem: s.mem.update(write_addr(s, c), v), ip: s.ip + 4, ..s }
    }
}

/// The machine after `n` steps.
pub open spec fn run_n(s: MState, n: nat) -> MState
    decreases n,
{
    if n == 0 {
        s
    } else {
        step(run_n(s, (n - 1) as nat))
    }
}

/// Whether the machine can go from `s` to `t` by stepping.
pub open spec fn reaches(s: MState, t: MState) -> bool {
    exists|n: nat| run_n(s, n) == t
}

/// The program `prog`, padded with zeros (or truncated) to the fixed
/// memory size.
pub open spec fn padded(prog: Seq<i64>) -> Seq<i64> {
    Seq::new(
        MEMORY_SIZE as nat,
        |i: int|
            if i < prog.len() {
                prog[i]
            } else {
                0
            },
    )
}

/// The state of a freshly constructed machine holding `prog`.
pub open spec fn init_state(prog: Seq<i64>) -> MState {
    MState {
        mem: padded(prog),
        ip: 0,
        sp: 0,
        input: Seq::empty(),
        output: Seq::empty(),
        last: 0,
        state: State::Ready,
    }
}

/// The state `run` starts from: a `Ready` machine begins running,
/// any other is taken as it is.
pub open spec fn started(s: MState) -> MState {
    if s.state == State::Ready {
        MState { state: State::Running, ..s }
    } else {
        s
    }
}

/// Whether the machine comes to rest within the step budget.
pub open spec fn settles(s: MState) -> bool {
    exists|k: nat| k <= RUN_FUEL && quiescent(run_n(s, k))
}

/// Where one `run` call leaves the machine: the quiescent state its
/// start leads to, or — for a machine that is still busy after the
/// whole step budget — the state exactly `RUN_FUEL` steps in.
#[verifier::opaque]
pub open spec fn stop_state(s: MState) -> MState {
    if settles(s) {
        run_n(s, choose|k: nat| k <= RUN_FUEL && quiescent(run_n(s, k)))
    } else {
        run_n(s, RUN_FUEL as nat)
    }
}

/// Whether the machine would do something if scheduled: never started,
/// or running and not blocked on input.
pub open spec fn active(s: MState) -> bool {
    s.state == State::Ready || (s.state == State::Running && !blocked(s))
}

pub proof fn lemma_reaches_refl(s: MState)
    ensures
        reaches(s, s),
{
    assert(run_n(s, 0) == s);
}

pub proof fn lemma_run_n_add(s: MState, m: nat, n: nat)
    ensures
        run_n(s, m + n) == run_n(run_n(s, m), n),
    decreases n,
{
    if n == 0 {
        assert(run_n(s, m + 0) == run_n(s, m));
    } else {
        lemma_run_n_add(s, m, (n - 1) as nat);
        assert(run_n(s, m + n) == step(run_n(s, (m + n - 1) as nat)));
    }
}

/// A quiescent machine steps to itself.
pub proof fn lemma_quiescent_fixed(s: MState)
    requires
        quiescent(s),
    ensures
        step(s) == s,
{
}

/// A quiescent machine stays put however long it is stepped.
pub proof fn lemma_quiescent_stable(s: MState, n: nat)
    requires
        quiescent(s),
    ensures
        run_n(s, n) == s,
    decreases n,
{
    if n > 0 {
        lemma_quiescent_stable(s, (n - 1) as nat);
        lemma_quiescent_fixed(s);
    }
}

impl Instruction {
    /// Word count of this instruction, its opcode word included.
    pub fn arity(&self) -> (r: usize)
        ensures
            r == arity_spec(*self),
    {
        match self {
            Instruction::Halt => 1,
            Instruction::Add(_, _, _) => 4,
            Instruction::Multiply(_, _, _) => 4,
            Instruction::Input(_) => 2,
            Instruction::Output(_) => 2,
            Instruction::JumpNZ(_, _) => 3,
            Instruction::JumpZ(_, _) => 3,
            Instruction::IfLess(_, _, _) => 4,
            Instruction::IfEqual(_, _, _) => 4,
            Instruction::AdjustSP(_) => 2,
            Instruction::Unknown(_) => 0,
        }
    }
}

impl Address {
    /// Builds the operand for a decoded addressing-mode digit.
    pub fn from(m: i64, value: i64) -> (r: Address)
        requires
            0 <= m <= 2,
        ensures
            r == spec_addr(m as int, value),
    {
        match m {
            0 => Address::Position(value),
            1 => Address::Immediate(value),
            _ => Address::Relative(value),
        }
    }
}

/// Whether a machine state owns the fixed memory size. Construction
/// establishes this and every operation preserves it.
pub open spec fn wf(s: MState) -> bool {
    s.mem.len() == MEMORY_SIZE
}

/// One machine instance: memory, instruction pointer, relative base,
/// an input queue it consumes and an output queue it fills.
pub struct VM {
    memory: Vec<i64>,
    ip: usize,
    sp: i64,
    inq: VecDeque<i64>,
    outq: Vec<i64>,
    last_output: i64,
    state: State,
}

impl View for VM {
    type V = MState;

    closed spec fn view(&self) -> MState {
        MState {
            mem: self.memory@,
            ip: self.ip as int,
            sp: self.sp as int,
            input: self.inq@,
            output: self.outq@,
            last: self.last_output,
            state: self.state,
        }
    }
}

impl VM {
    /// A fresh machine: `initial_memory` copied in and zero-padded,
    /// pointers zeroed, queues empty.
    pub fn new(initial_memory: &[i64]) -> (vm: VM)
        ensures
            vm@ == init_state(initial_memory@),
            wf(vm@),
    {
        let n = initial_memory.len();
        let mut memory: Vec<i64> = Vec::new();
        let mut i: usize = 0;
        while i < MEMORY_SIZE
            invariant
                i <= MEMORY_SIZE,
                memory@.len() == i,
                forall|j: int| 0 <= j < i ==> memory@[j] == padded(initial_memory@)[j],
                n == initial_memory@.len(),
            decreases MEMORY_SIZE - i,
        {
            if i < n {
                memory.push(*vstd::slice::slice_index_get(initial_memory, i));
            } else {
                memory.push(0);
            }
            i += 1;
        }
        let vm = VM {
            memory,
            ip: 0,
            sp: 0,
            inq: VecDeque::new(),
            outq: Vec::new(),
            last_output: 0,
            state: State::Ready,
        };
        proof {
            assert(vm@.mem =~= padded(initial_memory@));
            assert(vm@.input =~= Seq::<i64>::empty());
            assert(vm@ =~= init_state(initial_memory@));
        }
        vm
    }

    /// Decodes the instruction at the current instruction pointer.
    /// A pure function of memory and the pointer: decoding twice yields
    /// the same instruction.
    pub fn op(&self) -> (r: Instruction)
        requires
            decode_ok(self@.mem, self@.ip),
        ensures
            r == decode(self@.mem, self@.ip),
    {
        let n = self.memory.len();
        let i = self.memory[self.ip];
        if i < 0 {
            return Instruction::Unknown(neg_code(i));
        }
        proof {
            assert(self@.mem.len() == n);
        }
        let u = i as u64;
        let op = u % 100;
        let mode_one = ((u / 100) % 10) as i64;
        let mode_two = ((u / 1_000) % 10) as i64;
        let mode_three = ((u / 10_000) % 10) as i64;
        proof {
            assert(op as int == opcode(i));
            assert(mode_one as int == mode(i, 1));
            assert(mode_two as int == mode(i, 2));
            assert(mode_three as int == mode(i, 3));
        }
        match op {
            1 => Instruction::Add(
                Address::from(mode_one, self.memory[self.ip + 1]),
                Address::from(mode_two, self.memory[self.ip + 2]),
                Address::from(mode_three, self.memory[self.ip + 3]),
            ),
            2 => Instruction::Multiply(
                Address::from(mode_one, self.memory[self.ip + 1]),
                Address::from(mode_two, self.memory[self.ip + 2]),
                Address::from(mode_three, self.memory[self.ip + 3]),
            ),
            3 => Instruction::Input(Address::from(mode_one, self.memory[self.ip + 1])),
            4 => Instruction::Output(Address::from(mode_one, self.memory[self.ip + 1])),
            5 => Instruction::JumpNZ(
                Address::from(mode_one, self.memory[self.ip + 1]),
                Address::from(mode_two, self.memory[self.ip + 2]),
            ),
            6 => Instruction::JumpZ(
                Address::from(mode_one, self.memory[self.ip + 1]),
                Address::from(mode_two, self.memory[self.ip + 2]),
            ),
            7 => Instruction::IfLess(
                Address::from(mode_one, self.memory[self.ip + 1]),
                Address::from(mode_two, self.memory[self.ip + 2]),
                Address::from(mode_three, self.memory[self.ip + 3]),
            ),
            8 => Instruction::IfEqual(
                Address::from(mode_one, self.memory[self.ip + 1]),
                Address::from(mode_two, self.memory[self.ip + 2]),
                Address::from(mode_three, self.memory[self.ip + 3]),
            ),
            9 => Instruction::AdjustSP(Address::from(mode_one, self.memory[self.ip + 1])),
            99 => Instruction::Halt,
            n => Instruction::Unknown(n as i64),
        }
    }

    /// The value the operand `idx` denotes under the current state.
    pub fn at(&self, idx: Address) -> (r: i64)
        requires
            wf(self@),
            read_ok(self@, idx),
        ensures
            r == read_val(self@, idx),
    {
        match idx {
            Address::Immediate(v) => v,
            Address::Position(p) => self.memory[p as usize],
            Address::Relative(r) => {
                let e = self.sp.checked_add(r).unwrap();
                self.memory[e as usize]
            },
        }
    }

    /// Writes `val` through the operand `idx`.
    pub fn set(&mut self, idx: Address, val: i64)
        requires
            wf(old(self)@),
            write_ok(old(self)@, idx),
        ensures
            final(self)@ == spec_set(old(self)@, idx, val),
    {
        match idx {
            Address::Immediate(v) => {
                self.memory[v as usize] = val;
            },
            Address::Position(p) => {
                self.memory[p as usize] = val;
            },
            Address::Relative(r) => {
                let e = self.sp.checked_add(r).unwrap();
                self.memory[e as usize] = val;
            },
        }
    }

    /// Queues `value` for the machine's next `Input` instructions.
    pub fn send(&mut self, value: i64)
        ensures
            final(self)@ == (MState { input: old(self)@.input.push(value), ..old(self)@ }),
    {
        self.inq.push_back(value);
        proof {
            assert(self@.input =~= old(self)@.input.push(value));
            assert(self@ =~= (MState { input: old(self)@.input.push(value), ..old(self)@ }));
        }
    }

    /// Every value the machine has output, oldest first.
    pub fn outputs(&self) -> (r: &Vec<i64>)
        ensures
            r@ == self@.output,
    {
        &self.outq
    }

    /// The value of the machine's most recent `Output`, 0 before any.
    pub fn last_output(&self) -> (r: i64)
        ensures
            r == self@.last,
    {
        self.last_output
    }

    /// Where the machine stands in its life cycle.
    pub fn state(&self) -> (r: State)
        ensures
            r == self@.state,
    {
        self.state
    }

    /// Reads memory cell `idx` directly.
    pub fn peek(&self, idx: usize) -> (r: i64)
        requires
            idx < self@.mem.len(),
        ensures
            r == self@.mem[idx as int],
    {
        self.memory[idx]
    }

    /// Overwrites memory cell `idx` directly, for patching a program
    /// before it runs.
    pub fn poke(&mut self, idx: usize, value: i64)
        requires
            idx < old(self)@.mem.len(),
        ensures
            final(self)@ == (MState { mem: old(self)@.mem.update(idx as int, value), ..old(self)@ }),
    {
        self.memory[idx] = value;
    }

    /// Whether the machine would do something if scheduled again:
    /// never started, or running and not blocked on an empty input
    /// queue.
    pub fn is_active(&self) -> (r: bool)
        requires
            wf(self@),
        ensures
            r == active(self@),
    {
        match self.state {
            State::Ready => true,
            State::Running => {
                if self.ip >= MEMORY_SIZE {
                    return true;
                }
                let w = self.memory[self.ip];
                if w < 0 {
                    return true;
                }
                let u = w as u64;
                proof {
                    assert((u % 100) as int == opcode(w));
                    assert(((u / 100) % 10) as int == mode(w, 1));
                }
                if u % 100 != 3 {
                    return true;
                }
                if self.ip + 2 > MEMORY_SIZE {
                    return true;
                }
                if (u / 100) % 10 > 2 {
                    return true;
                }
                self.inq.len() > 0
            },
            _ => false,
        }
    }

    /// Reads through `a`, saying `None` where the effective address
    /// leaves memory.
    fn read_checked(&self, a: Address) -> (r: Option<i64>)
        requires
            wf(self@),
        ensures
            r == if read_ok(self@, a) {
                Some(read_val(self@, a))
            } else {
                None::<i64>
            },
    {
        match a {
            Address::Immediate(v) => Some(v),
            Address::Position(p) => {
                if 0 <= p && p < MEMORY_SIZE as i64 {
                    Some(self.memory[p as usize])
                } else {
                    None
                }
            },
            Address::Relative(r) => {
                match self.sp.checked_add(r) {
                    Some(e) => {
                        if 0 <= e && e < MEMORY_SIZE as i64 {
                            Some(self.memory[e as usize])
                        } else {
                            None
                        }
                    },
                    None => None,
                }
            },
        }
    }

    /// Writes `val` through `a`, saying `false` and leaving the machine
    /// unchanged where the effective address leaves memory.
    fn write_checked(&mut self, a: Address, val: i64) -> (ok: bool)
        requires
            wf(old(self)@),
        ensures
            ok == write_ok(old(self)@, a),
            ok ==> final(self)@ == spec_set(old(self)@, a, val),
            !ok ==> final(self)@ == old(self)@,
    {
        let t: Option<i64> = match a {
            Address::Immediate(v) => Some(v),
            Address::Position(p) => Some(p),
            Address::Relative(r) => self.sp.checked_add(r),
        };
        match t {
            Some(e) => {
                if 0 <= e && e < MEMORY_SIZE as i64 {
                    self.memory[e as usize] = val;
                    true
                } else {
                    false
                }
            },
            None => false,
        }
    }

    /// Runs the machine until it halts, faults, or blocks on an empty
    /// input queue; a machine that is already terminal is left alone.
    /// Returns the machine's last output, the conventional scalar
    /// result of a finished program.
    ///
    /// The machine ends exactly where the step relation leads from its
    /// starting state to quiescence. A machine that is still busy after
    /// `RUN_FUEL` steps is handed back as it stands then, so that the
    /// caller never spins forever; no program of practical size comes
    /// anywhere near that many steps.
    pub fn run(&mut self) -> (r: i64)
        requires
            wf(old(self)@),
        ensures
            final(self)@ == stop_state(started(old(self)@)),
            reaches(started(old(self)@), final(self)@),
            settles(started(old(self)@)) ==> quiescent(final(self)@),
            wf(final(self)@),
            r == final(self)@.last,
    {
        match self.state {
            State::Halted => {
                proof {
                    lemma_reaches_refl(self@);
                    lemma_stop_state_quiescent(self@);
                }
                return self.last_output;
            },
            State::Faulted(_) => {
                proof {
                    lemma_reaches_refl(self@);
                    lemma_stop_state_quiescent(self@);
                }
                return self.last_output;
            },
            _ => {},
        }
        self.state = State::Running;
        let ghost s0 = self@;
        let mut fuel: u64 = RUN_FUEL;
        loop
            invariant_except_break
                wf(self@),
                self@.state == State::Running,
                fuel <= RUN_FUEL,
                self@ == run_n(s0, (RUN_FUEL - fuel) as nat),
            ensures
                reaches(s0, self@),
                exists|k: nat| k <= RUN_FUEL && self@ == run_n(s0, k),
                quiescent(self@) || self@ == run_n(s0, RUN_FUEL as nat),
                wf(self@),
            decreases fuel,
        {
            proof {
                assert(reaches(s0, self@));
            }
            if fuel == 0 {
                break;
            }
            fuel = fuel - 1;
            let ghost prev = self@;
            let ip = self.ip;
            if ip >= MEMORY_SIZE {
                self.state = State::Faulted(Fault::OutOfBounds);
                proof {
                    assert(self@ =~= step(prev));
                    assert(self@ == run_n(s0, (RUN_FUEL - fuel) as nat));
                }
                break;
            }
            let w = self.memory[ip];
            if w < 0 {
                let code = neg_code(w);
                self.state = State::Faulted(Fault::UnknownOpcode(code));
                proof {
                    assert(self@ =~= step(prev));
                    assert(self@ == run_n(s0, (RUN_FUEL - fuel) as nat));
                }
                break;
            }
            let u = w as u64;
            let opc = u % 100;
            let n_words: usize = match opc {
                1 | 2 | 7 | 8 => 4,
                5 | 6 => 3,
                3 | 4 | 9 => 2,
                99 => 1,
                _ => 0,
            };
            if n_words == 0 {
                self.state = State::Faulted(Fault::UnknownOpcode(opc as i64));
                proof {
                    assert(self@ =~= step(prev));
                    assert(self@ == run_n(s0, (RUN_FUEL - fuel) as nat));
                }
                break;
            }
            if ip + n_words > MEMORY_SIZE {
                self.state = State::Faulted(Fault::OutOfBounds);
                proof {
                    assert(self@ =~= step(prev));
                    assert(self@ == run_n(s0, (RUN_FUEL - fuel) as nat));
                }
                break;
            }
            let m1 = ((u / 100) % 10) as i64;
            let m2 = ((u / 1_000) % 10) as i64;
            let m3 = ((u / 10_000) % 10) as i64;
            let n_modes = n_words - 1;
            if (n_modes >= 1 && m1 > 2) || (n_modes >= 2 && m2 > 2) || (n_modes >= 3 && m3 > 2) {
                self.state = State::Faulted(Fault::BadMode);
                proof {
                    assert(self@ =~= step(prev));
                    assert(self@ == run_n(s0, (RUN_FUEL - fuel) as nat));
                }
                break;
            }
            let inst = self.op();
            match inst {
                Instruction::Unknown(_) => {
                    proof {
                        assert(false);
                    }
                    break;
                },
                Instruction::Halt => {
                    self.state = State::Halted;
                    proof {
                        assert(self@ =~= step(prev));
                        assert(self@ == run_n(s0, (RUN_FUEL - fuel) as nat));
                    }
                    break;
                },
                Instruction::Add(a, b, c) => {
                    let va = match self.read_checked(a) {
                        Some(v) => v,
                        None => {
                            self.state = State::Faulted(Fault::OutOfBounds);
                            proof {
                                assert(self@ =~= step(prev));
                                assert(self@ == run_n(s0, (RUN_FUEL - fuel) as nat));
                            }
                            break;
                        },
                    };
                    let vb = match self.read_checked(b) {
                        Some(v) => v,
                        None => {
                            self.state = State::Faulted(Fault::OutOfBounds);
                            proof {
                                assert(self@ =~= step(prev));
                                assert(self@ == run_n(s0, (RUN_FUEL - fuel) as nat));
                            }
                            break;
                        },
                    };
                    let v = match va.checked_add(vb) {
                        Some(v) => v,
                        None => {
                            self.state = State::Faulted(Fault::Overflow);
                            proof {
                                assert(self@ =~= step(prev));
                                assert(self@ == run_n(s0, (RUN_FUEL - fuel) as nat));
                            }
                            break;
                        },
                    };
                    if !self.write_checked(c, v) {
                        self.state = State::Faulted(Fault::OutOfBounds);
                        proof {
                            assert(self@ =~= step(prev));
                            assert(self@ == run_n(s0, (RUN_FUEL - fuel) as nat));
                        }
                        break;
                    }
                    self.ip = ip + 4;
                    proof {
                        assert(self@ =~= step(prev));
                        assert(self@ == run_n(s0, (RUN_FUEL - fuel) as nat));
                    }
                },
                Instruction::Multiply(a, b, c) => {
                    let va = match self.read_checked(a) {
                        Some(v) => v,
                        None => {
                            self.state = State::Faulted(Fault::OutOfBounds);
                            proof {
                                assert(self@ =~= step(prev));
                                assert(self@ == run_n(s0, (RUN_FUEL - fuel) as nat));
                            }
                            break;
                        },
                    };
                    let vb = match self.read_checked(b) {
                        Some(v) => v,
                        None => {
                            self.state = State::Faulted(Fault::OutOfBounds);
                            proof {
                                assert(self@ =~= step(prev));
                                assert(self@ == run_n(s0, (RUN_FUEL - fuel) as nat));
                            }
                            break;
                        },
                    };
                    let v = match va.checked_mul(vb) {
                        Some(v) => v,
                        None => {
                            self.state = State::Faulted(Fault::Overflow);
                            proof {
                                assert(self@ =~= step(prev));
                                assert(self@ == run_n(s0, (RUN_FUEL - fuel) as nat));
                            }
                            break;
                        },
                    };
                    if !self.write_checked(c, v) {
                        self.state = State::Faulted(Fault::OutOfBounds);
                        proof {
                            assert(self@ =~= step(prev));
                            assert(self@ == run_n(s0, (RUN_FUEL - fuel) as nat));
                        }
                        break;
                    }
                    self.ip = ip + 4;
                    proof {
                        assert(self@ =~= step(prev));
                        assert(self@ == run_n(s0, (RUN_FUEL - fuel) as nat));
                    }
                },
                Instruction::Input(a) => {
                    if self.inq.len() == 0 {
                        proof {
                            assert(blocked(self@));
                        }
                        break;
                    }
                    let v = match self.inq.pop_front() {
                        Some(v) => v,
                        None => {
                            proof {
                                assert(false);
                            }
                            break;
                        },
                    };
                    if !self.write_checked(a, v) {
                        self.state = State::Faulted(Fault::OutOfBounds);
                        proof {
                            assert(self@.input =~= prev.input.subrange(1, prev.input.len() as int));
                            assert(self@ =~= step(prev));
                            assert(self@ == run_n(s0, (RUN_FUEL - fuel) as nat));
                        }
                        break;
                    }
                    self.ip = ip + 2;
                    proof {
                        assert(self@.input =~= prev.input.subrange(1, prev.input.len() as int));
                        assert(self@ =~= step(prev));
                        assert(self@ == run_n(s0, (RUN_FUEL - fuel) as nat));
                    }
                },
                Instruction::Output(a) => {
                    let va = match self.read_checked(a) {
                        Some(v) => v,
                        None => {
                            self.state = State::Faulted(Fault::OutOfBounds);
                            proof {
                                assert(self@ =~= step(prev));
                                assert(self@ == run_n(s0, (RUN_FUEL - fuel) as nat));
                            }
                            break;
                        },
                    };
                    self.last_output = va;
                    self.outq.push(va);
                    self.ip = ip + 2;
                    proof {
                        assert(self@ =~= step(prev));
                        assert(self@ == run_n(s0, (RUN_FUEL - fuel) as nat));
                    }
                },
                Instruction::JumpNZ(a, b) => {
                    let va = match self.read_checked(a) {
                        Some(v) => v,
                        None => {
                            self.state = State::Faulted(Fault::OutOfBounds);
                            proof {
                                assert(self@ =~= step(prev));
                                assert(self@ == run_n(s0, (RUN_FUEL - fuel) as nat));
                            }
                            break;
                        },
                    };
                    let vb = match self.read_checked(b) {
                        Some(v) => v,
                        None => {
                            self.state = State::Faulted(Fault::OutOfBounds);
                            proof {
                                assert(self@ =~= step(prev));
                                assert(self@ == run_n(s0, (RUN_FUEL - fuel) as nat));
                            }
                            break;
                        },
                    };
                    if va != 0 {
                        if vb < 0 || vb >= MEMORY_SIZE as i64 {
                            self.state = State::Faulted(Fault::OutOfBounds);
                            proof {
                                assert(self@ =~= step(prev));
                                assert(self@ == run_n(s0, (RUN_FUEL - fuel) as nat));
                            }
                            break;
                        }
                        self.ip = vb as usize;
                    } else {
                        self.ip = ip + 3;
                    }
                    proof {
                        assert(self@ =~= step(prev));
                        assert(self@ == run_n(s0, (RUN_FUEL - fuel) as nat));
                    }
                },
                Instruction::JumpZ(a, b) => {
                    let va = match self.read_checked(a) {
                        Some(v) => v,
                        None => {
                            self.state = State::Faulted(Fault::OutOfBounds);
                            proof {
                                assert(self@ =~= step(prev));
                                assert(self@ == run_n(s0, (RUN_FUEL - fuel) as nat));
                            }
                            break;
                        },
                    };
                    let vb = match self.read_checked(b) {
                        Some(v) => v,
                        None => {
                            self.state = State::Faulted(Fault::OutOfBounds);
                            proof {
                                assert(self@ =~= step(prev));
                                assert(self@ == run_n(s0, (RUN_FUEL - fuel) as nat));
                            }
                            break;
                        },
                    };
                    if va == 0 {
                        if vb < 0 || vb >= MEMORY_SIZE as i64 {
                            self.state = State::Faulted(Fault::OutOfBounds);
                            proof {
                                assert(self@ =~= step(prev));
                                assert(self@ == run_n(s0, (RUN_FUEL - fuel) as nat));
                            }
                            break;
                        }
                        self.ip = vb as usize;
                    } else {
                        self.ip = ip + 3;
                    }
                    proof {
                        assert(self@ =~= step(prev));
                        assert(self@ == run_n(s0, (RUN_FUEL - fuel) as nat));
                    }
                },
                Instruction::IfLess(a, b, c) => {
                    let va = match self.read_checked(a) {
                        Some(v) => v,
                        None => {
                            self.state = State::Faulted(Fault::OutOfBounds);
                            proof {
                                assert(self@ =~= step(prev));
                                assert(self@ == run_n(s0, (RUN_FUEL - fuel) as nat));
                            }
                            break;
                        },
                    };
                    let vb = match self.read_checked(b) {
                        Some(v) => v,
                        None => {
                            self.state = State::Faulted(Fault::OutOfBounds);
                            proof {
                                assert(self@ =~= step(prev));
                                assert(self@ == run_n(s0, (RUN_FUEL - fuel) as nat));
                            }
                            break;
                        },
                    };
                    let v: i64 = if va < vb {
                        1
                    } else {
                        0
                    };
                    if !self.write_checked(c, v) {
                        self.state = State::Faulted(Fault::OutOfBounds);
                        proof {
                            assert(self@ =~= step(prev));
                            assert(self@ == run_n(s0, (RUN_FUEL - fuel) as nat));
                        }
                        break;
                    }
                    self.ip = ip + 4;
                    proof {
                        assert(self@ =~= step(prev));
                        assert(self@ == run_n(s0, (RUN_FUEL - fuel) as nat));
                    }
                },
                Instruction::IfEqual(a, b, c) => {
                    let va = match self.read_checked(a) {
                        Some(v) => v,
                        None => {
                            self.state = State::Faulted(Fault::OutOfBounds);
                            proof {
                                assert(self@ =~= step(prev));
                                assert(self@ == run_n(s0, (RUN_FUEL - fuel) as nat));
                            }
                            break;
                        },
                    };
                    let vb = match self.read_checked(b) {
                        Some(v) => v,
                        None => {
                            self.state = State::Faulted(Fault::OutOfBounds);
                            proof {
                                assert(self@ =~= step(prev));
                                assert(self@ == run_n(s0, (RUN_FUEL - fuel) as nat));
                            }
                            break;
                        },
                    };
                    let v: i64 = if va == vb {
                        1
                    } else {
                        0
                    };
                    if !self.write_checked(c, v) {
                        self.state = State::Faulted(Fault::OutOfBounds);
                        proof {
                            assert(self@ =~= step(prev));
                            assert(self@ == run_n(s0, (RUN_FUEL - fuel) as nat));
                        }
                        break;
                    }
                    self.ip = ip + 4;
                    proof {
                        assert(self@ =~= step(prev));
                        assert(self@ == run_n(s0, (RUN_FUEL - fuel) as nat));
                    }
                },
                Instruction::AdjustSP(a) => {
                    let va = match self.read_checked(a) {
                        Some(v) => v,
                        None => {
                            self.state = State::Faulted(Fault::OutOfBounds);
                            proof {
                                assert(self@ =~= step(prev));
                                assert(self@ == run_n(s0, (RUN_FUEL - fuel) as nat));
                            }
                            break;
                        },
                    };
                    match self.sp.checked_add(va) {
                        Some(ns) => {
                            self.sp = ns;
                        },
                        None => {
                            self.state = State::Faulted(Fault::Overflow);
                            proof {
                                assert(self@ =~= step(prev));
                                assert(self@ == run_n(s0, (RUN_FUEL - fuel) as nat));
                            }
                            break;
                        },
                    }
                    self.ip = ip + 2;
                    proof {
                        assert(self@ =~= step(prev));
                        assert(self@ == run_n(s0, (RUN_FUEL - fuel) as nat));
                    }
                },
            }
        }
        proof {
            reveal(stop_state);
            let k = choose|k: nat| k <= RUN_FUEL && self@ == run_n(s0, k);
            if quiescent(self@) {
                assert(settles(s0));
                lemma_stop_state_settled(s0, k);
            } else {
                assert(self@ == run_n(s0, RUN_FUEL as nat));
                if settles(s0) {
                    let k2 = choose|k2: nat| k2 <= RUN_FUEL && quiescent(run_n(s0, k2));
                    lemma_run_n_add(s0, k2, (RUN_FUEL - k2) as nat);
                    lemma_quiescent_stable(run_n(s0, k2), (RUN_FUEL - k2) as nat);
                }
            }
        }
        self.last_output
    }
}

/// `stop_state` of a quiescent start is that start itself.
pub proof fn lemma_stop_state_quiescent(s: MState)
    requires
        quiescent(s),
    ensures
        stop_state(s) == s,
{
    reveal(stop_state);
    assert(quiescent(run_n(s, 0)));
    assert(settles(s));
    let k = choose|k: nat| k <= RUN_FUEL && quiescent(run_n(s, k));
    lemma_quiescent_stable(s, k);
}

/// A quiescent state within the budget is the stop state.
pub proof fn lemma_stop_state_settled(s: MState, k: nat)
    requires
        k <= RUN_FUEL,
        quiescent(run_n(s, k)),
    ensures
        stop_state(s) == run_n(s, k),
{
    reveal(stop_state);
    assert(settles(s));
    let k2 = choose|k2: nat| k2 <= RUN_FUEL && quiescent(run_n(s, k2));
    if k <= k2 {
        lemma_run_n_add(s, k, (k2 - k) as nat);
        lemma_quiescent_stable(run_n(s, k), (k2 - k) as nat);
    } else {
        lemma_run_n_add(s, k2, (k - k2) as nat);
        lemma_quiescent_stable(run_n(s, k2), (k - k2) as nat);
    }
}

/// Malformed program text, reported at load time.
#[derive(Debug, Clone, Copy, PartialEq, Eq, Structural)]
pub enum LoadError {
    /// A comma-separated token was not a signed decimal integer that
    /// fits a 64-bit cell.
    MalformedToken,
}

/// ASCII whitespace, what trimming removes around a token.
pub open spec fn is_space(b: u8) -> bool {
    b == 32 || (9 <= b <= 13)
}

/// An ASCII decimal digit.
pub open spec fn is_digit(b: u8) -> bool {
    48 <= b <= 57
}

/// Whether every byte of `d` is a decimal digit.
pub open spec fn all_digits(d: Seq<u8>) -> bool {
    forall|i: int| 0 <= i < d.len() ==> is_digit(#[trigger] d[i])
}

/// The number the digit string `d` denotes.
pub open spec fn digits_val(d: Seq<u8>) -> int
    decreases d.len(),
{
    if d.len() == 0 {
        0
    } else {
        digits_val(d.drop_last()) * 10 + (d.last() - 48)
    }
}

/// `t` with leading whitespace removed.
pub open spec fn trim_front(t: Seq<u8>) -> Seq<u8>
    decreases t.len(),
{
    if t.len() > 0 && is_space(t[0]) {
        trim_front(t.subrange(1, t.len() as int))
    } else {
        t
    }
}

/// `t` with trailing whitespace removed.
pub open spec fn trim_back(t: Seq<u8>) -> Seq<u8>
    decreases t.len(),
{
    if t.len() > 0 && is_space(t.last()) {
        trim_back(t.drop_last())
    } else {
        t
    }
}

/// `t` with whitespace removed on both sides.
pub open spec fn trimmed(t: Seq<u8>) -> Seq<u8> {
    trim_back(trim_front(t))
}

/// The value a single program token denotes: optional sign, then
/// decimal digits, whitespace around it permitted; `None` where the
/// token is malformed or its value does not fit a 64-bit cell.
pub open spec fn token_val(t: Seq<u8>) -> Option<i64> {
    let u = trimmed(t);
    let neg = u.len() > 0 && u[0] == 45;
    let signed = u.len() > 0 && (u[0] == 45 || u[0] == 43);
    let ds = if signed {
        u.subrange(1, u.len() as int)
    } else {
        u
    };
    if ds.len() == 0 || !all_digits(ds) {
        None
    } else {
        let v = if neg {
            -digits_val(ds)
        } else {
            digits_val(ds)
        };
        if fits_i64(v) {
            Some(v as i64)
        } else {
            None
        }
    }
}

/// Index of the first comma of `b`, or `b.len()` if there is none.
pub open spec fn first_comma(b: Seq<u8>) -> int
    decreases b.len(),
{
    if b.len() == 0 {
        0
    } else if b[0] == 44 {
        0
    } else {
        1 + first_comma(b.subrange(1, b.len() as int))
    }
}

/// The program a comma-joined line of text denotes, or `None` where
/// any token is malformed.
pub open spec fn parse_program(b: Seq<u8>) -> Option<Seq<i64>>
    decreases b.len(),
{
    let i = first_comma(b);
    if 0 <= i < b.len() {
        match token_val(b.subrange(0, i)) {
            Some(v) => match parse_program(b.subrange(i + 1, b.len() as int)) {
                Some(rest) => Some(seq![v] + rest),
                None => None,
            },
            None => None,
        }
    } else {
        match token_val(b) {
            Some(v) => Some(seq![v]),
            None => None,
        }
    }
}

/// A digit string denotes a non-negative number.
pub proof fn lemma_digits_val_nonneg(d: Seq<u8>)
    requires
        all_digits(d),
    ensures
        digits_val(d) >= 0,
    decreases d.len(),
{
    if d.len() > 0 {
        assert(all_digits(d.drop_last()));
        lemma_digits_val_nonneg(d.drop_last());
    }
}

/// Appending digits never shrinks the number a digit string denotes.
pub proof fn lemma_digits_val_prefix(d: Seq<u8>, k: int)
    requires
        all_digits(d),
        0 <= k <= d.len(),
    ensures
        digits_val(d.subrange(0, k)) <= digits_val(d),
    decreases d.len() - k,
{
    if k == d.len() {
        assert(d.subrange(0, k) =~= d);
    } else {
        lemma_digits_val_prefix(d, k + 1);
        assert(d.subrange(0, k + 1).drop_last() =~= d.subrange(0, k));
        assert(all_digits(d.subrange(0, k)));
        lemma_digits_val_nonneg(d.subrange(0, k));
    }
}

/// The first comma is where no earlier byte is a comma and the byte
/// there (if any) is one.
proof fn lemma_first_comma_at(s: Seq<u8>, k: int)
    requires
        0 <= k <= s.len(),
        forall|j: int| 0 <= j < k ==> s[j] != 44,
        k < s.len() ==> s[k] == 44,
    ensures
        first_comma(s) == k,
    decreases k,
{
    if k == 0 {
        if s.len() > 0 {
            assert(s[0] == 44);
        }
    } else {
        let t = s.subrange(1, s.len() as int);
        lemma_first_comma_at(t, k - 1);
    }
}

/// Glues an already-parsed prefix onto the outcome for the rest of the
/// text.
pub open spec fn glue(prefix: Seq<i64>, rest: Option<Seq<i64>>) -> Option<Seq<i64>> {
    match rest {
        Some(r) => Some(prefix + r),
        None => None,
    }
}

/// Index after the leading whitespace of the bytes `lo ..= hi - 1`.
pub(crate) fn skip_space_front(b: &Vec<u8>, lo: usize, hi: usize) -> (r: usize)
    requires
        lo <= hi <= b@.len(),
    ensures
        lo <= r <= hi,
        trim_front(b@.subrange(lo as int, hi as int)) == b@.subrange(r as int, hi as int),
{
    let ghost orig = b@.subrange(lo as int, hi as int);
    let mut i = lo;
    loop
        invariant_except_break
            lo <= i <= hi <= b@.len(),
            trim_front(orig) == trim_front(b@.subrange(i as int, hi as int)),
        ensures
            lo <= i <= hi <= b@.len(),
            trim_front(orig) == b@.subrange(i as int, hi as int),
        decreases hi - i,
    {
        if i >= hi {
            break;
        }
        let c = b[i];
        if !(c == 32 || (9 <= c && c <= 13)) {
            break;
        }
        proof {
            assert(b@.subrange(i as int, hi as int).subrange(1, (hi - i) as int) =~= b@.subrange(
                i as int + 1,
                hi as int,
            ));
        }
        i = i + 1;
    }
    i
}

/// Index before the trailing whitespace of the bytes `lo ..= hi - 1`.
pub(crate) fn skip_space_back(b: &Vec<u8>, lo: usize, hi: usize) -> (r: usize)
    requires
        lo <= hi <= b@.len(),
    ensures
        lo <= r <= hi,
        trim_back(b@.subrange(lo as int, hi as int)) == b@.subrange(lo as int, r as int),
{
    let ghost orig = b@.subrange(lo as int, hi as int);
    let mut j = hi;
    loop
        invariant_except_break
            lo <= j <= hi <= b@.len(),
            trim_back(orig) == trim_back(b@.subrange(lo as int, j as int)),
        ensures
            lo <= j <= hi <= b@.len(),
            trim_back(orig) == b@.subrange(lo as int, j as int),
        decreases j - lo,
    {
        if lo >= j {
            break;
        }
        let c = b[j - 1];
        if !(c == 32 || (9 <= c && c <= 13)) {
            break;
        }
        proof {
            assert(b@.subrange(lo as int, j as int).drop_last() =~= b@.subrange(
                lo as int,
                j as int - 1,
            ));
        }
        j = j - 1;
    }
    j
}

/// Parses one token of `b`, the bytes `lo ..= hi - 1`.
#[verifier::loop_isolation(false)]
pub(crate) fn parse_token(b: &Vec<u8>, lo: usize, hi: usize) -> (r: Option<i64>)
    requires
        lo <= hi <= b@.len(),
    ensures
        r == token_val(b@.subrange(lo as int, hi as int)),
{
    let ghost orig = b@.subrange(lo as int, hi as int);
    let mut lo = lo;
    let mut hi = hi;
    let new_lo = skip_space_front(b, lo, hi);
    proof {
        assert(trim_front(orig) == b@.subrange(new_lo as int, hi as int));
    }
    lo = new_lo;
    let new_hi = skip_space_back(b, lo, hi);
    proof {
        assert(trimmed(orig) == b@.subrange(lo as int, new_hi as int));
    }
    hi = new_hi;
    let ghost u = trimmed(orig);
    proof {
        assert(u == b@.subrange(lo as int, hi as int));
    }
    let mut neg = false;
    if lo < hi {
        let c = b[lo];
        if c == 45 || c == 43 {
            neg = c == 45;
            proof {
                assert(b@.subrange(lo as int, hi as int).subrange(
                    1,
                    (hi - lo) as int,
                ) =~= b@.subrange(lo as int + 1, hi as int));
            }
            lo = lo + 1;
        }
    }
    let ghost ds = b@.subrange(lo as int, hi as int);
    proof {
        assert(ds == if u.len() > 0 && (u[0] == 45 || u[0] == 43) {
            u.subrange(1, u.len() as int)
        } else {
            u
        });
    }
    if lo == hi {
        proof {
            assert(ds.len() == 0);
        }
        return None;
    }
    let mut mag: u128 = 0;
    let mut j = lo;
    while j < hi
        invariant
            lo <= j <= hi <= b@.len(),
            ds == b@.subrange(lo as int, hi as int),
            all_digits(b@.subrange(lo as int, j as int)),
            mag == digits_val(b@.subrange(lo as int, j as int)),
            mag <= 0x8000_0000_0000_0000u128,
        decreases hi - j,
    {
        let c = b[j];
        if c < 48 || c > 57 {
            proof {
                assert(ds[j - lo] == c);
                assert(!all_digits(ds));
            }
            return None;
        }
        let nm = mag * 10 + ((c - 48) as u128);
        proof {
            assert(b@.subrange(lo as int, j as int + 1).drop_last() =~= b@.subrange(
                lo as int,
                j as int,
            ));
        }
        if nm > 0x8000_0000_0000_0000u128 {
            proof {
                let pre = b@.subrange(lo as int, j as int + 1);
                assert(pre =~= ds.subrange(0, j - lo + 1));
                if all_digits(ds) {
                    lemma_digits_val_prefix(ds, j - lo + 1);
                    assert(digits_val(ds) >= nm);
                }
            }
            return None;
        }
        mag = nm;
        j = j + 1;
    }
    proof {
        assert(b@.subrange(lo as int, j as int) =~= ds);
        lemma_digits_val_nonneg(ds);
    }
    let sv: i128 = if neg {
        -(mag as i128)
    } else {
        mag as i128
    };
    if sv < (i64::MIN as i128) || sv > (i64::MAX as i128) {
        return None;
    }
    Some(sv as i64)
}

/// Loads a program from its text form: signed decimal integers joined
/// by commas, whitespace around each token permitted. A malformed
/// token is a load-time error, never silently skipped.
pub fn load_initial_memory(input: &str) -> (r: Result<Vec<i64>, LoadError>)
    ensures
        match r {
            Ok(v) => parse_program(input.spec_bytes()) == Some(v@),
            Err(_) => parse_program(input.spec_bytes()) is None,
        },
{
    let b = vstd::slice::slice_to_vec(input.as_bytes());
    let n = b.len();
    let mut out: Vec<i64> = Vec::new();
    let mut start: usize = 0;
    proof {
        let po = parse_program(b@);
        if po is Some {
            assert(out@ + po->Some_0 =~= po->Some_0);
        }
        assert(b@.subrange(0, n as int) =~= b@);
    }
    loop
        invariant
            start <= n,
            n == b@.len(),
            input.spec_bytes() == b@,
            parse_program(input.spec_bytes()) == glue(
                out@,
                parse_program(b@.subrange(start as int, n as int)),
            ),
        decreases n - start,
    {
        let mut end = start;
        while end < n && b[end] != 44
            invariant
                start <= end <= n,
                n == b@.len(),
                forall|j: int| start <= j < end ==> b@[j] != 44,
            decreases n - end,
        {
            end = end + 1;
        }
        let ghost suffix = b@.subrange(start as int, n as int);
        proof {
            let fsuf = Seq::new(suffix.len(), |j: int| suffix[j]);
            assert(forall|j: int| start <= j < end ==> b@[j] != 44);
            assert(forall|j: int| 0 <= j < end - start ==> suffix[j] == b@[start + j] && b@[start
                + j] != 44);
            lemma_first_comma_at(suffix, end - start);
            assert(suffix.subrange(0, end - start) =~= b@.subrange(start as int, end as int));
        }
        let ghost out_old = out@;
        let v = match parse_token(&b, start, end) {
            Some(v) => v,
            None => {
                return Err(LoadError::MalformedToken);
            },
        };
        out.push(v);
        if end == n {
            proof {
                assert(suffix =~= b@.subrange(start as int, end as int));
                assert(parse_program(suffix) == Some(seq![v]));
                assert(out_old + seq![v] =~= out@);
            }
            return Ok(out);
        }
        proof {
            assert(suffix.subrange(end - start + 1, suffix.len() as int) =~= b@.subrange(
                end as int + 1,
                n as int,
            ));
            let rest = parse_program(b@.subrange(end as int + 1, n as int));
            if rest is Some {
                assert(out_old + (seq![v] + rest->Some_0) =~= out@ + rest->Some_0);
            }
        }
        start = end + 1;
    }
}

/// The opcode a negative instruction word reports.
fn neg_code(w: i64) -> (r: i64)
    requires
        w < 0,
    ensures
        r as int == neg_opcode(w),
{
    let mag = (-(w as i128)) as u128;
    let rem = (mag % 100) as i64;
    -rem
}

} // verus!
