//! The earlier, smaller machine: position and immediate addressing
//! only, memory exactly as long as the program, no relative base.
//!
//! Its meaning is the small-step function [`step`]; `VM::run` drives
//! the machine along it until it halts, faults, or blocks waiting for
//! input. Console-facing callers queue input values and drain the
//! output queue around `run`.

use std::collections::VecDeque;
use vstd::prelude::*;

verus! {

/// The step budget of one `run` call; for every practical purpose,
/// unbounded.
pub const RUN_FUEL: u64 = 0x1000_0000_0000_0000;

/// How an instruction operand is interpreted.
#[derive(Debug, Clone, Copy, PartialEq, Eq, Structural)]
pub enum Parameter {
    Position(i64),
    Immediate(i64),
}

/// A decoded operation together with its typed operands.
#[derive(Debug, Clone, Copy, PartialEq, Eq, Structural)]
pub enum Instruction {
    Halt,
    Add(Parameter, Parameter, Parameter),
    Multiply(Parameter, Parameter, Parameter),
    Input(Parameter),
    Output(Parameter),
    JumpNZ(Parameter, Parameter),
    JumpZ(Parameter, Parameter),
    IfLess(Parameter, Parameter, Parameter),
    IfEqual(Parameter, Parameter, Parameter),
    Unknown(i64),
}

/// The reason a machine stopped abnormally.
#[derive(Debug, Clone, Copy, PartialEq, Eq, Structural)]
pub enum Fault {
    OutOfBounds,
    UnknownOpcode(i64),
    BadMode,
    Overflow,
}

/// The life cycle of a machine: `Halted` and `Faulted` are terminal.
#[derive(Debug, Clone, Copy, PartialEq, Eq, Structural)]
pub enum State {
    Ready,
    Running,
    Halted,
    Faulted(Fault),
}

/// The mathematical state of a machine.
#[verifier::ext_equal]
pub ghost struct MState {
    pub mem: Seq<i64>,
    pub ip: int,
    pub input: Seq<i64>,
    pub output: Seq<i64>,
    pub state: State,
}

/// The operand for a decoded addressing-mode digit; meaningful for
/// digits 0 and 1, the only ones this machine has.
pub open spec fn spec_param(mode: int, value: i64) -> Parameter {
    if mode == 0 {
        Parameter::Position(value)
    } else {
        Parameter::Immediate(value)
    }
}

/// The opcode encoded by a non-negative instruction word.
pub open spec fn opcode(w: i64) -> int {
    (w as int) % 100
}

/// The addressing-mode digit of parameter `k` (1-based).
pub open spec fn mode(w: i64, k: int) -> int {
    if k == 1 {
        ((w as int) / 100) % 10
    } else if k == 2 {
        ((w as int) / 1000) % 10
    } else {
        ((w as int) / 10000) % 10
    }
}

/// The opcode an out-of-range (negative) instruction word reports.
pub open spec fn neg_opcode(w: i64) -> int {
    -((-(w as int)) % 100)
}

/// Whether `opc` names an operation of this machine.
pub open spec fn recognized(opc: int) -> bool {
    opc == 1 || opc == 2 || opc == 3 || opc == 4 || opc == 5 || opc == 6 || opc == 7 || opc == 8
        || opc == 99
}

/// Word count of the instruction with opcode `opc`.
pub open spec fn words(opc: int) -> int {
    if opc == 1 || opc == 2 || opc == 7 || opc == 8 {
        4
    } else if opc == 5 || opc == 6 {
        3
    } else if opc == 3 || opc == 4 {
        2
    } else {
        1
    }
}

/// Whether every addressing-mode digit the instruction uses is 0 or 1,
/// the only modes this machine decodes.
pub open spec fn modes_ok(w: i64) -> bool {
    let n = words(opcode(w)) - 1;
    &&& n >= 1 ==> mode(w, 1) <= 1
    &&& n >= 2 ==> mode(w, 2) <= 1
    &&& n >= 3 ==> mode(w, 3) <= 1
}

/// Whether decoding at `ip` reads only allocated memory and meets only
/// addressing modes this machine has.
pub open spec fn decode_ok(mem: Seq<i64>, ip: int) -> bool {
    &&& 0 <= ip < mem.len()
    &&& mem[ip] >= 0 && recognized(opcode(mem[ip])) ==> {
        &&& ip + words(opcode(mem[ip])) <= mem.len()
        &&& modes_ok(mem[ip])
    }
}

/// The instruction encoded at `ip`; meaningful whenever
/// `decode_ok(mem, ip)` holds.
pub open spec fn decode(mem: Seq<i64>, ip: int) -> Instruction {
    let w = mem[ip];
    if w < 0 {
        Instruction::Unknown(neg_opcode(w) as i64)
    } else {
        let opc = opcode(w);
        let a1 = spec_param(mode(w, 1), mem[ip + 1]);
        let a2 = spec_param(mode(w, 2), mem[ip + 2]);
        let a3 = spec_param(mode(w, 3), mem[ip + 3]);
        if opc == 1 {
            Instruction::Add(a1, a2, a3)
        } else if opc == 2 {
            Instruction::Multiply(a1, a2, a3)
        } else if opc == 3 {
            Instruction::Input(a1)
        } else if opc == 4 {
            Instruction::Output(a1)
        } else if opc == 5 {
            Instruction::JumpNZ(a1, a2)
        } else if opc == 6 {
            Instruction::JumpZ(a1, a2)
        } else if opc == 7 {
            Instruction::IfLess(a1, a2, a3)
        } else if opc == 8 {
            Instruction::IfEqual(a1, a2, a3)
        } else if opc == 99 {
            Instruction::Halt
        } else {
            Instruction::Unknown(opc as i64)
        }
    }
}

/// Word count of a decoded instruction; `Unknown` has none and must
/// never advance the instruction pointer.
pub open spec fn arity_spec(i: Instruction) -> int {
    match i {
        Instruction::Halt => 1,
        Instruction::Add(_, _, _) => 4,
        Instruction::Multiply(_, _, _) => 4,
        Instruction::Input(_) => 2,
        Instruction::Output(_) => 2,
        Instruction::JumpNZ(_, _) => 3,
        Instruction::JumpZ(_, _) => 3,
        Instruction::IfLess(_, _, _) => 4,
        Instruction::IfEqual(_, _, _) => 4,
        Instruction::Unknown(_) => 0,
    }
}

/// Whether reading through `a` stays inside memory.
pub open spec fn read_ok(s: MState, a: Parameter) -> bool {
    match a {
        Parameter::Immediate(_) => true,
        Parameter::Position(p) => 0 <= p < s.mem.len(),
    }
}

/// The value obtained by reading through `a`.
pub open spec fn read_val(s: MState, a: Parameter) -> i64 {
    match a {
        Parameter::Immediate(v) => v,
        Parameter::Position(p) => s.mem[p as int],
    }
}

/// The memory cell a write through `a` lands in; an `Immediate` target
/// writes to the cell its value names.
pub open spec fn write_addr(a: Parameter) -> int {
    match a {
        Parameter::Immediate(v) => v as int,
        Parameter::Position(p) => p as int,
    }
}

/// Whether writing through `a` stays inside memory.
pub open spec fn write_ok(s: MState, a: Parameter) -> bool {
    0 <= write_addr(a) < s.mem.len()
}

/// The state after writing `val` through `a`.
pub open spec fn spec_set(s: MState, a: Parameter, val: i64) -> MState {
    MState { mem: s.mem.update(write_addr(a), val), ..s }
}

/// The state after stopping with fault `f`.
pub open spec fn fault_state(s: MState, f: Fault) -> MState {
    MState { state: State::Faulted(f), ..s }
}

/// Whether `v` fits a 64-bit cell.
pub open spec fn fits_i64(v: int) -> bool {
    i64::MIN <= v <= i64::MAX
}

/// Whether the machine is blocked on an empty input queue.
pub open spec fn blocked(s: MState) -> bool {
    &&& s.state == State::Running
    &&& 0 <= s.ip < s.mem.len()
    &&& s.mem[s.ip] >= 0
    &&& opcode(s.mem[s.ip]) == 3
    &&& s.ip + 2 <= s.mem.len()
    &&& modes_ok(s.mem[s.ip])
    &&& s.input.len() == 0
}

/// Whether the machine can make no step on its own.
pub open spec fn quiescent(s: MState) -> bool {
    s.state != State::Running || blocked(s)
}

/// One decode-execute step; total and deterministic, identity on a
/// quiescent state.
pub open spec fn step(s: MState) -> MState {
    if s.state != State::Running {
        s
    } else if !(0 <= s.ip < s.mem.len()) {
        fault_state(s, Fault::OutOfBounds)
    } else {
        let w = s.mem[s.ip];
        if w < 0 {
            fault_state(s, Fault::UnknownOpcode(neg_opcode(w) as i64))
        } else if !recognized(opcode(w)) {
            fault_state(s, Fault::UnknownOpcode(opcode(w) as i64))
        } else if s.ip + words(opcode(w)) > s.mem.len() {
            fault_state(s, Fault::OutOfBounds)
        } else if !modes_ok(w) {
            fault_state(s, Fault::BadMode)
        } else {
            step_decoded(s, decode(s.mem, s.ip))
        }
    }
}

/// The effect of one well-formed decoded instruction.
pub open spec fn step_decoded(s: MState, i: Instruction) -> MState {
    match i {
        Instruction::Halt => MState { state: State::Halted, ..s },
        Instruction::Add(a, b, c) => step_arith(s, a, b, c, true),
        Instruction::Multiply(a, b, c) => step_arith(s, a, b, c, false),
        Instruction::Input(a) => {
            if s.input.len() == 0 {
                s
            } else if !write_ok(s, a) {
                MState {
                    input: s.input.subrange(1, s.input.len() as int),
                    state: State::Faulted(Fault::OutOfBounds),
                    ..s
                }
            } else {
                MState {
                    mem: s.mem.update(write_addr(a), s.input[0]),
                    input: s.input.subrange(1, s.input.len() as int),
                    ip: s.ip + 2,
                    ..s
                }
            }
        },
        Instruction::Output(a) => {
            if !read_ok(s, a) {
                fault_state(s, Fault::OutOfBounds)
            } else {
                MState { output: s.output.push(read_val(s, a)), ip: s.ip + 2, ..s }
            }
        },
        Instruction::JumpNZ(a, b) => step_jump(s, a, b, true),
        Instruction::JumpZ(a, b) => step_jump(s, a, b, false),
        Instruction::IfLess(a, b, c) => step_compare(s, a, b, c, true),
        Instruction::IfEqual(a, b, c) => step_compare(s, a, b, c, false),
        Instruction::Unknown(code) => fault_state(s, Fault::UnknownOpcode(code)),
    }
}

/// Add or Multiply: read both operands, then store the checked result.
pub open spec fn step_arith(s: MState, a: Parameter, b: Parameter, c: Parameter, add: bool) -> MState {
    if !read_ok(s, a) || !read_ok(s, b) {
        fault_state(s, Fault::OutOfBounds)
    } else {
        let v = if add {
            read_val(s, a) + read_val(s, b)
        } else {
            read_val(s, a) * read_val(s, b)
        };
        if !fits_i64(v) {
            fault_state(s, Fault::Overflow)
        } else if !write_ok(s, c) {
            fault_state(s, Fault::OutOfBounds)
        } else {
            MState { mem: s.mem.update(write_addr(c), v as i64), ip: s.ip + 4, ..s }
        }
    }
}

/// JumpNZ or JumpZ: overwrite the instruction pointer when the
/// predicate holds; a target outside memory is fatal at the jump.
pub open spec fn step_jump(s: MState, a: Parameter, b: Parameter, nonzero: bool) -> MState {
    if !read_ok(s, a) || !read_ok(s, b) {
        fault_state(s, Fault::OutOfBounds)
    } else {
        let taken = if nonzero {
            read_val(s, a) != 0
        } else {
            read_val(s, a) == 0
        };
        if taken {
            let t = read_val(s, b);
            if !(0 <= t < s.mem.len()) {
                fault_state(s, Fault::OutOfBounds)
            } else {
                MState { ip: t as int, ..s }
            }
        } else {
            MState { ip: s.ip + 3, ..s }
        }
    }
}

/// IfLess or IfEqual: store 1 when the comparison holds, 0 otherwise.
pub open spec fn step_compare(s: MState, a: Parameter, b: Parameter, c: Parameter, less: bool) -> MState {
    if !read_ok(s, a) || !read_ok(s, b) {
        fault_state(s, Fault::OutOfBounds)
    } else if !write_ok(s, c) {
        fault_state(s, Fault::OutOfBounds)
    } else {
        let hit = if less {
            read_val(s, a) < read_val(s, b)
        } else {
            read_val(s, a) == read_val(s, b)
        };
        let v: i64 = if hit {
            1
        } else {
            0
        };
        MState { mem: s.mem.update(write_addr(c), v), ip: s.ip + 4, ..s }
    }
}

/// The machine after `n` steps.
pub open spec fn run_n(s: MState, n: nat) -> MState
    decreases n,
{
    if n == 0 {
        s
    } else {
        step(run_n(s, (n - 1) as nat))
    }
}

/// Whether the machine can go from `s` to `t` by stepping.
pub open spec fn reaches(s: MState, t: MState) -> bool {
    exists|n: nat| run_n(s, n) == t
}

/// The state of a freshly constructed machine holding `prog`.
pub open spec fn init_state(prog: Seq<i64>) -> MState {
    MState {
        mem: prog,
        ip: 0,
        input: Seq::empty(),
        output: Seq::empty(),
        state: State::Ready,
    }
}

/// The state `run` starts from.
pub open spec fn started(s: MState) -> MState {
    if s.state == State::Ready {
        MState { state: State::Running, ..s }
    } else {
        s
    }
}

/// Whether the machine comes to rest within the step budget.
pub open spec fn settles(s: MState) -> bool {
    exists|k: nat| k <= RUN_FUEL && quiescent(run_n(s, k))
}

/// Where one `run` call leaves the machine.
#[verifier::opaque]
pub open spec fn stop_state(s: MState) -> MState {
    if settles(s) {
        run_n(s, choose|k: nat| k <= RUN_FUEL && quiescent(run_n(s, k)))
    } else {
        run_n(s, RUN_FUEL as nat)
    }
}

pub proof fn lemma_reaches_refl(s: MState)
    ensures
        reaches(s, s),
{
    assert(run_n(s, 0) == s);
}

pub proof fn lemma_run_n_add(s: MState, m: nat, n: nat)
    ensures
        run_n(s, m + n) == run_n(run_n(s, m), n),
    decreases n,
{
    if n == 0 {
        assert(run_n(s, m + 0) == run_n(s, m));
    } else {
        lemma_run_n_add(s, m, (n - 1) as nat);
        assert(run_n(s, m + n) == step(run_n(s, (m + n - 1) as nat)));
    }
}

/// A quiescent machine stays put however long it is stepped.
pub proof fn lemma_quiescent_stable(s: MState, n: nat)
    requires
        quiescent(s),
    ensures
        run_n(s, n) == s,
    decreases n,
{
    if n > 0 {
        lemma_quiescent_stable(s, (n - 1) as nat);
    }
}

/// `stop_state` of a quiescent start is that start itself.
pub proof fn lemma_stop_state_quiescent(s: MState)
    requires
        quiescent(s),
    ensures
        stop_state(s) == s,
{
    reveal(stop_state);
    assert(quiescent(run_n(s, 0)));
    assert(settles(s));
    let k = choose|k: nat| k <= RUN_FUEL && quiescent(run_n(s, k));
    lemma_quiescent_stable(s, k);
}

/// A quiescent state within the budget is the stop state.
pub proof fn lemma_stop_state_settled(s: MState, k: nat)
    requires
        k <= RUN_FUEL,
        quiescent(run_n(s, k)),
    ensures
        stop_state(s) == run_n(s, k),
{
    reveal(stop_state);
    assert(settles(s));
    let k2 = choose|k2: nat| k2 <= RUN_FUEL && quiescent(run_n(s, k2));
    if k <= k2 {
        lemma_run_n_add(s, k, (k2 - k) as nat);
        lemma_quiescent_stable(run_n(s, k), (k2 - k) as nat);
    } else {
        lemma_run_n_add(s, k2, (k - k2) as nat);
        lemma_quiescent_stable(run_n(s, k2), (k - k2) as nat);
    }
}

impl Instruction {
    /// Word count of this instruction, its opcode word included.
    pub fn arity(&self) -> (r: usize)
        ensures
            r == arity_spec(*self),
    {
        match self {
            Instruction::Halt => 1,
            Instruction::Add(_, _, _) => 4,
            Instruction::Multiply(_, _, _) => 4,
            Instruction::Input(_) => 2,
            Instruction::Output(_) => 2,
            Instruction::JumpNZ(_, _) => 3,
            Instruction::JumpZ(_, _) => 3,
            Instruction::IfLess(_, _, _) => 4,
            Instruction::IfEqual(_, _, _) => 4,
            Instruction::Unknown(_) => 0,
        }
    }
}

impl Parameter {
    /// Builds the operand for a decoded addressing-mode digit.
    pub fn from(m: i64, value: i64) -> (r: Parameter)
        requires
            0 <= m <= 1,
        ensures
            r == spec_param(m as int, value),
    {
        match m {
            0 => Parameter::Position(value),
            _ => Parameter::Immediate(value),
        }
    }
}

/// One machine instance: memory exactly the program, an instruction
/// pointer, and the two value queues.
pub struct VM {
    memory: Vec<i64>,
    pub ip: usize,
    inq: VecDeque<i64>,
    outq: Vec<i64>,
    state: State,
}

impl View for VM {
    type V = MState;

    closed spec fn view(&self) -> MState {
        MState {
            mem: self.memory@,
            ip: self.ip as int,
            input: self.inq@,
            output: self.outq@,
            state: self.state,
        }
    }
}

impl VM {
    /// A fresh machine holding exactly `memory`.
    pub fn with(memory: &[i64]) -> (vm: VM)
        ensures
            vm@ == init_state(memory@),
    {
        let vm = VM {
            memory: vstd::slice::slice_to_vec(memory),
            ip: 0,
            inq: VecDeque::new(),
            outq: Vec::new(),
            state: State::Ready,
        };
        proof {
            assert(vm@.input =~= Seq::<i64>::empty());
            assert(vm@ =~= init_state(memory@));
        }
        vm
    }

    /// Decodes the instruction at the current instruction pointer;
    /// a pure function of memory and the pointer.
    pub fn op(&self) -> (r: Instruction)
        requires
            decode_ok(self@.mem, self@.ip),
        ensures
            r == decode(self@.mem, self@.ip),
    {
        let n = self.memory.len();
        let i = self.memory[self.ip];
        if i < 0 {
            return Instruction::Unknown(neg_code(i));
        }
        proof {
            assert(self@.mem.len() == n);
        }
        let u = i as u64;
        let op = u % 100;
        let mode_one = ((u / 100) % 10) as i64;
        let mode_two = ((u / 1_000) % 10) as i64;
        let mode_three = ((u / 10_000) % 10) as i64;
        proof {
            assert(op as int == opcode(i));
            assert(mode_one as int == mode(i, 1));
            assert(mode_two as int == mode(i, 2));
            assert(mode_three as int == mode(i, 3));
        }
        match op {
            1 => Instruction::Add(
                Parameter::from(mode_one, self.memory[self.ip + 1]),
                Parameter::from(mode_two, self.memory[self.ip + 2]),
                Parameter::from(mode_three, self.memory[self.ip + 3]),
            ),
            2 => Instruction::Multiply(
                Parameter::from(mode_one, self.memory[self.ip + 1]),
                Parameter::from(mode_two, self.memory[self.ip + 2]),
                Parameter::from(mode_three, self.memory[self.ip + 3]),
            ),
            3 => Instruction::Input(Parameter::from(mode_one, self.memory[self.ip + 1])),
            4 => Instruction::Output(Parameter::from(mode_one, self.memory[self.ip + 1])),
            5 => Instruction::JumpNZ(
                Parameter::from(mode_one, self.memory[self.ip + 1]),
                Parameter::from(mode_two, self.memory[self.ip + 2]),
            ),
            6 => Instruction::JumpZ(
                Parameter::from(mode_one, self.memory[self.ip + 1]),
                Parameter::from(mode_two, self.memory[self.ip + 2]),
            ),
            7 => Instruction::IfLess(
                Parameter::from(mode_one, self.memory[self.ip + 1]),
                Parameter::from(mode_two, self.memory[self.ip + 2]),
                Parameter::from(mode_three, self.memory[self.ip + 3]),
            ),
            8 => Instruction::IfEqual(
                Parameter::from(mode_one, self.memory[self.ip + 1]),
                Parameter::from(mode_two, self.memory[self.ip + 2]),
                Parameter::from(mode_three, self.memory[self.ip + 3]),
            ),
            99 => Instruction::Halt,
            n2 => Instruction::Unknown(n2 as i64),
        }
    }

    /// The value the operand `idx` denotes under the current state.
    pub fn at(&self, idx: Parameter) -> (r: i64)
        requires
            read_ok(self@, idx),
        ensures
            r == read_val(self@, idx),
    {
        let n = self.memory.len();
        proof {
            assert(self@.mem.len() == n);
        }
        match idx {
            Parameter::Immediate(v) => v,
            Parameter::Position(p) => self.memory[p as usize],
        }
    }

    /// Writes `val` through the operand `idx`.
    pub fn set(&mut self, idx: Parameter, val: i64)
        requires
            write_ok(old(self)@, idx),
        ensures
            final(self)@ == spec_set(old(self)@, idx, val),
    {
        let n = self.memory.len();
        proof {
            assert(self@.mem.len() == n);
        }
        match idx {
            Parameter::Immediate(v) => {
                self.memory[v as usize] = val;
            },
            Parameter::Position(p) => {
                self.memory[p as usize] = val;
            },
        }
    }

    /// Queues `value` for the machine's next `Input` instructions.
    pub fn send(&mut self, value: i64)
        ensures
            final(self)@ == (MState { input: old(self)@.input.push(value), ..old(self)@ }),
    {
        self.inq.push_back(value);
        proof {
            assert(self@ =~= (MState { input: old(self)@.input.push(value), ..old(self)@ }));
        }
    }

    /// Every value the machine has output, oldest first.
    pub fn outputs(&self) -> (r: &Vec<i64>)
        ensures
            r@ == self@.output,
    {
        &self.outq
    }

    /// Where the machine stands in its life cycle.
    pub fn state(&self) -> (r: State)
        ensures
            r == self@.state,
    {
        self.state
    }

    /// Reads through `a`, saying `None` where the effective address
    /// leaves memory.
    fn read_checked(&self, a: Parameter) -> (r: Option<i64>)
        ensures
            r == if read_ok(self@, a) {
                Some(read_val(self@, a))
            } else {
                None::<i64>
            },
    {
        match a {
            Parameter::Immediate(v) => Some(v),
            Parameter::Position(p) => {
                if 0 <= p && (p as u64) < (self.memory.len() as u64) {
                    Some(self.memory[p as usize])
                } else {
                    None
                }
            },
        }
    }

    /// Writes `val` through `a`, saying `false` and leaving the
    /// machine unchanged where the effective address leaves memory.
    fn write_checked(&mut self, a: Parameter, val: i64) -> (ok: bool)
        ensures
            ok == write_ok(old(self)@, a),
            ok ==> final(self)@ == spec_set(old(self)@, a, val),
            !ok ==> final(self)@ == old(self)@,
    {
        let e: i64 = match a {
            Parameter::Immediate(v) => v,
            Parameter::Position(p) => p,
        };
        if 0 <= e && (e as u64) < (self.memory.len() as u64) {
            self.memory[e as usize] = val;
            true
        } else {
            false
        }
    }

    /// Runs the machine until it halts, faults, or blocks on an empty
    /// input queue; a machine already terminal is left alone. The
    /// machine ends exactly where the step relation leads from its
    /// starting state, within the step budget.
    pub fn run(&mut self)
        ensures
            final(self)@ == stop_state(started(old(self)@)),
            reaches(started(old(self)@), final(self)@),
            settles(started(old(self)@)) ==> quiescent(final(self)@),
            final(self)@.mem.len() == old(self)@.mem.len(),
    {
        match self.state {
            State::Halted => {
                proof {
                    lemma_reaches_refl(self@);
                    lemma_stop_state_quiescent(self@);
                }
                return ;
            },
            State::Faulted(_) => {
                proof {
                    lemma_reaches_refl(self@);
                    lemma_stop_state_quiescent(self@);
                }
                return ;
            },
            _ => {},
        }
        self.state = State::Running;
        let ghost s0 = self@;
        let mut fuel: u64 = RUN_FUEL;
        loop
            invariant_except_break
                self@.state == State::Running,
                fuel <= RUN_FUEL,
                self@ == run_n(s0, (RUN_FUEL - fuel) as nat),
                self@.mem.len() == s0.mem.len(),
            ensures
                reaches(s0, self@),
                exists|k: nat| k <= RUN_FUEL && self@ == run_n(s0, k),
                quiescent(self@) || self@ == run_n(s0, RUN_FUEL as nat),
                self@.mem.len() == s0.mem.len(),
            decreases fuel,
        {
            proof {
                assert(reaches(s0, self@));
            }
            if fuel == 0 {
                break;
            }
            fuel = fuel - 1;
            let ghost prev = self@;
            let ip = self.ip;
            let len = self.memory.len();
            if ip >= len {
                self.state = State::Faulted(Fault::OutOfBounds);
                proof {
                    assert(self@ =~= step(prev));
                    assert(self@ == run_n(s0, (RUN_FUEL - fuel) as nat));
                }
                break;
            }
            let w = self.memory[ip];
            if w < 0 {
                let code = neg_code(w);
                self.state = State::Faulted(Fault::UnknownOpcode(code));
                proof {
                    assert(self@ =~= step(prev));
                    assert(self@ == run_n(s0, (RUN_FUEL - fuel) as nat));
                }
                break;
            }
            let u = w as u64;
            let opc = u % 100;
            let n_words: usize = match opc {
                1 | 2 | 7 | 8 => 4,
                5 | 6 => 3,
                3 | 4 => 2,
                99 => 1,
                _ => 0,
            };
            if n_words == 0 {
                self.state = State::Faulted(Fault::UnknownOpcode(opc as i64));
                proof {
                    assert(self@ =~= step(prev));
                    assert(self@ == run_n(s0, (RUN_FUEL - fuel) as nat));
                }
                break;
            }
            if len - ip < n_words {
                self.state = State::Faulted(Fault::OutOfBounds);
                proof {
                    assert(self@ =~= step(prev));
                    assert(self@ == run_n(s0, (RUN_FUEL - fuel) as nat));
                }
                break;
            }
            let m1 = ((u / 100) % 10) as i64;
            let m2 = ((u / 1_000) % 10) as i64;
            let m3 = ((u / 10_000) % 10) as i64;
            let n_modes = n_words - 1;
            if (n_modes >= 1 && m1 > 1) || (n_modes >= 2 && m2 > 1) || (n_modes >= 3 && m3 > 1) {
                self.state = State::Faulted(Fault::BadMode);
                proof {
                    assert(self@ =~= step(prev));
                    assert(self@ == run_n(s0, (RUN_FUEL - fuel) as nat));
                }
                break;
            }
            let inst = self.op();
            match inst {
                Instruction::Unknown(_) => {
                    proof {
                        assert(false);
                    }
                    break;
                },
                Instruction::Halt => {
                    self.state = State::Halted;
                    proof {
                        assert(self@ =~= step(prev));
                        assert(self@ == run_n(s0, (RUN_FUEL - fuel) as nat));
                    }
                    break;
                },
                Instruction::Add(a, b, c) => {
                    let va = match self.read_checked(a) {
                        Some(v) => v,
                        None => {
                            self.state = State::Faulted(Fault::OutOfBounds);
                            proof {
                                assert(self@ =~= step(prev));
                                assert(self@ == run_n(s0, (RUN_FUEL - fuel) as nat));
                            }
                            break;
                        },
                    };
                    let vb = match self.read_checked(b) {
                        Some(v) => v,
                        None => {
                            self.state = State::Faulted(Fault::OutOfBounds);
                            proof {
                                assert(self@ =~= step(prev));
                                assert(self@ == run_n(s0, (RUN_FUEL - fuel) as nat));
                            }
                            break;
                        },
                    };
                    let v = match va.checked_add(vb) {
                        Some(v) => v,
                        None => {
                            self.state = State::Faulted(Fault::Overflow);
                            proof {
                                assert(self@ =~= step(prev));
                                assert(self@ == run_n(s0, (RUN_FUEL - fuel) as nat));
                            }
                            break;
                        },
                    };
                    if !self.write_checked(c, v) {
                        self.state = State::Faulted(Fault::OutOfBounds);
                        proof {
                            assert(self@ =~= step(prev));
                            assert(self@ == run_n(s0, (RUN_FUEL - fuel) as nat));
                        }
                        break;
                    }
                    self.ip = ip + 4;
                    proof {
                        assert(self@ =~= step(prev));
                        assert(self@ == run_n(s0, (RUN_FUEL - fuel) as nat));
                    }
                },
                Instruction::Multiply(a, b, c) => {
                    let va = match self.read_checked(a) {
                        Some(v) => v,
                        None => {
                            self.state = State::Faulted(Fault::OutOfBounds);
                            proof {
                                assert(self@ =~= step(prev));
                                assert(self@ == run_n(s0, (RUN_FUEL - fuel) as nat));
                            }
                            break;
                        },
                    };
                    let vb = match self.read_checked(b) {
                        Some(v) => v,
                        None => {
                            self.state = State::Faulted(Fault::OutOfBounds);
                            proof {
                                assert(self@ =~= step(prev));
                                assert(self@ == run_n(s0, (RUN_FUEL - fuel) as nat));
                            }
                            break;
                        },
                    };
                    let v = match va.checked_mul(vb) {
                        Some(v) => v,
                        None => {
                            self.state = State::Faulted(Fault::Overflow);
                            proof {
                                assert(self@ =~= step(prev));
                                assert(self@ == run_n(s0, (RUN_FUEL - fuel) as nat));
                            }
                            break;
                        },
                    };
                    if !self.write_checked(c, v) {
                        self.state = State::Faulted(Fault::OutOfBounds);
                        proof {
                            assert(self@ =~= step(prev));
                            assert(self@ == run_n(s0, (RUN_FUEL - fuel) as nat));
                        }
                        break;
                    }
                    self.ip = ip + 4;
                    proof {
                        assert(self@ =~= step(prev));
                        assert(self@ == run_n(s0, (RUN_FUEL - fuel) as nat));
                    }
                },
                Instruction::Input(a) => {
                    if self.inq.len() == 0 {
                        proof {
                            assert(blocked(self@));
                        }
                        break;
                    }
                    let v = match self.inq.pop_front() {
                        Some(v) => v,
                        None => {
                            proof {
                                assert(false);
                            }
                            break;
                        },
                    };
                    if !self.write_checked(a, v) {
                        self.state = State::Faulted(Fault::OutOfBounds);
                        proof {
                            assert(self@.input =~= prev.input.subrange(
                                1,
                                prev.input.len() as int,
                            ));
                            assert(self@ =~= step(prev));
                            assert(self@ == run_n(s0, (RUN_FUEL - fuel) as nat));
                        }
                        break;
                    }
                    self.ip = ip + 2;
                    proof {
                        assert(self@.input =~= prev.input.subrange(1, prev.input.len() as int));
                        assert(self@ =~= step(prev));
                        assert(self@ == run_n(s0, (RUN_FUEL - fuel) as nat));
                    }
                },
                Instruction::Output(a) => {
                    let va = match self.read_checked(a) {
                        Some(v) => v,
                        None => {
                            self.state = State::Faulted(Fault::OutOfBounds);
                            proof {
                                assert(self@ =~= step(prev));
                                assert(self@ == run_n(s0, (RUN_FUEL - fuel) as nat));
                            }
                            break;
                        },
                    };
                    self.outq.push(va);
                    self.ip = ip + 2;
                    proof {
                        assert(self@ =~= step(prev));
                        assert(self@ == run_n(s0, (RUN_FUEL - fuel) as nat));
                    }
                },
                Instruction::JumpNZ(a, b) => {
                    let va = match self.read_checked(a) {
                        Some(v) => v,
                        None => {
                            self.state = State::Faulted(Fault::OutOfBounds);
                            proof {
                                assert(self@ =~= step(prev));
                                assert(self@ == run_n(s0, (RUN_FUEL - fuel) as nat));
                            }
                            break;
                        },
                    };
                    let vb = match self.read_checked(b) {
                        Some(v) => v,
                        None => {
                            self.state = State::Faulted(Fault::OutOfBounds);
                            proof {
                                assert(self@ =~= step(prev));
                                assert(self@ == run_n(s0, (RUN_FUEL - fuel) as nat));
                            }
                            break;
                        },
                    };
                    if va != 0 {
                        if vb < 0 || (vb as u64) >= (len as u64) {
                            self.state = State::Faulted(Fault::OutOfBounds);
                            proof {
                                assert(self@ =~= step(prev));
                                assert(self@ == run_n(s0, (RUN_FUEL - fuel) as nat));
                            }
                            break;
                        }
                        self.ip = vb as usize;
                    } else {
                        self.ip = ip + 3;
                    }
                    proof {
                        assert(self@ =~= step(prev));
                        assert(self@ == run_n(s0, (RUN_FUEL - fuel) as nat));
                    }
                },
                Instruction::JumpZ(a, b) => {
                    let va = match self.read_checked(a) {
                        Some(v) => v,
                        None => {
                            self.state = State::Faulted(Fault::OutOfBounds);
                            proof {
                                assert(self@ =~= step(prev));
                                assert(self@ == run_n(s0, (RUN_FUEL - fuel) as nat));
                            }
                            break;
                        },
                    };
                    let vb = match self.read_checked(b) {
                        Some(v) => v,
                        None => {
                            self.state = State::Faulted(Fault::OutOfBounds);
                            proof {
                                assert(self@ =~= step(prev));
                                assert(self@ == run_n(s0, (RUN_FUEL - fuel) as nat));
                            }
                            break;
                        },
                    };
                    if va == 0 {
                        if vb < 0 || (vb as u64) >= (len as u64) {
                            self.state = State::Faulted(Fault::OutOfBounds);
                            proof {
                                assert(self@ =~= step(prev));
                                assert(self@ == run_n(s0, (RUN_FUEL - fuel) as nat));
                            }
                            break;
                        }
                        self.ip = vb as usize;
                    } else {
                        self.ip = ip + 3;
                    }
                    proof {
                        assert(self@ =~= step(prev));
                        assert(self@ == run_n(s0, (RUN_FUEL - fuel) as nat));
                    }
                },
                Instruction::IfLess(a, b, c) => {
                    let va = match self.read_checked(a) {
                        Some(v) => v,
                        None => {
                            self.state = State::Faulted(Fault::OutOfBounds);
                            proof {
                                assert(self@ =~= step(prev));
                                assert(self@ == run_n(s0, (RUN_FUEL - fuel) as nat));
                            }
                            break;
                        },
                    };
                    let vb = match self.read_checked(b) {
                        Some(v) => v,
                        None => {
                            self.state = State::Faulted(Fault::OutOfBounds);
                            proof {
                                assert(self@ =~= step(prev));
                                assert(self@ == run_n(s0, (RUN_FUEL - fuel) as nat));
                            }
                            break;
                        },
                    };
                    let v: i64 = if va < vb {
                        1
                    } else {
                        0
                    };
                    if !self.write_checked(c, v) {
                        self.state = State::Faulted(Fault::OutOfBounds);
                        proof {
                            assert(self@ =~= step(prev));
                            assert(self@ == run_n(s0, (RUN_FUEL - fuel) as nat));
                        }
                        break;
                    }
                    self.ip = ip + 4;
                    proof {
                        assert(self@ =~= step(prev));
                        assert(self@ == run_n(s0, (RUN_FUEL - fuel) as nat));
                    }
                },
                Instruction::IfEqual(a, b, c) => {
                    let va = match self.read_checked(a) {
                        Some(v) => v,
                        None => {
                            self.state = State::Faulted(Fault::OutOfBounds);
                            proof {
                                assert(self@ =~= step(prev));
                                assert(self@ == run_n(s0, (RUN_FUEL - fuel) as nat));
                            }
                            break;
                        },
                    };
                    let vb = match self.read_checked(b) {
                        Some(v) => v,
                        None => {
                            self.state = State::Faulted(Fault::OutOfBounds);
                            proof {
                                assert(self@ =~= step(prev));
                                assert(self@ == run_n(s0, (RUN_FUEL - fuel) as nat));
                            }
                            break;
                        },
                    };
                    let v: i64 = if va == vb {
                        1
                    } else {
                        0
                    };
                    if !self.write_checked(c, v) {
                        self.state = State::Faulted(Fault::OutOfBounds);
                        proof {
                            assert(self@ =~= step(prev));
                            assert(self@ == run_n(s0, (RUN_FUEL - fuel) as nat));
                        }
                        break;
                    }
                    self.ip = ip + 4;
                    proof {
                        assert(self@ =~= step(prev));
                        assert(self@ == run_n(s0, (RUN_FUEL - fuel) as nat));
                    }
                },
            }
        }
        proof {
            reveal(stop_state);
            let k = choose|k: nat| k <= RUN_FUEL && self@ == run_n(s0, k);
            if quiescent(self@) {
                assert(settles(s0));
                lemma_stop_state_settled(s0, k);
            } else {
                assert(self@ == run_n(s0, RUN_FUEL as nat));
                if settles(s0) {
                    let k2 = choose|k2: nat| k2 <= RUN_FUEL && quiescent(run_n(s0, k2));
                    lemma_run_n_add(s0, k2, (RUN_FUEL - k2) as nat);
                    lemma_quiescent_stable(run_n(s0, k2), (RUN_FUEL - k2) as nat);
                }
            }
        }
    }
}

/// The opcode a negative instruction word reports.
fn neg_code(w: i64) -> (r: i64)
    requires
        w < 0,
    ensures
        r as int == neg_opcode(w),
{
    let mag = (-(w as i128)) as u128;
    let rem = (mag % 100) as i64;
    -rem
}

} // verus!
