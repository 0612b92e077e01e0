//! Patch-and-run: write a noun and a verb into cells 1 and 2, run the
//! program to completion, and read cell 0; then search the hundred by
//! hundred grid of patches for a target output.

pub use crate::intcode::load_initial_memory;
use crate::solutions::intcode::{
    init_state, started, stop_state, MState, Parameter, VM,
};
use vstd::prelude::*;

verus! {

/// The output day two's search looks for in cell 0.
pub const TARGET_OUTPUT: i64 = 19_690_720;

/// The machine as patched before it runs: `noun` in cell 1, `verb` in
/// cell 2.
pub open spec fn patched_start(prog: Seq<i64>, noun: i64, verb: i64) -> MState {
    MState { mem: prog.update(1, noun).update(2, verb), ..init_state(prog) }
}

/// What a patched run leaves in cell 0.
pub open spec fn cell0_after(prog: Seq<i64>, noun: i64, verb: i64) -> i64 {
    stop_state(started(patched_start(prog, noun, verb))).mem[0]
}

/// Patches cells 1 and 2, runs the program, and reads cell 0.
pub fn run(mem: &[i64], noun: i64, verb: i64) -> (r: i64)
    requires
        mem@.len() >= 3,
    ensures
        r == cell0_after(mem@, noun, verb),
{
    let mut vm = VM::with(mem);
    vm.set(Parameter::Position(1), noun);
    vm.set(Parameter::Position(2), verb);
    proof {
        assert(vm@ =~= patched_start(mem@, noun, verb));
    }
    vm.run();
    vm.at(Parameter::Position(0))
}

/// Cell 0 after running with the fixed patch 12, 2.
pub fn solve_01(memory: &[i64]) -> (r: i64)
    requires
        memory@.len() >= 3,
    ensures
        r == cell0_after(memory@, 12, 2),
{
    run(memory, 12, 2)
}

/// Whether every patch pair before `(noun, verb)` — in the search's
/// row-by-row order — misses the target output.
pub open spec fn no_hit_before(prog: Seq<i64>, noun: int, verb: int) -> bool {
    forall|n2: i64, v2: i64|
        0 <= n2 < 100 && 0 <= v2 < 100 && (n2 < noun || (n2 == noun && v2 < verb))
            ==> #[trigger] cell0_after(prog, n2, v2) != TARGET_OUTPUT
}

/// Searches nouns and verbs 0 to 99 for the patch whose run leaves the
/// target in cell 0 and returns `100 * noun + verb` for the first hit,
/// or 0 when every pair misses.
pub fn solve_02(memory: &[i64]) -> (r: i64)
    requires
        memory@.len() >= 3,
    ensures
        (exists|n: i64, v: i64|
            0 <= n < 100 && 0 <= v < 100 && #[trigger] cell0_after(memory@, n, v)
                == TARGET_OUTPUT && no_hit_before(memory@, n as int, v as int) && r == 100 * n + v) || (r == 0
            && no_hit_before(memory@, 100, 0)),
{
    let mut noun: i64 = 0;
    while noun < 100
        invariant
            0 <= noun <= 100,
            memory@.len() >= 3,
            no_hit_before(memory@, noun as int, 0),
        decreases 100 - noun,
    {
        let mut verb: i64 = 0;
        while verb < 100
            invariant
                0 <= verb <= 100,
                0 <= noun < 100,
                memory@.len() >= 3,
                no_hit_before(memory@, noun as int, verb as int),
            decreases 100 - verb,
        {
            let res = run(memory, noun, verb);
            if res == TARGET_OUTPUT {
                return 100 * noun + verb;
            }
            verb = verb + 1;
        }
        proof {
            assert(no_hit_before(memory@, noun + 1, 0));
        }
        noun = noun + 1;
    }
    proof {
        assert(no_hit_before(memory@, 100, 0));
    }
    0
}

} // verus!
