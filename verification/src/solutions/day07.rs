//! Pipelines and feedback loops of machines sharing one program.
//!
//! Five machines are wired so that each one's output queue feeds the
//! next one's input queue; in the feedback topology the last machine
//! also feeds the first. The whole system is driven by a deterministic
//! cooperative schedule, [`sys_next`]: run the lowest-numbered machine
//! that can make progress; once none can, forward one pending output
//! value. Output values reach their single consumer in order, so this
//! schedule observes the same values as any fair concurrent one.

use crate::intcode::{
    active, padded, settles, started, stop_state, wf, MState, State, VM,
};
use itertools::Itertools;
use vstd::prelude::*;
use vstd::slice::slice_index_get;

verus! {

/// Scheduling actions granted to one pipeline run before it is given
/// up as spinning; for every practical purpose, unbounded.
pub const SCHED_FUEL: u64 = 0x1_0000_0000;

/// Machine `i` of a pipeline at the start: the shared program loaded,
/// its phase setting queued, and a zero primer queued for machine 0.
pub open spec fn pipe_machine(prog: Seq<i64>, phases: Seq<i64>, i: int) -> MState {
    MState {
        mem: padded(prog),
        ip: 0,
        sp: 0,
        input: if i == 0 {
            seq![phases[0], 0]
        } else {
            seq![phases[i]]
        },
        output: Seq::empty(),
        last: 0,
        state: State::Ready,
    }
}

/// A pipeline at one instant: every machine's state, and how many of
/// each machine's outputs have been forwarded downstream.
#[verifier::ext_equal]
pub ghost struct SysConfig {
    pub ms: Seq<MState>,
    pub moved: Seq<int>,
}

/// The pipeline before any scheduling.
pub open spec fn sys_init(prog: Seq<i64>, phases: Seq<i64>) -> SysConfig {
    SysConfig {
        ms: Seq::new(phases.len(), |i: int| pipe_machine(prog, phases, i)),
        moved: Seq::new(phases.len(), |i: int| 0),
    }
}

/// The lowest machine index at or after `k` that can make progress,
/// or the machine count if none can.
pub open spec fn first_active(ms: Seq<MState>, k: nat) -> nat
    decreases ms.len() - k,
{
    if k >= ms.len() {
        ms.len()
    } else if active(ms[k as int]) {
        k
    } else {
        first_active(ms, k + 1)
    }
}

/// Whether machine `j` has an output value not yet forwarded. In the
/// linear topology the last machine's outputs stay where they are.
pub open spec fn pending(c: SysConfig, j: int, cycle: bool) -> bool {
    c.moved[j] < c.ms[j].output.len() && (cycle || j + 1 < c.ms.len())
}

/// The lowest machine index at or after `k` with an unforwarded
/// output value, or the machine count if there is none.
pub open spec fn first_pending(c: SysConfig, k: nat, cycle: bool) -> nat
    decreases c.ms.len() - k,
{
    if k >= c.ms.len() {
        c.ms.len()
    } else if pending(c, k as int, cycle) {
        k
    } else {
        first_pending(c, k + 1, cycle)
    }
}

/// One scheduling action: run the lowest active machine to rest, or —
/// when every machine rests — forward one pending output value to the
/// next machine's input queue. A config with neither is left alone.
pub open spec fn sys_next(c: SysConfig, cycle: bool) -> SysConfig {
    let i = first_active(c.ms, 0) as int;
    if i < c.ms.len() {
        SysConfig { ms: c.ms.update(i, stop_state(started(c.ms[i]))), ..c }
    } else {
        let j = first_pending(c, 0, cycle) as int;
        if j < c.ms.len() {
            let v = c.ms[j].output[c.moved[j]];
            let t: int = if j + 1 == c.ms.len() {
                0
            } else {
                j + 1
            };
            SysConfig {
                ms: c.ms.update(t, MState { input: c.ms[t].input.push(v), ..c.ms[t] }),
                moved: c.moved.update(j, c.moved[j] + 1),
            }
        } else {
            c
        }
    }
}

/// The pipeline after `n` scheduling actions.
pub open spec fn sys_iter(c: SysConfig, n: nat, cycle: bool) -> SysConfig
    decreases n,
{
    if n == 0 {
        c
    } else {
        sys_next(sys_iter(c, (n - 1) as nat, cycle), cycle)
    }
}

/// Whether the last machine has finished, normally or by fault. Its
/// completion is what the orchestrator waits for.
pub open spec fn last_done(c: SysConfig) -> bool {
    c.ms[c.ms.len() - 1].state == State::Halted || c.ms[c.ms.len() - 1].state is Faulted
}

/// Whether nothing in the pipeline can move again: every machine at
/// rest and every output forwarded. The deadlock outcome.
pub open spec fn sys_dead(c: SysConfig, cycle: bool) -> bool {
    first_active(c.ms, 0) == c.ms.len() && first_pending(c, 0, cycle) == c.ms.len()
}

/// `first_pending` lands on a pending machine (when it lands at all).
proof fn lemma_first_pending_props(c: SysConfig, k: nat, cycle: bool)
    requires
        k <= c.ms.len(),
    ensures
        k <= first_pending(c, k, cycle) <= c.ms.len(),
        first_pending(c, k, cycle) < c.ms.len() ==> pending(
            c,
            first_pending(c, k, cycle) as int,
            cycle,
        ),
    decreases c.ms.len() - k,
{
    if k < c.ms.len() && !pending(c, k as int, cycle) {
        lemma_first_pending_props(c, k + 1, cycle);
    }
}

/// Whether the run of a pipeline is over.
pub open spec fn sys_stop(c: SysConfig, cycle: bool) -> bool {
    last_done(c) || sys_dead(c, cycle)
}

/// Whether a finished run of the pipeline observes `r`: some number of
/// scheduling actions ends the run with the last machine's final
/// output equal to `r`. At most one `r` satisfies this.
pub open spec fn pipe_outcome(prog: Seq<i64>, phases: Seq<i64>, cycle: bool, r: i64) -> bool {
    exists|n: nat|
        {
            let c = #[trigger] sys_iter(sys_init(prog, phases), n, cycle);
            sys_stop(c, cycle) && r == c.ms[c.ms.len() - 1].last
        }
}

/// Whether the pipeline is still busy after the whole scheduling
/// budget: the analogue of an orchestrator blocked forever.
pub open spec fn pipe_busy(prog: Seq<i64>, phases: Seq<i64>, cycle: bool) -> bool {
    forall|n: nat|
        n <= SCHED_FUEL ==> !sys_stop(#[trigger] sys_iter(sys_init(prog, phases), n, cycle), cycle)
}

/// `first_active` lands on an active machine and skips only inactive
/// ones.
proof fn lemma_first_active_props(ms: Seq<MState>, k: nat)
    requires
        k <= ms.len(),
    ensures
        k <= first_active(ms, k) <= ms.len(),
        first_active(ms, k) < ms.len() ==> active(ms[first_active(ms, k) as int]),
        forall|j: int| k <= j < first_active(ms, k) ==> !active(ms[j]),
    decreases ms.len() - k,
{
    if k < ms.len() && !active(ms[k as int]) {
        lemma_first_active_props(ms, k + 1);
    }
}

/// Iterating the schedule composes.
proof fn lemma_sys_iter_add(c: SysConfig, m: nat, n: nat, cycle: bool)
    ensures
        sys_iter(c, m + n, cycle) == sys_iter(sys_iter(c, m, cycle), n, cycle),
    decreases n,
{
    if n == 0 {
        assert(sys_iter(c, m + 0, cycle) == sys_iter(c, m, cycle));
    } else {
        lemma_sys_iter_add(c, m, (n - 1) as nat, cycle);
        assert(sys_iter(c, m + n, cycle) == sys_next(sys_iter(c, (m + n - 1) as nat, cycle), cycle));
    }
}

/// Scheduling never changes how many machines there are.
proof fn lemma_sys_len(c: SysConfig, cycle: bool, n: nat)
    requires
        c.moved.len() == c.ms.len(),
    ensures
        sys_iter(c, n, cycle).ms.len() == c.ms.len(),
        sys_iter(c, n, cycle).moved.len() == c.moved.len(),
    decreases n,
{
    if n > 0 {
        lemma_sys_len(c, cycle, (n - 1) as nat);
        lemma_first_active_props(sys_iter(c, (n - 1) as nat, cycle).ms, 0);
        lemma_first_pending_props(sys_iter(c, (n - 1) as nat, cycle), 0, cycle);
    }
}

/// Once a run is over, further scheduling changes nothing observable:
/// the run stays over and the last machine's final output stands.
#[verifier::rlimit(60)]
proof fn lemma_stop_stable(c: SysConfig, cycle: bool)
    requires
        c.ms.len() >= 1,
        sys_stop(c, cycle),
    ensures
        sys_next(c, cycle).ms.len() == c.ms.len(),
        sys_stop(sys_next(c, cycle), cycle),
        sys_next(c, cycle).ms[c.ms.len() - 1].last == c.ms[c.ms.len() - 1].last,
        sys_next(c, cycle).ms[c.ms.len() - 1].state == c.ms[c.ms.len() - 1].state,
{
    let len = c.ms.len() as int;
    lemma_first_active_props(c.ms, 0);
    lemma_first_pending_props(c, 0, cycle);
    if sys_dead(c, cycle) {
        assert(sys_next(c, cycle) == c);
    } else {
        let i = first_active(c.ms, 0) as int;
        if i < len {
            assert(!active(c.ms[len - 1]));
            assert(i != len - 1);
            assert(last_done(sys_next(c, cycle)));
        } else {
            let j = first_pending(c, 0, cycle) as int;
            if j < len {
                let d = sys_next(c, cycle);
                assert(d.ms[len - 1].state == c.ms[len - 1].state);
                assert(d.ms[len - 1].last == c.ms[len - 1].last);
                assert(last_done(d));
            } else {
                assert(sys_next(c, cycle) == c);
            }
        }
    }
}

/// The same, over any number of further scheduling actions.
proof fn lemma_stop_stable_n(c: SysConfig, cycle: bool, n: nat)
    requires
        c.ms.len() >= 1,
        sys_stop(c, cycle),
    ensures
        sys_iter(c, n, cycle).ms.len() == c.ms.len(),
        sys_stop(sys_iter(c, n, cycle), cycle),
        sys_iter(c, n, cycle).ms[c.ms.len() - 1].last == c.ms[c.ms.len() - 1].last,
    decreases n,
{
    if n > 0 {
        lemma_stop_stable_n(c, cycle, (n - 1) as nat);
        lemma_stop_stable(sys_iter(c, (n - 1) as nat, cycle), cycle);
    }
}

/// The schedule is deterministic, so a pipeline observes one result.
#[verifier::rlimit(60)]
pub proof fn lemma_outcome_unique(
    prog: Seq<i64>,
    phases: Seq<i64>,
    cycle: bool,
    r1: i64,
    r2: i64,
)
    requires
        phases.len() >= 1,
        pipe_outcome(prog, phases, cycle, r1),
        pipe_outcome(prog, phases, cycle, r2),
    ensures
        r1 == r2,
{
    let init = sys_init(prog, phases);
    let n1 = choose|n: nat|
        {
            let c = #[trigger] sys_iter(sys_init(prog, phases), n, cycle);
            sys_stop(c, cycle) && r1 == c.ms[c.ms.len() - 1].last
        };
    let n2 = choose|n: nat|
        {
            let c = #[trigger] sys_iter(sys_init(prog, phases), n, cycle);
            sys_stop(c, cycle) && r2 == c.ms[c.ms.len() - 1].last
        };
    lemma_sys_len(init, cycle, n1);
    lemma_sys_len(init, cycle, n2);
    if n1 <= n2 {
        lemma_sys_iter_add(init, n1, (n2 - n1) as nat, cycle);
        lemma_stop_stable_n(sys_iter(init, n1, cycle), cycle, (n2 - n1) as nat);
    } else {
        lemma_sys_iter_add(init, n2, (n1 - n2) as nat, cycle);
        lemma_stop_stable_n(sys_iter(init, n2, cycle), cycle, (n1 - n2) as nat);
    }
}

/// A five-machine pipeline laid out for the scheduler's bookkeeping.
pub open spec fn cfg_of(
    s0: MState,
    s1: MState,
    s2: MState,
    s3: MState,
    s4: MState,
    m0: int,
    m1: int,
    m2: int,
    m3: int,
    m4: int,
) -> SysConfig {
    SysConfig { ms: seq![s0, s1, s2, s3, s4], moved: seq![m0, m1, m2, m3, m4] }
}

/// Builds the five machines, wires and drives them under the
/// deterministic cooperative schedule, and watches the last machine.
/// The second component says whether the run came to an end; where it
/// did, the first component is the pipeline's one observable result.
#[verifier::rlimit(100)]
fn run_pipeline(mem: &[i64], phases: &[i64], cycle: bool) -> (r: (i64, bool))
    requires
        phases@.len() == 5,
    ensures
        r.1 ==> pipe_outcome(mem@, phases@, cycle, r.0),
        r.1 ==> !pipe_busy(mem@, phases@, cycle),
        !r.1 ==> pipe_busy(mem@, phases@, cycle),
{
    let mut vm0 = VM::new(mem);
    vm0.send(*slice_index_get(phases, 0));
    vm0.send(0);
    let mut vm1 = VM::new(mem);
    vm1.send(*slice_index_get(phases, 1));
    let mut vm2 = VM::new(mem);
    vm2.send(*slice_index_get(phases, 2));
    let mut vm3 = VM::new(mem);
    vm3.send(*slice_index_get(phases, 3));
    let mut vm4 = VM::new(mem);
    vm4.send(*slice_index_get(phases, 4));
    let mut m0: usize = 0;
    let mut m1: usize = 0;
    let mut m2: usize = 0;
    let mut m3: usize = 0;
    let mut m4: usize = 0;
    let ghost init = sys_init(mem@, phases@);
    proof {
        assert(vm0@.input =~= seq![phases@[0], 0i64]);
        assert(vm1@.input =~= seq![phases@[1]]);
        assert(vm2@.input =~= seq![phases@[2]]);
        assert(vm3@.input =~= seq![phases@[3]]);
        assert(vm4@.input =~= seq![phases@[4]]);
        assert(vm0@ =~= pipe_machine(mem@, phases@, 0));
        assert(vm1@ =~= pipe_machine(mem@, phases@, 1));
        assert(vm2@ =~= pipe_machine(mem@, phases@, 2));
        assert(vm3@ =~= pipe_machine(mem@, phases@, 3));
        assert(vm4@ =~= pipe_machine(mem@, phases@, 4));
        assert(cfg_of(vm0@, vm1@, vm2@, vm3@, vm4@, 0, 0, 0, 0, 0) =~~= init);
    }
    let ghost mut steps: nat = 0;
    let mut budget: u64 = SCHED_FUEL;
    let mut out_v: i64 = 0;
    let mut ok: bool = false;
    loop
        invariant_except_break
            wf(vm0@),
            wf(vm1@),
            wf(vm2@),
            wf(vm3@),
            wf(vm4@),
            steps + budget == SCHED_FUEL,
            init == sys_init(mem@, phases@),
            phases@.len() == 5,
            cfg_of(
                vm0@,
                vm1@,
                vm2@,
                vm3@,
                vm4@,
                m0 as int,
                m1 as int,
                m2 as int,
                m3 as int,
                m4 as int,
            ) == sys_iter(init, steps, cycle),
            forall|n2: nat|
                n2 < steps ==> !sys_stop(
                    #[trigger] sys_iter(sys_init(mem@, phases@), n2, cycle),
                    cycle,
                ),
        ensures
            ok ==> pipe_outcome(mem@, phases@, cycle, out_v),
            ok ==> !pipe_busy(mem@, phases@, cycle),
            !ok ==> pipe_busy(mem@, phases@, cycle),
        decreases budget,
    {
        let ghost cfg = cfg_of(
            vm0@,
            vm1@,
            vm2@,
            vm3@,
            vm4@,
            m0 as int,
            m1 as int,
            m2 as int,
            m3 as int,
            m4 as int,
        );
        let done4 = match vm4.state() {
            State::Halted => true,
            State::Faulted(_) => true,
            _ => false,
        };
        if done4 {
            out_v = vm4.last_output();
            ok = true;
            proof {
                assert(last_done(cfg));
                assert(sys_stop(sys_iter(sys_init(mem@, phases@), steps, cycle), cycle));
                assert(pipe_outcome(mem@, phases@, cycle, out_v));
            }
            break;
        }
        if vm0.is_active() {
            proof {
                assert(first_active(cfg.ms, 0) == 0);
                assert(!sys_dead(cfg, cycle));
            }
            if budget == 0 {
                out_v = vm4.last_output();
                ok = false;
                proof {
                    assert(steps == SCHED_FUEL);
                    assert(forall|n2: nat|
                        n2 <= SCHED_FUEL ==> !sys_stop(
                            #[trigger] sys_iter(sys_init(mem@, phases@), n2, cycle),
                            cycle,
                        ));
                }
                break;
            }
            budget = budget - 1;
            vm0.run();
            proof {
                steps = steps + 1;
                assert(cfg_of(
                    vm0@,
                    vm1@,
                    vm2@,
                    vm3@,
                    vm4@,
                    m0 as int,
                    m1 as int,
                    m2 as int,
                    m3 as int,
                    m4 as int,
                ) =~~= sys_next(cfg, cycle));
                assert(sys_iter(init, steps, cycle) == sys_next(cfg, cycle));
            }
        } else if vm1.is_active() {
            proof {
                assert(first_active(cfg.ms, 1) == 1);
                assert(first_active(cfg.ms, 0) == 1);
                assert(!sys_dead(cfg, cycle));
            }
            if budget == 0 {
                out_v = vm4.last_output();
                ok = false;
                proof {
                    assert(steps == SCHED_FUEL);
                    assert(forall|n2: nat|
                        n2 <= SCHED_FUEL ==> !sys_stop(
                            #[trigger] sys_iter(sys_init(mem@, phases@), n2, cycle),
                            cycle,
                        ));
                }
                break;
            }
            budget = budget - 1;
            vm1.run();
            proof {
                steps = steps + 1;
                assert(cfg_of(
                    vm0@,
                    vm1@,
                    vm2@,
                    vm3@,
                    vm4@,
                    m0 as int,
                    m1 as int,
                    m2 as int,
                    m3 as int,
                    m4 as int,
                ) =~~= sys_next(cfg, cycle));
                assert(sys_iter(init, steps, cycle) == sys_next(cfg, cycle));
            }
        } else if vm2.is_active() {
            proof {
                assert(first_active(cfg.ms, 2) == 2);
                assert(first_active(cfg.ms, 1) == 2);
                assert(first_active(cfg.ms, 0) == 2);
                assert(!sys_dead(cfg, cycle));
            }
            if budget == 0 {
                out_v = vm4.last_output();
                ok = false;
                proof {
                    assert(steps == SCHED_FUEL);
                    assert(forall|n2: nat|
                        n2 <= SCHED_FUEL ==> !sys_stop(
                            #[trigger] sys_iter(sys_init(mem@, phases@), n2, cycle),
                            cycle,
                        ));
                }
                break;
            }
            budget = budget - 1;
            vm2.run();
            proof {
                steps = steps + 1;
                assert(cfg_of(
                    vm0@,
                    vm1@,
                    vm2@,
                    vm3@,
                    vm4@,
                    m0 as int,
                    m1 as int,
                    m2 as int,
                    m3 as int,
                    m4 as int,
                ) =~~= sys_next(cfg, cycle));
                assert(sys_iter(init, steps, cycle) == sys_next(cfg, cycle));
            }
        } else if vm3.is_active() {
            proof {
                assert(first_active(cfg.ms, 3) == 3);
                assert(first_active(cfg.ms, 2) == 3);
                assert(first_active(cfg.ms, 1) == 3);
                assert(first_active(cfg.ms, 0) == 3);
                assert(!sys_dead(cfg, cycle));
            }
            if budget == 0 {
                out_v = vm4.last_output();
                ok = false;
                proof {
                    assert(steps == SCHED_FUEL);
                    assert(forall|n2: nat|
                        n2 <= SCHED_FUEL ==> !sys_stop(
                            #[trigger] sys_iter(sys_init(mem@, phases@), n2, cycle),
                            cycle,
                        ));
                }
                break;
            }
            budget = budget - 1;
            vm3.run();
            proof {
                steps = steps + 1;
                assert(cfg_of(
                    vm0@,
                    vm1@,
                    vm2@,
                    vm3@,
                    vm4@,
                    m0 as int,
                    m1 as int,
                    m2 as int,
                    m3 as int,
                    m4 as int,
                ) =~~= sys_next(cfg, cycle));
                assert(sys_iter(init, steps, cycle) == sys_next(cfg, cycle));
            }
        } else if vm4.is_active() {
            proof {
                assert(first_active(cfg.ms, 4) == 4);
                assert(first_active(cfg.ms, 3) == 4);
                assert(first_active(cfg.ms, 2) == 4);
                assert(first_active(cfg.ms, 1) == 4);
                assert(first_active(cfg.ms, 0) == 4);
                assert(!sys_dead(cfg, cycle));
            }
            if budget == 0 {
                out_v = vm4.last_output();
                ok = false;
                proof {
                    assert(steps == SCHED_FUEL);
                    assert(forall|n2: nat|
                        n2 <= SCHED_FUEL ==> !sys_stop(
                            #[trigger] sys_iter(sys_init(mem@, phases@), n2, cycle),
                            cycle,
                        ));
                }
                break;
            }
            budget = budget - 1;
            vm4.run();
            proof {
                steps = steps + 1;
                assert(cfg_of(
                    vm0@,
                    vm1@,
                    vm2@,
                    vm3@,
                    vm4@,
                    m0 as int,
                    m1 as int,
                    m2 as int,
                    m3 as int,
                    m4 as int,
                ) =~~= sys_next(cfg, cycle));
                assert(sys_iter(init, steps, cycle) == sys_next(cfg, cycle));
            }
        } else if m0 < vm0.outputs().len() {
            proof {
                assert(first_active(cfg.ms, 5) == 5);
                assert(first_active(cfg.ms, 4) == 5);
                assert(first_active(cfg.ms, 3) == 5);
                assert(first_active(cfg.ms, 2) == 5);
                assert(first_active(cfg.ms, 1) == 5);
                assert(first_active(cfg.ms, 0) == 5);
                assert(first_pending(cfg, 0, cycle) == 0);
                assert(!sys_dead(cfg, cycle));
            }
            if budget == 0 {
                out_v = vm4.last_output();
                ok = false;
                proof {
                    assert(steps == SCHED_FUEL);
                    assert(forall|n2: nat|
                        n2 <= SCHED_FUEL ==> !sys_stop(
                            #[trigger] sys_iter(sys_init(mem@, phases@), n2, cycle),
                            cycle,
                        ));
                }
                break;
            }
            budget = budget - 1;
            let v = vm0.outputs()[m0];
            vm1.send(v);
            m0 = m0 + 1;
            proof {
                steps = steps + 1;
                assert(cfg_of(
                    vm0@,
                    vm1@,
                    vm2@,
                    vm3@,
                    vm4@,
                    m0 as int,
                    m1 as int,
                    m2 as int,
                    m3 as int,
                    m4 as int,
                ) =~~= sys_next(cfg, cycle));
                assert(sys_iter(init, steps, cycle) == sys_next(cfg, cycle));
            }
        } else if m1 < vm1.outputs().len() {
            proof {
                assert(first_active(cfg.ms, 5) == 5);
                assert(first_active(cfg.ms, 4) == 5);
                assert(first_active(cfg.ms, 3) == 5);
                assert(first_active(cfg.ms, 2) == 5);
                assert(first_active(cfg.ms, 1) == 5);
                assert(first_active(cfg.ms, 0) == 5);
                assert(first_pending(cfg, 1, cycle) == 1);
                assert(first_pending(cfg, 0, cycle) == 1);
                assert(!sys_dead(cfg, cycle));
            }
            if budget == 0 {
                out_v = vm4.last_output();
                ok = false;
                proof {
                    assert(steps == SCHED_FUEL);
                    assert(forall|n2: nat|
                        n2 <= SCHED_FUEL ==> !sys_stop(
                            #[trigger] sys_iter(sys_init(mem@, phases@), n2, cycle),
                            cycle,
                        ));
                }
                break;
            }
            budget = budget - 1;
            let v = vm1.outputs()[m1];
            vm2.send(v);
            m1 = m1 + 1;
            proof {
                steps = steps + 1;
                assert(cfg_of(
                    vm0@,
                    vm1@,
                    vm2@,
                    vm3@,
                    vm4@,
                    m0 as int,
                    m1 as int,
                    m2 as int,
                    m3 as int,
                    m4 as int,
                ) =~~= sys_next(cfg, cycle));
                assert(sys_iter(init, steps, cycle) == sys_next(cfg, cycle));
            }
        } else if m2 < vm2.outputs().len() {
            proof {
                assert(first_active(cfg.ms, 5) == 5);
                assert(first_active(cfg.ms, 4) == 5);
                assert(first_active(cfg.ms, 3) == 5);
                assert(first_active(cfg.ms, 2) == 5);
                assert(first_active(cfg.ms, 1) == 5);
                assert(first_active(cfg.ms, 0) == 5);
                assert(first_pending(cfg, 2, cycle) == 2);
                assert(first_pending(cfg, 1, cycle) == 2);
                assert(first_pending(cfg, 0, cycle) == 2);
                assert(!sys_dead(cfg, cycle));
            }
            if budget == 0 {
                out_v = vm4.last_output();
                ok = false;
                proof {
                    assert(steps == SCHED_FUEL);
                    assert(forall|n2: nat|
                        n2 <= SCHED_FUEL ==> !sys_stop(
                            #[trigger] sys_iter(sys_init(mem@, phases@), n2, cycle),
                            cycle,
                        ));
                }
                break;
            }
            budget = budget - 1;
            let v = vm2.outputs()[m2];
            vm3.send(v);
            m2 = m2 + 1;
            proof {
                steps = steps + 1;
                assert(cfg_of(
                    vm0@,
                    vm1@,
                    vm2@,
                    vm3@,
                    vm4@,
                    m0 as int,
                    m1 as int,
                    m2 as int,
                    m3 as int,
                    m4 as int,
                ) =~~= sys_next(cfg, cycle));
                assert(sys_iter(init, steps, cycle) == sys_next(cfg, cycle));
            }
        } else if m3 < vm3.outputs().len() {
            proof {
                assert(first_active(cfg.ms, 5) == 5);
                assert(first_active(cfg.ms, 4) == 5);
                assert(first_active(cfg.ms, 3) == 5);
                assert(first_active(cfg.ms, 2) == 5);
                assert(first_active(cfg.ms, 1) == 5);
                assert(first_active(cfg.ms, 0) == 5);
                assert(first_pending(cfg, 3, cycle) == 3);
                assert(first_pending(cfg, 2, cycle) == 3);
                assert(first_pending(cfg, 1, cycle) == 3);
                assert(first_pending(cfg, 0, cycle) == 3);
                assert(!sys_dead(cfg, cycle));
            }
            if budget == 0 {
                out_v = vm4.last_output();
                ok = false;
                proof {
                    assert(steps == SCHED_FUEL);
                    assert(forall|n2: nat|
                        n2 <= SCHED_FUEL ==> !sys_stop(
                            #[trigger] sys_iter(sys_init(mem@, phases@), n2, cycle),
                            cycle,
                        ));
                }
                break;
            }
            budget = budget - 1;
            let v = vm3.outputs()[m3];
            vm4.send(v);
            m3 = m3 + 1;
            proof {
                steps = steps + 1;
                assert(cfg_of(
                    vm0@,
                    vm1@,
                    vm2@,
                    vm3@,
                    vm4@,
                    m0 as int,
                    m1 as int,
                    m2 as int,
                    m3 as int,
                    m4 as int,
                ) =~~= sys_next(cfg, cycle));
                assert(sys_iter(init, steps, cycle) == sys_next(cfg, cycle));
            }
        } else if cycle && m4 < vm4.outputs().len() {
            proof {
                assert(first_active(cfg.ms, 5) == 5);
                assert(first_active(cfg.ms, 4) == 5);
                assert(first_active(cfg.ms, 3) == 5);
                assert(first_active(cfg.ms, 2) == 5);
                assert(first_active(cfg.ms, 1) == 5);
                assert(first_active(cfg.ms, 0) == 5);
                assert(first_pending(cfg, 4, cycle) == 4);
                assert(first_pending(cfg, 3, cycle) == 4);
                assert(first_pending(cfg, 2, cycle) == 4);
                assert(first_pending(cfg, 1, cycle) == 4);
                assert(first_pending(cfg, 0, cycle) == 4);
                assert(!sys_dead(cfg, cycle));
            }
            if budget == 0 {
                out_v = vm4.last_output();
                ok = false;
                proof {
                    assert(steps == SCHED_FUEL);
                    assert(forall|n2: nat|
                        n2 <= SCHED_FUEL ==> !sys_stop(
                            #[trigger] sys_iter(sys_init(mem@, phases@), n2, cycle),
                            cycle,
                        ));
                }
                break;
            }
            budget = budget - 1;
            let v = vm4.outputs()[m4];
            vm0.send(v);
            m4 = m4 + 1;
            proof {
                steps = steps + 1;
                assert(cfg_of(
                    vm0@,
                    vm1@,
                    vm2@,
                    vm3@,
                    vm4@,
                    m0 as int,
                    m1 as int,
                    m2 as int,
                    m3 as int,
                    m4 as int,
                ) =~~= sys_next(cfg, cycle));
                assert(sys_iter(init, steps, cycle) == sys_next(cfg, cycle));
            }
        } else {
            out_v = vm4.last_output();
            ok = true;
            proof {
                assert(first_active(cfg.ms, 5) == 5);
                assert(first_active(cfg.ms, 4) == 5);
                assert(first_active(cfg.ms, 3) == 5);
                assert(first_active(cfg.ms, 2) == 5);
                assert(first_active(cfg.ms, 1) == 5);
                assert(first_active(cfg.ms, 0) == 5);
                assert(first_pending(cfg, 5, cycle) == 5);
                assert(first_pending(cfg, 4, cycle) == 5);
                assert(first_pending(cfg, 3, cycle) == 5);
                assert(first_pending(cfg, 2, cycle) == 5);
                assert(first_pending(cfg, 1, cycle) == 5);
                assert(first_pending(cfg, 0, cycle) == 5);
                assert(sys_dead(cfg, cycle));
                assert(sys_stop(sys_iter(sys_init(mem@, phases@), steps, cycle), cycle));
                assert(pipe_outcome(mem@, phases@, cycle, out_v));
            }
            break;
        }
    }
    (out_v, ok)
}

/// The five phase settings `base ..= base + 4` in some order.
pub open spec fn range5(base: int) -> Seq<int> {
    seq![base, base + 1, base + 2, base + 3, base + 4]
}

/// Whether `p` orders the five phase settings starting at `base`.
pub open spec fn is_phase_perm(p: Seq<i64>, base: int) -> bool {
    p.len() == 5 && p.map_values(|x: i64| x as int).to_multiset() == range5(base).to_multiset()
}

/// Relies on itertools' `permutations`: all k-permutations of the
/// iterated elements, each produced once; with k equal to their count,
/// that is every ordering of the five phase settings — 120 in all.
#[verifier::external_body]
fn phase_permutations(base: i64) -> (r: Vec<Vec<i64>>)
    requires
        base <= i64::MAX - 5,
    ensures
        r@.len() == 120,
        forall|i: int| 0 <= i < r@.len() ==> is_phase_perm(#[trigger] r@[i]@, base as int),
        forall|p: Seq<i64>|
            is_phase_perm(p, base as int) ==> exists|i: int| 0 <= i < r@.len() && r@[i]@ == p,
{
    (base..base + 5).permutations(5).collect()
}

/// Runs one linear pipeline with the given phase settings and returns
/// the last machine's final output (or, for a pipeline that never
/// finishes its scheduling budget, its output so far).
pub fn run_01(mem: &[i64], initial: &[i64]) -> (r: i64)
    requires
        initial@.len() == 5,
    ensures
        pipe_outcome(mem@, initial@, false, r) || pipe_busy(mem@, initial@, false),
{
    let out = run_pipeline(mem, initial, false);
    out.0
}

/// Runs one feedback loop with the given phase settings and returns
/// the last machine's final output.
pub fn run_02(mem: &[i64], initial: &[i64]) -> (r: i64)
    requires
        initial@.len() == 5,
    ensures
        pipe_outcome(mem@, initial@, true, r) || pipe_busy(mem@, initial@, true),
{
    let out = run_pipeline(mem, initial, true);
    out.0
}

/// Exhaustive search over the 120 phase orderings: the result is the
/// observed output of some ordering and — as long as no ordering runs
/// out of scheduling budget — at least the observed output of every
/// ordering.
fn search_max(mem: &[i64], base: i64, cycle: bool) -> (r: i64)
    requires
        base <= i64::MAX - 5,
    ensures
        exists|p: Seq<i64>|
            is_phase_perm(p, base as int) && (pipe_outcome(mem@, p, cycle, r) || pipe_busy(
                mem@,
                p,
                cycle,
            )),
        (forall|p: Seq<i64>| is_phase_perm(p, base as int) ==> !pipe_busy(mem@, p, cycle))
            ==> forall|p: Seq<i64>, v: i64|
            is_phase_perm(p, base as int) && pipe_outcome(mem@, p, cycle, v) ==> v <= r,
{
    let perms = phase_permutations(base);
    let mut best: i64 = 0;
    let ghost mut best_p: Seq<i64> = Seq::empty();
    let ghost mut busy_p: Seq<i64> = Seq::empty();
    let mut any_busy = false;
    let mut idx: usize = 0;
    while idx < perms.len()
        invariant
            perms@.len() == 120,
            forall|i: int|
                0 <= i < perms@.len() ==> is_phase_perm(#[trigger] perms@[i]@, base as int),
            forall|p: Seq<i64>|
                is_phase_perm(p, base as int) ==> exists|i: int|
                    0 <= i < perms@.len() && perms@[i]@ == p,
            idx <= perms@.len(),
            idx > 0 ==> is_phase_perm(best_p, base as int) && (pipe_outcome(
                mem@,
                best_p,
                cycle,
                best,
            ) || pipe_busy(mem@, best_p, cycle)),
            any_busy ==> is_phase_perm(busy_p, base as int) && pipe_busy(mem@, busy_p, cycle),
            !any_busy ==> forall|i: int, v: i64|
                0 <= i < idx && #[trigger] pipe_outcome(mem@, perms@[i]@, cycle, v) ==> v <= best,
        decreases perms@.len() - idx,
    {
        let ghost old_idx = idx;
        let pr = run_pipeline(mem, perms[idx].as_slice(), cycle);
        if !pr.1 {
            any_busy = true;
            proof {
                busy_p = perms@[idx as int]@;
            }
        }
        if idx == 0 || pr.0 > best {
            best = pr.0;
            proof {
                best_p = perms@[idx as int]@;
            }
        }
        idx = idx + 1;
        proof {
            if !any_busy {
                assert forall|i: int, v: i64|
                    0 <= i < idx && #[trigger] pipe_outcome(mem@, perms@[i]@, cycle, v) implies v
                    <= best by {
                    if i == old_idx {
                        lemma_outcome_unique(mem@, perms@[i]@, cycle, v, pr.0);
                    }
                }
            }
        }
    }
    proof {
        if !any_busy {
            assert forall|p: Seq<i64>, v: i64|
                is_phase_perm(p, base as int) && pipe_outcome(mem@, p, cycle, v) implies v
                <= best by {
                let i = choose|i: int| 0 <= i < perms@.len() && perms@[i]@ == p;
                assert(pipe_outcome(mem@, perms@[i]@, cycle, v));
            }
        }
    }
    best
}

/// The best final output over every phase ordering of a linear
/// five-machine pipeline.
pub fn solve_01(mem: &[i64]) -> (r: i64)
    ensures
        exists|p: Seq<i64>|
            is_phase_perm(p, 0) && (pipe_outcome(mem@, p, false, r) || pipe_busy(mem@, p, false)),
        (forall|p: Seq<i64>| is_phase_perm(p, 0) ==> !pipe_busy(mem@, p, false)) ==> forall|
            p: Seq<i64>,
            v: i64,
        |
            is_phase_perm(p, 0) && pipe_outcome(mem@, p, false, v) ==> v <= r,
{
    search_max(mem, 0, false)
}

/// The best final output over every phase ordering of a five-machine
/// feedback loop.
pub fn solve_02(mem: &[i64]) -> (r: i64)
    ensures
        exists|p: Seq<i64>|
            is_phase_perm(p, 5) && (pipe_outcome(mem@, p, true, r) || pipe_busy(mem@, p, true)),
        (forall|p: Seq<i64>| is_phase_perm(p, 5) ==> !pipe_busy(mem@, p, true)) ==> forall|
            p: Seq<i64>,
            v: i64,
        |
            is_phase_perm(p, 5) && pipe_outcome(mem@, p, true, v) ==> v <= r,
{
    search_max(mem, 5, true)
}

} // verus!
