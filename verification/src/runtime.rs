//! The runtime loop over a whole event sequence: one event is processed
//! fully — every rule, in order — before the next is taken, so steps never
//! overlap and the loop's output lists every step in arrival order. The
//! loop runs until the event sequence is exhausted (drain-to-terminate: the
//! upstream channel closed) or a step terminates; either way it returns the
//! last computed memory exactly once.
//!
//! The asynchronous plumbing around this — channels, tasks, timers — lives
//! outside the crate; it feeds events in and carries step results away, and
//! every decision in between is made here.

use vstd::prelude::*;

use crate::data::{ActionView, EngineAction};
use crate::engine::{
    Engine, StepResult, StepView, is_terminate, rules_after, step_memory, step_view,
};
use crate::memory::Memory;
use crate::registry::Capability;
use crate::ruleset::InstView;

verus! {

/// The mathematical value of a sequence of inbound events.
pub open spec fn actions_view(s: Seq<EngineAction>) -> Seq<ActionView> {
    s.map_values(|a: EngineAction| a@)
}

/// The mathematical value of a sequence of step results.
pub open spec fn results_view(s: Seq<StepResult>) -> Seq<StepView> {
    s.map_values(|r: StepResult| r@)
}

/// What a whole run leaves: every step's result in order, the final memory,
/// and the final rule set.
#[verifier::ext_equal]
pub ghost struct RunView {
    pub outputs: Seq<StepView>,
    pub memory: Seq<(Seq<u8>, Seq<u8>)>,
    pub rules: Seq<InstView>,
}

/// The run over an event sequence: steps in arrival order, stopping after
/// the first terminating step, or when the events are exhausted.
pub open spec fn run_spec(
    prefix: Seq<u8>,
    reg: Seq<(Seq<u8>, Capability)>,
    rules: Seq<InstView>,
    mem: Seq<(Seq<u8>, Seq<u8>)>,
    actions: Seq<ActionView>,
) -> RunView
    decreases actions.len(),
{
    if actions.len() == 0 {
        RunView { outputs: Seq::<StepView>::empty(), memory: mem, rules }
    } else {
        let st = step_view(prefix, reg, rules, mem, actions[0]);
        let r2 = rules_after(rules, prefix, actions[0]);
        if st.terminate {
            RunView { outputs: seq![st], memory: st.memory, rules: r2 }
        } else {
            let rest = run_spec(prefix, reg, r2, st.memory, actions.skip(1));
            RunView { outputs: seq![st] + rest.outputs, memory: rest.memory, rules: rest.rules }
        }
    }
}

/// The rule set and memory after the first `k` steps of a run, terminate
/// or not.
pub open spec fn state_after(
    prefix: Seq<u8>,
    reg: Seq<(Seq<u8>, Capability)>,
    rules: Seq<InstView>,
    mem: Seq<(Seq<u8>, Seq<u8>)>,
    actions: Seq<ActionView>,
    k: int,
) -> (Seq<InstView>, Seq<(Seq<u8>, Seq<u8>)>)
    decreases k,
{
    if k <= 0 {
        (rules, mem)
    } else {
        let prev = state_after(prefix, reg, rules, mem, actions, k - 1);
        let a = actions[k - 1];
        (rules_after(prev.0, prefix, a), step_memory(prefix, reg, prev.0, prev.1, a))
    }
}

/// Stepping the start state once and counting `k - 1` states equals
/// counting `k` states from the start.
proof fn lemma_state_shift(
    prefix: Seq<u8>,
    reg: Seq<(Seq<u8>, Capability)>,
    rules: Seq<InstView>,
    mem: Seq<(Seq<u8>, Seq<u8>)>,
    actions: Seq<ActionView>,
    k: int,
)
    requires
        1 <= k <= actions.len(),
    ensures
        state_after(prefix, reg, rules, mem, actions, k) == state_after(
            prefix,
            reg,
            rules_after(rules, prefix, actions[0]),
            step_memory(prefix, reg, rules, mem, actions[0]),
            actions.skip(1),
            k - 1,
        ),
    decreases k,
{
    let r2 = rules_after(rules, prefix, actions[0]);
    let m2 = step_memory(prefix, reg, rules, mem, actions[0]);
    if k == 1 {
        assert(state_after(prefix, reg, rules, mem, actions, 0) == (rules, mem));
        assert(state_after(prefix, reg, r2, m2, actions.skip(1), 0) == (r2, m2));
    } else {
        lemma_state_shift(prefix, reg, rules, mem, actions, k - 1);
        assert(actions.skip(1)[k - 2] == actions[k - 1]);
        let prev = state_after(prefix, reg, rules, mem, actions, k - 1);
        assert(state_after(prefix, reg, rules, mem, actions, k) == (
            rules_after(prev.0, prefix, actions[k - 1]),
            step_memory(prefix, reg, prev.0, prev.1, actions[k - 1]),
        ));
        let prev2 = state_after(prefix, reg, r2, m2, actions.skip(1), k - 2);
        assert(state_after(prefix, reg, r2, m2, actions.skip(1), k - 1) == (
            rules_after(prev2.0, prefix, actions.skip(1)[k - 2]),
            step_memory(prefix, reg, prev2.0, prev2.1, actions.skip(1)[k - 2]),
        ));
    }
}

/// Ordering law, one event at a time: the `k`-th step of a run processes
/// the `k`-th event against exactly the rule set and memory the first `k`
/// steps left, so events are consumed in arrival order, each exactly once,
/// with no overlap between steps.
pub proof fn lemma_run_processes_in_order(
    prefix: Seq<u8>,
    reg: Seq<(Seq<u8>, Capability)>,
    rules: Seq<InstView>,
    mem: Seq<(Seq<u8>, Seq<u8>)>,
    actions: Seq<ActionView>,
    k: int,
)
    requires
        0 <= k < run_spec(prefix, reg, rules, mem, actions).outputs.len(),
    ensures
        run_spec(prefix, reg, rules, mem, actions).outputs.len() <= actions.len(),
        run_spec(prefix, reg, rules, mem, actions).outputs[k] == step_view(
            prefix,
            reg,
            state_after(prefix, reg, rules, mem, actions, k).0,
            state_after(prefix, reg, rules, mem, actions, k).1,
            actions[k],
        ),
        k + 1 < run_spec(prefix, reg, rules, mem, actions).outputs.len() ==> !run_spec(
            prefix,
            reg,
            rules,
            mem,
            actions,
        ).outputs[k].terminate,
    decreases k,
{
    lemma_run_length(prefix, reg, rules, mem, actions);
    let st = step_view(prefix, reg, rules, mem, actions[0]);
    let r2 = rules_after(rules, prefix, actions[0]);
    if k == 0 {
    } else {
        assert(!st.terminate);
        let rest = run_spec(prefix, reg, r2, st.memory, actions.skip(1));
        lemma_run_processes_in_order(prefix, reg, r2, st.memory, actions.skip(1), k - 1);
        lemma_state_shift(prefix, reg, rules, mem, actions, k);
        assert(actions.skip(1)[k - 1] == actions[k]);
    }
}

/// A run never makes more steps than there are events, stops early only on
/// a terminating step, and ends on the memory of its last step.
pub proof fn lemma_run_length(
    prefix: Seq<u8>,
    reg: Seq<(Seq<u8>, Capability)>,
    rules: Seq<InstView>,
    mem: Seq<(Seq<u8>, Seq<u8>)>,
    actions: Seq<ActionView>,
)
    ensures
        run_spec(prefix, reg, rules, mem, actions).outputs.len() <= actions.len(),
        run_spec(prefix, reg, rules, mem, actions).outputs.len() < actions.len() ==> run_spec(
            prefix,
            reg,
            rules,
            mem,
            actions,
        ).outputs.len() > 0 && run_spec(prefix, reg, rules, mem, actions).outputs.last().terminate,
        run_spec(prefix, reg, rules, mem, actions).outputs.len() > 0 ==> run_spec(
            prefix,
            reg,
            rules,
            mem,
            actions,
        ).memory == run_spec(prefix, reg, rules, mem, actions).outputs.last().memory,
        run_spec(prefix, reg, rules, mem, actions).outputs.len() == 0 ==> run_spec(
            prefix,
            reg,
            rules,
            mem,
            actions,
        ).memory == mem,
    decreases actions.len(),
{
    if actions.len() == 0 {
    } else {
        let st = step_view(prefix, reg, rules, mem, actions[0]);
        let r2 = rules_after(rules, prefix, actions[0]);
        if st.terminate {
        } else {
            lemma_run_length(prefix, reg, r2, st.memory, actions.skip(1));
            let rest = run_spec(prefix, reg, r2, st.memory, actions.skip(1));
            if rest.outputs.len() > 0 {
                assert((seq![st] + rest.outputs).last() == rest.outputs.last());
            }
        }
    }
}

/// Drain correctness: when no event is a terminate event, the run makes
/// exactly one step per event — none lost, none reprocessed — and returns
/// the last computed memory.
pub proof fn lemma_drain(
    prefix: Seq<u8>,
    reg: Seq<(Seq<u8>, Capability)>,
    rules: Seq<InstView>,
    mem: Seq<(Seq<u8>, Seq<u8>)>,
    actions: Seq<ActionView>,
)
    requires
        forall|k: int| 0 <= k < actions.len() ==> !is_terminate(prefix, actions[k].topic),
    ensures
        run_spec(prefix, reg, rules, mem, actions).outputs.len() == actions.len(),
    decreases actions.len(),
{
    if actions.len() == 0 {
    } else {
        let st = step_view(prefix, reg, rules, mem, actions[0]);
        let r2 = rules_after(rules, prefix, actions[0]);
        assert(!st.terminate);
        assert(forall|k: int|
            0 <= k < actions.skip(1).len() ==> actions.skip(1)[k] == actions[k + 1]);
        lemma_drain(prefix, reg, r2, st.memory, actions.skip(1));
    }
}

/// Runs the engine over a whole event sequence, as the runtime loop does
/// one event at a time: each step's result in arrival order, stopping after
/// the first terminating step, and the final memory.
pub fn run_actions(engine: &mut Engine, memory: Memory, actions: &Vec<EngineAction>) -> (r: (
    Memory,
    Vec<StepResult>,
))
    requires
        old(engine).wf(),
        memory.wf(),
    ensures
        final(engine).wf(),
        r.0.wf(),
        final(engine).prefix@ == old(engine).prefix@,
        final(engine).registry@ == old(engine).registry@,
        ({
            let rv = run_spec(
                old(engine).prefix@,
                old(engine).registry@,
                old(engine).rules@,
                memory@,
                actions_view(actions@),
            );
            &&& results_view(r.1@) == rv.outputs
            &&& r.0@ == rv.memory
            &&& final(engine).rules@ == rv.rules
        }),
{
    let ghost prefix = engine.prefix@;
    let ghost reg = engine.registry@;
    let ghost rules0 = engine.rules@;
    let ghost m0 = memory@;
    let ghost av = actions_view(actions@);
    let ghost full = run_spec(prefix, reg, rules0, m0, av);

    let mut mem = memory;
    let mut outs: Vec<StepResult> = Vec::new();
    let n = actions.len();
    let mut i: usize = 0;
    proof {
        assert(av.skip(0) =~= av);
        assert(results_view(outs@) =~= Seq::<StepView>::empty());
        assert(results_view(outs@) + full.outputs =~= full.outputs);
    }
    while i < n
        invariant
            0 <= i <= n,
            n == actions@.len(),
            engine.wf(),
            mem.wf(),
            engine.prefix@ == prefix,
            engine.registry@ == reg,
            ({
                let sub = run_spec(prefix, reg, engine.rules@, mem@, av.skip(i as int));
                &&& full.outputs == results_view(outs@) + sub.outputs
                &&& full.memory == sub.memory
                &&& full.rules == sub.rules
            }),
        decreases n - i,
    {
        let ghost sub = run_spec(prefix, reg, engine.rules@, mem@, av.skip(i as int));
        let ghost rules_before = engine.rules@;
        let ghost mem_before = mem@;
        proof {
            assert(av.skip(i as int)[0] == av[i as int]);
            assert(av[i as int] == actions@[i as int]@);
            assert(av.skip(i as int).skip(1) =~= av.skip(i as int + 1));
        }
        let action = &actions[i];
        let res = engine.step(mem, action);
        mem = res.memory.duplicate();
        let term = res.terminate;
        let ghost stv = res@;
        let ghost outs_before = results_view(outs@);
        outs.push(res);
        proof {
            assert(results_view(outs@) =~= outs_before.push(stv)) by {
                assert forall|j: int|
                    0 <= j < results_view(outs@).len() implies results_view(outs@)[j]
                    == outs_before.push(stv)[j] by {
                    assert(results_view(outs@)[j] == outs@[j]@);
                }
            }
            assert(stv == step_view(prefix, reg, rules_before, mem_before, av[i as int]));
        }
        if term {
            proof {
                assert(sub.outputs =~= seq![stv]);
                assert(results_view(outs@) =~= outs_before + seq![stv]);
                assert(full.outputs == results_view(outs@));
                assert(full.memory == stv.memory);
                assert(full.rules == engine.rules@);
            }
            return (mem, outs);
        }
        proof {
            let subnext = run_spec(prefix, reg, engine.rules@, mem@, av.skip(i as int + 1));
            assert(sub.outputs == seq![stv] + subnext.outputs);
            assert(results_view(outs@) + subnext.outputs =~= (outs_before + seq![stv])
                + subnext.outputs);
            assert(outs_before + seq![stv] =~= outs_before.push(stv));
            assert((outs_before + sub.outputs) =~= (outs_before + seq![stv]) + subnext.outputs);
        }
        i += 1;
    }
    proof {
        assert(av.skip(n as int) =~= Seq::<ActionView>::empty());
        assert(results_view(outs@) + Seq::<StepView>::empty() =~= results_view(outs@));
    }
    (mem, outs)
}

} // verus!
