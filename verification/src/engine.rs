//! The runtime loop's state machine: one step takes the current memory and
//! one inbound event, runs the active rule set in order against a working
//! copy of the memory, handles the reserved control topics (rule push, rule
//! removal, termination), and yields the updated memory, the effects emitted
//! in order, and whether this step is the last.
//!
//! Control flows only through events: a rule push or removal arrives as an
//! ordinary event on `<prefix>/command/functions/push` or `…/pop`, handled by
//! the engine itself before the user rules run, so the rule program is
//! hot-reloadable without a restart. A terminate event on
//! `<prefix>/command/exit` makes the step final; that step still carries its
//! effects, followed by a snapshot of the rule set and of the memory for the
//! persister. Whenever the rule set changes, the new set is emitted on
//! `<prefix>/notify/functions` so the persister always holds the current
//! program.

use vstd::prelude::*;

use crate::bytestr::{bytes_concat, bytes_eq};
use crate::codec::{
    enc_object, enc_rules, encode_entries, encode_rules, parse_inst_spec, parse_instance,
};
use crate::data::{ActionView, Effect, EffectView, EngineAction, effects_view};
use crate::memory::Memory;
use crate::registry::{Capability, Registry, apply_eff_spec, apply_mem_spec, reg_lookup};
use crate::ruleset::{InstView, RuleSet, rules_drop, rules_store};

verus! {

/// The topic suffix `/command/functions/push`.
pub open spec fn suffix_push() -> Seq<u8> {
    seq![47u8, 99, 111, 109, 109, 97, 110, 100, 47, 102, 117, 110, 99, 116, 105, 111, 110, 115, 47, 112, 117, 115, 104]
}

/// The topic suffix `/command/functions/pop`.
pub open spec fn suffix_pop() -> Seq<u8> {
    seq![47u8, 99, 111, 109, 109, 97, 110, 100, 47, 102, 117, 110, 99, 116, 105, 111, 110, 115, 47, 112, 111, 112]
}

/// The topic suffix `/command/exit`.
pub open spec fn suffix_exit() -> Seq<u8> {
    seq![47u8, 99, 111, 109, 109, 97, 110, 100, 47, 101, 120, 105, 116]
}

/// The topic suffix `/notify/functions`.
pub open spec fn suffix_notify_functions() -> Seq<u8> {
    seq![47u8, 110, 111, 116, 105, 102, 121, 47, 102, 117, 110, 99, 116, 105, 111, 110, 115]
}

/// The topic suffix `/notify/memory`.
pub open spec fn suffix_notify_memory() -> Seq<u8> {
    seq![47u8, 110, 111, 116, 105, 102, 121, 47, 109, 101, 109, 111, 114, 121]
}

/// The control topic that pushes a rule instance.
pub open spec fn topic_push(prefix: Seq<u8>) -> Seq<u8> {
    prefix + suffix_push()
}

/// The control topic that removes a rule instance by id.
pub open spec fn topic_pop(prefix: Seq<u8>) -> Seq<u8> {
    prefix + suffix_pop()
}

/// The control topic that terminates the runtime.
pub open spec fn topic_exit(prefix: Seq<u8>) -> Seq<u8> {
    prefix + suffix_exit()
}

/// The topic carrying rule-set snapshots to the persister.
pub open spec fn topic_notify_functions(prefix: Seq<u8>) -> Seq<u8> {
    prefix + suffix_notify_functions()
}

/// The topic carrying memory snapshots to the persister.
pub open spec fn topic_notify_memory(prefix: Seq<u8>) -> Seq<u8> {
    prefix + suffix_notify_memory()
}

/// True iff the event asks the runtime to terminate.
pub open spec fn is_terminate(prefix: Seq<u8>, topic: Seq<u8>) -> bool {
    topic == topic_exit(prefix)
}

/// The rule set after the event's control handling: a parsable payload on
/// the push topic stores its instance (replace-by-id); a payload on the pop
/// topic removes the instance with that id; every other event, and a
/// malformed push payload, leaves the set unchanged.
pub open spec fn rules_after(rules: Seq<InstView>, prefix: Seq<u8>, a: ActionView) -> Seq<
    InstView,
> {
    if a.topic == topic_push(prefix) {
        match parse_inst_spec(a.payload) {
            Some(v) => rules_store(rules, v),
            None => rules,
        }
    } else if a.topic == topic_pop(prefix) {
        rules_drop(rules, a.payload)
    } else {
        rules
    }
}

/// The rule-set snapshot effect for the persister.
pub open spec fn fx_functions(prefix: Seq<u8>, rules: Seq<InstView>) -> EffectView {
    EffectView { topic: topic_notify_functions(prefix), payload: enc_rules(rules), qos: 0 }
}

/// The memory snapshot effect for the persister.
pub open spec fn fx_memory(prefix: Seq<u8>, mem: Seq<(Seq<u8>, Seq<u8>)>) -> EffectView {
    EffectView { topic: topic_notify_memory(prefix), payload: enc_object(mem), qos: 0 }
}

/// The effects of the event's control handling: one rule-set snapshot
/// whenever the set changed (a parsed push, or a pop that found its id),
/// nothing otherwise.
pub open spec fn control_effects(rules: Seq<InstView>, prefix: Seq<u8>, a: ActionView) -> Seq<
    EffectView,
> {
    if a.topic == topic_push(prefix) {
        match parse_inst_spec(a.payload) {
            Some(v) => seq![fx_functions(prefix, rules_store(rules, v))],
            None => Seq::<EffectView>::empty(),
        }
    } else if a.topic == topic_pop(prefix) {
        if exists|i: int| 0 <= i < rules.len() && rules[i].id == a.payload {
            seq![fx_functions(prefix, rules_drop(rules, a.payload))]
        } else {
            Seq::<EffectView>::empty()
        }
    } else {
        Seq::<EffectView>::empty()
    }
}

/// The memory after the rules run in order: each registered rule transforms
/// the working memory in turn, an unregistered rule is skipped.
pub open spec fn run_rules_mem(
    reg: Seq<(Seq<u8>, Capability)>,
    rules: Seq<InstView>,
    mem: Seq<(Seq<u8>, Seq<u8>)>,
    a: ActionView,
) -> Seq<(Seq<u8>, Seq<u8>)>
    decreases rules.len(),
{
    if rules.len() == 0 {
        mem
    } else {
        let m1 = match reg_lookup(reg, rules[0].name) {
            Some(c) => apply_mem_spec(c, mem, a, rules[0].params),
            None => mem,
        };
        run_rules_mem(reg, rules.skip(1), m1, a)
    }
}

/// The effects of the rules run in order: each registered rule's effects in
/// the order emitted, rules in rule-set order, an unregistered rule
/// contributing nothing.
pub open spec fn run_rules_eff(
    reg: Seq<(Seq<u8>, Capability)>,
    rules: Seq<InstView>,
    mem: Seq<(Seq<u8>, Seq<u8>)>,
    a: ActionView,
) -> Seq<EffectView>
    decreases rules.len(),
{
    if rules.len() == 0 {
        Seq::<EffectView>::empty()
    } else {
        match reg_lookup(reg, rules[0].name) {
            Some(c) => apply_eff_spec(c, a, rules[0].params) + run_rules_eff(
                reg,
                rules.skip(1),
                apply_mem_spec(c, mem, a, rules[0].params),
                a,
            ),
            None => run_rules_eff(reg, rules.skip(1), mem, a),
        }
    }
}

/// The memory one step leaves: the rules (as updated by this event's
/// control handling) run over the incoming memory.
pub open spec fn step_memory(
    prefix: Seq<u8>,
    reg: Seq<(Seq<u8>, Capability)>,
    rules: Seq<InstView>,
    mem: Seq<(Seq<u8>, Seq<u8>)>,
    a: ActionView,
) -> Seq<(Seq<u8>, Seq<u8>)> {
    run_rules_mem(reg, rules_after(rules, prefix, a), mem, a)
}

/// The effects one step emits, in order: the control handling's snapshot,
/// then every rule's effects in rule-set order, then — on the final step
/// only — a rule-set snapshot and a memory snapshot for the persister.
pub open spec fn step_effects(
    prefix: Seq<u8>,
    reg: Seq<(Seq<u8>, Capability)>,
    rules: Seq<InstView>,
    mem: Seq<(Seq<u8>, Seq<u8>)>,
    a: ActionView,
) -> Seq<EffectView> {
    let r2 = rules_after(rules, prefix, a);
    let m2 = run_rules_mem(reg, r2, mem, a);
    control_effects(rules, prefix, a) + run_rules_eff(reg, r2, mem, a) + if is_terminate(
        prefix,
        a.topic,
    ) {
        seq![fx_functions(prefix, r2), fx_memory(prefix, m2)]
    } else {
        Seq::<EffectView>::empty()
    }
}

/// The result of one engine step.
pub struct StepResult {
    /// The memory after the step; the loop carries it into the next step.
    pub memory: Memory,
    /// The effects emitted, in order, forwarded unchanged downstream.
    pub effects: Vec<Effect>,
    /// True on the final step: the loop exits after forwarding it.
    pub terminate: bool,
}

/// The mathematical value of a [`StepResult`].
#[verifier::ext_equal]
pub ghost struct StepView {
    pub memory: Seq<(Seq<u8>, Seq<u8>)>,
    pub effects: Seq<EffectView>,
    pub terminate: bool,
}

impl View for StepResult {
    type V = StepView;

    open spec fn view(&self) -> StepView {
        StepView {
            memory: self.memory@,
            effects: effects_view(self.effects@),
            terminate: self.terminate,
        }
    }
}

impl StepResult {
    /// A field-for-field copy; the broadcaster hands one to every consumer.
    pub fn duplicate(&self) -> (r: StepResult)
        ensures
            r@ == self@,
    {
        let memory = self.memory.duplicate();
        let mut effects: Vec<Effect> = Vec::new();
        let n = self.effects.len();
        let mut i: usize = 0;
        proof {
            assert(effects_view(effects@) =~= effects_view(self.effects@).take(0));
        }
        while i < n
            invariant
                0 <= i <= n,
                n == self.effects@.len(),
                effects_view(effects@) == effects_view(self.effects@).take(i as int),
            decreases n - i,
        {
            let ghost before = effects@;
            effects.push(self.effects[i].duplicate());
            proof {
                assert(effects_view(effects@) =~= effects_view(self.effects@).take(i as int + 1))
                    by {
                    assert forall|j: int|
                        0 <= j < effects_view(effects@).len() implies effects_view(effects@)[j]
                        == effects_view(self.effects@).take(i as int + 1)[j] by {
                        assert(effects_view(effects@)[j] == effects@[j]@);
                        if j < i as int {
                            assert(effects@[j] == before[j]);
                            assert(effects_view(before)[j] == before[j]@);
                        }
                    }
                }
            }
            i += 1;
        }
        proof {
            assert(effects_view(self.effects@).take(n as int) =~= effects_view(self.effects@));
        }
        let r = StepResult { memory, effects, terminate: self.terminate };
        proof {
            assert(r@ =~= self@);
        }
        r
    }
}

/// The whole value of one step.
pub open spec fn step_view(
    prefix: Seq<u8>,
    reg: Seq<(Seq<u8>, Capability)>,
    rules: Seq<InstView>,
    mem: Seq<(Seq<u8>, Seq<u8>)>,
    a: ActionView,
) -> StepView {
    StepView {
        memory: step_memory(prefix, reg, rules, mem, a),
        effects: step_effects(prefix, reg, rules, mem, a),
        terminate: is_terminate(prefix, a.topic),
    }
}

/// The engine: the topic prefix naming its control plane, the fixed
/// capability registry, and the mutable rule set it exclusively owns.
pub struct Engine {
    /// The namespace prefix of the control and notification topics.
    pub prefix: Vec<u8>,
    /// The fixed name-to-capability table.
    pub registry: Registry,
    /// The active rule program.
    pub rules: RuleSet,
}

impl Engine {
    /// An engine is well formed when its rule set is.
    pub open spec fn wf(&self) -> bool {
        self.rules.wf()
    }

    /// Builds an engine from its parts.
    pub fn new(prefix: Vec<u8>, registry: Registry, rules: RuleSet) -> (r: Engine)
        requires
            rules.wf(),
        ensures
            r.wf(),
            r.prefix@ == prefix@,
            r.registry@ == registry@,
            r.rules@ == rules@,
    {
        Engine { prefix, registry, rules }
    }

    /// Runs one step: handles control topics, runs the rule set in order
    /// over the working memory, and returns the step's result. The returned
    /// memory replaces the one passed in; the rule set mutates in place.
    #[verifier::rlimit(90)]
    pub fn step(&mut self, memory: Memory, action: &EngineAction) -> (r: StepResult)
        requires
            old(self).wf(),
            memory.wf(),
        ensures
            final(self).wf(),
            r.memory.wf(),
            final(self).prefix@ == old(self).prefix@,
            final(self).registry@ == old(self).registry@,
            final(self).rules@ == rules_after(old(self).rules@, old(self).prefix@, action@),
            r@ == step_view(
                old(self).prefix@,
                old(self).registry@,
                old(self).rules@,
                memory@,
                action@,
            ),
    {
        let ghost prefix = self.prefix@;
        let ghost reg = self.registry@;
        let ghost rules0 = self.rules@;
        let ghost m0 = memory@;
        let ghost av = action@;

        let push_suffix: Vec<u8> = vec![47u8, 99, 111, 109, 109, 97, 110, 100, 47, 102, 117, 110, 99, 116, 105, 111, 110, 115, 47, 112, 117, 115, 104];
        let pop_suffix: Vec<u8> = vec![47u8, 99, 111, 109, 109, 97, 110, 100, 47, 102, 117, 110, 99, 116, 105, 111, 110, 115, 47, 112, 111, 112];
        let exit_suffix: Vec<u8> = vec![47u8, 99, 111, 109, 109, 97, 110, 100, 47, 101, 120, 105, 116];
        let nf_suffix: Vec<u8> = vec![47u8, 110, 111, 116, 105, 102, 121, 47, 102, 117, 110, 99, 116, 105, 111, 110, 115];
        let nm_suffix: Vec<u8> = vec![47u8, 110, 111, 116, 105, 102, 121, 47, 109, 101, 109, 111, 114, 121];
        proof {
            assert(push_suffix@ =~= suffix_push());
            assert(pop_suffix@ =~= suffix_pop());
            assert(exit_suffix@ =~= suffix_exit());
            assert(nf_suffix@ =~= suffix_notify_functions());
            assert(nm_suffix@ =~= suffix_notify_memory());
        }
        let t_push = bytes_concat(&self.prefix, &push_suffix);
        let t_pop = bytes_concat(&self.prefix, &pop_suffix);
        let t_exit = bytes_concat(&self.prefix, &exit_suffix);

        let mut effects: Vec<Effect> = Vec::new();

        // Control handling: mutate the rule set, snapshot it when it
        // changed.
        if bytes_eq(&action.topic, &t_push) {
            match parse_instance(&action.payload) {
                Some(inst) => {
                    self.rules.push_replace(inst);
                    let snap = encode_rules(self.rules.instances());
                    let topic = bytes_concat(&self.prefix, &nf_suffix);
                    effects.push(Effect { topic, payload: snap, qos: 0 });
                },
                None => {},
            }
        } else if bytes_eq(&action.topic, &t_pop) {
            let changed = self.rules.remove_id(&action.payload);
            if changed {
                let snap = encode_rules(self.rules.instances());
                let topic = bytes_concat(&self.prefix, &nf_suffix);
                effects.push(Effect { topic, payload: snap, qos: 0 });
            }
        }
        let ghost r2 = rules_after(rules0, prefix, av);
        let ghost ctl = control_effects(rules0, prefix, av);
        proof {
            assert(self.rules@ == r2);
            assert(effects_view(effects@) =~= ctl);
        }

        // Rule execution over the updated set, in order, threading the
        // working memory.
        let mut mem = memory;
        let n = self.rules.len();
        let mut i: usize = 0;
        proof {
            assert(r2.skip(0) =~= r2);
            assert(effects_view(effects@) + run_rules_eff(reg, r2, m0, av) =~= ctl + run_rules_eff(
                reg,
                r2,
                m0,
                av,
            ));
        }
        while i < n
            invariant
                0 <= i <= n,
                n == self.rules@.len(),
                self.prefix@ == prefix,
                self.registry@ == reg,
                self.rules@ == r2,
                self.rules.wf(),
                mem.wf(),
                run_rules_mem(reg, r2.skip(i as int), mem@, av) == run_rules_mem(reg, r2, m0, av),
                effects_view(effects@) + run_rules_eff(reg, r2.skip(i as int), mem@, av) == ctl
                    + run_rules_eff(reg, r2, m0, av),
            decreases n - i,
        {
            let ghost cur = r2.skip(i as int);
            proof {
                assert(cur[0] == r2[i as int]);
                assert(cur.skip(1) =~= r2.skip(i as int + 1));
            }
            let inst = &self.rules.items[i];
            proof {
                assert(r2[i as int] == inst@);
            }
            match self.registry.lookup(&inst.name) {
                Some(cap) => {
                    let ghost mem_before = mem@;
                    let ghost eff_before = effects_view(effects@);
                    let mut out_eff = cap.apply(&mut mem, action, &inst.params);
                    let ghost produced = effects_view(out_eff@);
                    effects.append(&mut out_eff);
                    proof {
                        assert(effects_view(effects@) =~= eff_before + produced) by {
                            assert forall|m: int|
                                0 <= m < effects_view(effects@).len() implies effects_view(
                                effects@,
                            )[m] == (eff_before + produced)[m] by {
                                assert(effects_view(effects@)[m] == effects@[m]@);
                            }
                        }
                        assert(run_rules_mem(reg, cur, mem_before, av) == run_rules_mem(
                            reg,
                            r2.skip(i as int + 1),
                            mem@,
                            av,
                        ));
                        assert(eff_before + (produced + run_rules_eff(
                            reg,
                            r2.skip(i as int + 1),
                            mem@,
                            av,
                        )) =~= (eff_before + produced) + run_rules_eff(
                            reg,
                            r2.skip(i as int + 1),
                            mem@,
                            av,
                        ));
                    }
                },
                None => {
                    proof {
                        assert(run_rules_mem(reg, cur, mem@, av) == run_rules_mem(
                            reg,
                            r2.skip(i as int + 1),
                            mem@,
                            av,
                        ));
                    }
                },
            }
            i += 1;
        }
        proof {
            assert(r2.skip(n as int) =~= Seq::<InstView>::empty());
            assert(mem@ == run_rules_mem(reg, r2, m0, av));
            assert(effects_view(effects@) =~= ctl + run_rules_eff(reg, r2, m0, av));
        }

        // Termination: the final step carries the snapshots the persister
        // writes at shutdown.
        let terminate = bytes_eq(&action.topic, &t_exit);
        if terminate {
            let ghost eff_before = effects_view(effects@);
            let snap_f = encode_rules(self.rules.instances());
            let topic_f = bytes_concat(&self.prefix, &nf_suffix);
            effects.push(Effect { topic: topic_f, payload: snap_f, qos: 0 });
            let snap_m = encode_entries(mem.entries());
            let topic_m = bytes_concat(&self.prefix, &nm_suffix);
            effects.push(Effect { topic: topic_m, payload: snap_m, qos: 0 });
            proof {
                assert(effects_view(effects@) =~= eff_before + seq![
                    fx_functions(prefix, r2),
                    fx_memory(prefix, mem@),
                ]) by {
                    assert forall|m: int|
                        0 <= m < effects_view(effects@).len() implies effects_view(effects@)[m]
                        == (eff_before + seq![
                        fx_functions(prefix, r2),
                        fx_memory(prefix, mem@),
                    ])[m] by {
                        assert(effects_view(effects@)[m] == effects@[m]@);
                    }
                }
            }
        }
        let r = StepResult { memory: mem, effects, terminate };
        proof {
            assert(r@ =~= step_view(prefix, reg, rules0, m0, av));
        }
        r
    }
}

/// A rule instance whose `type_name` is not registered is skipped without
/// affecting the other instances' execution or the memory: running a rule
/// set with such an instance equals running the set with it removed.
pub proof fn lemma_isolation(
    reg: Seq<(Seq<u8>, Capability)>,
    rules: Seq<InstView>,
    k: int,
    mem: Seq<(Seq<u8>, Seq<u8>)>,
    a: ActionView,
)
    requires
        0 <= k < rules.len(),
        reg_lookup(reg, rules[k].name) is None,
    ensures
        run_rules_mem(reg, rules, mem, a) == run_rules_mem(reg, rules.remove(k), mem, a),
        run_rules_eff(reg, rules, mem, a) == run_rules_eff(reg, rules.remove(k), mem, a),
    decreases k,
{
    if k == 0 {
        assert(rules.remove(0) =~= rules.skip(1));
    } else {
        let m1 = match reg_lookup(reg, rules[0].name) {
            Some(c) => apply_mem_spec(c, mem, a, rules[0].params),
            None => mem,
        };
        assert(rules.skip(1)[k - 1] == rules[k]);
        lemma_isolation(reg, rules.skip(1), k - 1, m1, a);
        assert(rules.remove(k).skip(1) =~= rules.skip(1).remove(k - 1));
        assert(rules.remove(k)[0] == rules[0]);
    }
}

/// Within one step, effects come out in rule-set order: at any boundary
/// `k`, the step's rule effects are those of the first `k` rules followed
/// by those of the rest, run over the memory the first `k` rules left.
pub proof fn lemma_effects_in_rule_order(
    reg: Seq<(Seq<u8>, Capability)>,
    rules: Seq<InstView>,
    mem: Seq<(Seq<u8>, Seq<u8>)>,
    a: ActionView,
    k: int,
)
    requires
        0 <= k <= rules.len(),
    ensures
        run_rules_eff(reg, rules, mem, a) == run_rules_eff(reg, rules.take(k), mem, a)
            + run_rules_eff(
            reg,
            rules.skip(k),
            run_rules_mem(reg, rules.take(k), mem, a),
            a,
        ),
        run_rules_mem(reg, rules, mem, a) == run_rules_mem(
            reg,
            rules.skip(k),
            run_rules_mem(reg, rules.take(k), mem, a),
            a,
        ),
    decreases k,
{
    if k == 0 {
        assert(rules.take(0) =~= Seq::<InstView>::empty());
        assert(rules.skip(0) =~= rules);
        assert(Seq::<EffectView>::empty() + run_rules_eff(reg, rules, mem, a) =~= run_rules_eff(
            reg,
            rules,
            mem,
            a,
        ));
    } else {
        let m1 = match reg_lookup(reg, rules[0].name) {
            Some(c) => apply_mem_spec(c, mem, a, rules[0].params),
            None => mem,
        };
        let e1 = match reg_lookup(reg, rules[0].name) {
            Some(c) => apply_eff_spec(c, a, rules[0].params),
            None => Seq::<EffectView>::empty(),
        };
        lemma_effects_in_rule_order(reg, rules.skip(1), m1, a, k - 1);
        assert(rules.take(k)[0] == rules[0]);
        assert(rules.take(k).skip(1) =~= rules.skip(1).take(k - 1));
        assert(rules.skip(k) =~= rules.skip(1).skip(k - 1));
        assert(run_rules_eff(reg, rules.take(k), mem, a) == e1 + run_rules_eff(
            reg,
            rules.skip(1).take(k - 1),
            m1,
            a,
        ));
        assert(run_rules_mem(reg, rules.take(k), mem, a) == run_rules_mem(
            reg,
            rules.skip(1).take(k - 1),
            m1,
            a,
        ));
        assert(e1 + (run_rules_eff(reg, rules.skip(1).take(k - 1), m1, a) + run_rules_eff(
            reg,
            rules.skip(k),
            run_rules_mem(reg, rules.take(k), mem, a),
            a,
        )) =~= (e1 + run_rules_eff(reg, rules.skip(1).take(k - 1), m1, a)) + run_rules_eff(
            reg,
            rules.skip(k),
            run_rules_mem(reg, rules.take(k), mem, a),
            a,
        ));
    }
}

} // verus!
