use myrulesiot::codec::{encode_instance, parse_entries, parse_rules};
use myrulesiot::data::EngineAction;
use myrulesiot::engine::Engine;
use myrulesiot::memory::Memory;
use myrulesiot::registry::{app_engine_functions, Capability, Registry};
use myrulesiot::ruleset::{RuleInstance, RuleSet};

fn b(s: &str) -> Vec<u8> {
    s.as_bytes().to_vec()
}

fn inst(name: &str, id: &str, params: &[(&str, &str)]) -> RuleInstance {
    RuleInstance {
        name: b(name),
        id: b(id),
        params: params.iter().map(|(k, v)| (b(k), b(v))).collect(),
    }
}

fn action(topic: &str, payload: Vec<u8>) -> EngineAction {
    EngineAction::new(b(topic), payload, 1)
}

fn engine() -> Engine {
    Engine::new(b("HOMERULES"), app_engine_functions(), RuleSet::new())
}

#[test]
fn push_echo_then_forward() {
    // Push {name:"echo", id:"r1", parameters:{"from":"A","to":"B"}} via a
    // control event, then send an event on topic A: expect exactly one
    // effect, on topic B with the same payload, and the memory unchanged.
    let mut e = engine();
    let payload = encode_instance(&inst("echo", "r1", &[("from", "A"), ("to", "B")]));
    let push = action("HOMERULES/command/functions/push", payload);
    let r1 = e.step(Memory::new(), &push);
    assert!(!r1.terminate);
    // the rule-set change is announced to the persister
    assert_eq!(r1.effects.len(), 1);
    assert_eq!(r1.effects[0].topic, b("HOMERULES/notify/functions"));
    let announced = parse_rules(&r1.effects[0].payload).expect("snapshot must parse");
    assert_eq!(announced.len(), 1);
    assert_eq!(announced[0].name, b("echo"));
    assert_eq!(announced[0].id, b("r1"));

    let r2 = e.step(r1.memory, &action("A", b("x")));
    assert!(!r2.terminate);
    assert_eq!(r2.effects.len(), 1);
    assert_eq!(r2.effects[0].topic, b("B"));
    assert_eq!(r2.effects[0].payload, b("x"));
    assert_eq!(r2.effects[0].qos, 0);
    assert_eq!(r2.memory.len(), 0);
}

#[test]
fn push_replaces_by_id_in_place() {
    let mut e = engine();
    let p1 = encode_instance(&inst("echo", "r1", &[("from", "A"), ("to", "B")]));
    let p2 = encode_instance(&inst("echo", "r2", &[("from", "C"), ("to", "D")]));
    let p3 = encode_instance(&inst("echo", "r1", &[("from", "A"), ("to", "E")]));
    let m = e.step(Memory::new(), &action("HOMERULES/command/functions/push", p1)).memory;
    let m = e.step(m, &action("HOMERULES/command/functions/push", p2)).memory;
    let r = e.step(m, &action("HOMERULES/command/functions/push", p3));
    // r1 is replaced in place: order r1, r2 kept, r1 now forwards to E
    let snap = parse_rules(&r.effects[0].payload).expect("snapshot must parse");
    assert_eq!(snap.len(), 2);
    assert_eq!(snap[0].id, b("r1"));
    assert_eq!(snap[0].params, vec![(b("from"), b("A")), (b("to"), b("E"))]);
    assert_eq!(snap[1].id, b("r2"));
    let fwd = e.step(r.memory, &action("A", b("hello")));
    assert_eq!(fwd.effects.len(), 1);
    assert_eq!(fwd.effects[0].topic, b("E"));
}

#[test]
fn pop_removes_and_announces() {
    let mut e = engine();
    let p1 = encode_instance(&inst("echo", "r1", &[("from", "A"), ("to", "B")]));
    let m = e.step(Memory::new(), &action("HOMERULES/command/functions/push", p1)).memory;
    let r = e.step(m, &action("HOMERULES/command/functions/pop", b("r1")));
    assert_eq!(r.effects.len(), 1);
    assert_eq!(r.effects[0].topic, b("HOMERULES/notify/functions"));
    let snap = parse_rules(&r.effects[0].payload).expect("snapshot must parse");
    assert!(snap.is_empty());
    // the rule no longer runs
    let r2 = e.step(r.memory, &action("A", b("x")));
    assert!(r2.effects.is_empty());
}

#[test]
fn pop_of_unknown_id_changes_nothing() {
    let mut e = engine();
    let r = e.step(Memory::new(), &action("HOMERULES/command/functions/pop", b("ghost")));
    assert!(r.effects.is_empty());
    assert!(!r.terminate);
}

#[test]
fn malformed_push_payload_is_ignored() {
    let mut e = engine();
    let r = e.step(Memory::new(), &action("HOMERULES/command/functions/push", b("{oops")));
    assert!(r.effects.is_empty());
    assert!(!r.terminate);
    // the engine still accepts a good push afterwards
    let p = encode_instance(&inst("echo", "r1", &[("from", "A"), ("to", "B")]));
    let r2 = e.step(r.memory, &action("HOMERULES/command/functions/push", p));
    assert_eq!(r2.effects.len(), 1);
}

#[test]
fn unregistered_rule_is_skipped_without_affecting_others() {
    // Isolation: an instance whose type name resolves nowhere contributes
    // nothing, and the other instances still run.
    let mut e = engine();
    let unknown = encode_instance(&inst("no_such_capability", "r0", &[("from", "A")]));
    let echo = encode_instance(&inst("echo", "r1", &[("from", "A"), ("to", "B")]));
    let m = e.step(Memory::new(), &action("HOMERULES/command/functions/push", unknown)).memory;
    let m = e.step(m, &action("HOMERULES/command/functions/push", echo)).memory;
    let r = e.step(m, &action("A", b("x")));
    assert_eq!(r.effects.len(), 1);
    assert_eq!(r.effects[0].topic, b("B"));
    assert_eq!(r.memory.len(), 0);
}

#[test]
fn save_value_writes_memory_and_emits_nothing() {
    let mut e = engine();
    let save = encode_instance(&inst(
        "save_value",
        "r1",
        &[("topic", "sensor/temp"), ("key", "r1.last")],
    ));
    let m = e.step(Memory::new(), &action("HOMERULES/command/functions/push", save)).memory;
    let r = e.step(m, &action("sensor/temp", b("21.5")));
    assert!(r.effects.is_empty());
    assert_eq!(r.memory.get(&b("r1.last")), Some(b("21.5")));
    // an event on another topic leaves memory alone
    let r2 = e.step(r.memory, &action("sensor/other", b("9")));
    assert_eq!(r2.memory.get(&b("r1.last")), Some(b("21.5")));
}

#[test]
fn rules_run_in_push_order_within_one_event() {
    // Ordering within one step: effects appear in rule-set order.
    let mut e = engine();
    let first = encode_instance(&inst("echo", "r1", &[("from", "A"), ("to", "B")]));
    let second = encode_instance(&inst("echo", "r2", &[("from", "A"), ("to", "C")]));
    let m = e.step(Memory::new(), &action("HOMERULES/command/functions/push", first)).memory;
    let m = e.step(m, &action("HOMERULES/command/functions/push", second)).memory;
    let r = e.step(m, &action("A", b("x")));
    assert_eq!(r.effects.len(), 2);
    assert_eq!(r.effects[0].topic, b("B"));
    assert_eq!(r.effects[1].topic, b("C"));
}

#[test]
fn terminate_step_carries_final_snapshots() {
    let mut e = engine();
    let save = encode_instance(&inst("save_value", "r1", &[("topic", "t"), ("key", "k")]));
    let m = e.step(Memory::new(), &action("HOMERULES/command/functions/push", save)).memory;
    let m = e.step(m, &action("t", b("v"))).memory;
    let r = e.step(m, &action("HOMERULES/command/exit", b("")));
    assert!(r.terminate);
    assert_eq!(r.effects.len(), 2);
    assert_eq!(r.effects[0].topic, b("HOMERULES/notify/functions"));
    assert_eq!(r.effects[1].topic, b("HOMERULES/notify/memory"));
    let rules_snap = parse_rules(&r.effects[0].payload).expect("rule snapshot must parse");
    assert_eq!(rules_snap.len(), 1);
    assert_eq!(rules_snap[0].id, b("r1"));
    let mem_snap = parse_entries(&r.effects[1].payload).expect("memory snapshot must parse");
    assert_eq!(mem_snap, vec![(b("k"), b("v"))]);
}

#[test]
fn non_control_topics_do_not_terminate() {
    let mut e = engine();
    let r = e.step(Memory::new(), &action("HOMERULES/command/exit2", b("")));
    assert!(!r.terminate);
    let r2 = e.step(r.memory, &action("OTHER/command/exit", b("")));
    assert!(!r2.terminate);
}

#[test]
fn registry_lookup_takes_first_registration() {
    let mut reg = Registry::new();
    reg.register(b("echo"), Capability::Forward);
    reg.register(b("echo"), Capability::SaveValue);
    assert!(matches!(reg.lookup(&b("echo")), Some(Capability::Forward)));
    assert!(reg.lookup(&b("missing")).is_none());
}

#[test]
fn default_registry_has_the_builtin_names() {
    let reg = app_engine_functions();
    assert!(reg.lookup(&b("echo")).is_some());
    assert!(reg.lookup(&b("forward_action")).is_some());
    assert!(reg.lookup(&b("save_value")).is_some());
    assert!(reg.lookup(&b("ikea_remote")).is_none());
}
