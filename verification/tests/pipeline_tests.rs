use myrulesiot::broadcast::Broadcaster;
use myrulesiot::codec::encode_instance;
use myrulesiot::data::EngineAction;
use myrulesiot::engine::Engine;
use myrulesiot::memory::Memory;
use myrulesiot::registry::app_engine_functions;
use myrulesiot::ruleset::{RuleInstance, RuleSet};
use myrulesiot::runtime::run_actions;

fn b(s: &str) -> Vec<u8> {
    s.as_bytes().to_vec()
}

fn inst(name: &str, id: &str, params: &[(&str, &str)]) -> RuleInstance {
    RuleInstance {
        name: b(name),
        id: b(id),
        params: params.iter().map(|(k, v)| (b(k), b(v))).collect(),
    }
}

fn action(topic: &str, payload: Vec<u8>) -> EngineAction {
    EngineAction::new(b(topic), payload, 1)
}

fn engine() -> Engine {
    Engine::new(b("HOMERULES"), app_engine_functions(), RuleSet::new())
}

#[test]
fn drain_processes_every_event_exactly_once() {
    // Drain correctness: the channel closing with no terminate event ends
    // the loop after one step per event, and the last memory comes back.
    let mut e = engine();
    let save = encode_instance(&inst("save_value", "r1", &[("topic", "t"), ("key", "k")]));
    let events = vec![
        action("HOMERULES/command/functions/push", save),
        action("t", b("first")),
        action("t", b("second")),
    ];
    let (memory, outputs) = run_actions(&mut e, Memory::new(), &events);
    assert_eq!(outputs.len(), 3);
    assert!(outputs.iter().all(|o| !o.terminate));
    assert_eq!(memory.get(&b("k")), Some(b("second")));
}

#[test]
fn run_preserves_event_order() {
    // Ordering across events: each step corresponds to the event in
    // arrival position, so the first event's effect precedes the second's.
    let mut e = engine();
    let echo = encode_instance(&inst("echo", "r1", &[("from", "A"), ("to", "B")]));
    let events = vec![
        action("HOMERULES/command/functions/push", echo),
        action("A", b("one")),
        action("A", b("two")),
    ];
    let (_, outputs) = run_actions(&mut e, Memory::new(), &events);
    assert_eq!(outputs.len(), 3);
    assert_eq!(outputs[1].effects[0].payload, b("one"));
    assert_eq!(outputs[2].effects[0].payload, b("two"));
}

#[test]
fn terminate_event_ends_the_run_after_its_step() {
    // The final step's effects are still emitted; later events are never
    // taken.
    let mut e = engine();
    let echo = encode_instance(&inst("echo", "r1", &[("from", "A"), ("to", "B")]));
    let events = vec![
        action("HOMERULES/command/functions/push", echo),
        action("HOMERULES/command/exit", b("")),
        action("A", b("never processed")),
    ];
    let (_, outputs) = run_actions(&mut e, Memory::new(), &events);
    assert_eq!(outputs.len(), 2);
    assert!(outputs[1].terminate);
    // the final step carries the two shutdown snapshots
    assert_eq!(outputs[1].effects.len(), 2);
    assert_eq!(outputs[1].effects[0].topic, b("HOMERULES/notify/functions"));
    assert_eq!(outputs[1].effects[1].topic, b("HOMERULES/notify/memory"));
}

#[test]
fn empty_event_sequence_returns_memory_unchanged() {
    let mut e = engine();
    let mut m = Memory::new();
    m.set(b("k"), b("v"));
    let (memory, outputs) = run_actions(&mut e, m, &vec![]);
    assert!(outputs.is_empty());
    assert_eq!(memory.get(&b("k")), Some(b("v")));
}

#[test]
fn every_handle_sees_every_item_in_order() {
    // Fan-out completeness for handles created before the run.
    let mut e = engine();
    let echo = encode_instance(&inst("echo", "r1", &[("from", "A"), ("to", "B")]));
    let events = vec![
        action("HOMERULES/command/functions/push", echo),
        action("A", b("one")),
        action("A", b("two")),
    ];
    let (_, outputs) = run_actions(&mut e, Memory::new(), &events);

    let mut fan = Broadcaster::new();
    let publisher = fan.create();
    let persister = fan.create();
    assert_eq!(fan.handles(), 2);
    fan.run(&outputs);
    for h in [publisher, persister] {
        let seen = fan.received(h);
        assert_eq!(seen.len(), outputs.len());
        for (got, want) in seen.iter().zip(outputs.iter()) {
            assert_eq!(got.terminate, want.terminate);
            assert_eq!(got.effects.len(), want.effects.len());
            for (ge, we) in got.effects.iter().zip(want.effects.iter()) {
                assert_eq!(ge.topic, we.topic);
                assert_eq!(ge.payload, we.payload);
                assert_eq!(ge.qos, we.qos);
            }
        }
    }
}

#[test]
fn publish_appends_to_all_handles() {
    let mut e = engine();
    let r = e.step(Memory::new(), &action("x", b("y")));
    let mut fan = Broadcaster::new();
    let h1 = fan.create();
    let h2 = fan.create();
    fan.publish(&r);
    fan.publish(&r);
    assert_eq!(fan.received(h1).len(), 2);
    assert_eq!(fan.received(h2).len(), 2);
}

#[test]
fn corrupt_rules_file_startup_proceeds_normally() {
    // Startup with a corrupt rule-set file: the set loads as empty, nothing
    // crashes, and the runtime then accepts pushes as usual.
    let loaded = myrulesiot::codec::load_rules(&b("]]] corrupt {{{"));
    assert!(loaded.is_empty());
    let mut e = engine();
    let echo = encode_instance(&inst("echo", "r1", &[("from", "A"), ("to", "B")]));
    let mut events: Vec<EngineAction> = loaded
        .iter()
        .map(|i| action("HOMERULES/command/functions/push", encode_instance(i)))
        .collect();
    events.push(action("HOMERULES/command/functions/push", echo));
    events.push(action("A", b("x")));
    let (_, outputs) = run_actions(&mut e, Memory::new(), &events);
    assert_eq!(outputs.len(), 2);
    assert_eq!(outputs[1].effects.len(), 1);
    assert_eq!(outputs[1].effects[0].topic, b("B"));
}

#[test]
fn memory_set_get_and_overwrite() {
    let mut m = Memory::new();
    assert_eq!(m.get(&b("a")), None);
    m.set(b("a"), b("1"));
    m.set(b("b"), b("2"));
    m.set(b("a"), b("3"));
    assert_eq!(m.len(), 2);
    assert_eq!(m.get(&b("a")), Some(b("3")));
    assert_eq!(m.get(&b("b")), Some(b("2")));
    // overwrite keeps insertion order
    assert_eq!(m.entries()[0].0, b("a"));
    assert_eq!(m.entries()[1].0, b("b"));
}

#[test]
fn memory_from_entries_later_pairs_override() {
    let m = Memory::from_entries(vec![(b("k"), b("old")), (b("x"), b("1")), (b("k"), b("new"))]);
    assert_eq!(m.len(), 2);
    assert_eq!(m.get(&b("k")), Some(b("new")));
    assert_eq!(m.get(&b("x")), Some(b("1")));
}

#[test]
fn memory_duplicate_is_equal() {
    let mut m = Memory::new();
    m.set(b("a"), b("1"));
    let d = m.duplicate();
    assert_eq!(d.get(&b("a")), Some(b("1")));
    assert_eq!(d.len(), 1);
}

#[test]
fn ruleset_push_replace_and_remove() {
    let mut rs = RuleSet::new();
    rs.push_replace(inst("echo", "r1", &[]));
    rs.push_replace(inst("echo", "r2", &[]));
    rs.push_replace(inst("save_value", "r1", &[]));
    assert_eq!(rs.len(), 2);
    assert_eq!(rs.instances()[0].name, b("save_value"));
    assert_eq!(rs.instances()[0].id, b("r1"));
    assert!(rs.remove_id(&b("r1")));
    assert!(!rs.remove_id(&b("r1")));
    assert_eq!(rs.len(), 1);
    assert_eq!(rs.instances()[0].id, b("r2"));
}
