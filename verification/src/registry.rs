//! The capability registry: the fixed, compile-time table mapping a rule-type
//! name to the executable behaviour a rule instance refers to. Registration
//! happens once at process start; an unknown name in a rule instance is never
//! fatal, the instance is simply skipped for the step.
//!
//! Device-specific rule behaviours (protocol translation for particular
//! hardware) are external collaborators and stay outside this crate; the
//! built-in capabilities here are the generic transforms the runtime itself
//! ships.

use vstd::prelude::*;

use crate::bytestr::bytes_eq;
use crate::data::{Effect, EffectView, EngineAction, ActionView, effects_view};
use crate::memory::{Memory, kv_lookup, kv_store, pairs_view};

verus! {

/// The parameter key `from`: the topic a forwarding rule listens on.
pub open spec fn key_from() -> Seq<u8> {
    seq![102u8, 114, 111, 109]
}

/// The parameter key `to`: the topic a forwarding rule republishes on.
pub open spec fn key_to() -> Seq<u8> {
    seq![116u8, 111]
}

/// The parameter key `topic`: the topic a storing rule listens on.
pub open spec fn key_topic() -> Seq<u8> {
    seq![116u8, 111, 112, 105, 99]
}

/// The parameter key `key`: the memory key a storing rule writes.
pub open spec fn key_key() -> Seq<u8> {
    seq![107u8, 101, 121]
}

/// The parameter key `from` as a byte string.
pub fn key_from_vec() -> (r: Vec<u8>)
    ensures
        r@ == key_from(),
{
    let r: Vec<u8> = vec![102u8, 114, 111, 109];
    proof {
        assert(r@ =~= key_from());
    }
    r
}

/// The parameter key `to` as a byte string.
pub fn key_to_vec() -> (r: Vec<u8>)
    ensures
        r@ == key_to(),
{
    let r: Vec<u8> = vec![116u8, 111];
    proof {
        assert(r@ =~= key_to());
    }
    r
}

/// The parameter key `topic` as a byte string.
pub fn key_topic_vec() -> (r: Vec<u8>)
    ensures
        r@ == key_topic(),
{
    let r: Vec<u8> = vec![116u8, 111, 112, 105, 99];
    proof {
        assert(r@ =~= key_topic());
    }
    r
}

/// The parameter key `key` as a byte string.
pub fn key_key_vec() -> (r: Vec<u8>)
    ensures
        r@ == key_key(),
{
    let r: Vec<u8> = vec![107u8, 101, 121];
    proof {
        assert(r@ =~= key_key());
    }
    r
}

/// The value bound to `key` in a parameter bundle, as a fresh copy.
pub fn params_get(params: &Vec<(Vec<u8>, Vec<u8>)>, key: &Vec<u8>) -> (r: Option<Vec<u8>>)
    ensures
        match r {
            Some(v) => kv_lookup(pairs_view(params@), key@) == Some(v@),
            None => kv_lookup(pairs_view(params@), key@) is None,
        },
{
    let ghost s = pairs_view(params@);
    let n = params.len();
    let mut i: usize = 0;
    proof {
        assert(s.skip(0) =~= s);
    }
    while i < n
        invariant
            0 <= i <= n,
            kv_lookup(s, key@) == kv_lookup(s.skip(i as int), key@),
        decreases n - i,
    {
        proof {
            assert(s.skip(i as int)[0] == s[i as int]);
            assert(s.skip(i as int).skip(1) =~= s.skip(i + 1));
        }
        let pair = &params[i];
        proof {
            assert(s[i as int] == (pair.0@, pair.1@));
        }
        if bytes_eq(&pair.0, key) {
            let mut out: Vec<u8> = Vec::new();
            crate::bytestr::push_bytes(&mut out, &pair.1);
            proof {
                assert(Seq::<u8>::empty() + pair.1@ =~= pair.1@);
            }
            return Some(out);
        }
        i += 1;
    }
    proof {
        assert(s.skip(n as int) =~= Seq::<(Seq<u8>, Seq<u8>)>::empty());
    }
    None
}

/// A built-in capability: the pure transform a rule instance invokes on each
/// step, over the step's memory, the incoming event and the instance's
/// parameters.
#[derive(Clone, Copy)]
pub enum Capability {
    /// Republishes the payload of every event on topic `from` onto topic
    /// `to`, leaving memory untouched. A rule with incomplete parameters
    /// contributes nothing.
    Forward,
    /// Stores the payload of every event on topic `topic` under the memory
    /// key `key`, emitting nothing. A rule with incomplete parameters
    /// contributes nothing.
    SaveValue,
}

/// The memory after one invocation of `cap`.
pub open spec fn apply_mem_spec(
    cap: Capability,
    mem: Seq<(Seq<u8>, Seq<u8>)>,
    a: ActionView,
    params: Seq<(Seq<u8>, Seq<u8>)>,
) -> Seq<(Seq<u8>, Seq<u8>)> {
    match cap {
        Capability::Forward => mem,
        Capability::SaveValue => match (kv_lookup(params, key_topic()), kv_lookup(
            params,
            key_key(),
        )) {
            (Some(t), Some(k)) => if t == a.topic {
                kv_store(mem, k, a.payload)
            } else {
                mem
            },
            _ => mem,
        },
    }
}

/// The effects of one invocation of `cap`.
pub open spec fn apply_eff_spec(
    cap: Capability,
    a: ActionView,
    params: Seq<(Seq<u8>, Seq<u8>)>,
) -> Seq<EffectView> {
    match cap {
        Capability::Forward => match (kv_lookup(params, key_from()), kv_lookup(
            params,
            key_to(),
        )) {
            (Some(f), Some(t)) => if f == a.topic {
                seq![EffectView { topic: t, payload: a.payload, qos: 0 }]
            } else {
                Seq::<EffectView>::empty()
            },
            _ => Seq::<EffectView>::empty(),
        },
        Capability::SaveValue => Seq::<EffectView>::empty(),
    }
}

impl Capability {
    /// Runs the capability for one step: reads and writes `mem` through a
    /// scoped borrow that ends with the call, and returns the effects
    /// emitted, in order.
    pub fn apply(self, mem: &mut Memory, action: &EngineAction, params: &Vec<(Vec<u8>, Vec<u8>)>)
        -> (eff: Vec<Effect>)
        requires
            old(mem).wf(),
        ensures
            final(mem).wf(),
            final(mem)@ == apply_mem_spec(self, old(mem)@, action@, pairs_view(params@)),
            effects_view(eff@) == apply_eff_spec(self, action@, pairs_view(params@)),
    {
        match self {
            Capability::Forward => {
                let mut eff: Vec<Effect> = Vec::new();
                let from = params_get(params, &key_from_vec());
                let to = params_get(params, &key_to_vec());
                match (from, to) {
                    (Some(f), Some(t)) => {
                        if bytes_eq(&f, &action.topic) {
                            let mut payload: Vec<u8> = Vec::new();
                            crate::bytestr::push_bytes(&mut payload, &action.payload);
                            proof {
                                assert(Seq::<u8>::empty() + action.payload@ =~= action.payload@);
                            }
                            eff.push(Effect { topic: t, payload, qos: 0 });
                        }
                    },
                    _ => {},
                }
                proof {
                    assert(effects_view(eff@) =~= apply_eff_spec(
                        self,
                        action@,
                        pairs_view(params@),
                    ));
                }
                eff
            },
            Capability::SaveValue => {
                let topic = params_get(params, &key_topic_vec());
                let key = params_get(params, &key_key_vec());
                match (topic, key) {
                    (Some(t), Some(k)) => {
                        if bytes_eq(&t, &action.topic) {
                            let mut payload: Vec<u8> = Vec::new();
                            crate::bytestr::push_bytes(&mut payload, &action.payload);
                            proof {
                                assert(Seq::<u8>::empty() + action.payload@ =~= action.payload@);
                            }
                            mem.set(k, payload);
                        }
                    },
                    _ => {},
                }
                let eff: Vec<Effect> = Vec::new();
                proof {
                    assert(effects_view(eff@) =~= Seq::<EffectView>::empty());
                }
                eff
            },
        }
    }
}

/// The name `echo` of the built-in forwarding capability.
pub open spec fn name_echo() -> Seq<u8> {
    seq![101u8, 99, 104, 111]
}

/// The name `forward_action` of the built-in forwarding capability.
pub open spec fn name_forward_action() -> Seq<u8> {
    seq![102u8, 111, 114, 119, 97, 114, 100, 95, 97, 99, 116, 105, 111, 110]
}

/// The name `save_value` of the built-in storing capability.
pub open spec fn name_save_value() -> Seq<u8> {
    seq![115u8, 97, 118, 101, 95, 118, 97, 108, 117, 101]
}

/// The capability bound to `name`: the first entry with that name, if any.
pub open spec fn reg_lookup(s: Seq<(Seq<u8>, Capability)>, name: Seq<u8>) -> Option<Capability>
    decreases s.len(),
{
    if s.len() == 0 {
        None
    } else if s[0].0 == name {
        Some(s[0].1)
    } else {
        reg_lookup(s.skip(1), name)
    }
}

/// The mathematical value of a registry entry list.
pub open spec fn reg_view(s: Seq<(Vec<u8>, Capability)>) -> Seq<(Seq<u8>, Capability)> {
    s.map_values(|p: (Vec<u8>, Capability)| (p.0@, p.1))
}

/// The static name-to-capability table.
pub struct Registry {
    /// The registered pairs, in registration order; lookups take the first
    /// entry with a matching name.
    pub entries: Vec<(Vec<u8>, Capability)>,
}

impl View for Registry {
    type V = Seq<(Seq<u8>, Capability)>;

    open spec fn view(&self) -> Seq<(Seq<u8>, Capability)> {
        reg_view(self.entries@)
    }
}

impl Registry {
    /// The empty registry.
    pub fn new() -> (r: Registry)
        ensures
            r@ == Seq::<(Seq<u8>, Capability)>::empty(),
    {
        let r = Registry { entries: Vec::new() };
        proof {
            assert(r@ =~= Seq::<(Seq<u8>, Capability)>::empty());
        }
        r
    }

    /// Registers `cap` under `name`. Meant to be called only while the table
    /// is built at process start.
    pub fn register(&mut self, name: Vec<u8>, cap: Capability)
        ensures
            final(self)@ == old(self)@.push((name@, cap)),
    {
        self.entries.push((name, cap));
        proof {
            assert(self@ =~= old(self)@.push((name@, cap)));
        }
    }

    /// The capability registered under `name`, or `None`: an unknown name is
    /// not an error, the instance naming it is skipped.
    pub fn lookup(&self, name: &Vec<u8>) -> (r: Option<Capability>)
        ensures
            r == reg_lookup(self@, name@),
    {
        let ghost s = self@;
        let n = self.entries.len();
        let mut i: usize = 0;
        proof {
            assert(s.skip(0) =~= s);
        }
        while i < n
            invariant
                0 <= i <= n,
                reg_lookup(s, name@) == reg_lookup(s.skip(i as int), name@),
            decreases n - i,
        {
            proof {
                assert(s.skip(i as int)[0] == s[i as int]);
                assert(s.skip(i as int).skip(1) =~= s.skip(i + 1));
            }
            let pair = &self.entries[i];
            proof {
                assert(s[i as int] == (pair.0@, pair.1));
            }
            if bytes_eq(&pair.0, name) {
                return Some(pair.1);
            }
            i += 1;
        }
        proof {
            assert(s.skip(n as int) =~= Seq::<(Seq<u8>, Capability)>::empty());
        }
        None
    }
}

/// The registry of every capability this crate ships: the forwarding
/// capability under `echo` and `forward_action`, and the storing capability
/// under `save_value`. Device-specific behaviours are supplied by external
/// collaborators through [`Registry::register`].
pub fn app_engine_functions() -> (r: Registry)
    ensures
        r@ == seq![
            (name_echo(), Capability::Forward),
            (name_forward_action(), Capability::Forward),
            (name_save_value(), Capability::SaveValue),
        ],
{
    let mut r = Registry::new();
    let echo: Vec<u8> = vec![101u8, 99, 104, 111];
    let fwd: Vec<u8> = vec![102u8, 111, 114, 119, 97, 114, 100, 95, 97, 99, 116, 105, 111, 110];
    let save: Vec<u8> = vec![115u8, 97, 118, 101, 95, 118, 97, 108, 117, 101];
    proof {
        assert(echo@ =~= name_echo());
        assert(fwd@ =~= name_forward_action());
        assert(save@ =~= name_save_value());
    }
    r.register(echo, Capability::Forward);
    r.register(fwd, Capability::Forward);
    r.register(save, Capability::SaveValue);
    proof {
        assert(r@ =~= seq![
            (name_echo(), Capability::Forward),
            (name_forward_action(), Capability::Forward),
            (name_save_value(), Capability::SaveValue),
        ]);
    }
    r
}

} // verus!
