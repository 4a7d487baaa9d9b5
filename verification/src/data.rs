//! The runtime's message types: inbound events (actions), outbound messages
//! (effects), and the result of one engine step.

use vstd::prelude::*;

verus! {

/// An inbound event: a message received from a producer (the bus listener,
/// the periodic ticker, the rule-set loader, or a manual injector).
pub struct EngineAction {
    /// The topic the message arrived on; never empty for bus traffic.
    pub topic: Vec<u8>,
    /// The message body; opaque to the runtime.
    pub payload: Vec<u8>,
    /// Milliseconds since the epoch at which the event was produced.
    pub timestamp: i64,
}

/// The mathematical value of an [`EngineAction`].
#[verifier::ext_equal]
pub ghost struct ActionView {
    pub topic: Seq<u8>,
    pub payload: Seq<u8>,
    pub timestamp: int,
}

impl View for EngineAction {
    type V = ActionView;

    open spec fn view(&self) -> ActionView {
        ActionView { topic: self.topic@, payload: self.payload@, timestamp: self.timestamp as int }
    }
}

impl EngineAction {
    /// Builds an event from its parts.
    pub fn new(topic: Vec<u8>, payload: Vec<u8>, timestamp: i64) -> (r: EngineAction)
        ensures
            r@.topic == topic@,
            r@.payload == payload@,
            r@.timestamp == timestamp as int,
    {
        EngineAction { topic, payload, timestamp }
    }
}

/// An outbound message emitted by a rule and republished on the bus.
pub struct Effect {
    /// The topic to publish on.
    pub topic: Vec<u8>,
    /// The message body, forwarded unchanged downstream.
    pub payload: Vec<u8>,
    /// The quality-of-service level requested for publication.
    pub qos: u8,
}

/// The mathematical value of an [`Effect`].
#[verifier::ext_equal]
pub ghost struct EffectView {
    pub topic: Seq<u8>,
    pub payload: Seq<u8>,
    pub qos: u8,
}

impl View for Effect {
    type V = EffectView;

    open spec fn view(&self) -> EffectView {
        EffectView { topic: self.topic@, payload: self.payload@, qos: self.qos }
    }
}

impl Effect {
    /// Builds an effect from its parts.
    pub fn new(topic: Vec<u8>, payload: Vec<u8>, qos: u8) -> (r: Effect)
        ensures
            r@.topic == topic@,
            r@.payload == payload@,
            r@.qos == qos,
    {
        Effect { topic, payload, qos }
    }

    /// A field-for-field copy.
    pub fn duplicate(&self) -> (r: Effect)
        ensures
            r@ == self@,
    {
        let mut topic: Vec<u8> = Vec::new();
        crate::bytestr::push_bytes(&mut topic, &self.topic);
        let mut payload: Vec<u8> = Vec::new();
        crate::bytestr::push_bytes(&mut payload, &self.payload);
        proof {
            assert(Seq::<u8>::empty() + self.topic@ =~= self.topic@);
            assert(Seq::<u8>::empty() + self.payload@ =~= self.payload@);
        }
        Effect { topic, payload, qos: self.qos }
    }
}

/// The mathematical value of a sequence of effects.
pub open spec fn effects_view(s: Seq<Effect>) -> Seq<EffectView> {
    s.map_values(|e: Effect| e@)
}

} // verus!
