//! The dynamic rule program: an ordered list of rule instances, each a named,
//! parameterized, uniquely-identified reference to a capability. The list is
//! loaded at startup, mutated at run time through control events, and
//! persisted at shutdown. Order is a public contract: rules execute in the
//! order they were loaded or pushed.

use vstd::prelude::*;

use crate::memory::pairs_view;

verus! {

/// One active rule: a reference to a capability (`name`), a unique `id`, and
/// the parameter bundle handed to the capability on every invocation.
pub struct RuleInstance {
    /// The capability this instance refers to; resolved in the registry on
    /// every step, and skipped while unresolved.
    pub name: Vec<u8>,
    /// Unique within the active rule set; pushing an instance with an
    /// existing id replaces that instance in place.
    pub id: Vec<u8>,
    /// Key/value parameters, kept in their stored order.
    pub params: Vec<(Vec<u8>, Vec<u8>)>,
}

/// The mathematical value of a [`RuleInstance`].
#[verifier::ext_equal]
pub ghost struct InstView {
    pub name: Seq<u8>,
    pub id: Seq<u8>,
    pub params: Seq<(Seq<u8>, Seq<u8>)>,
}

impl View for RuleInstance {
    type V = InstView;

    open spec fn view(&self) -> InstView {
        InstView { name: self.name@, id: self.id@, params: pairs_view(self.params@) }
    }
}

impl RuleInstance {
    /// Builds an instance from its parts.
    pub fn new(name: Vec<u8>, id: Vec<u8>, params: Vec<(Vec<u8>, Vec<u8>)>) -> (r: RuleInstance)
        ensures
            r@ == (InstView { name: name@, id: id@, params: pairs_view(params@) }),
    {
        RuleInstance { name, id, params }
    }
}

/// The mathematical value of a list of rule instances.
pub open spec fn rules_view(s: Seq<RuleInstance>) -> Seq<InstView> {
    s.map_values(|r: RuleInstance| r@)
}

/// True iff no rule id occurs twice.
pub open spec fn ids_unique(s: Seq<InstView>) -> bool {
    forall|i: int, j: int| 0 <= i < j < s.len() ==> s[i].id != s[j].id
}

/// The list with `inst` pushed: the first instance with the same id is
/// replaced in place, keeping its position; otherwise `inst` is appended.
pub open spec fn rules_store(s: Seq<InstView>, inst: InstView) -> Seq<InstView>
    decreases s.len(),
{
    if s.len() == 0 {
        seq![inst]
    } else if s[0].id == inst.id {
        seq![inst] + s.skip(1)
    } else {
        seq![s[0]] + rules_store(s.skip(1), inst)
    }
}

/// The list with the first instance whose id is `id` removed; unchanged when
/// no instance has that id.
pub open spec fn rules_drop(s: Seq<InstView>, id: Seq<u8>) -> Seq<InstView>
    decreases s.len(),
{
    if s.len() == 0 {
        s
    } else if s[0].id == id {
        s.skip(1)
    } else {
        seq![s[0]] + rules_drop(s.skip(1), id)
    }
}

/// When `id` first occurs at index `j`, pushing is an update at `j`.
pub proof fn lemma_rules_store_is_update(s: Seq<InstView>, inst: InstView, j: int)
    requires
        0 <= j < s.len(),
        s[j].id == inst.id,
        forall|i: int| 0 <= i < j ==> s[i].id != inst.id,
    ensures
        rules_store(s, inst) == s.update(j, inst),
    decreases s.len(),
{
    if j == 0 {
        assert(rules_store(s, inst) =~= s.update(0, inst));
    } else {
        lemma_rules_store_is_update(s.skip(1), inst, j - 1);
        assert(seq![s[0]] + s.skip(1).update(j - 1, inst) =~= s.update(j, inst));
    }
}

/// When `id` does not occur, pushing appends the instance.
pub proof fn lemma_rules_store_is_push(s: Seq<InstView>, inst: InstView)
    requires
        forall|i: int| 0 <= i < s.len() ==> s[i].id != inst.id,
    ensures
        rules_store(s, inst) == s.push(inst),
    decreases s.len(),
{
    if s.len() == 0 {
        assert(rules_store(s, inst) =~= s.push(inst));
    } else {
        lemma_rules_store_is_push(s.skip(1), inst);
        assert(seq![s[0]] + s.skip(1).push(inst) =~= s.push(inst));
    }
}

/// When `id` first occurs at index `j`, dropping removes index `j`.
pub proof fn lemma_rules_drop_is_remove(s: Seq<InstView>, id: Seq<u8>, j: int)
    requires
        0 <= j < s.len(),
        s[j].id == id,
        forall|i: int| 0 <= i < j ==> s[i].id != id,
    ensures
        rules_drop(s, id) == s.remove(j),
    decreases s.len(),
{
    if j == 0 {
        assert(rules_drop(s, id) =~= s.remove(0));
    } else {
        lemma_rules_drop_is_remove(s.skip(1), id, j - 1);
        assert(seq![s[0]] + s.skip(1).remove(j - 1) =~= s.remove(j));
    }
}

/// When `id` does not occur, dropping changes nothing.
pub proof fn lemma_rules_drop_absent(s: Seq<InstView>, id: Seq<u8>)
    requires
        forall|i: int| 0 <= i < s.len() ==> s[i].id != id,
    ensures
        rules_drop(s, id) == s,
    decreases s.len(),
{
    if s.len() == 0 {
    } else {
        lemma_rules_drop_absent(s.skip(1), id);
        assert(seq![s[0]] + s.skip(1) =~= s);
    }
}

/// Every id of the pushed list is an id of the original list or the pushed
/// instance's own.
pub proof fn lemma_rules_store_no_new_id(s: Seq<InstView>, inst: InstView, other: Seq<u8>)
    requires
        other != inst.id,
        forall|i: int| 0 <= i < s.len() ==> s[i].id != other,
    ensures
        forall|i: int|
            0 <= i < rules_store(s, inst).len() ==> rules_store(s, inst)[i].id != other,
    decreases s.len(),
{
    if s.len() == 0 {
    } else if s[0].id == inst.id {
    } else {
        lemma_rules_store_no_new_id(s.skip(1), inst, other);
        let r = rules_store(s.skip(1), inst);
        let t = seq![s[0]] + r;
        assert forall|i: int| 0 <= i < t.len() implies t[i].id != other by {
            if i > 0 {
                assert(t[i] == r[i - 1]);
            }
        }
    }
}

/// Pushing never breaks id uniqueness.
pub proof fn lemma_rules_store_ids_unique(s: Seq<InstView>, inst: InstView)
    requires
        ids_unique(s),
    ensures
        ids_unique(rules_store(s, inst)),
    decreases s.len(),
{
    if s.len() == 0 {
    } else if s[0].id == inst.id {
        let t = seq![inst] + s.skip(1);
        assert forall|i: int, j: int| 0 <= i < j < t.len() implies t[i].id != t[j].id by {
            assert(t[j] == s[j]);
            if i > 0 {
                assert(t[i] == s[i]);
            }
        }
    } else {
        lemma_rules_store_ids_unique(s.skip(1), inst);
        let r = rules_store(s.skip(1), inst);
        let t = seq![s[0]] + r;
        lemma_rules_store_no_new_id(s.skip(1), inst, s[0].id);
        assert forall|i: int, j: int| 0 <= i < j < t.len() implies t[i].id != t[j].id by {
            if i > 0 {
                assert(t[i] == r[i - 1] && t[j] == r[j - 1]);
            }
        }
    }
}

/// The ordered collection of active rule instances.
pub struct RuleSet {
    /// The instances, in execution order. Well-formed rule sets (see
    /// [`RuleSet::wf`]) never hold two instances with one id.
    pub items: Vec<RuleInstance>,
}

impl View for RuleSet {
    type V = Seq<InstView>;

    open spec fn view(&self) -> Seq<InstView> {
        rules_view(self.items@)
    }
}

impl RuleSet {
    /// A rule set is well formed when no id occurs twice.
    pub open spec fn wf(&self) -> bool {
        ids_unique(self@)
    }

    /// The empty rule set.
    pub fn new() -> (r: RuleSet)
        ensures
            r@ == Seq::<InstView>::empty(),
            r.wf(),
    {
        let r = RuleSet { items: Vec::new() };
        proof {
            assert(r@ =~= Seq::<InstView>::empty());
        }
        r
    }

    /// The number of active instances.
    pub fn len(&self) -> (r: usize)
        ensures
            r == self@.len(),
    {
        self.items.len()
    }

    /// The index of the first instance whose id is `id`, if any.
    fn find_id(&self, id: &Vec<u8>) -> (r: Option<usize>)
        ensures
            match r {
                Some(j) => 0 <= j < self@.len() && self@[j as int].id == id@ && forall|i: int|
                    0 <= i < j ==> self@[i].id != id@,
                None => forall|i: int| 0 <= i < self@.len() ==> self@[i].id != id@,
            },
    {
        let n = self.items.len();
        let mut i: usize = 0;
        while i < n
            invariant
                0 <= i <= n,
                forall|j: int| 0 <= j < i ==> self@[j].id != id@,
            decreases n - i,
        {
            let inst = &self.items[i];
            proof {
                assert(self@[i as int] == inst@);
            }
            if crate::bytestr::bytes_eq(&inst.id, id) {
                return Some(i);
            }
            i += 1;
        }
        None
    }

    /// Pushes `inst`: replaces the first instance with the same id in place,
    /// keeping its position, or appends `inst` when its id is new.
    pub fn push_replace(&mut self, inst: RuleInstance)
        requires
            old(self).wf(),
        ensures
            final(self).wf(),
            final(self)@ == rules_store(old(self)@, inst@),
    {
        let ghost s = self@;
        proof {
            lemma_rules_store_ids_unique(s, inst@);
        }
        match self.find_id(&inst.id) {
            Some(j) => {
                proof {
                    lemma_rules_store_is_update(s, inst@, j as int);
                }
                self.items.set(j, inst);
                proof {
                    assert(self@ =~= s.update(j as int, inst@));
                }
            },
            None => {
                proof {
                    lemma_rules_store_is_push(s, inst@);
                }
                self.items.push(inst);
                proof {
                    assert(self@ =~= s.push(inst@));
                }
            },
        }
    }

    /// Removes the instance whose id is `id`; returns whether one was there.
    pub fn remove_id(&mut self, id: &Vec<u8>) -> (changed: bool)
        requires
            old(self).wf(),
        ensures
            final(self).wf(),
            final(self)@ == rules_drop(old(self)@, id@),
            changed == exists|i: int| 0 <= i < old(self)@.len() && old(self)@[i].id == id@,
    {
        let ghost s = self@;
        match self.find_id(id) {
            Some(j) => {
                proof {
                    lemma_rules_drop_is_remove(s, id@, j as int);
                }
                self.items.remove(j);
                proof {
                    assert(self@ =~= s.remove(j as int));
                    assert(ids_unique(s.remove(j as int))) by {
                        assert forall|a: int, b: int|
                            0 <= a < b < s.remove(j as int).len() implies s.remove(j as int)[a].id
                            != s.remove(j as int)[b].id by {
                            let sa = if a < j {
                                a
                            } else {
                                a + 1
                            };
                            let sb = if b < j {
                                b
                            } else {
                                b + 1
                            };
                            assert(s.remove(j as int)[a] == s[sa]);
                            assert(s.remove(j as int)[b] == s[sb]);
                        }
                    }
                }
                true
            },
            None => {
                proof {
                    lemma_rules_drop_absent(s, id@);
                }
                false
            },
        }
    }

    /// A read-only look at the instances in execution order.
    pub fn instances(&self) -> (r: &Vec<RuleInstance>)
        ensures
            rules_view(r@) == self@,
    {
        &self.items
    }
}

} // verus!
