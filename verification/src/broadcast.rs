//! The fan-out broadcaster: replicates the runtime loop's single stream of
//! step results into any number of independently-consumed streams. Handles
//! are created before the broadcaster runs; every item published is then
//! appended to every handle's queue, in the order received, and nothing is
//! ever dropped — a slow consumer slows the publisher, it never loses
//! items. The channel plumbing that paces real consumers lives outside the
//! crate; what each handle observes is decided, and proved, here.

use vstd::prelude::*;

use crate::engine::{StepResult, StepView};
use crate::runtime::results_view;

verus! {

/// The mathematical value of a broadcaster: one received-items sequence per
/// handle, in handle order.
pub open spec fn queues_view(s: Seq<Vec<StepResult>>) -> Seq<Seq<StepView>> {
    s.map_values(|q: Vec<StepResult>| results_view(q@))
}

/// A mutable borrow of one queue.
fn queue_mut(v: &mut Vec<Vec<StepResult>>, i: usize) -> (q: &mut Vec<StepResult>)
    requires
        i < old(v)@.len(),
    ensures
        *q == old(v)@[i as int],
        final(v)@ == old(v)@.update(i as int, *final(q)),
{
    &mut v[i]
}

/// The fan-out broadcaster.
pub struct Broadcaster {
    /// One queue per handle, in creation order.
    pub queues: Vec<Vec<StepResult>>,
}

impl View for Broadcaster {
    type V = Seq<Seq<StepView>>;

    open spec fn view(&self) -> Seq<Seq<StepView>> {
        queues_view(self.queues@)
    }
}

impl Broadcaster {
    /// A broadcaster with no handles yet.
    pub fn new() -> (r: Broadcaster)
        ensures
            r@ == Seq::<Seq<StepView>>::empty(),
    {
        let r = Broadcaster { queues: Vec::new() };
        proof {
            assert(r@ =~= Seq::<Seq<StepView>>::empty());
        }
        r
    }

    /// The number of handles created.
    pub fn handles(&self) -> (r: usize)
        ensures
            r == self@.len(),
    {
        self.queues.len()
    }

    /// Creates one more handle, empty until items are published; returns
    /// its index. Meant to be called only before the broadcaster runs.
    pub fn create(&mut self) -> (h: usize)
        ensures
            h == old(self)@.len(),
            final(self)@ == old(self)@.push(Seq::<StepView>::empty()),
    {
        let h = self.queues.len();
        self.queues.push(Vec::new());
        proof {
            assert(final(self)@ =~= old(self)@.push(Seq::<StepView>::empty())) by {
                assert forall|j: int|
                    0 <= j < final(self)@.len() implies final(self)@[j] == old(self)@.push(
                    Seq::<StepView>::empty(),
                )[j] by {
                    assert(final(self)@[j] == results_view(final(self).queues@[j]@));
                    if j < h {
                        assert(final(self).queues@[j] == old(self).queues@[j]);
                    } else {
                        assert(results_view(final(self).queues@[j]@) =~= Seq::<StepView>::empty());
                    }
                }
            }
        }
        h
    }

    /// Publishes one item: every handle's queue receives a copy, appended
    /// after everything it already holds.
    pub fn publish(&mut self, item: &StepResult)
        ensures
            final(self)@.len() == old(self)@.len(),
            forall|j: int|
                0 <= j < old(self)@.len() ==> final(self)@[j] == old(self)@[j].push(item@),
    {
        let n = self.queues.len();
        let mut i: usize = 0;
        while i < n
            invariant
                0 <= i <= n,
                n == self.queues@.len(),
                forall|j: int| 0 <= j < i ==> self@[j] == old(self)@[j].push(item@),
                forall|j: int| i <= j < n ==> self@[j] == old(self)@[j],
            decreases n - i,
        {
            let ghost before = self.queues@;
            let copy = item.duplicate();
            let q = queue_mut(&mut self.queues, i);
            let ghost qbefore = q@;
            q.push(copy);
            proof {
                assert(self.queues@[i as int]@ =~= qbefore.push(copy));
                assert(results_view(qbefore.push(copy)) =~= results_view(qbefore).push(item@)) by {
                    assert forall|m: int|
                        0 <= m < results_view(qbefore.push(copy)).len() implies results_view(
                        qbefore.push(copy),
                    )[m] == results_view(qbefore).push(item@)[m] by {
                        assert(results_view(qbefore.push(copy))[m] == qbefore.push(copy)[m]@);
                        if m < qbefore.len() {
                            assert(results_view(qbefore)[m] == qbefore[m]@);
                        }
                    }
                }
                assert(self@[i as int] == old(self)@[i as int].push(item@)) by {
                    assert(self@[i as int] == results_view(self.queues@[i as int]@));
                    assert(results_view(qbefore) == queues_view(before)[i as int]);
                }
                assert(forall|j: int|
                    0 <= j < n && j != i ==> self.queues@[j] == before[j] && self@[j]
                        == queues_view(before)[j]);
            }
            i += 1;
        }
    }

    /// Fan-out completeness: running the broadcaster over a whole item
    /// sequence appends every item, in order, to every handle created
    /// before the run.
    pub fn run(&mut self, items: &Vec<StepResult>)
        ensures
            final(self)@.len() == old(self)@.len(),
            forall|j: int|
                0 <= j < old(self)@.len() ==> final(self)@[j] == old(self)@[j] + results_view(
                    items@,
                ),
    {
        let n = items.len();
        let mut i: usize = 0;
        proof {
            assert(forall|j: int|
                0 <= j < old(self)@.len() ==> old(self)@[j] + results_view(items@).take(0) =~= old(
                    self,
                )@[j]);
        }
        while i < n
            invariant
                0 <= i <= n,
                n == items@.len(),
                self@.len() == old(self)@.len(),
                forall|j: int|
                    0 <= j < old(self)@.len() ==> self@[j] == old(self)@[j] + results_view(
                        items@,
                    ).take(i as int),
            decreases n - i,
        {
            let ghost before = self@;
            self.publish(&items[i]);
            proof {
                assert(results_view(items@)[i as int] == items@[i as int]@);
                assert forall|j: int| 0 <= j < old(self)@.len() implies self@[j] == old(self)@[j]
                    + results_view(items@).take(i as int + 1) by {
                    assert(self@[j] == before[j].push(items@[i as int]@));
                    assert(results_view(items@).take(i as int + 1) =~= results_view(
                        items@,
                    ).take(i as int).push(results_view(items@)[i as int]));
                    assert(old(self)@[j] + results_view(items@).take(i as int).push(
                        results_view(items@)[i as int],
                    ) =~= (old(self)@[j] + results_view(items@).take(i as int)).push(
                        results_view(items@)[i as int],
                    ));
                }
            }
            i += 1;
        }
        proof {
            assert(results_view(items@).take(n as int) =~= results_view(items@));
        }
    }

    /// A read-only look at what one handle has received, in order.
    pub fn received(&self, h: usize) -> (r: &Vec<StepResult>)
        requires
            h < self@.len(),
        ensures
            results_view(r@) == self@[h as int],
    {
        &self.queues[h]
    }
}

} // verus!
