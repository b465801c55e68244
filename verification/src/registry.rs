//! The subscription registry: allocates process-unique ids and tracks the
//! running task of every live subscription.
//!
//! An entry exists for an id exactly while the task for that id is believed
//! running. Two writers race on an entry: explicit cancellation, and the
//! task itself deregistering on natural termination; both paths are no-ops
//! when the entry is already gone. The surrounding runtime guards one
//! registry value with a lock, so each operation here is one short critical
//! section over plain data.

use vstd::prelude::*;

use vstd::seq_lib::group_seq_properties;

verus! {

/// Declares tokio's one-shot sender, the cooperative stop signal handed to
/// a running task. Nothing of it is read here; it is carried and handed
/// back for teardown.
#[verifier::external_type_specification]
#[verifier::external_body]
#[verifier::reject_recursive_types(T)]
pub struct ExOneshotSender<T>(tokio::sync::oneshot::Sender<T>);

/// Declares the error a join can end with; it rides along with the join
/// handle's declaration and is never read here.
#[verifier::external_type_specification]
#[verifier::external_body]
pub struct ExJoinError(tokio::task::JoinError);

/// Declares tokio's task join handle. Nothing of it is read here; it is
/// carried and handed back for the forced interrupt and the final join.
#[verifier::external_type_specification]
#[verifier::external_body]
#[verifier::reject_recursive_types(T)]
pub struct ExJoinHandle<T>(tokio::task::JoinHandle<T>);

/// A running subscription's controls: the cooperative stop signal and the
/// handle of its background task.
pub struct SubscriptionTask {
    stop_tx: tokio::sync::oneshot::Sender<()>,
    handle: tokio::task::JoinHandle<()>,
}

impl SubscriptionTask {
    /// Wraps the controls of a task that is already running.
    pub fn new(stop_tx: tokio::sync::oneshot::Sender<()>, handle: tokio::task::JoinHandle<()>) -> Self {
        SubscriptionTask { stop_tx, handle }
    }

    /// Hands the controls back out for the two-phase stop: signal, force,
    /// then join — which only the surrounding runtime can perform.
    pub fn into_parts(self) -> (tokio::sync::oneshot::Sender<()>, tokio::task::JoinHandle<()>) {
        let SubscriptionTask { stop_tx, handle } = self;
        (stop_tx, handle)
    }
}

/// The authoritative registry of live subscriptions.
pub struct SubscriptionManager {
    next_id: u64,
    tasks: Vec<(u64, SubscriptionTask)>,
}

impl SubscriptionManager {
    /// The next id to hand out.
    pub closed spec fn spec_next_id(&self) -> u64 {
        self.next_id
    }

    /// The registered ids, in registration order.
    pub closed spec fn id_seq(&self) -> Seq<u64> {
        Seq::new(self.tasks@.len(), |i: int| self.tasks@[i].0)
    }

    /// Whether an entry exists for `id`.
    pub open spec fn spec_contains(&self, id: u64) -> bool {
        self.id_seq().contains(id)
    }

    /// Registry invariant: registered ids are pairwise distinct and every
    /// one of them was handed out before `next_id`.
    pub open spec fn wf(&self) -> bool {
        &&& forall|i: int, j: int|
            0 <= i < j < self.id_seq().len() ==> #[trigger] self.id_seq()[i]
                != #[trigger] self.id_seq()[j]
        &&& forall|i: int| 0 <= i < self.id_seq().len() ==> #[trigger] self.id_seq()[i] < self.spec_next_id()
    }

    /// An empty registry; the first id handed out is 1.
    pub fn new() -> (r: Self)
        ensures
            r.wf(),
            r.spec_next_id() == 1,
            r.id_seq() == Seq::<u64>::empty(),
    {
        let r = SubscriptionManager { next_id: 1, tasks: Vec::new() };
        proof {
            assert(r.id_seq() =~= Seq::<u64>::empty());
        }
        r
    }

    /// The id the next allocation will return.
    pub fn peek_next_id(&self) -> (r: u64)
        ensures
            r == self.spec_next_id(),
    {
        self.next_id
    }

    /// Whether an entry exists for `id`.
    pub fn is_registered(&self, subscription_id: u64) -> (r: bool)
        ensures
            r == self.spec_contains(subscription_id),
    {
        let mut i: usize = 0;
        while i < self.tasks.len()
            invariant
                i <= self.tasks@.len(),
                forall|l: int| 0 <= l < i ==> #[trigger] self.id_seq()[l] != subscription_id,
            decreases self.tasks@.len() - i,
        {
            if self.tasks[i].0 == subscription_id {
                proof {
                    assert(self.id_seq()[i as int] == subscription_id);
                }
                return true;
            }
            i += 1;
        }
        proof {
            if self.spec_contains(subscription_id) {
                let l = choose|l: int|
                    0 <= l < self.id_seq().len() && self.id_seq()[l] == subscription_id;
                assert(self.id_seq()[l] != subscription_id);
            }
        }
        false
    }

    /// Returns a strictly increasing, never-reused id: the value returned is
    /// the current counter, the counter advances by one, and the value is
    /// not registered to anyone.
    pub fn allocate_id(&mut self) -> (id: u64)
        requires
            old(self).wf(),
            old(self).spec_next_id() < u64::MAX,
        ensures
            final(self).wf(),
            id == old(self).spec_next_id(),
            final(self).spec_next_id() == id + 1,
            final(self).id_seq() == old(self).id_seq(),
            !old(self).spec_contains(id),
            !final(self).spec_contains(id),
    {
        let id = self.next_id;
        self.next_id = self.next_id + 1;
        proof {
            assert(final(self).id_seq() =~= old(self).id_seq());
            if old(self).spec_contains(id) {
                let i = choose|i: int|
                    0 <= i < old(self).id_seq().len() && old(self).id_seq()[i] == id;
                assert(old(self).id_seq()[i] < id);
            }
        }
        id
    }

    /// Registers the running task of a freshly allocated id.
    pub fn register(&mut self, subscription_id: u64, task: SubscriptionTask)
        requires
            old(self).wf(),
            subscription_id < old(self).spec_next_id(),
            !old(self).spec_contains(subscription_id),
        ensures
            final(self).wf(),
            final(self).spec_next_id() == old(self).spec_next_id(),
            final(self).id_seq() == old(self).id_seq() + seq![subscription_id],
    {
        self.tasks.push((subscription_id, task));
        proof {
            assert(final(self).id_seq() =~= old(self).id_seq() + seq![subscription_id]);
            broadcast use group_seq_properties;

            assert forall|i: int, j: int|
                0 <= i < j < final(self).id_seq().len() implies #[trigger] final(self).id_seq()[i]
                != #[trigger] final(self).id_seq()[j] by {
                if j < old(self).id_seq().len() {
                } else {
                    assert(final(self).id_seq()[j] == subscription_id);
                    assert(final(self).id_seq()[i] == old(self).id_seq()[i]);
                    if old(self).id_seq()[i] == subscription_id {
                        assert(old(self).id_seq().contains(subscription_id));
                    }
                }
            }
        }
    }

    /// Removes the entry for `id` on the task's own natural termination; a
    /// no-op when the entry is already gone.
    pub fn complete(&mut self, subscription_id: u64)
        requires
            old(self).wf(),
        ensures
            final(self).wf(),
            final(self).spec_next_id() == old(self).spec_next_id(),
            !final(self).spec_contains(subscription_id),
            forall|id: u64|
                id != subscription_id ==> (final(self).spec_contains(id) == old(
                    self,
                ).spec_contains(id)),
    {
        let removed = self.cancel(subscription_id);
        proof {
            let _ = removed;
        }
    }

    /// Removes and returns the entry for `id`: `Some` exactly when the id is
    /// registered, `None`, with nothing changed, when it is unknown — so a
    /// second cancellation of the same id returns nothing and has no effect.
    pub fn cancel(&mut self, subscription_id: u64) -> (r: Option<SubscriptionTask>)
        requires
            old(self).wf(),
        ensures
            final(self).wf(),
            final(self).spec_next_id() == old(self).spec_next_id(),
            r is Some <==> old(self).spec_contains(subscription_id),
            !final(self).spec_contains(subscription_id),
            forall|id: u64|
                id != subscription_id ==> (final(self).spec_contains(id) == old(
                    self,
                ).spec_contains(id)),
    {
        let ghost old_ids = self.id_seq();
        let mut i: usize = 0;
        while i < self.tasks.len()
            invariant
                old(self).wf(),
                self == old(self),
                old_ids == self.id_seq(),
                i <= self.tasks@.len(),
                forall|l: int| 0 <= l < i ==> #[trigger] old_ids[l] != subscription_id,
            decreases self.tasks@.len() - i,
        {
            if self.tasks[i].0 == subscription_id {
                let ghost pre = self.tasks@;
                let ghost pre_ids = self.id_seq();
                let (_, task) = self.tasks.remove(i);
                proof {
                    assert(pre[i as int].0 == subscription_id);
                    assert(pre_ids[i as int] == subscription_id);
                    assert(pre_ids.contains(subscription_id));
                    assert(self.tasks@ =~= pre.subrange(0, i as int) + pre.subrange(
                        i + 1,
                        pre.len() as int,
                    ));
                    assert(self.id_seq() =~= pre_ids.subrange(0, i as int) + pre_ids.subrange(
                        i + 1,
                        pre_ids.len() as int,
                    ));
                    lemma_remove_keeps_distinct(pre_ids, self.id_seq(), i as int);
                    assert forall|l: int|
                        0 <= l < self.id_seq().len() implies #[trigger] self.id_seq()[l]
                        < self.spec_next_id() by {
                        if l < i {
                            assert(self.id_seq()[l] == pre_ids[l]);
                        } else {
                            assert(self.id_seq()[l] == pre_ids[l + 1]);
                        }
                    }
                }
                return Some(task);
            }
            i += 1;
        }
        proof {
            if old(self).spec_contains(subscription_id) {
                let l = choose|l: int| 0 <= l < old_ids.len() && old_ids[l] == subscription_id;
                assert(old_ids[l] != subscription_id);
            }
        }
        None
    }

    /// Drains the whole registry at teardown: every task's controls come
    /// back out, in registration order, and no entry stays behind.
    pub fn shutdown(&mut self) -> (r: Vec<SubscriptionTask>)
        requires
            old(self).wf(),
        ensures
            final(self).wf(),
            final(self).spec_next_id() == old(self).spec_next_id(),
            final(self).id_seq() == Seq::<u64>::empty(),
            r@.len() == old(self).id_seq().len(),
    {
        let mut drained: Vec<SubscriptionTask> = Vec::new();
        let ghost n = self.tasks@.len();
        while self.tasks.len() > 0
            invariant
                old(self).wf(),
                self.spec_next_id() == old(self).spec_next_id(),
                drained@.len() + self.tasks@.len() == n,
                n == old(self).id_seq().len(),
                forall|i: int, j: int|
                    0 <= i < j < self.id_seq().len() ==> #[trigger] self.id_seq()[i]
                        != #[trigger] self.id_seq()[j],
                forall|i: int|
                    0 <= i < self.id_seq().len() ==> #[trigger] self.id_seq()[i]
                        < self.spec_next_id(),
            decreases self.tasks@.len(),
        {
            let ghost pre = self.tasks@;
            let ghost pre_ids = self.id_seq();
            let (_, task) = self.tasks.remove(0);
            proof {
                assert(self.tasks@ =~= pre.subrange(1, pre.len() as int));
                assert(self.id_seq() =~= pre_ids.subrange(1, pre_ids.len() as int));
                assert forall|i: int, j: int|
                    0 <= i < j < self.id_seq().len() implies #[trigger] self.id_seq()[i]
                    != #[trigger] self.id_seq()[j] by {
                    assert(self.id_seq()[i] == pre_ids[i + 1]);
                    assert(self.id_seq()[j] == pre_ids[j + 1]);
                    assert(pre_ids[i + 1] != pre_ids[j + 1]);
                }
                assert forall|i: int|
                    0 <= i < self.id_seq().len() implies #[trigger] self.id_seq()[i]
                    < self.spec_next_id() by {
                    assert(self.id_seq()[i] == pre_ids[i + 1]);
                    assert(pre_ids[i + 1] < self.spec_next_id());
                }
            }
            drained.push(task);
        }
        proof {
            assert(self.id_seq() =~= Seq::<u64>::empty());
        }
        drained
    }
}

proof fn lemma_remove_keeps_distinct(old_ids: Seq<u64>, new_ids: Seq<u64>, at: int)
    requires
        0 <= at < old_ids.len(),
        new_ids =~= old_ids.subrange(0, at) + old_ids.subrange(at + 1, old_ids.len() as int),
        forall|i: int, j: int|
            0 <= i < j < old_ids.len() ==> #[trigger] old_ids[i] != #[trigger] old_ids[j],
    ensures
        forall|i: int, j: int|
            0 <= i < j < new_ids.len() ==> #[trigger] new_ids[i] != #[trigger] new_ids[j],
        !new_ids.contains(old_ids[at]),
        forall|x: u64| x != old_ids[at] ==> (new_ids.contains(x) == old_ids.contains(x)),
{
    assert forall|i: int, j: int|
        0 <= i < j < new_ids.len() implies #[trigger] new_ids[i] != #[trigger] new_ids[j] by {
        let oi = if i < at {
            i
        } else {
            i + 1
        };
        let oj = if j < at {
            j
        } else {
            j + 1
        };
        assert(new_ids[i] == old_ids[oi]);
        assert(new_ids[j] == old_ids[oj]);
    }
    if new_ids.contains(old_ids[at]) {
        let i = choose|i: int| 0 <= i < new_ids.len() && new_ids[i] == old_ids[at];
        let oi = if i < at {
            i
        } else {
            i + 1
        };
        assert(new_ids[i] == old_ids[oi]);
        assert(old_ids[oi] != old_ids[at]);
    }
    assert forall|x: u64| x != old_ids[at] implies (new_ids.contains(x) == old_ids.contains(
        x,
    )) by {
        if old_ids.contains(x) {
            let i = choose|i: int| 0 <= i < old_ids.len() && old_ids[i] == x;
            let ni = if i < at {
                i
            } else {
                i - 1
            };
            assert(i != at);
            assert(new_ids[ni] == old_ids[i]);
            assert(new_ids.contains(x));
        }
        if new_ids.contains(x) {
            let i = choose|i: int| 0 <= i < new_ids.len() && new_ids[i] == x;
            let oi = if i < at {
                i
            } else {
                i + 1
            };
            assert(new_ids[i] == old_ids[oi]);
            assert(old_ids.contains(x));
        }
    }
}

/// The id handed out by the k-th allocation after the counter stood at
/// `n0`: each allocation returns the counter and advances it by one.
pub open spec fn allocated_id(n0: u64, k: nat) -> int {
    n0 + k
}

/// Law: however many allocations run, no id repeats — two different
/// allocations, counted from the same starting counter, always yield
/// distinct values, and later allocations yield larger ones.
pub proof fn lemma_allocate_ids_distinct(n0: u64, k1: nat, k2: nat)
    requires
        k1 < k2,
    ensures
        allocated_id(n0, k1) != allocated_id(n0, k2),
        allocated_id(n0, k1) < allocated_id(n0, k2),
{
}

/// Law: cancellation is idempotent — once an id's entry is removed from the
/// registered set, removing it again finds nothing.
pub proof fn lemma_cancel_idempotent(ids: Set<u64>, id: u64)
    ensures
        !ids.remove(id).contains(id),
{
}

} // verus!
