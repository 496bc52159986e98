//! What the deadlock detector keeps for a thread.
use crate::seq_facts::{is_last_occurrence, lemma_has_last_occurrence};
use vstd::prelude::*;

verus! {

/// Extra data of a thread for deadlock detection.
pub struct DeadlockData {
    /// Currently owned resources (keys)
    pub(crate) resources: Vec<usize>,
    /// Set when there's a pending callstack request
    pub(crate) deadlocked: bool,
    /// The cycle to which the backtrace is to be reported
    pub(crate) report_to: Option<usize>,
    /// System thread id
    pub(crate) thread_id: usize,
}

/// What the deadlock detector knows of a thread.
#[verifier::ext_equal]
pub struct DeadlockView {
    pub resources: Seq<usize>,
    pub deadlocked: bool,
    pub report_to: Option<usize>,
    pub thread_id: usize,
}

impl View for DeadlockData {
    type V = DeadlockView;

    open(crate) spec fn view(&self) -> DeadlockView {
        DeadlockView {
            resources: self.resources@,
            deadlocked: self.deadlocked,
            report_to: self.report_to,
            thread_id: self.thread_id,
        }
    }
}

/// A record of a thread that owns nothing and is in no deadlock.
pub open spec fn no_deadlock(thread_id: usize) -> DeadlockView {
    DeadlockView { resources: Seq::empty(), deadlocked: false, report_to: None, thread_id }
}

/// Calls `thread_id::get`. Nothing is claimed of the number: it depends on the
/// thread that asks.
#[verifier::external_body]
fn current_thread_id() -> usize {
    thread_id::get()
}

/// Whether a number was handed out as the id of a thread that asked.
pub closed spec fn identified(thread_id: usize) -> bool {
    call_ensures(current_thread_id, (), thread_id)
}

/// The resources after a key has been given back: its last occurrence is
/// replaced by the last resource of all.
pub open spec fn after_release(resources: Seq<usize>, key: usize) -> Seq<usize> {
    let place = choose|place: int| is_last_occurrence(resources, key, place);
    resources.update(place, resources.last()).drop_last()
}

impl DeadlockData {
    /// The record of the thread with the given system thread id.
    pub fn for_thread(thread_id: usize) -> (data: Self)
        ensures
            data@ == no_deadlock(thread_id),
    {
        let data = DeadlockData {
            resources: Vec::new(),
            deadlocked: false,
            report_to: None,
            thread_id,
        };
        assert(data@ =~= no_deadlock(thread_id));
        data
    }

    /// The record of the calling thread, with its system thread id.
    pub fn new() -> (data: Self)
        ensures
            identified(data@.thread_id),
            data@ == no_deadlock(data@.thread_id),
    {
        DeadlockData::for_thread(current_thread_id())
    }

    /// Records that the thread has come to own a resource.
    pub(crate) fn acquire(&mut self, key: usize)
        ensures
            final(self)@ == (DeadlockView {
                resources: old(self)@.resources.push(key),
                ..old(self)@
            }),
    {
        self.resources.push(key);
    }

    /// Whether the thread owns a resource.
    pub(crate) fn owns(&self, key: usize) -> (owned: bool)
        ensures
            owned == self@.resources.contains(key),
    {
        let mut i: usize = 0;
        while i < self.resources.len()
            invariant
                i <= self.resources@.len(),
                forall|j: int| 0 <= j < i ==> self.resources@[j] != key,
            decreases self.resources@.len() - i,
        {
            if self.resources[i] == key {
                return true;
            }
            i = i + 1;
        }
        false
    }

    /// Records that the thread has given back a resource that it owns.
    pub(crate) fn release(&mut self, key: usize)
        requires
            old(self)@.resources.contains(key),
        ensures
            final(self)@ == (DeadlockView {
                resources: after_release(old(self)@.resources, key),
                ..old(self)@
            }),
    {
        let mut place: usize = self.resources.len() - 1;
        while self.resources[place] != key
            invariant
                place < self.resources@.len(),
                self@ == old(self)@,
                self@.resources.contains(key),
                forall|i: int| place < i < self.resources@.len() ==> self.resources@[i] != key,
            decreases place,
        {
            proof {
                let i = choose|i: int| 0 <= i < self.resources@.len() && self.resources@[i] == key;
                assert(i < place);
            }
            place = place - 1;
        }
        proof {
            lemma_last_occurrence(self.resources@, key, place as int);
        }
        self.resources.swap_remove(place);
    }
}

proof fn lemma_last_occurrence(resources: Seq<usize>, key: usize, place: int)
    requires
        is_last_occurrence(resources, key, place),
    ensures
        resources.contains(key),
        after_release(resources, key) == resources.update(place, resources.last()).drop_last(),
{
    let chosen = choose|place: int| is_last_occurrence(resources, key, place);
    assert(is_last_occurrence(resources, key, chosen));
    assert(chosen == place);
}

/// What is taken for the id of a thread is one that was handed out.
proof fn law_ids_are_handed_out(thread_id: usize)
    requires
        identified(thread_id),
    ensures
        call_ensures(current_thread_id, (), thread_id),
{
}

/// Giving back a resource right after taking it restores what the thread owned.
pub proof fn law_release_undoes_acquire(resources: Seq<usize>, key: usize)
    ensures
        resources.push(key).contains(key),
        after_release(resources.push(key), key) == resources,
{
    lemma_last_occurrence(resources.push(key), key, resources.len() as int);
    assert(resources.push(key).update(resources.len() as int, key).drop_last() =~= resources);
}

/// Giving back a resource takes exactly one occurrence of it away and leaves
/// every other resource with the thread.
pub proof fn law_release_takes_one(resources: Seq<usize>, key: usize)
    requires
        resources.contains(key),
    ensures
        after_release(resources, key).to_multiset() == resources.to_multiset().remove(key),
{
    broadcast use vstd::seq_lib::group_to_multiset_ensures;

    lemma_has_last_occurrence(resources, key);
    let place = choose|place: int| is_last_occurrence(resources, key, place);
    lemma_last_occurrence(resources, key, place);
    let last = resources.len() - 1;
    let front = resources.drop_last();
    assert(resources =~= front.push(resources.last()));
    if place == last {
        assert(resources.update(place, resources.last()).drop_last() =~= front);
        assert(front.to_multiset().insert(key).remove(key) =~= front.to_multiset());
    } else {
        assert(resources.update(place, resources.last()).drop_last() =~= front.update(
            place,
            resources.last(),
        ));
        let without = front.remove(place);
        assert(front =~= without.insert(place, key));
        assert(front.update(place, resources.last()) =~= without.insert(place, resources.last()));
        vstd::seq_lib::to_multiset_insert(without, place, key);
        vstd::seq_lib::to_multiset_insert(without, place, resources.last());
        assert(without.to_multiset().insert(resources.last()) =~= without.to_multiset().insert(
            key,
        ).insert(resources.last()).remove(key));
    }
}

} // verus!
