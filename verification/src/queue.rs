//! Linked lists of parked threads.
//!
//! A queue holds the places of its first and last thread in a table of thread
//! records; each record holds the place of the next.
use crate::thread_data::ThreadData;
use vstd::prelude::*;

verus! {

/// A queue of parked threads.
pub struct Queue {
    pub(crate) head: Option<usize>,
    pub(crate) tail: Option<usize>,
    /// The threads in the queue, in order.
    pub(crate) threads: Ghost<Seq<usize>>,
}

impl View for Queue {
    type V = Seq<usize>;

    open(crate) spec fn view(&self) -> Seq<usize> {
        self.threads@
    }
}

/// The thread at a place of a queue, if the queue is that long.
pub open spec fn at(queue: Seq<usize>, place: int) -> Option<usize> {
    if 0 <= place < queue.len() {
        Some(queue[place])
    } else {
        None
    }
}

impl Queue {
    /// The records link the threads of the queue in order.
    pub open(crate) spec fn linked(self, records: Seq<ThreadData>) -> bool {
        &&& self@.no_duplicates()
        &&& self.head == at(self@, 0)
        &&& self.tail == at(self@, self@.len() - 1)
        &&& forall|i: int| 0 <= i < self@.len() ==> #[trigger] self@[i] < records.len()
        &&& forall|i: int|
            0 <= i < self@.len() ==> records[#[trigger] self@[i] as int].next_in_queue == at(
                self@,
                i + 1,
            )
    }
}

/// Nothing but links differs between the records, and no link of a thread
/// outside `linked`.
pub open(crate) spec fn only_links_change(
    before: Seq<ThreadData>,
    after: Seq<ThreadData>,
    linked: Seq<usize>,
) -> bool {
    &&& before.len() == after.len()
    &&& forall|i: int| 0 <= i < before.len() ==> (#[trigger] after[i])@ == before[i]@
    &&& forall|t: usize|
        t < before.len() && !linked.contains(t) ==> (#[trigger] after[t as int]).next_in_queue
            == before[t as int].next_in_queue
}

pub(crate) proof fn lemma_linked_elsewhere(
    queue: Queue,
    before: Seq<ThreadData>,
    after: Seq<ThreadData>,
)
    requires
        queue.linked(before),
        before.len() <= after.len(),
        forall|i: int|
            0 <= i < queue@.len() ==> after[#[trigger] queue@[i] as int].next_in_queue
                == before[queue@[i] as int].next_in_queue,
    ensures
        queue.linked(after),
{
}

/// A queue stays linked where only links of other threads change.
pub(crate) proof fn lemma_disjoint_linked(
    queue: Queue,
    before: Seq<ThreadData>,
    after: Seq<ThreadData>,
    changed: Seq<usize>,
)
    requires
        queue.linked(before),
        only_links_change(before, after, changed),
        forall|t: usize| #[trigger] queue@.contains(t) ==> !changed.contains(t),
    ensures
        queue.linked(after),
{
    assert forall|i: int| 0 <= i < queue@.len() implies after[#[trigger] queue@[i] as int].next_in_queue
        == before[queue@[i] as int].next_in_queue by {
        assert(queue@.contains(queue@[i]));
    }
    lemma_linked_elsewhere(queue, before, after);
}

/// Links of threads outside both queues stay through two changes.
pub(crate) proof fn lemma_links_through(
    first: Seq<ThreadData>,
    second: Seq<ThreadData>,
    third: Seq<ThreadData>,
    changed1: Seq<usize>,
    changed2: Seq<usize>,
)
    requires
        only_links_change(first, second, changed1),
        only_links_change(second, third, changed2),
    ensures
        forall|t: usize|
            t < first.len() && !changed1.contains(t) && !changed2.contains(t) ==> (
            #[trigger] third[t as int]).next_in_queue == first[t as int].next_in_queue,
        forall|i: int| 0 <= i < first.len() ==> (#[trigger] third[i])@ == first[i]@,
{
    assert forall|t: usize|
        t < first.len() && !changed1.contains(t) && !changed2.contains(t) implies (
    #[trigger] third[t as int]).next_in_queue == first[t as int].next_in_queue by {
        assert(second[t as int].next_in_queue == first[t as int].next_in_queue);
    }
    assert forall|i: int| 0 <= i < first.len() implies (#[trigger] third[i])@ == first[i]@ by {
        assert(second[i]@ == first[i]@);
    }
}

impl Queue {
    pub fn new() -> (queue: Self)
        ensures
            queue@ == Seq::<usize>::empty(),
            forall|records: Seq<ThreadData>| queue.linked(records),
    {
        Queue { head: None, tail: None, threads: Ghost(Seq::empty()) }
    }

    /// Appends a thread.
    pub(crate) fn push_back(&mut self, records: &mut Vec<ThreadData>, thread: usize)
        requires
            old(self).linked(old(records)@),
            thread < old(records)@.len(),
            !old(self)@.contains(thread),
        ensures
            final(self).linked(final(records)@),
            final(self)@ == old(self)@.push(thread),
            only_links_change(old(records)@, final(records)@, final(self)@),
    {
        records[thread].next_in_queue = None;
        match self.tail {
            Some(tail) => {
                records[tail].next_in_queue = Some(thread);
            },
            None => {
                self.head = Some(thread);
            },
        }
        self.tail = Some(thread);
        proof {
            self.threads@ = self.threads@.push(thread);
            let before = old(self)@;
            let after = self@;
            assert(after.contains(thread)) by {
                assert(after[before.len() as int] == thread);
            }
            assert forall|t: usize| before.contains(t) implies after.contains(t) by {
                let i = choose|i: int| 0 <= i < before.len() && before[i] == t;
                assert(after[i] == t);
            }
            assert(after.no_duplicates()) by {
                assert forall|i: int, j: int|
                    0 <= i < after.len() && 0 <= j < after.len() && i != j implies after[i]
                    != after[j] by {
                    if i < before.len() {
                        assert(before.contains(before[i]));
                    }
                    if j < before.len() {
                        assert(before.contains(before[j]));
                    }
                }
            }
            assert forall|i: int| 0 <= i < after.len() implies records@[#[trigger] after[i] as int].next_in_queue
                == at(after, i + 1) by {
                if i < before.len() {
                    assert(before[i] == after[i]);
                    assert(before.contains(before[i]));
                }
            }
        }
    }

    /// Takes the thread at a place out of the queue. `previous` is the thread
    /// in front of it, if any. Returns the thread behind it.
    #[verifier::rlimit(50)]
    pub(crate) fn unlink(
        &mut self,
        records: &mut Vec<ThreadData>,
        previous: Option<usize>,
        current: usize,
        Ghost(place): Ghost<int>,
    ) -> (next: Option<usize>)
        requires
            old(self).linked(old(records)@),
            0 <= place < old(self)@.len(),
            current == old(self)@[place],
            previous == at(old(self)@, place - 1),
        ensures
            final(self).linked(final(records)@),
            final(self)@ == old(self)@.remove(place),
            next == at(old(self)@, place + 1),
            only_links_change(old(records)@, final(records)@, old(self)@),
            final(records)@[current as int].next_in_queue == old(records)@[current as int].next_in_queue,
    {
        let next = records[current].next_in_queue;
        match previous {
            Some(previous) => {
                records[previous].next_in_queue = next;
            },
            None => {
                self.head = next;
            },
        }
        if self.tail == Some(current) {
            self.tail = previous;
        }
        proof {
            self.threads@ = self.threads@.remove(place);
            let before = old(self)@;
            let after = self@;
            assert forall|i: int| 0 <= i < after.len() implies #[trigger] after[i] == (if i < place {
                before[i]
            } else {
                before[i + 1]
            }) by {}
            assert(old(self).tail == Some(before.last()));
            assert forall|i: int| 0 <= i < after.len() implies records@[#[trigger] after[i] as int].next_in_queue
                == at(after, i + 1) by {
                if i < place {
                    assert(after[i] == before[i]);
                } else {
                    assert(after[i] == before[i + 1]);
                }
            }
        }
        next
    }

    /// Moves all threads of another queue to the end of this one.
    #[verifier::rlimit(50)]
    pub(crate) fn append(&mut self, records: &mut Vec<ThreadData>, other: Queue)
        requires
            old(self).linked(old(records)@),
            other.linked(old(records)@),
            forall|t: usize| old(self)@.contains(t) ==> !other@.contains(t),
        ensures
            final(self).linked(final(records)@),
            final(self)@ == old(self)@ + other@,
            only_links_change(old(records)@, final(records)@, old(self)@),
    {
        if other.head.is_some() {
            match self.tail {
                Some(tail) => {
                    records[tail].next_in_queue = other.head;
                },
                None => {
                    self.head = other.head;
                },
            }
            self.tail = other.tail;
        }
        proof {
            self.threads@ = self.threads@ + other.threads@;
            let before = old(self)@;
            let after = self@;
            assert(after.no_duplicates()) by {
                assert forall|i: int, j: int|
                    0 <= i < after.len() && 0 <= j < after.len() && i != j implies after[i]
                    != after[j] by {
                    if i < before.len() && j >= before.len() {
                        assert(before.contains(before[i]));
                        assert(other@.contains(other@[j - before.len()]));
                    }
                    if j < before.len() && i >= before.len() {
                        assert(before.contains(before[j]));
                        assert(other@.contains(other@[i - before.len()]));
                    }
                }
            }
            assert forall|i: int| 0 <= i < after.len() implies records@[#[trigger] after[i] as int].next_in_queue
                == at(after, i + 1) by {
                if i < before.len() {
                    assert(after[i] == before[i]);
                    assert(before.contains(before[i]));
                } else {
                    let j = i - before.len();
                    assert(after[i] == other@[j]);
                    assert(other@.contains(other@[j]));
                }
            }
            assert forall|i: int| 0 <= i < after.len() implies #[trigger] after[i]
                < records@.len() by {
                if i < before.len() {
                    assert(after[i] == before[i]);
                } else {
                    assert(after[i] == other@[i - before.len()]);
                }
            }
            assert(before.contains(before.last()) || before.len() == 0);
        }
    }

    /// Whether a thread with the given key stands at a place of the queue or
    /// behind it. `from` is the thread at that place.
    pub(crate) fn scan_for_key(
        &self,
        records: &Vec<ThreadData>,
        from: Option<usize>,
        key: usize,
        Ghost(place): Ghost<int>,
    ) -> (found: bool)
        requires
            self.linked(records@),
            0 <= place <= self@.len(),
            from == at(self@, place),
        ensures
            found == exists|i: int|
                place <= i < self@.len() && records@[#[trigger] self@[i] as int].key == key,
    {
        let mut scan = from;
        let ghost mut at_place = place;
        while scan.is_some()
            invariant
                self.linked(records@),
                0 <= place <= at_place <= self@.len(),
                scan == at(self@, at_place),
                forall|i: int|
                    place <= i < at_place ==> records@[#[trigger] self@[i] as int].key != key,
            decreases self@.len() - at_place,
        {
            let thread = scan.unwrap();
            if records[thread].key == key {
                assert(self@[at_place] == thread);
                return true;
            }
            scan = records[thread].next_in_queue;
            proof {
                at_place = at_place + 1;
            }
        }
        false
    }
}

} // verus!
