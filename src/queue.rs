use vstd::prelude::*;

verus! {

/// Unbounded first-in-first-out container.
///
/// The backing vector holds exactly the elements still in the queue, oldest
/// first; a remove takes the front element out of it.
pub struct Queue<T> {
    backend: Vec<T>,
}

/// Failures of the circular queue operations.
#[derive(Debug, PartialEq, Eq, Structural, PartialOrd, Ord)]
pub enum QueueError {
    /// An insert met a queue that already holds `size` elements.
    QueueFull,
    /// A remove met an empty queue.
    QueueEmpty,
}

impl<T> View for Queue<T> {
    /// The elements held, oldest first.
    type V = Seq<T>;

    closed spec fn view(&self) -> Seq<T> {
        self.backend@
    }
}

impl<T> Queue<T> {
    /// An empty queue.
    pub fn new() -> (q: Self)
        ensures
            q@ == Seq::<T>::empty(),
    {
        Queue { backend: Vec::new() }
    }

    /// Adds `element` behind the newest one.
    pub fn insert(&mut self, element: T)
        ensures
            final(self)@ == old(self)@.push(element),
    {
        self.backend.push(element);
    }

    /// Takes out the oldest element, or gives `None` on an empty queue.
    pub fn remove(&mut self) -> (r: Option<T>)
        ensures
            old(self)@.len() == 0 ==> r is None && final(self)@ == old(self)@,
            old(self)@.len() > 0 ==> r == Some(old(self)@[0]) && final(self)@
                == old(self)@.drop_first(),
    {
        if self.backend.len() == 0 {
            return None;
        }
        let v = self.backend.remove(0);
        proof {
            assert(self.backend@ =~= old(self)@.drop_first());
        }
        Some(v)
    }

    /// The oldest element, if any, without changing the queue.
    pub fn peek(&self) -> (r: Option<&T>)
        ensures
            r == (if self@.len() == 0 {
                None::<&T>
            } else {
                Some(&self@[0])
            }),
    {
        if self.backend.len() == 0 {
            return None;
        }
        Some(&self.backend[0])
    }
}

/// First-in-first-out container over a ring of exactly `size` slots.
///
/// The element at logical position `j` lives in slot `(head + j) % size`.
pub struct CircularQueue<T> {
    slots: Vec<Option<T>>,
    head: usize,
    len: usize,
    size: usize,
    contents: Ghost<Seq<T>>,
}

/// The slot of logical position `j` in a ring of `size` slots that starts at `head`:
/// `(head + j) % size` for `head, j < size`.
spec fn ring_slot(head: int, j: int, size: int) -> int {
    if head + j < size {
        head + j
    } else {
        head + j - size
    }
}

impl<T> View for CircularQueue<T> {
    /// The elements held, oldest first.
    type V = Seq<T>;

    closed spec fn view(&self) -> Seq<T> {
        self.contents@
    }
}

impl<T> CircularQueue<T> {
    /// How many elements the queue can hold at once.
    pub closed spec fn capacity(&self) -> nat {
        self.size as nat
    }

    /// The ring has `size` slots, and logical position `j` of the contents
    /// sits in slot `(head + j) % size`.
    pub closed spec fn wf(&self) -> bool {
        &&& self.slots@.len() == self.size
        &&& self.len <= self.size
        &&& (self.size == 0 ==> self.head == 0)
        &&& (self.size > 0 ==> self.head < self.size)
        &&& self.contents@.len() == self.len
        &&& forall|j: int|
            0 <= j < self.len ==> self.slots@[ring_slot(self.head as int, j, self.size as int)]
                == Some(#[trigger] self.contents@[j])
    }

    /// An empty queue with room for `size` elements.
    pub fn new(size: usize) -> (q: Self)
        ensures
            q.wf(),
            q@ == Seq::<T>::empty(),
            q.capacity() == size as nat,
    {
        let mut slots: Vec<Option<T>> = Vec::new();
        let mut k: usize = 0;
        while k < size
            invariant
                k <= size,
                slots@.len() == k,
            decreases size - k,
        {
            slots.push(None);
            k = k + 1;
        }
        CircularQueue { slots, head: 0, len: 0, size, contents: Ghost(Seq::empty()) }
    }

    /// Adds `element` behind the newest one, or fails with `QueueFull` when
    /// `size` elements are already held.
    pub fn insert(&mut self, element: T) -> (r: Result<(), QueueError>)
        requires
            old(self).wf(),
        ensures
            final(self).wf(),
            final(self).capacity() == old(self).capacity(),
            ring_accepts(old(self)@, old(self).capacity()) <==> r is Ok,
            r is Ok ==> final(self)@ == old(self)@.push(element),
            r is Err ==> r == Err::<(), QueueError>(QueueError::QueueFull)
                && final(self)@ == old(self)@,
    {
        if self.len == self.size {
            return Err(QueueError::QueueFull);
        }
        let tail: usize = if self.head >= self.size - self.len {
            self.head - (self.size - self.len)
        } else {
            self.head + self.len
        };
        assert(tail == ring_slot(self.head as int, self.len as int, self.size as int));
        let ghost pre = self.contents@;
        self.slots.set(tail, Some(element));
        self.len = self.len + 1;
        self.contents = Ghost(pre.push(element));
        assert forall|j: int| 0 <= j < self.len implies self.slots@[ring_slot(
            self.head as int,
            j,
            self.size as int,
        )] == Some(#[trigger] self.contents@[j]) by {
            if j < self.len - 1 {
                assert(pre[j] == self.contents@[j]);
            }
        }
        Ok(())
    }

    /// Takes out the oldest element, or fails with `QueueEmpty` on an empty queue.
    pub fn remove(&mut self) -> (r: Result<Option<T>, QueueError>)
        requires
            old(self).wf(),
        ensures
            final(self).wf(),
            final(self).capacity() == old(self).capacity(),
            old(self)@.len() > 0 <==> r is Ok,
            r is Ok ==> r == Ok::<Option<T>, QueueError>(Some(old(self)@[0])) && final(self)@
                == old(self)@.drop_first(),
            r is Err ==> r == Err::<Option<T>, QueueError>(QueueError::QueueEmpty)
                && final(self)@ == old(self)@,
    {
        if self.len == 0 {
            return Err(QueueError::QueueEmpty);
        }
        let ghost pre = self.contents@;
        let ghost old_head = self.head as int;
        assert(ring_slot(old_head, 0, self.size as int) == old_head);
        assert(self.slots@[old_head] == Some(pre[0]));
        let mut v: Option<T> = None;
        self.slots.set_and_swap(self.head, &mut v);
        self.head = if self.head + 1 == self.size {
            0
        } else {
            self.head + 1
        };
        self.len = self.len - 1;
        self.contents = Ghost(pre.drop_first());
        assert forall|j: int| 0 <= j < self.len implies self.slots@[ring_slot(
            self.head as int,
            j,
            self.size as int,
        )] == Some(#[trigger] self.contents@[j]) by {
            assert(ring_slot(self.head as int, j, self.size as int) == ring_slot(
                old_head,
                j + 1,
                self.size as int,
            ));
            assert(pre[j + 1] == self.contents@[j]);
        }
        Ok(v)
    }
}

/// The contents after inserting each of `xs` in turn into an unbounded queue
/// holding `q`, as `Queue::insert` states it.
pub open spec fn insert_all<T>(q: Seq<T>, xs: Seq<T>) -> Seq<T>
    decreases xs.len(),
{
    if xs.len() == 0 {
        q
    } else {
        insert_all(q.push(xs[0]), xs.drop_first())
    }
}

/// Whether an insert into a ring of `cap` slots holding `q` succeeds, as
/// `CircularQueue::insert` states it.
pub open spec fn ring_accepts<T>(q: Seq<T>, cap: nat) -> bool {
    q.len() < cap
}

/// The contents after offering each of `xs` in turn to a ring of `cap` slots
/// holding `q`, as `CircularQueue::insert` states it: a rejected element leaves
/// the contents unchanged.
pub open spec fn ring_insert_all<T>(q: Seq<T>, xs: Seq<T>, cap: nat) -> Seq<T>
    decreases xs.len(),
{
    if xs.len() == 0 {
        q
    } else {
        let next = if ring_accepts(q, cap) {
            q.push(xs[0])
        } else {
            q
        };
        ring_insert_all(next, xs.drop_first(), cap)
    }
}

/// The elements that `n` removes in a row hand out from a queue holding `q`,
/// as `Queue::remove` and `CircularQueue::remove` state it: the oldest each
/// time, nothing once the queue is empty.
pub open spec fn remove_all<T>(q: Seq<T>, n: nat) -> Seq<T>
    decreases n,
{
    if n == 0 || q.len() == 0 {
        Seq::empty()
    } else {
        seq![q[0]] + remove_all(q.drop_first(), (n - 1) as nat)
    }
}

proof fn lemma_insert_all_appends<T>(q: Seq<T>, xs: Seq<T>)
    ensures
        insert_all(q, xs) == q + xs,
    decreases xs.len(),
{
    if xs.len() > 0 {
        lemma_insert_all_appends(q.push(xs[0]), xs.drop_first());
        assert(q.push(xs[0]) + xs.drop_first() =~= q + xs);
    } else {
        assert(q + xs =~= q);
    }
}

proof fn lemma_ring_insert_all_appends<T>(q: Seq<T>, xs: Seq<T>, cap: nat)
    requires
        q.len() + xs.len() <= cap,
    ensures
        ring_insert_all(q, xs, cap) == q + xs,
    decreases xs.len(),
{
    if xs.len() > 0 {
        lemma_ring_insert_all_appends(q.push(xs[0]), xs.drop_first(), cap);
        assert(q.push(xs[0]) + xs.drop_first() =~= q + xs);
    } else {
        assert(q + xs =~= q);
    }
}

proof fn lemma_remove_all_whole<T>(q: Seq<T>)
    ensures
        remove_all(q, q.len()) == q,
    decreases q.len(),
{
    if q.len() > 0 {
        lemma_remove_all_whole(q.drop_first());
        assert(seq![q[0]] + q.drop_first() =~= q);
    } else {
        assert(q =~= Seq::<T>::empty());
    }
}

/// First in, first out: inserting `xs` into a new `Queue` and then removing
/// as many elements hands `xs` back in the order it went in.
pub proof fn lemma_queue_fifo<T>(xs: Seq<T>)
    ensures
        remove_all(insert_all(Seq::<T>::empty(), xs), xs.len()) == xs,
{
    lemma_insert_all_appends(Seq::<T>::empty(), xs);
    assert(Seq::<T>::empty() + xs =~= xs);
    lemma_remove_all_whole(xs);
}

/// First in, first out: offering `xs` to a new `CircularQueue` with room for
/// all of it, and then removing as many elements, hands `xs` back in the order
/// it went in.
pub proof fn lemma_circular_queue_fifo<T>(xs: Seq<T>, cap: nat)
    requires
        xs.len() <= cap,
    ensures
        remove_all(ring_insert_all(Seq::<T>::empty(), xs, cap), xs.len()) == xs,
{
    lemma_ring_insert_all_appends(Seq::<T>::empty(), xs, cap);
    assert(Seq::<T>::empty() + xs =~= xs);
    lemma_remove_all_whole(xs);
}

/// Ring reuse: once `cap` elements went into a new `CircularQueue` of `cap`
/// slots, the next insert is refused; after one remove, an insert succeeds again.
pub proof fn lemma_circular_queue_reuse<T>(xs: Seq<T>, cap: nat)
    requires
        xs.len() == cap,
        cap > 0,
    ensures
        !ring_accepts(ring_insert_all(Seq::<T>::empty(), xs, cap), cap),
        ring_accepts(ring_insert_all(Seq::<T>::empty(), xs, cap).drop_first(), cap),
{
    lemma_ring_insert_all_appends(Seq::<T>::empty(), xs, cap);
}

} // verus!
