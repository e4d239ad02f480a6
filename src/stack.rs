use vstd::prelude::*;

verus! {

/// Declared capacity of every stack.
pub const STACK_CAPACITY: usize = 2048;

/// Last-in-first-out container with a fixed capacity.
///
/// The overflow check fires once `capacity - 1` elements are held, so a stack
/// of capacity `n` accepts at most `n - 1` elements.
pub struct Stack<T> {
    backend: Vec<T>,
    top: usize,
    size: usize,
}

/// Failures of the stack operations.
#[derive(Debug, PartialEq, Eq, Structural, PartialOrd, Ord)]
pub enum StackError {
    /// A push met a stack that already holds its largest allowed count.
    Overflow,
    /// A pop met an empty stack.
    Underflow,
}

impl<T> View for Stack<T> {
    /// The elements held, oldest first; the last one is the top.
    type V = Seq<T>;

    closed spec fn view(&self) -> Seq<T> {
        self.backend@
    }
}

impl<T> Stack<T> {
    /// The declared capacity.
    pub closed spec fn capacity(&self) -> nat {
        self.size as nat
    }

    /// How many elements the stack can hold at once: one less than its capacity.
    pub open spec fn limit(&self) -> nat {
        (self.capacity() - 1) as nat
    }

    /// `top` counts the elements held, which stay below the capacity.
    pub closed spec fn wf(&self) -> bool {
        &&& self.size >= 1
        &&& self.top as nat == self.backend@.len()
        &&& self.top < self.size
    }

    /// An empty stack of capacity `STACK_CAPACITY`.
    pub fn new() -> (s: Self)
        ensures
            s.wf(),
            s@ == Seq::<T>::empty(),
            s.capacity() == STACK_CAPACITY as nat,
    {
        Stack { backend: Vec::new(), top: 0, size: STACK_CAPACITY }
    }

    /// Puts `element` on top, or hands it back with `Overflow` when the stack
    /// already holds `capacity - 1` elements.
    pub fn push(&mut self, element: T) -> (r: Result<(), (Option<T>, StackError)>)
        requires
            old(self).wf(),
        ensures
            final(self).wf(),
            final(self).capacity() == old(self).capacity(),
            stack_accepts(old(self)@, old(self).limit()) <==> r is Ok,
            r is Ok ==> final(self)@ == old(self)@.push(element),
            r is Err ==> final(self)@ == old(self)@ && r == Err::<(), (Option<T>, StackError)>(
                (Some(element), StackError::Overflow),
            ),
    {
        if self.top == self.size - 1 {
            return Err((Some(element), StackError::Overflow));
        }
        self.backend.push(element);
        self.top = self.top + 1;
        Ok(())
    }

    /// Takes off the top element, or fails with `Underflow` on an empty stack.
    pub fn pop(&mut self) -> (r: Result<T, StackError>)
        requires
            old(self).wf(),
        ensures
            final(self).wf(),
            final(self).capacity() == old(self).capacity(),
            old(self)@.len() > 0 <==> r is Ok,
            r is Ok ==> r == Ok::<T, StackError>(old(self)@.last())
                && final(self)@ == old(self)@.drop_last(),
            r is Err ==> r == Err::<T, StackError>(StackError::Underflow)
                && final(self)@ == old(self)@,
    {
        if self.top == 0 {
            return Err(StackError::Underflow);
        }
        let v = self.backend.pop();
        self.top = self.top - 1;
        Ok(v.unwrap())
    }

    /// The top element, if any, without changing the stack.
    pub fn peek(&self) -> (r: Option<&T>)
        requires
            self.wf(),
        ensures
            r == (if self@.len() == 0 {
                None::<&T>
            } else {
                Some(&self@.last())
            }),
    {
        if self.top == 0 {
            return None;
        }
        Some(&self.backend[self.top - 1])
    }
}

/// Whether a push onto a stack holding `s` succeeds, when the stack holds at
/// most `lim` elements, as `Stack::push` states it.
pub open spec fn stack_accepts<T>(s: Seq<T>, lim: nat) -> bool {
    s.len() < lim
}

/// The contents after pushing each of `xs` in turn onto a stack holding `s`
/// that holds at most `lim` elements: a rejected element leaves the contents
/// unchanged.
pub open spec fn push_all<T>(s: Seq<T>, xs: Seq<T>, lim: nat) -> Seq<T>
    decreases xs.len(),
{
    if xs.len() == 0 {
        s
    } else {
        let next = if stack_accepts(s, lim) {
            s.push(xs[0])
        } else {
            s
        };
        push_all(next, xs.drop_first(), lim)
    }
}

/// The elements that `n` pops in a row hand out from a stack holding `s`, as
/// `Stack::pop` states it: the newest each time, nothing once it is empty.
pub open spec fn pop_all<T>(s: Seq<T>, n: nat) -> Seq<T>
    decreases n,
{
    if n == 0 || s.len() == 0 {
        Seq::empty()
    } else {
        seq![s.last()] + pop_all(s.drop_last(), (n - 1) as nat)
    }
}

proof fn lemma_push_all_appends<T>(s: Seq<T>, xs: Seq<T>, lim: nat)
    requires
        s.len() + xs.len() <= lim,
    ensures
        push_all(s, xs, lim) == s + xs,
    decreases xs.len(),
{
    if xs.len() > 0 {
        lemma_push_all_appends(s.push(xs[0]), xs.drop_first(), lim);
        assert(s.push(xs[0]) + xs.drop_first() =~= s + xs);
    } else {
        assert(s + xs =~= s);
    }
}

proof fn lemma_pop_all_whole<T>(s: Seq<T>)
    ensures
        pop_all(s, s.len()) == s.reverse(),
    decreases s.len(),
{
    if s.len() > 0 {
        lemma_pop_all_whole(s.drop_last());
        assert(seq![s.last()] + s.drop_last().reverse() =~= s.reverse());
    } else {
        assert(s.reverse() =~= Seq::<T>::empty());
    }
}

/// Last in, first out: pushing `xs` onto a new `Stack` with room for all of
/// it, and then popping as many elements, hands `xs` back in reverse order.
pub proof fn lemma_stack_lifo<T>(xs: Seq<T>, lim: nat)
    requires
        xs.len() <= lim,
    ensures
        pop_all(push_all(Seq::<T>::empty(), xs, lim), xs.len()) == xs.reverse(),
{
    lemma_push_all_appends(Seq::<T>::empty(), xs, lim);
    assert(Seq::<T>::empty() + xs =~= xs);
    lemma_pop_all_whole(xs);
}

/// Overflow: once as many elements as a new `Stack` can hold went onto it,
/// the next push is refused.
pub proof fn lemma_stack_overflow<T>(xs: Seq<T>, lim: nat)
    requires
        xs.len() == lim,
    ensures
        !stack_accepts(push_all(Seq::<T>::empty(), xs, lim), lim),
{
    lemma_push_all_appends(Seq::<T>::empty(), xs, lim);
}

} // verus!
