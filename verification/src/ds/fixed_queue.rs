use vstd::prelude::*;

verus! {

/// A queue over an array of `N` slots. Each slot is written once: after `N`
/// pushes in all the queue takes no more, whatever was popped.
pub struct FixedQueue<T: Copy, const N: usize> {
    v: [T; N],
    l: usize,
    r: usize,
}

impl<T: Copy, const N: usize> FixedQueue<T, N> {
    /// The read and write positions are in order and within the array.
    pub closed spec fn wf(&self) -> bool {
        self.l <= self.r <= N
    }

    /// The items in the queue, oldest first.
    pub closed spec fn view(&self) -> Seq<T> {
        self.v@.subrange(self.l as int, self.r as int)
    }

    /// How many items were pushed since the queue was made.
    pub closed spec fn pushed(&self) -> nat {
        self.r as nat
    }

    /// An empty queue whose slots all hold `init`.
    pub fn new(init: T) -> (q: Self)
        ensures
            q.wf(),
            q@ == Seq::<T>::empty(),
            q.pushed() == 0,
    {
        let q = Self { v: [init; N], l: 0, r: 0 };
        assert(q@ =~= Seq::<T>::empty());
        q
    }

    /// Appends `x` at the back.
    pub fn push(&mut self, x: T)
        requires
            old(self).wf(),
            old(self).pushed() < N,
        ensures
            final(self).wf(),
            final(self)@ == old(self)@.push(x),
            final(self).pushed() == old(self).pushed() + 1,
    {
        let r = self.r;
        self.v[r] = x;
        self.r = r + 1;
        assert(self@ =~= old(self)@.push(x));
    }

    /// Takes the item at the front, if there is one.
    pub fn pop(&mut self) -> (res: Option<T>)
        requires
            old(self).wf(),
        ensures
            final(self).wf(),
            final(self).pushed() == old(self).pushed(),
            old(self)@.len() == 0 ==> res is None && final(self)@ == old(self)@,
            old(self)@.len() > 0 ==> res == Some(old(self)@[0]) && final(self)@ == old(self)@.drop_first(),
    {
        if self.l < self.r {
            self.l = self.l + 1;
            assert(self@ =~= old(self)@.drop_first());
            Some(self.v[self.l - 1])
        } else {
            None
        }
    }

    /// The number of items in the queue.
    pub fn len(&self) -> (n: usize)
        requires
            self.wf(),
        ensures
            n == self@.len(),
    {
        self.r - self.l
    }
}

} // verus!
