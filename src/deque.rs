//! A double-ended queue in a fixed ring of `N` slots.
use vstd::prelude::*;

verus! {

/// The operations of a bounded double-ended queue, stated over the items
/// it holds from front to back.
pub trait Deque<T: Copy>: Sized {
    /// The items from front to back.
    spec fn items(&self) -> Seq<T>;

    /// The most items it can hold.
    spec fn cap(&self) -> nat;

    /// The queue's own bookkeeping holds together.
    spec fn inv(&self) -> bool;

    fn size(&self) -> (r: usize)
        requires
            self.inv(),
        ensures
            r == self.items().len(),
    ;

    fn capacity(&self) -> (r: usize)
        ensures
            r == self.cap(),
    ;

    fn front(&self) -> (r: Option<T>)
        requires
            self.inv(),
        ensures
            r == if self.items().len() > 0 {
                Some(self.items()[0])
            } else {
                None
            },
    ;

    fn back(&self) -> (r: Option<T>)
        requires
            self.inv(),
        ensures
            r == if self.items().len() > 0 {
                Some(self.items().last())
            } else {
                None
            },
    ;

    /// Adds `v` at the front; fails, changing nothing, when full.
    fn push_front(&mut self, v: T) -> (r: Result<(), ()>)
        requires
            old(self).inv(),
        ensures
            final(self).inv(),
            final(self).cap() == old(self).cap(),
            old(self).items().len() < old(self).cap() ==> r is Ok && final(self).items() == seq![v]
                + old(self).items(),
            old(self).items().len() >= old(self).cap() ==> r is Err && final(self).items() == old(
                self,
            ).items(),
    ;

    /// Adds `v` at the back; fails, changing nothing, when full.
    fn push_back(&mut self, v: T) -> (r: Result<(), ()>)
        requires
            old(self).inv(),
        ensures
            final(self).inv(),
            final(self).cap() == old(self).cap(),
            old(self).items().len() < old(self).cap() ==> r is Ok && final(self).items() == old(
                self,
            ).items().push(v),
            old(self).items().len() >= old(self).cap() ==> r is Err && final(self).items() == old(
                self,
            ).items(),
    ;

    /// Removes the front item.
    fn pop_front(&mut self) -> (r: Option<T>)
        requires
            old(self).inv(),
        ensures
            final(self).inv(),
            final(self).cap() == old(self).cap(),
            old(self).items().len() > 0 ==> r == Some(old(self).items()[0]) && final(self).items()
                == old(self).items().subrange(1, old(self).items().len() as int),
            old(self).items().len() == 0 ==> r is None && final(self).items() == old(self).items(),
    ;

    /// Removes the back item.
    fn pop_back(&mut self) -> (r: Option<T>)
        requires
            old(self).inv(),
        ensures
            final(self).inv(),
            final(self).cap() == old(self).cap(),
            old(self).items().len() > 0 ==> r == Some(old(self).items().last()) && final(self).items()
                == old(self).items().drop_last(),
            old(self).items().len() == 0 ==> r is None && final(self).items() == old(self).items(),
    ;
}

/// A double-ended queue of at most `N` items in a ring of slots.
pub struct FixedSizeDeque<T: Copy, const N: usize> {
    buf: Vec<Option<T>>,
    start: usize,
    size: usize,
}

/// Walks a deque's items from front to back.
pub struct FixedSizeDequeIter<'a, T: Copy, const N: usize> {
    deque: &'a FixedSizeDeque<T, N>,
    current: usize,
}

/// The slot of position `i` of a ring of `n` slots, for `i < 2 * n`.
pub open spec fn wrap(i: int, n: int) -> int {
    if i < n {
        i
    } else {
        i - n
    }
}

/// The slot of the item `k` places after slot `start`.
fn slot(start: usize, k: usize, n: usize) -> (r: usize)
    requires
        start < n,
        k < n,
    ensures
        r == wrap(start + k, n as int),
        r < n,
{
    if k < n - start {
        start + k
    } else {
        k - (n - start)
    }
}

impl<T: Copy, const N: usize> FixedSizeDeque<T, N> {
    /// An empty deque.
    pub fn new() -> (r: Self)
        ensures
            r.inv(),
            r.items() == Seq::<T>::empty(),
            r.cap() == N,
    {
        let mut buf: Vec<Option<T>> = Vec::new();
        let mut i: usize = 0;
        while i < N
            invariant
                i <= N,
                buf@.len() == i,
            decreases N - i,
        {
            buf.push(None);
            i = i + 1;
        }
        let r = FixedSizeDeque { buf, start: 0, size: 0 };
        assert(r.items() =~= Seq::<T>::empty());
        r
    }

    /// A walk over the items from front to back.
    pub fn iter(&self) -> (r: FixedSizeDequeIter<'_, T, N>)
        requires
            self.inv(),
        ensures
            r.walked() == *self,
            r.position() == 0,
    {
        FixedSizeDequeIter { deque: self, current: 0 }
    }

    /// The items from front to back, in a vector.
    pub fn to_vec(&self) -> (r: Vec<T>)
        requires
            self.inv(),
        ensures
            r@ == self.items(),
    {
        let mut v: Vec<T> = Vec::new();
        let mut k: usize = 0;
        while k < self.size
            invariant
                self.inv(),
                k <= self.size,
                v@ == self.items().subrange(0, k as int),
            decreases self.size - k,
        {
            let slot = slot(self.start, k, N);
            match self.buf[slot] {
                Some(x) => v.push(x),
                None => {},
            }
            k = k + 1;
            assert(v@ =~= self.items().subrange(0, k as int));
        }
        assert(self.items().subrange(0, k as int) =~= self.items());
        v
    }
}

impl<T: Copy, const N: usize> FixedSizeDeque<T, N> {
    /// The first `S` items, when the deque is full and holds at least `S`.
    pub fn take<const S: usize>(&self) -> (r: Option<Vec<T>>)
        requires
            self.inv(),
        ensures
            self.items().len() == N && S <= N ==> (r matches Some(v) && v@ == self.items().subrange(0, S as int)),
            !(self.items().len() == N && S <= N) ==> r is None,
    {
        if self.size < N || S > N {
            return None;
        }
        let all = self.to_vec();
        let mut v: Vec<T> = Vec::new();
        let mut k: usize = 0;
        while k < S
            invariant
                k <= S <= N,
                all@ == self.items(),
                all@.len() == N,
                v@ == all@.subrange(0, k as int),
            decreases S - k,
        {
            v.push(all[k]);
            k = k + 1;
            assert(v@ =~= all@.subrange(0, k as int));
        }
        Some(v)
    }
}

impl<'a, T: Copy, const N: usize> FixedSizeDequeIter<'a, T, N> {
    /// How many items the walk has given.
    pub closed spec fn position(&self) -> nat {
        self.current as nat
    }

    /// The deque walked over.
    pub closed spec fn walked(&self) -> FixedSizeDeque<T, N> {
        *self.deque
    }

    /// The next item, or `None` after the last.
    pub fn next(&mut self) -> (r: Option<T>)
        requires
            old(self).walked().inv(),
            old(self).position() <= old(self).walked().items().len(),
        ensures
            final(self).walked() == old(self).walked(),
            old(self).position() < old(self).walked().items().len() ==> r == Some(
                old(self).walked().items()[old(self).position() as int],
            ) && final(self).position() == old(self).position() + 1,
            old(self).position() == old(self).walked().items().len() ==> r is None
                && final(self).position() == old(self).position(),
    {
        if self.current < self.deque.size {
            let slot = slot(self.deque.start, self.current, N);
            self.current = self.current + 1;
            self.deque.buf[slot]
        } else {
            None
        }
    }
}

impl<T: Copy, const N: usize> Deque<T> for FixedSizeDeque<T, N> {
    closed spec fn items(&self) -> Seq<T> {
        Seq::new(self.size as nat, |k: int| self.buf@[wrap(self.start + k, N as int)].unwrap())
    }

    open spec fn cap(&self) -> nat {
        N as nat
    }

    closed spec fn inv(&self) -> bool {
        &&& self.buf@.len() == N
        &&& self.size <= N
        &&& (N == 0 ==> self.start == 0)
        &&& (N > 0 ==> self.start < N)
        &&& forall|k: int| 0 <= k < self.size ==> (#[trigger] self.buf@[wrap(self.start + k, N as int)]) is Some
    }

    fn size(&self) -> (r: usize) {
        self.size
    }

    fn capacity(&self) -> (r: usize) {
        N
    }

    fn front(&self) -> (r: Option<T>) {
        if self.size > 0 {
            self.buf[self.start]
        } else {
            None
        }
    }

    fn back(&self) -> (r: Option<T>) {
        if self.size > 0 {
            self.buf[slot(self.start, self.size - 1, N)]
        } else {
            None
        }
    }

    fn push_front(&mut self, v: T) -> (r: Result<(), ()>) {
        if self.size >= N {
            return Err(());
        }
        let ghost old_items = self.items();
        let s = if self.start == 0 { N - 1 } else { self.start - 1 };
        self.buf.set(s, Some(v));
        let ghost old_start = self.start;
        self.start = s;
        self.size = self.size + 1;
        assert forall|k: int| 0 <= k < self.size implies (#[trigger] self.buf@[wrap(self.start + k, N as int)]) is Some by {
            if k > 0 {
                assert(wrap(self.start + k, N as int) == wrap(old_start + (k - 1), N as int));
            }
        }
        assert forall|k: int| 0 <= k < self.size implies #[trigger] self.items()[k] == (seq![v] + old_items)[k] by {
            if k > 0 {
                assert(wrap(self.start + k, N as int) == wrap(old_start + (k - 1), N as int));
            }
        }
        assert(self.items() =~= seq![v] + old_items);
        Ok(())
    }

    fn push_back(&mut self, v: T) -> (r: Result<(), ()>) {
        if self.size >= N {
            return Err(());
        }
        let ghost old_items = self.items();
        let slot = slot(self.start, self.size, N);
        self.buf.set(slot, Some(v));
        self.size = self.size + 1;
        assert forall|k: int| 0 <= k < self.size implies (#[trigger] self.buf@[wrap(self.start + k, N as int)]) is Some by {
            if k < self.size - 1 {
                assert(wrap(self.start + k, N as int) != slot);
            }
        }
        assert forall|k: int| 0 <= k < self.size implies #[trigger] self.items()[k] == old_items.push(v)[k] by {
            if k < self.size - 1 {
                assert(wrap(self.start + k, N as int) != slot);
            }
        }
        assert(self.items() =~= old_items.push(v));
        Ok(())
    }

    fn pop_front(&mut self) -> (r: Option<T>) {
        if self.size == 0 {
            return None;
        }
        let ghost old_items = self.items();
        let v = self.buf[self.start];
        let ghost old_start = self.start;
        self.start = if self.start + 1 < N { self.start + 1 } else { 0 };
        self.size = self.size - 1;
        assert forall|k: int| 0 <= k < self.size implies (#[trigger] self.buf@[wrap(self.start + k, N as int)]) is Some by {
            assert(wrap(self.start + k, N as int) == wrap(old_start + (k + 1), N as int));
        }
        assert forall|k: int| 0 <= k < self.size implies #[trigger] self.items()[k] == old_items.subrange(1, old_items.len() as int)[k] by {
            assert(wrap(self.start + k, N as int) == wrap(old_start + (k + 1), N as int));
        }
        assert(self.items() =~= old_items.subrange(1, old_items.len() as int));
        v
    }

    fn pop_back(&mut self) -> (r: Option<T>) {
        if self.size == 0 {
            return None;
        }
        let ghost old_items = self.items();
        let v = self.buf[slot(self.start, self.size - 1, N)];
        self.size = self.size - 1;
        assert(self.items() =~= old_items.drop_last());
        v
    }
}

} // verus!
