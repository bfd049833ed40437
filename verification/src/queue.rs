//! A bounded queue of input events, filled by an interrupt handler and
//! drained by the desktop. When it is full, new events are dropped.

use vstd::prelude::*;

verus! {

pub struct EventQueue<T> {
    buffer: Vec<T>,
    head: usize,
    tail: usize,
}

/// The ring position `k` places after `start` in a ring of `n`.
spec fn ring(start: int, k: int, n: int) -> int {
    if start + k < n {
        start + k
    } else {
        start + k - n
    }
}

impl<T: Copy> EventQueue<T> {
    pub closed spec fn wf(&self) -> bool {
        &&& 0 < self.buffer@.len() <= 0x1_0000
        &&& self.head < self.buffer@.len()
        &&& self.tail < self.buffer@.len()
    }

    /// How many events fit, one slot being kept unused.
    pub closed spec fn capacity(&self) -> int {
        self.buffer@.len() - 1
    }

    spec fn used(&self) -> int {
        if self.head >= self.tail {
            self.head - self.tail
        } else {
            self.head + self.buffer@.len() - self.tail
        }
    }

    pub closed spec fn view(&self) -> Seq<T> {
        Seq::new(
            self.used() as nat,
            |k: int| self.buffer@[ring(self.tail as int, k, self.buffer@.len() as int)],
        )
    }

    /// An empty queue over `slots` slots, each holding `blank`.
    pub fn new(blank: T, slots: usize) -> (r: Self)
        requires
            0 < slots <= 0x1_0000,
        ensures
            r.wf(),
            r.capacity() == slots - 1,
            r.view() == Seq::<T>::empty(),
    {
        let mut buffer: Vec<T> = Vec::new();
        let mut i: usize = 0;
        while i < slots
            invariant
                i <= slots,
                buffer@.len() == i,
            decreases slots - i,
        {
            buffer.push(blank);
            i += 1;
        }
        let r = EventQueue { buffer, head: 0, tail: 0 };
        assert(r.view() =~= Seq::<T>::empty());
        r
    }

    /// Appends an event, or drops it when the queue is full.
    pub fn push(&mut self, event: T)
        requires
            old(self).wf(),
        ensures
            final(self).wf(),
            final(self).capacity() == old(self).capacity(),
            old(self).view().len() <= old(self).capacity(),
            final(self).view() == if old(self).view().len() < old(self).capacity() {
                old(self).view().push(event)
            } else {
                old(self).view()
            },
    {
        let n = self.buffer.len();
        let next: usize = if self.head + 1 == n { 0 } else { self.head + 1 };
        if next != self.tail {
            self.buffer.set(self.head, event);
            self.head = next;
            assert(self.view() =~= old(self).view().push(event));
        }
    }

    /// Takes the oldest event out.
    pub fn pop(&mut self) -> (r: Option<T>)
        requires
            old(self).wf(),
        ensures
            final(self).wf(),
            final(self).capacity() == old(self).capacity(),
            old(self).view().len() == 0 ==> r is None && final(self).view() == old(self).view(),
            old(self).view().len() > 0 ==> r == Some(old(self).view()[0]) && final(self).view()
                == old(self).view().skip(1),
    {
        if self.head == self.tail {
            None
        } else {
            let event = self.buffer[self.tail];
            let n = self.buffer.len();
            self.tail = if self.tail + 1 == n { 0 } else { self.tail + 1 };
            assert(self.view() =~= old(self).view().skip(1));
            Some(event)
        }
    }
}

} // verus!
