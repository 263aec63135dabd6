use vstd::prelude::*;

verus! {

/// A ringbuffer-like queue whose length never changes: every push at the back
/// removes one value from the front.
#[derive(Debug)]
pub struct CircularArray<T> {
    position: usize,
    buffer: Vec<T>,
}

impl<T: Copy> CircularArray<T> {
    /// The values in queue order, front first.
    pub closed spec fn view(&self) -> Seq<T> {
        self.buffer@.subrange(self.position as int, self.buffer@.len() as int) + self.buffer@.subrange(
            0,
            self.position as int,
        )
    }

    /// The position is inside the buffer (or the buffer is empty and the position is 0).
    pub closed spec fn wf(&self) -> bool {
        ||| self.position < self.buffer@.len()
        ||| (self.position == 0 && self.buffer@.len() == 0)
    }

    /// Create a queue of the given size, filled with `initial`.
    pub fn new(initial: T, size: usize) -> (ca: Self)
        ensures
            ca.wf(),
            ca.view() == Seq::new(size as nat, |i: int| initial),
    {
        let mut buffer: Vec<T> = Vec::new();
        let mut i: usize = 0;
        while i < size
            invariant
                i <= size,
                buffer@ == Seq::new(i as nat, |j: int| initial),
            decreases size - i,
        {
            buffer.push(initial);
            i = i + 1;
        }
        let ca = CircularArray { position: 0, buffer };
        assert(ca.view() =~= Seq::new(size as nat, |i: int| initial));
        ca
    }

    /// Insert the value at the back of the queue, and return the value removed from the front.
    pub fn push_pop(&mut self, value: T) -> (removed: T)
        requires
            old(self).wf(),
            old(self).view().len() > 0,
        ensures
            final(self).wf(),
            removed == old(self).view()[0],
            final(self).view() == old(self).view().drop_first().push(value),
    {
        let ghost old_view = self.view();
        let ghost p = self.position as int;
        let ghost n = self.buffer@.len() as int;
        let ghost old_buffer = self.buffer@;
        let removed = self.buffer[self.position];
        self.buffer.set(self.position, value);
        let len = self.buffer.len();
        if self.position + 1 < len {
            self.position = self.position + 1;
        } else {
            self.position = 0;
        }
        proof {
            let b = self.buffer@;
            assert(old_view.len() == n);
            assert(old_view[0] == old_buffer[p]);
            let expected = old_view.drop_first().push(value);
            assert forall|i: int| 0 <= i < n implies #[trigger] self.view()[i] == expected[i] by {
                if p + 1 < n {
                    if i < n - p - 1 {
                        assert(self.view()[i] == b[p + 1 + i]);
                        assert(expected[i] == old_view[i + 1]);
                        assert(old_view[i + 1] == old_buffer[p + 1 + i]);
                    } else if i < n - 1 {
                        assert(self.view()[i] == b[i - (n - p - 1)]);
                        assert(expected[i] == old_view[i + 1]);
                        assert(old_view[i + 1] == old_buffer[i + 1 - (n - p)]);
                    } else {
                        assert(self.view()[i] == b[p]);
                    }
                } else {
                    assert(self.view()[i] == b[i]);
                    if i < n - 1 {
                        assert(expected[i] == old_view[i + 1]);
                        assert(old_view[i + 1] == old_buffer[i]);
                    }
                }
            }
            assert(self.view() =~= expected);
        }
        removed
    }

    /// Replace every value in the queue with `value`.
    pub fn fill(&mut self, value: T)
        requires
            old(self).wf(),
        ensures
            final(self).wf(),
            final(self).view() == Seq::new(old(self).view().len(), |i: int| value),
    {
        let mut i: usize = 0;
        let len = self.buffer.len();
        while i < len
            invariant
                len == self.buffer@.len(),
                old(self).buffer@.len() == len,
                self.position == old(self).position,
                i <= len,
                forall|j: int| 0 <= j < i ==> self.buffer@[j] == value,
            decreases len - i,
        {
            self.buffer.set(i, value);
            i = i + 1;
        }
        assert(self.view() =~= Seq::new(old(self).view().len(), |i: int| value));
    }

    /// The number of values in the queue.
    pub fn len(&self) -> (r: usize)
        requires
            self.wf(),
        ensures
            r == self.view().len(),
    {
        self.buffer.len()
    }

    /// The values in queue order, front first.
    pub fn iter(&self) -> (r: Vec<T>)
        requires
            self.wf(),
        ensures
            r@ == self.view(),
    {
        let mut r: Vec<T> = Vec::new();
        let len = self.buffer.len();
        let mut i: usize = self.position;
        while i < len
            invariant
                len == self.buffer@.len(),
                self.position <= i <= len,
                r@ == self.buffer@.subrange(self.position as int, i as int),
            decreases len - i,
        {
            r.push(self.buffer[i]);
            i = i + 1;
            assert(r@ =~= self.buffer@.subrange(self.position as int, i as int));
        }
        let mut j: usize = 0;
        while j < self.position
            invariant
                len == self.buffer@.len(),
                self.position <= len,
                j <= self.position,
                r@ == self.buffer@.subrange(self.position as int, len as int) + self.buffer@.subrange(0, j as int),
            decreases self.position - j,
        {
            r.push(self.buffer[j]);
            j = j + 1;
            assert(r@ =~= self.buffer@.subrange(self.position as int, len as int) + self.buffer@.subrange(0, j as int));
        }
        r
    }
}

/// The queue's values once `pushes` have been pushed, in order, into a queue holding `values`:
/// each push drops the front value and appends the pushed one.
pub open spec fn after_pushes<T>(values: Seq<T>, pushes: Seq<T>) -> Seq<T>
    decreases pushes.len(),
{
    if pushes.len() == 0 {
        values
    } else {
        after_pushes(values, pushes.drop_last()).drop_first().push(pushes.last())
    }
}

/// Pushing `k` values into a queue of `n` values leaves a window of `n` values that has slid `k`
/// places along the old values followed by the pushed ones. So after `n` or more pushes the queue
/// holds exactly the last `n` values pushed, oldest first, and the `i`-th push returns the `i`-th
/// value of the old values followed by the pushed ones (after a fill with `v`, the next `n`
/// pushes return `v`).
pub proof fn lemma_after_pushes<T>(values: Seq<T>, pushes: Seq<T>)
    requires
        values.len() > 0,
    ensures
        after_pushes(values, pushes) == (values + pushes).subrange(
            pushes.len() as int,
            (pushes.len() + values.len()) as int,
        ),
        pushes.len() >= values.len() ==> after_pushes(values, pushes) == pushes.subrange(
            (pushes.len() - values.len()) as int,
            pushes.len() as int,
        ),
        forall|i: int| 0 <= i < pushes.len() ==> #[trigger] after_pushes(values, pushes.take(i))[0] == (values + pushes)[i],
    decreases pushes.len(),
{
    let n = values.len() as int;
    let k = pushes.len() as int;
    if k > 0 {
        let rest = pushes.drop_last();
        lemma_after_pushes(values, rest);
        assert(after_pushes(values, pushes) =~= (values + pushes).subrange(k, k + n)) by {
            assert((values + rest).subrange(k - 1, k - 1 + n).drop_first() =~= (values + pushes).subrange(k, k - 1 + n));
            assert((values + pushes)[k - 1 + n] == pushes.last());
        }
        assert forall|i: int| 0 <= i < k implies #[trigger] after_pushes(values, pushes.take(i))[0] == (values + pushes)[i] by {
            if i < k - 1 {
                assert(pushes.take(i) =~= rest.take(i));
                assert(after_pushes(values, rest.take(i))[0] == (values + rest)[i]);
            } else {
                assert(pushes.take(i) =~= rest);
                assert((values + rest).subrange(k - 1, k - 1 + n)[0] == (values + rest)[k - 1]);
            }
        }
    } else {
        assert(after_pushes(values, pushes) =~= (values + pushes).subrange(0, n));
    }
    if k >= n {
        assert((values + pushes).subrange(k, k + n) =~= pushes.subrange(k - n, k));
    }
}

} // verus!
