//! Generic fixed-capacity ring buffer that overwrites its oldest items.

use vstd::prelude::*;

use crate::logic::last_n;

verus! {

/// Fixed-capacity ring buffer; a push into a full buffer overwrites the oldest item.
#[derive(Debug)]
pub struct RingBuffer<T: Clone + Default> {
    buf: Vec<T>,
    head: usize,
    len: usize,
    capacity: usize,
}

/// Slot of logical position `x` (with `0 <= x < 2 * cap`) in a ring of `cap` slots.
pub open spec fn wrap(x: int, cap: int) -> int {
    if x >= cap {
        x - cap
    } else {
        x
    }
}

/// `c` holds a clone of each item of `s`, in order.
pub open spec fn clones<T: Clone>(s: Seq<T>, c: Seq<T>) -> bool {
    &&& c.len() == s.len()
    &&& forall|i: int| 0 <= i < s.len() ==> cloned::<T>(s[i], #[trigger] c[i])
}

proof fn lemma_wrap_mod(x: int, cap: int)
    requires
        0 < cap,
        0 <= x < 2 * cap,
    ensures
        x % cap == wrap(x, cap),
{
    if x >= cap {
        vstd::arithmetic::div_mod::lemma_fundamental_div_mod_converse(x, cap, 1, x - cap);
    } else {
        vstd::arithmetic::div_mod::lemma_fundamental_div_mod_converse(x, cap, 0, x);
    }
}

impl<T: Clone + Default> RingBuffer<T> {
    /// Representation invariant: the slot vector has `capacity` slots and the
    /// head and length stay within it.
    pub closed spec fn well_formed(&self) -> bool {
        &&& self.buf@.len() == self.capacity
        &&& 1 <= self.capacity
        &&& self.head < self.capacity
        &&& self.len <= self.capacity
    }

    /// Stored items, oldest first.
    pub closed spec fn view(&self) -> Seq<T> {
        let cap = self.capacity as int;
        let start = self.head as int - self.len as int + cap;
        Seq::new(self.len as nat, |i: int| self.buf@[wrap(start + i, cap)])
    }

    pub closed spec fn capacity_spec(&self) -> nat {
        self.capacity as nat
    }

    /// Empty buffer holding up to `capacity` items (at least 1).
    pub fn new(capacity: usize) -> (r: Self)
        ensures
            r.well_formed(),
            r@ == Seq::<T>::empty(),
            r.capacity_spec() == (if capacity >= 1 { capacity as nat } else { 1 }),
    {
        let cap = if capacity >= 1 { capacity } else { 1 };
        let buf = vec![T::default(); cap];
        let r = RingBuffer { buf, head: 0, len: 0, capacity: cap };
        assert(r@ =~= Seq::<T>::empty());
        r
    }

    /// Appends `value`, overwriting the oldest item when full.
    pub fn push(&mut self, value: T)
        requires
            old(self).well_formed(),
        ensures
            final(self).well_formed(),
            final(self)@ == last_n(old(self)@.push(value), old(self).capacity_spec()),
            final(self).capacity_spec() == old(self).capacity_spec(),
    {
        let ghost old_view = self@;
        let h = self.head;
        let cap = self.capacity;
        self.buf.set(h, value);
        proof {
            lemma_wrap_mod(h + 1, cap as int);
        }
        self.head = (h + 1) % cap;
        if self.len < cap {
            self.len = self.len + 1;
        }
        proof {
            let s = old_view.push(value);
            let want = last_n(s, cap as nat);
            assert(self@.len() == want.len());
            assert forall|i: int| 0 <= i < want.len() implies self@[i] == want[i] by {
                if old_view.len() < cap {
                    assert(want[i] == s[i]);
                } else {
                    assert(want[i] == s[i + 1]);
                }
            }
            assert(self@ =~= want);
        }
    }

    /// Appends clones of `values` in order.
    pub fn extend(&mut self, values: &[T])
        requires
            old(self).well_formed(),
        ensures
            final(self).well_formed(),
            final(self).capacity_spec() == old(self).capacity_spec(),
            exists|c: Seq<T>|
                clones(values@, c) && final(self)@ == last_n(
                    old(self)@ + c,
                    old(self).capacity_spec(),
                ),
    {
        let ghost mut c: Seq<T> = Seq::empty();
        let ghost cap = self.capacity_spec();
        let mut i: usize = 0;
        assert(old(self)@ + c =~= old(self)@);
        assert(old(self)@.len() <= cap);
        while i < values.len()
            invariant
                i <= values@.len(),
                self.capacity_spec() == cap,
                self.well_formed(),
                c.len() == i,
                forall|k: int| 0 <= k < i ==> cloned::<T>(values@[k], #[trigger] c[k]),
                self@ == last_n(old(self)@ + c, cap),
            decreases values.len() - i,
        {
            let v = values[i].clone();
            self.push(v);
            proof {
                let prev = old(self)@ + c;
                let next = prev.push(v);
                c = c.push(v);
                assert(old(self)@ + c =~= next);
                lemma_last_n_push(prev, v, cap);
            }
            i = i + 1;
        }
        assert(clones(values@, c));
    }

    /// Clones of the most recent `n` items, oldest first.
    pub fn recent(&self, n: usize) -> (r: Vec<T>)
        requires
            self.well_formed(),
        ensures
            clones(last_n(self@, n as nat), r@),
    {
        let count = if n < self.len { n } else { self.len };
        if count == 0 {
            return Vec::new();
        }
        let cap = self.capacity;
        let start = if self.head >= count { self.head - count } else { self.head + (cap - count) };
        let mut result: Vec<T> = Vec::with_capacity(count);
        let ghost want = last_n(self@, n as nat);
        let mut i: usize = 0;
        while i < count
            invariant
                i <= count,
                count == want.len(),
                count <= self.len,
                cap == self.capacity,
                start < cap,
                start == wrap(self.head + cap - count, cap as int),
                self.buf@.len() == cap,
                self.well_formed(),
                want == last_n(self@, n as nat),
                result@.len() == i,
                forall|k: int| 0 <= k < i ==> cloned::<T>(want[k], #[trigger] result@[k]),
            decreases count - i,
        {
            proof {
                assert(want[i as int] == self@[self.len - count + i]);
            }
            let slot = if start >= cap - i { start - (cap - i) } else { start + i };
            let item = self.buf[slot].clone();
            result.push(item);
            i = i + 1;
        }
        result
    }

    /// Clones of all items, oldest first.
    pub fn all(&self) -> (r: Vec<T>)
        requires
            self.well_formed(),
        ensures
            clones(self@, r@),
    {
        let r = self.recent(self.len);
        assert(last_n(self@, self.len as nat) == self@);
        r
    }

    pub fn len(&self) -> (n: usize)
        ensures
            n == self@.len(),
    {
        self.len
    }

    pub fn is_empty(&self) -> (b: bool)
        ensures
            b == (self@.len() == 0),
    {
        self.len == 0
    }

    pub fn capacity(&self) -> (n: usize)
        ensures
            n == self.capacity_spec(),
    {
        self.capacity
    }

    /// Removes all items; the capacity is kept.
    pub fn clear(&mut self)
        requires
            old(self).well_formed(),
        ensures
            final(self).well_formed(),
            final(self)@ == Seq::<T>::empty(),
            final(self).capacity_spec() == old(self).capacity_spec(),
    {
        self.head = 0;
        self.len = 0;
        assert(self@ =~= Seq::<T>::empty());
    }

    /// Changes the capacity (at least 1), keeping the most recent items that fit.
    pub fn resize(&mut self, new_capacity: usize)
        requires
            old(self).well_formed(),
        ensures
            final(self).well_formed(),
            final(self).capacity_spec() == (if new_capacity >= 1 { new_capacity as nat } else { 1 }),
            exists|c: Seq<T>|
                clones(old(self)@, c) && final(self)@ == last_n(c, final(self).capacity_spec()),
    {
        let cap = if new_capacity >= 1 { new_capacity } else { 1 };
        let mut existing = self.all();
        let ghost c = existing@;
        let start = if existing.len() > cap { existing.len() - cap } else { 0 };
        let mut kept = existing.split_off(start);
        let m = kept.len();
        assert(kept@ == last_n(c, cap as nat));
        while kept.len() < cap
            invariant
                m <= cap,
                m <= kept@.len() <= cap,
                kept@.subrange(0, m as int) == last_n(c, cap as nat),
            decreases cap - kept.len(),
        {
            kept.push(T::default());
        }
        let head = if m == cap { 0 } else { m };
        *self = RingBuffer { buf: kept, head, len: m, capacity: cap };
        assert(self@ =~= last_n(c, cap as nat)) by {
            assert forall|i: int| 0 <= i < m implies self@[i] == last_n(c, cap as nat)[i] by {
                assert(self@[i] == self.buf@[i]);
                assert(self.buf@[i] == self.buf@.subrange(0, m as int)[i]);
            }
        }
    }
}

proof fn lemma_last_n_push<T>(s: Seq<T>, x: T, cap: nat)
    requires
        cap >= 1,
    ensures
        last_n(last_n(s, cap).push(x), cap) == last_n(s.push(x), cap),
{
    assert(last_n(last_n(s, cap).push(x), cap) =~= last_n(s.push(x), cap));
}

} // verus!
