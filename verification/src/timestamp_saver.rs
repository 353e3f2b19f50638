//! A growable buffer of timestamps: values are appended at the end, read
//! back by position, and walked by a detached cursor. The backing store
//! starts at a small fixed capacity and grows when it runs full.

use vstd::prelude::*;

verus! {

/// The capacity every fresh buffer starts with.
pub const MIN_SIZE: usize = 3;

/// The buffer: filled slots first, spare capacity behind them.
pub struct TimestampSaver {
    buf: Vec<Option<u64>>,
    cap: usize,
    pub length: usize,
}

impl TimestampSaver {
    /// The appended timestamps, oldest first.
    pub closed spec fn view_values(self) -> Seq<u64> {
        Seq::new(self.length as nat, |i: int| self.buf@[i].unwrap())
    }

    /// The value count, as contracts speak of it.
    pub closed spec fn spec_length(self) -> int {
        self.length as int
    }

    /// The capacity tracks the backing store, the filled slots hold values,
    /// and the capacity never falls under the starting one.
    pub closed spec fn wf(self) -> bool {
        &&& self.cap == self.buf@.len()
        &&& self.length <= self.cap
        &&& self.cap >= MIN_SIZE
        &&& forall|i: int| 0 <= i < self.length ==> (#[trigger] self.buf@[i]) is Some
        &&& forall|i: int| self.length <= i < self.cap ==> (#[trigger] self.buf@[i]) is None
    }

    /// Builds an empty buffer at the starting capacity.
    pub fn new_empty() -> (saver: TimestampSaver)
        ensures
            saver.wf(),
            saver.spec_length() == 0,
            saver.view_values() == Seq::<u64>::empty(),
    {
        let mut buf: Vec<Option<u64>> = Vec::new();
        buf.push(None);
        buf.push(None);
        buf.push(None);
        let saver = TimestampSaver { buf, cap: MIN_SIZE, length: 0 };
        proof {
            assert(saver.view_values() =~= Seq::<u64>::empty());
        }
        saver
    }

    /// Moves the values into a backing store of at least `min_cap` slots,
    /// three times the old capacity if that is larger.
    fn grow(&mut self, min_cap: usize)
        requires
            old(self).wf(),
        ensures
            final(self).wf(),
            final(self).spec_length() == old(self).spec_length(),
            final(self).view_values() == old(self).view_values(),
            final(self).spec_cap() >= min_cap,
            final(self).spec_cap() >= old(self).spec_cap(),
    {
        let ghost pre = *old(self);
        let old_cap = self.buf.len();
        let mut new_cap: usize = if old_cap <= usize::MAX / 3 {
            old_cap * 3
        } else {
            usize::MAX
        };
        if new_cap < min_cap {
            new_cap = min_cap;
        }
        let mut buf: Vec<Option<u64>> = Vec::new();
        let mut i: usize = 0;
        while i < self.length
            invariant
                pre.wf(),
                *self == pre,
                i <= pre.length,
                buf@.len() == i,
                forall|k: int| 0 <= k < i ==> #[trigger] buf@[k] == pre.buf@[k],
            decreases pre.length - i,
        {
            buf.push(self.buf[i]);
            i += 1;
        }
        proof {
            assert(new_cap >= pre.cap >= pre.length);
        }
        while buf.len() < new_cap
            invariant
                pre.wf(),
                *self == pre,
                pre.length <= buf@.len() <= new_cap,
                forall|k: int| 0 <= k < pre.length ==> #[trigger] buf@[k] == pre.buf@[k],
                forall|k: int| pre.length <= k < buf@.len() ==> (#[trigger] buf@[k]) is None,
            decreases new_cap - buf@.len(),
        {
            buf.push(None);
        }
        let final_cap = buf.len();
        self.cap = final_cap;
        self.buf = buf;
        proof {
            assert(self.view_values() =~= pre.view_values());
        }
    }

    /// The backing store's slot count.
    pub closed spec fn spec_cap(self) -> int {
        self.cap as int
    }

    /// Appends a timestamp at the end, growing the store when it is full.
    pub fn append(&mut self, value: u64)
        requires
            old(self).wf(),
            old(self).spec_length() < usize::MAX,
        ensures
            final(self).wf(),
            final(self).view_values() == old(self).view_values().push(value),
            final(self).spec_length() == old(self).spec_length() + 1,
    {
        let ghost pre = *old(self);
        if self.length == self.cap {
            self.grow(self.length + 1);
        }
        let ghost mid = *self;
        self.buf[self.length] = Some(value);
        self.length = self.length + 1;
        proof {
            assert forall|i: int| 0 <= i < self.length implies (#[trigger] self.buf@[i])
                is Some by {
                if i < pre.length {
                    assert(mid.buf@[i] is Some);
                }
            }
            assert forall|i: int| self.length <= i < self.cap implies (#[trigger] self.buf@[i])
                is None by {
                assert(mid.buf@[i] is None);
            }
            assert(self.view_values() =~= pre.view_values().push(value));
        }
    }

    /// The timestamp at `index`, or nothing when `index` is past the end.
    pub fn at(&self, index: usize) -> (result: Option<u64>)
        requires
            self.wf(),
        ensures
            index < self.spec_length() ==> result == Some(self.view_values()[index as int]),
            index >= self.spec_length() ==> result is None,
    {
        if self.length > index {
            self.buf[index]
        } else {
            None
        }
    }

    /// Hands the backing store to a cursor starting at slot 0. The spare
    /// slots past the values yield nothing, as they hold nothing.
    pub fn into_iter(self) -> (it: ListIterator)
        requires
            self.wf(),
        ensures
            it.slots() == self.spec_cap(),
            it.position() == 0,
            forall|i: int|
                0 <= i < self.view_values().len() ==> #[trigger] it.slot_at(i) == Some(
                    self.view_values()[i],
                ),
            forall|i: int| self.spec_length() <= i < it.slots() ==> #[trigger] it.slot_at(i) is None,
    {
        let length = self.length;
        let it = ListIterator::new(0, self.buf);
        proof {
            assert forall|i: int| 0 <= i < length implies #[trigger] it.slot_at(i) == Some(
                self.view_values()[i],
            ) by {
                assert(self.buf@[i] is Some);
            }
        }
        it
    }
}

/// A cursor over a buffer's slots, yielding what each slot holds in turn.
pub struct ListIterator {
    current: usize,
    data: Vec<Option<u64>>,
}

impl ListIterator {
    /// How many slots the cursor was given.
    pub closed spec fn slots(self) -> int {
        self.data@.len() as int
    }

    /// What slot `i` holds.
    pub closed spec fn slot_at(self, i: int) -> Option<u64> {
        self.data@[i]
    }

    /// The slot to be yielded next.
    pub closed spec fn position(self) -> int {
        self.current as int
    }

    /// Starts a cursor over `buf` at slot `index`.
    pub fn new(index: usize, buf: Vec<Option<u64>>) -> (it: ListIterator)
        ensures
            it.position() == index,
            it.slots() == buf@.len(),
            forall|i: int| 0 <= i < buf@.len() ==> #[trigger] it.slot_at(i) == buf@[i],
    {
        ListIterator { current: index, data: buf }
    }

    /// Yields what the next slot holds, or nothing once every slot has been
    /// seen.
    pub fn next(&mut self) -> (result: Option<u64>)
        ensures
            final(self).slots() == old(self).slots(),
            forall|i: int|
                0 <= i < old(self).slots() ==> #[trigger] final(self).slot_at(i) == old(
                    self,
                ).slot_at(i),
            old(self).position() < old(self).slots() ==> result == old(self).slot_at(
                old(self).position(),
            ) && final(self).position() == old(self).position() + 1,
            old(self).position() >= old(self).slots() ==> result is None && final(self).position()
                == old(self).position(),
    {
        if self.current < self.data.len() {
            let item = self.data[self.current];
            self.current = self.current + 1;
            item
        } else {
            None
        }
    }
}

} // verus!
