//! A transaction log that can be read from both ends: values are appended at
//! the back, popped from the front, and a detached cursor walks the recorded
//! values forwards or backwards.

use vstd::prelude::*;

verus! {

/// Values as plain mathematical sequences of characters.
pub open spec fn values_view(s: Seq<String>) -> Seq<Seq<char>> {
    s.map_values(|v: String| v@)
}

/// The transaction log: the recorded values in append order, oldest first.
pub struct BetterTransactionLog {
    items: Vec<String>,
    pub length: u64,
}

impl BetterTransactionLog {
    /// The recorded values, oldest first.
    pub closed spec fn view_values(self) -> Seq<Seq<char>> {
        values_view(self.items@)
    }

    /// The value count, as contracts speak of it.
    pub closed spec fn spec_length(self) -> u64 {
        self.length
    }

    /// The count always matches the values held.
    pub closed spec fn wf(self) -> bool {
        self.length == self.items@.len()
    }

    /// Builds a log with no values.
    pub fn new_empty() -> (log: BetterTransactionLog)
        ensures
            log.wf(),
            log.spec_length() == 0,
            log.view_values() == Seq::<Seq<char>>::empty(),
    {
        let log = BetterTransactionLog { items: Vec::new(), length: 0 };
        proof {
            assert(log.view_values() =~= Seq::<Seq<char>>::empty());
        }
        log
    }

    /// Records a value at the back of the log.
    pub fn append(&mut self, value: String)
        requires
            old(self).wf(),
        ensures
            final(self).wf(),
            final(self).view_values() == old(self).view_values().push(value@),
            final(self).spec_length() == old(self).spec_length() + 1,
    {
        let ghost pre = *old(self);
        self.items.push(value);
        let count_now: usize = self.items.len();
        proof {
            assert(self.length < count_now <= usize::MAX);
        }
        self.length = self.length + 1;
        proof {
            assert(self.view_values() =~~= pre.view_values().push(
                self.items@[pre.items@.len() as int]@,
            ));
        }
    }

    /// Takes the oldest value off the front of the log, or nothing when the
    /// log is empty.
    pub fn pop(&mut self) -> (result: Option<String>)
        requires
            old(self).wf(),
        ensures
            final(self).wf(),
            old(self).spec_length() == 0 ==> result is None && final(self).view_values() == old(
                self,
            ).view_values(),
            old(self).spec_length() > 0 ==> match result {
                Some(v) => v@ == old(self).view_values()[0] && final(self).view_values() == old(
                    self,
                ).view_values().drop_first() && final(self).spec_length() == old(
                    self,
                ).spec_length() - 1,
                None => false,
            },
    {
        let ghost pre = *old(self);
        if self.items.len() == 0 {
            None
        } else {
            let value = self.items.remove(0);
            self.length = self.length - 1;
            proof {
                assert(self.view_values() =~~= pre.view_values().drop_first());
            }
            Some(value)
        }
    }

    /// A cursor over the recorded values, starting at the oldest.
    pub fn iter(&self) -> (it: ListIterator)
        requires
            self.wf(),
        ensures
            it.wf(),
            it.all_values() == self.view_values(),
            self.spec_length() == 0 ==> it.cursor() is None,
            self.spec_length() > 0 ==> it.cursor() == Some(0int),
    {
        ListIterator::make(clone_values(&self.items), true)
    }

    /// A cursor over the recorded values, starting at the newest.
    pub fn back_iter(&self) -> (it: ListIterator)
        requires
            self.wf(),
        ensures
            it.wf(),
            it.all_values() == self.view_values(),
            self.spec_length() == 0 ==> it.cursor() is None,
            self.spec_length() > 0 ==> it.cursor() == Some(self.view_values().len() - 1),
    {
        ListIterator::make(clone_values(&self.items), false)
    }
}

/// A value-for-value copy of the recorded values.
fn clone_values(items: &Vec<String>) -> (copy: Vec<String>)
    ensures
        values_view(copy@) == values_view(items@),
{
    let mut copy: Vec<String> = Vec::new();
    let mut i: usize = 0;
    while i < items.len()
        invariant
            i <= items@.len(),
            copy@.len() == i,
            forall|k: int| 0 <= k < i ==> (#[trigger] copy@[k])@ == items@[k]@,
        decreases items@.len() - i,
    {
        copy.push(items[i].clone());
        i += 1;
    }
    proof {
        assert(values_view(copy@) =~~= values_view(items@));
    }
    copy
}

/// A cursor over the log's values. It holds one current position; `next`
/// yields the value there and steps towards the back, `next_back` yields it
/// and steps towards the front. Walking off either end parks the cursor.
pub struct ListIterator {
    values: Vec<String>,
    current: Option<usize>,
}

impl ListIterator {
    /// Every value the cursor was made with, oldest first.
    pub closed spec fn all_values(self) -> Seq<Seq<char>> {
        values_view(self.values@)
    }

    /// The position of the value yielded next, or `None` once parked.
    pub closed spec fn cursor(self) -> Option<int> {
        match self.current {
            Some(i) => Some(i as int),
            None => None,
        }
    }

    /// A parked cursor stays parked; otherwise the position is in range.
    pub open spec fn wf(self) -> bool {
        match self.cursor() {
            Some(i) => 0 <= i < self.all_values().len(),
            None => true,
        }
    }

    /// Starts a cursor at the front or at the back of `values`.
    fn make(values: Vec<String>, front: bool) -> (it: ListIterator)
        ensures
            it.wf(),
            it.all_values() == values_view(values@),
            values@.len() == 0 ==> it.cursor() is None,
            values@.len() > 0 && front ==> it.cursor() == Some(0int),
            values@.len() > 0 && !front ==> it.cursor() == Some(values@.len() - 1),
    {
        let n = values.len();
        if n == 0 {
            ListIterator { values, current: None }
        } else if front {
            ListIterator { values, current: Some(0) }
        } else {
            ListIterator { values, current: Some(n - 1) }
        }
    }

    /// Yields the value under the cursor and steps towards the back.
    pub fn next(&mut self) -> (result: Option<String>)
        requires
            old(self).wf(),
        ensures
            final(self).wf(),
            final(self).all_values() == old(self).all_values(),
            match old(self).cursor() {
                Some(i) => (match result {
                    Some(v) => v@ == old(self).all_values()[i],
                    None => false,
                }) && final(self).cursor() == (if i + 1 < old(self).all_values().len() {
                    Some(i + 1)
                } else {
                    None::<int>
                }),
                None => result is None && final(self).cursor() is None,
            },
    {
        match self.current {
            Some(i) => {
                let n = self.values.len();
                let value = self.values[i].clone();
                self.current = if i + 1 < n {
                    Some(i + 1)
                } else {
                    None
                };
                Some(value)
            },
            None => None,
        }
    }

    /// Yields the value under the cursor and steps towards the front.
    pub fn next_back(&mut self) -> (result: Option<String>)
        requires
            old(self).wf(),
        ensures
            final(self).wf(),
            final(self).all_values() == old(self).all_values(),
            match old(self).cursor() {
                Some(i) => (match result {
                    Some(v) => v@ == old(self).all_values()[i],
                    None => false,
                }) && final(self).cursor() == (if i > 0 {
                    Some(i - 1)
                } else {
                    None::<int>
                }),
                None => result is None && final(self).cursor() is None,
            },
    {
        match self.current {
            Some(i) => {
                let value = self.values[i].clone();
                self.current = if i > 0 {
                    Some(i - 1)
                } else {
                    None
                };
                Some(value)
            },
            None => None,
        }
    }
}

} // verus!
