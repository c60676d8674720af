//! Rows of a keyed list that grows and shrinks: fresh keys for new rows and
//! removal of a row by key.
use vstd::prelude::*;

verus! {

/// Hands out keys in strictly increasing order, so keys never repeat.
pub struct KeyCounter {
    next: usize,
}

impl KeyCounter {
    pub closed spec fn spec_next(self) -> nat {
        self.next as nat
    }

    /// A counter whose first key is `start`.
    pub fn new(start: usize) -> (k: KeyCounter)
        ensures
            k.spec_next() == start,
    {
        KeyCounter { next: start }
    }

    /// The next key, or `None` once every `usize` key was handed out.
    pub fn next_key(&mut self) -> (r: Option<usize>)
        ensures
            match r {
                Some(key) => {
                    &&& key == old(self).spec_next()
                    &&& final(self).spec_next() == old(self).spec_next() + 1
                },
                None => old(self).spec_next() == usize::MAX && *final(self) == *old(self),
            },
    {
        if self.next == usize::MAX {
            return None;
        }
        let key = self.next;
        self.next = self.next + 1;
        Some(key)
    }
}

/// Removes the first row whose key is `key`, and says whether there was one.
pub fn remove_row<T>(rows: &mut Vec<(usize, T)>, key: usize) -> (r: bool)
    ensures
        r == exists|i: int| 0 <= i < old(rows)@.len() && old(rows)@[i].0 == key,
        r ==> exists|i: int|
            0 <= i < old(rows)@.len() && old(rows)@[i].0 == key && (forall|j: int|
                0 <= j < i ==> old(rows)@[j].0 != key) && final(rows)@ == old(rows)@.remove(i),
        !r ==> final(rows)@ == old(rows)@,
{
    let mut i: usize = 0;
    while i < rows.len()
        invariant
            rows@ == old(rows)@,
            i <= rows@.len(),
            forall|j: int| 0 <= j < i ==> rows@[j].0 != key,
        decreases rows@.len() - i,
    {
        if rows[i].0 == key {
            rows.remove(i);
            return true;
        }
        i = i + 1;
    }
    false
}

} // verus!
