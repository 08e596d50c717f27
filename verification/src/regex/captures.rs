//! The text that groups have captured during a match attempt.

use crate::text::copy_chars;
use vstd::prelude::*;

verus! {

/// The capture slots of one match attempt: for each group that has completed,
/// by its number counted from one, the text that it matched last.
#[derive(Debug)]
pub struct Captures {
    slots: Vec<Option<Vec<char>>>,
}

/// The text in the slot of group `n`, if that slot is filled.
pub open spec fn slot_text(slots: Seq<Option<Vec<char>>>, n: nat) -> Option<Seq<char>> {
    if 1 <= n <= slots.len() {
        match slots[n - 1] {
            Some(text) => Some(text@),
            None => None,
        }
    } else {
        None
    }
}

/// The slots as a map from group numbers, which start at one.
pub open spec fn slots_map(slots: Seq<Option<Vec<char>>>) -> Map<nat, Seq<char>> {
    Map::new(
        |n: nat| slot_text(slots, n) is Some,
        |n: nat| slot_text(slots, n).unwrap(),
    )
}

impl View for Captures {
    type V = Map<nat, Seq<char>>;

    closed spec fn view(&self) -> Map<nat, Seq<char>> {
        slots_map(self.slots@)
    }
}

impl Captures {
    /// No group has captured anything.
    pub fn new() -> (captures: Captures)
        ensures
            captures@ == Map::<nat, Seq<char>>::empty(),
    {
        let captures = Captures { slots: Vec::new() };
        assert(captures@ =~= Map::<nat, Seq<char>>::empty());
        captures
    }

    /// The text that group `n` captured, if it has captured any.
    pub fn get(&self, n: usize) -> (text: Option<&Vec<char>>)
        ensures
            match text {
                Some(t) => self@.contains_key(n as nat) && self@[n as nat] == t@,
                None => !self@.contains_key(n as nat),
            },
    {
        if n == 0 || n > self.slots.len() {
            None
        } else {
            match &self.slots[n - 1] {
                Some(t) => Some(t),
                None => None,
            }
        }
    }

    /// Records `text` as what group `n` captured, in place of what it may
    /// have captured before.
    pub fn set(&mut self, n: usize, text: Vec<char>)
        requires
            n >= 1,
        ensures
            final(self)@ == old(self)@.insert(n as nat, text@),
    {
        while self.slots.len() < n
            invariant
                self@ == old(self)@,
            decreases n - self.slots.len(),
        {
            let ghost before = self.slots@;
            self.slots.push(None);
            assert(self@ =~= slots_map(before)) by {
                assert forall|k: nat| slot_text(self.slots@, k) == slot_text(before, k) by {}
            }
        }
        let ghost before = self.slots@;
        self.slots[n - 1] = Some(text);
        assert(self@ =~= old(self)@.insert(n as nat, text@)) by {
            assert forall|k: nat| k != n implies slot_text(self.slots@, k) == slot_text(
                before,
                k,
            ) by {}
            assert(slot_text(self.slots@, n as nat) == Some(text@));
        }
    }

    /// A copy of the captures as they stand.
    pub fn snapshot(&self) -> (copy: Captures)
        ensures
            copy@ == self@,
    {
        let mut slots: Vec<Option<Vec<char>>> = Vec::new();
        let mut i: usize = 0;
        while i < self.slots.len()
            invariant
                i <= self.slots.len(),
                slots@.len() == i,
                forall|k: nat| 1 <= k <= i ==> slot_text(slots@, k) == slot_text(self.slots@, k),
            decreases self.slots.len() - i,
        {
            let slot = match &self.slots[i] {
                Some(text) => Some(copy_chars(text)),
                None => None,
            };
            let ghost before = slots@;
            slots.push(slot);
            i += 1;
            assert forall|k: nat| 1 <= k <= i implies slot_text(slots@, k) == slot_text(
                self.slots@,
                k,
            ) by {
                if k < i {
                    assert(slot_text(slots@, k) == slot_text(before, k));
                }
            }
        }
        let copy = Captures { slots };
        assert(copy@ =~= self@) by {
            assert forall|k: nat| slot_text(copy.slots@, k) == slot_text(self.slots@, k) by {}
        }
        copy
    }
}

} // verus!
