//! The table of unspent outputs: for each output that some visitor wanted
//! to remember, what the visitor made of it, until the output is spent.

use crate::hash;
use crate::hash_table::HashTable;
use vstd::prelude::*;

verus! {

/// Whether any slot holds something.
fn any_some<T>(slots: &Vec<Option<T>>) -> (r: bool)
    ensures
        r == exists|i: int| 0 <= i < slots@.len() && (#[trigger] slots@[i]).is_some(),
{
    let mut i: usize = 0;
    while i < slots.len()
        invariant
            i <= slots@.len(),
            forall|j: int| 0 <= j < i ==> (#[trigger] slots@[j]).is_none(),
        decreases slots@.len() - i,
    {
        if slots[i].is_some() {
            return true;
        }
        i = i + 1;
    }
    false
}

/// What `slots` holds at `index`.
pub open spec fn slot_at<T>(slots: Seq<Option<T>>, index: nat) -> Option<T> {
    if index < slots.len() {
        slots[index as int]
    } else {
        None
    }
}

/// From transaction hash and output index to what the visitor made of
/// that output. The outputs of one transaction are held densely, by index.
pub struct OutputItems<T> {
    table: HashTable<Vec<Option<T>>>,
}

impl<T> View for OutputItems<T> {
    type V = Map<(hash::Hash, nat), T>;

    closed spec fn view(&self) -> Map<(hash::Hash, nat), T> {
        Map::new(
            |p: (hash::Hash, nat)|
                self.table@.contains_key(p.0) && slot_at(self.table@[p.0]@, p.1).is_some(),
            |p: (hash::Hash, nat)| slot_at(self.table@[p.0]@, p.1).unwrap(),
        )
    }
}

impl<T> OutputItems<T> {
    /// The invariant of the table.
    pub closed spec fn wf(&self) -> bool {
        self.table.wf()
    }

    /// The table without outputs.
    pub fn new() -> (t: Self)
        ensures
            t.wf(),
            t@ == Map::<(hash::Hash, nat), T>::empty(),
    {
        let t = OutputItems { table: HashTable::new() };
        proof {
            assert(t@ =~= Map::<(hash::Hash, nat), T>::empty());
        }
        t
    }

    /// Whether the table holds something for output `index` of `txid`.
    pub fn contains(&self, txid: &hash::Hash, index: u32) -> (r: bool)
        requires
            self.wf(),
        ensures
            r == self@.contains_key((*txid, index as nat)),
    {
        match self.table.get(txid) {
            None => false,
            Some(slots) => (index as usize) < slots.len() && slots[index as usize].is_some(),
        }
    }

    /// What the table holds for output `index` of `txid`.
    pub fn get(&self, txid: &hash::Hash, index: u32) -> (r: Option<&T>)
        requires
            self.wf(),
        ensures
            match r {
                Some(item) => self@.contains_key((*txid, index as nat)) && *item == self@[(
                    *txid,
                    index as nat,
                )],
                None => !self@.contains_key((*txid, index as nat)),
            },
    {
        match self.table.get(txid) {
            None => None,
            Some(slots) => {
                if (index as usize) < slots.len() {
                    slots[index as usize].as_ref()
                } else {
                    None
                }
            },
        }
    }

    /// Takes out what the table holds for output `index` of `txid`: the
    /// output is spent.
    pub fn take(&mut self, txid: &hash::Hash, index: u32) -> (r: Option<T>)
        requires
            old(self).wf(),
        ensures
            final(self).wf(),
            final(self)@ == old(self)@.remove((*txid, index as nat)),
            r == (if old(self)@.contains_key((*txid, index as nat)) {
                Some(old(self)@[(*txid, index as nat)])
            } else {
                None
            }),
    {
        let mut slots = match self.table.remove(txid) {
            Some(s) => s,
            None => {
                proof {
                    assert(self@ =~= old(self)@.remove((*txid, index as nat)));
                }
                return None;
            },
        };
        let ghost held = slots@;
        let k: usize = index as usize;
        if k >= slots.len() {
            self.table.insert(*txid, slots);
            proof {
                assert(self.table@ =~= old(self).table@);
                assert(self@ =~= old(self)@.remove((*txid, index as nat)));
            }
            return None;
        }
        slots.push(None);
        let item = slots.swap_remove(k);
        proof {
            assert(slots@ =~= held.update(k as int, None));
        }
        let ghost left = slots@;
        if any_some(&slots) {
            self.table.insert(*txid, slots);
        }
        proof {
            assert forall|p: (hash::Hash, nat)| #[trigger]
                self@.contains_key(p) == old(self)@.remove((*txid, index as nat)).contains_key(
                    p,
                ) by {
                if p.0 == *txid {
                    if p.1 < left.len() {
                        assert(left[p.1 as int] == (if p.1 == k {
                            None
                        } else {
                            held[p.1 as int]
                        }));
                    }
                }
            }
            assert(self@ =~= old(self)@.remove((*txid, index as nat)));
        }
        item
    }

    /// Remembers `item` for output `index` of `txid`.
    pub fn put(&mut self, txid: hash::Hash, index: usize, item: T)
        requires
            old(self).wf(),
        ensures
            final(self).wf(),
            final(self)@ == old(self)@.insert((txid, index as nat), item),
    {
        let mut slots = match self.table.remove(&txid) {
            Some(s) => s,
            None => Vec::new(),
        };
        let ghost held = slots@;
        while slots.len() <= index
            invariant
                held.len() <= slots@.len(),
                forall|i: int| 0 <= i < held.len() ==> slots@[i] == held[i],
                forall|i: int| held.len() <= i < slots@.len() ==> (#[trigger] slots@[i]).is_none(),
            decreases index + 1 - slots@.len(),
        {
            slots.push(None);
        }
        slots[index] = Some(item);
        let ghost filled = slots@;
        self.table.insert(txid, slots);
        proof {
            assert forall|p: (hash::Hash, nat)| #[trigger]
                self@.contains_key(p) == old(self)@.insert(
                    (txid, index as nat),
                    item,
                ).contains_key(p) by {
                if p.0 == txid && p.1 < filled.len() && p.1 != index {
                    if p.1 < held.len() {
                        assert(filled[p.1 as int] == held[p.1 as int]);
                    } else {
                        assert(filled[p.1 as int].is_none());
                    }
                }
            }
            assert forall|p: (hash::Hash, nat)| #[trigger]
                self@.contains_key(p) implies self@[p] == old(self)@.insert(
                (txid, index as nat),
                item,
            )[p] by {
                if p.0 == txid && p.1 < filled.len() && p.1 != index {
                    if p.1 < held.len() {
                        assert(filled[p.1 as int] == held[p.1 as int]);
                    }
                }
            }
            assert(self@ =~= old(self)@.insert((txid, index as nat), item));
        }
    }
}

} // verus!
