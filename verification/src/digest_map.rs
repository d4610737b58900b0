//! A map whose keys are digests: byte strings of any length.
//!
//! The keys are found through a table that is keyed by a number made of
//! their first bytes, so that a digest is held against few others.

use std::collections::HashMap;
use vstd::prelude::*;
use crate::bytes::bytes_equal;

verus! {

/// One key of a `DigestMap` with its value.
struct Slot<V> {
    key: Vec<u8>,
    value: V,
}

/// A map from digests to values of `V`. No digest is held twice.
pub struct DigestMap<V> {
    slots: Vec<Slot<V>>,
    buckets: HashMap<u64, Vec<usize>>,
}

/// Where `key` is held in `slots`, if it is held.
spec fn slot_of<V>(slots: Seq<Slot<V>>, key: Seq<u8>) -> int {
    choose|i: int| 0 <= i < slots.len() && slots[i].key@ == key
}

/// The number that the first `count` bytes of `key` make.
spec fn short_of(key: Seq<u8>, count: int) -> u64
    decreases count,
{
    if count <= 0 {
        0
    } else {
        ((short_of(key, count - 1) * 256 + key[count - 1]) % 0x1_0000_0000_0000_0000) as u64
    }
}

/// The number under which `key` is looked up: that of its first eight bytes,
/// or of all its bytes where it has fewer.
spec fn short(key: Seq<u8>) -> u64 {
    short_of(
        key,
        if key.len() < 8 {
            key.len() as int
        } else {
            8
        },
    )
}

/// The number under which `key` is looked up.
fn shorten(key: &[u8]) -> (r: u64)
    ensures
        r == short(key@),
{
    let count: usize = if key.len() < 8 {
        key.len()
    } else {
        8
    };
    let mut r: u64 = 0;
    let mut i: usize = 0;
    while i < count
        invariant
            i <= count <= key@.len(),
            r == short_of(key@, i as int),
        decreases count - i,
    {
        r = ((r as u128 * 256 + key[i] as u128) % 0x1_0000_0000_0000_0000) as u64;
        i = i + 1;
    }
    r
}

impl<V> View for DigestMap<V> {
    type V = Map<Seq<u8>, V>;

    closed spec fn view(&self) -> Map<Seq<u8>, V> {
        Map::new(
            |key: Seq<u8>| exists|i: int| 0 <= i < self.slots@.len() && self.slots@[i].key@ == key,
            |key: Seq<u8>| self.slots@[slot_of(self.slots@, key)].value,
        )
    }
}

/// The table knows every slot: the list under the number of the key of a slot
/// names the slot, and no list names what is no slot.
spec fn indexed<V>(slots: Seq<Slot<V>>, buckets: Map<u64, Vec<usize>>) -> bool {
    &&& forall|i: int|
        0 <= i < slots.len() ==> buckets.contains_key(short((#[trigger] slots[i]).key@))
            && buckets[short(slots[i].key@)]@.contains(i as usize)
    &&& forall|number: u64, j: int|
        buckets.contains_key(number) && 0 <= j < buckets[number]@.len() ==> (
        #[trigger] buckets[number]@[j]) < slots.len()
}

impl<V> DigestMap<V> {
    /// No digest is held twice, and every digest is found through the table.
    pub closed spec fn wf(&self) -> bool {
        &&& forall|i: int, j: int|
            0 <= i < j < self.slots@.len() ==> (#[trigger] self.slots@[i]).key@ != (
            #[trigger] self.slots@[j]).key@
        &&& indexed(self.slots@, self.buckets@)
    }

    /// A map that holds nothing.
    pub fn new() -> (m: DigestMap<V>)
        ensures
            m.wf(),
            m@ == Map::<Seq<u8>, V>::empty(),
    {
        let m = DigestMap { slots: Vec::new(), buckets: HashMap::new() };
        assert(m@ =~= Map::<Seq<u8>, V>::empty());
        m
    }

    /// Where `key` is held, if it is held.
    fn find(&self, key: &[u8]) -> (r: Option<usize>)
        requires
            self.wf(),
        ensures
            match r {
                Some(i) => i < self.slots@.len() && self.slots@[i as int].key@ == key@,
                None => forall|i: int| 0 <= i < self.slots@.len() ==> self.slots@[i].key@ != key@,
            },
    {
        broadcast use vstd::std_specs::hash::group_hash_axioms;

        let number = shorten(key);
        let list = match self.buckets.get(&number) {
            Some(list) => list,
            None => {
                return None;
            },
        };
        let mut j: usize = 0;
        proof {
            vstd::std_specs::vec::axiom_spec_len(&self.slots);
        }
        while j < list.len()
            invariant
                j <= list@.len(),
                number == short(key@),
                self.slots@.len() <= usize::MAX,
                self.buckets@.contains_key(number),
                self.buckets@[number] == *list,
                indexed(self.slots@, self.buckets@),
                forall|k: int| 0 <= k < j ==> self.slots@[list@[k] as int].key@ != key@,
            decreases list.len() - j,
        {
            let at = list[j];
            assert(self.buckets@[number]@[j as int] == at);
            if bytes_equal(self.slots[at].key.as_slice(), key) {
                return Some(at);
            }
            j = j + 1;
        }
        proof {
            assert forall|i: int| 0 <= i < self.slots@.len() implies self.slots@[i].key@
                != key@ by {
                if self.slots@[i].key@ == key@ {
                    assert(list@.contains(i as usize));
                    let k = choose|k: int| 0 <= k < list@.len() && list@[k] == i as usize;
                    assert(self.slots@[list@[k] as int].key@ != key@);
                }
            }
        }
        None
    }

    /// Whether a value is held for `key`.
    pub fn contains(&self, key: &[u8]) -> (b: bool)
        requires
            self.wf(),
        ensures
            b == self@.contains_key(key@),
    {
        self.find(key).is_some()
    }

    /// The value that is held for `key`.
    pub fn get(&self, key: &[u8]) -> (r: Option<&V>)
        requires
            self.wf(),
        ensures
            match r {
                Some(value) => self@.contains_key(key@) && *value == self@[key@],
                None => !self@.contains_key(key@),
            },
    {
        match self.find(key) {
            Some(i) => {
                proof {
                    let j = slot_of(self.slots@, key@);
                    assert(self.slots@[j].key@ == key@);
                    assert(j == i);
                }
                Some(&self.slots[i].value)
            },
            None => None,
        }
    }

    /// Notes in the table that the slot `at` holds a key of the number
    /// `number`.
    fn note(&mut self, number: u64, at: usize)
        ensures
            final(self).slots == old(self).slots,
            final(self).buckets@.dom() == old(self).buckets@.dom().insert(number),
            final(self).buckets@[number]@ == (if old(self).buckets@.contains_key(number) {
                old(self).buckets@[number]@
            } else {
                Seq::empty()
            }).push(at),
            forall|other: u64|
                other != number && old(self).buckets@.contains_key(other) ==> #[trigger] final(self).buckets@[other]
                    == old(self).buckets@[other],
    {
        broadcast use vstd::std_specs::hash::group_hash_axioms;

        let mut list = match self.buckets.remove(&number) {
            Some(list) => list,
            None => Vec::new(),
        };
        list.push(at);
        self.buckets.insert(number, list);
        assert(final(self).buckets@.dom() =~= old(self).buckets@.dom().insert(number));
    }

    /// Holds `value` for `key` from now on, in place of what was held for it.
    pub fn insert(&mut self, key: Vec<u8>, value: V)
        requires
            old(self).wf(),
        ensures
            final(self).wf(),
            final(self)@ == old(self)@.insert(key@, value),
    {
        let ghost before = self.slots@;
        let ghost table = self.buckets@;
        let ghost k = key@;
        match self.find(key.as_slice()) {
            Some(i) => {
                self.slots.set(i, Slot { key, value });
                proof {
                    let after = self.slots@;
                    assert forall|a: int| 0 <= a < after.len() implies table.contains_key(
                        short((#[trigger] after[a]).key@),
                    ) && table[short(after[a].key@)]@.contains(a as usize) by {
                        assert(after[a].key@ == before[a].key@);
                    }
                    assert forall|x: Seq<u8>| #[trigger]
                        final(self)@.contains_key(x) == old(self)@.insert(k, value).contains_key(
                            x,
                        ) by {
                        if (exists|a: int| 0 <= a < after.len() && after[a].key@ == x) {
                            let a = choose|a: int| 0 <= a < after.len() && after[a].key@ == x;
                            assert(before[a].key@ == x);
                        }
                        if (exists|a: int| 0 <= a < before.len() && before[a].key@ == x) {
                            let a = choose|a: int| 0 <= a < before.len() && before[a].key@ == x;
                            assert(after[a].key@ == x);
                        }
                        if x == k {
                            assert(after[i as int].key@ == x);
                        }
                    }
                    assert forall|x: Seq<u8>| #[trigger]
                        final(self)@.contains_key(x) implies final(self)@[x] == old(self)@.insert(
                        k,
                        value,
                    )[x] by {
                        let a = slot_of(after, x);
                        assert(before[a].key@ == x);
                        let b = slot_of(before, x);
                        assert(a == b);
                    }
                    assert(final(self)@ =~= old(self)@.insert(k, value));
                }
            },
            None => {
                let number = shorten(key.as_slice());
                let at = self.slots.len();
                self.slots.push(Slot { key, value });
                self.note(number, at);
                proof {
                    let after = self.slots@;
                    let noted = self.buckets@;
                    assert forall|a: int| 0 <= a < after.len() implies noted.contains_key(
                        short((#[trigger] after[a]).key@),
                    ) && noted[short(after[a].key@)]@.contains(a as usize) by {
                        if a < before.len() {
                            assert(after[a] == before[a]);
                            let other = short(before[a].key@);
                            assert(table.contains_key(other));
                            assert(table[other]@.contains(a as usize));
                            if other == number {
                                let j = choose|j: int|
                                    0 <= j < table[other]@.len() && table[other]@[j] == a as usize;
                                assert(noted[number]@[j] == a as usize);
                            }
                        } else {
                            assert(noted[number]@[noted[number]@.len() - 1] == at);
                        }
                    }
                    assert forall|other: u64, j: int|
                        noted.contains_key(other) && 0 <= j < noted[other]@.len() implies (
                    #[trigger] noted[other]@[j]) < after.len() by {
                        if other == number {
                            if j < noted[number]@.len() - 1 {
                                assert(table.contains_key(number));
                                assert(table[number]@[j] < before.len());
                            }
                        } else {
                            assert(table.contains_key(other));
                            assert(table[other]@[j] < before.len());
                        }
                    }
                    assert forall|x: Seq<u8>| #[trigger]
                        final(self)@.contains_key(x) == old(self)@.insert(k, value).contains_key(
                            x,
                        ) by {
                        if (exists|a: int| 0 <= a < after.len() && after[a].key@ == x) {
                            let a = choose|a: int| 0 <= a < after.len() && after[a].key@ == x;
                            if a < before.len() {
                                assert(before[a].key@ == x);
                            }
                        }
                        if (exists|a: int| 0 <= a < before.len() && before[a].key@ == x) {
                            let a = choose|a: int| 0 <= a < before.len() && before[a].key@ == x;
                            assert(after[a].key@ == x);
                        }
                        if x == k {
                            assert(after[before.len() as int].key@ == x);
                        }
                    }
                    assert forall|x: Seq<u8>| #[trigger]
                        final(self)@.contains_key(x) implies final(self)@[x] == old(self)@.insert(
                        k,
                        value,
                    )[x] by {
                        let a = slot_of(after, x);
                        if x != k {
                            assert(before[a].key@ == x);
                            let b = slot_of(before, x);
                            assert(a == b);
                        }
                    }
                    assert(final(self)@ =~= old(self)@.insert(k, value));
                }
            },
        }
    }
}

} // verus!
