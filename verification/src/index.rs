//! Finding a key among the keys of the table.
use crate::text::to_chars;
use std::collections::HashMap;
use vstd::prelude::*;
use vstd::std_specs::hash::group_hash_axioms;

verus! {

broadcast use group_hash_axioms;

/// A number that is computed from a text. Equal texts have equal numbers.
pub open spec fn fingerprint(s: Seq<char>) -> u64
    decreases s.len(),
{
    if s.len() == 0 {
        5381
    } else {
        fingerprint(s.drop_last()).wrapping_mul(33).wrapping_add(s.last() as u64)
    }
}

/// The number that is computed from a text.
fn fingerprint_of(s: &str) -> (r: u64)
    ensures
        r == fingerprint(s@),
{
    let chars = to_chars(s);
    let mut r: u64 = 5381;
    let n: usize = chars.len();
    for i in 0..n
        invariant
            n == chars@.len(),
            r == fingerprint(chars@.take(i as int)),
    {
        assert(chars@.take(i as int + 1).drop_last() == chars@.take(i as int));
        r = r.wrapping_mul(33).wrapping_add(chars[i] as u64);
    }
    assert(chars@.take(n as int) == chars@);
    r
}

/// The places of keys by their fingerprints.
pub struct KeyIndex {
    places: HashMap<u64, Vec<usize>>,
}

/// Whether a list of places holds a place.
pub open spec fn holds_place(list: Seq<usize>, i: int) -> bool {
    exists|j: int| 0 <= j < list.len() && #[trigger] list[j] == i
}

impl KeyIndex {
    closed spec fn lists(&self, print: u64, i: int) -> bool {
        self.places@.contains_key(print) && holds_place(self.places@[print]@, i)
    }

    /// Whether the index is that of given keys: it leads from the fingerprint of each key to its
    /// place, and to no place that there is not.
    pub closed spec fn covers(&self, keys: Seq<Seq<char>>) -> bool {
        &&& forall|i: int|
            0 <= i < keys.len() ==> self.lists(fingerprint(#[trigger] keys[i]), i)
        &&& forall|print: u64, j: int|
            self.places@.contains_key(print) && 0 <= j < self.places@[print]@.len() ==> (
            #[trigger] self.places@[print]@[j]) < keys.len()
    }

    /// The index of no keys.
    pub fn new() -> (r: KeyIndex)
        ensures
            r.covers(Seq::<Seq<char>>::empty()),
    {
        KeyIndex { places: HashMap::new() }
    }

    /// The places at which a key may be. It is at no other.
    pub fn find(&self, key: &str) -> (r: Option<&Vec<usize>>)
        ensures
            forall|keys: Seq<Seq<char>>| #[trigger]
                self.covers(keys) ==> match r {
                    Some(list) => {
                        &&& forall|j: int|
                            0 <= j < list@.len() ==> (#[trigger] list@[j]) < keys.len()
                        &&& forall|i: int|
                            0 <= i < keys.len() && #[trigger] keys[i] == key@ ==> holds_place(
                                list@,
                                i,
                            )
                    },
                    None => !keys.contains(key@),
                },
    {
        let print: u64 = fingerprint_of(key);
        let r = self.places.get(&print);
        proof {
            assert forall|keys: Seq<Seq<char>>| #[trigger]
                self.covers(keys) && r is None implies !keys.contains(key@) by {
                if keys.contains(key@) {
                    let i = choose|i: int| 0 <= i < keys.len() && keys[i] == key@;
                    assert(self.lists(fingerprint(keys[i]), i));
                }
            }
        }
        r
    }

    /// Enters a key whose place comes after those of the keys that are there.
    pub fn enter(&mut self, key: &str, place: usize)
        ensures
            forall|keys: Seq<Seq<char>>| #[trigger]
                old(self).covers(keys) && keys.len() == place ==> final(self).covers(
                    keys.push(key@),
                ),
    {
        let print: u64 = fingerprint_of(key);
        let mut list: Vec<usize> = match self.places.remove(&print) {
            Some(list) => list,
            None => Vec::new(),
        };
        let ghost before = list@;
        list.push(place);
        self.places.insert(print, list);
        proof {
            let a = *old(self);
            let b = *self;
            assert forall|keys: Seq<Seq<char>>| #[trigger]
                a.covers(keys) && keys.len() == place implies b.covers(keys.push(key@)) by {
                let more = keys.push(key@);
                assert forall|i: int| 0 <= i < more.len() implies b.lists(
                    fingerprint(#[trigger] more[i]),
                    i,
                ) by {
                    if i < keys.len() {
                        assert(more[i] == keys[i]);
                        let p = fingerprint(keys[i]);
                        assert(a.lists(p, i));
                        let j = choose|j: int|
                            0 <= j < a.places@[p]@.len() && #[trigger] a.places@[p]@[j] == i;
                        assert(b.places@[p]@[j] == i);
                    } else {
                        assert(b.places@[print]@[before.len() as int] == i);
                    }
                }
                assert forall|p: u64, j: int|
                    b.places@.contains_key(p) && 0 <= j < b.places@[p]@.len() implies (
                #[trigger] b.places@[p]@[j]) < more.len() by {
                    if p == print && j == before.len() {
                    } else {
                        assert(a.places@.contains_key(p));
                        assert(a.places@[p]@[j] == b.places@[p]@[j]);
                    }
                }
            }
        }
    }
}

} // verus!
