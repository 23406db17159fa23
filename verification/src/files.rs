//! The table of files and folders.
use crate::entry::ZipEntry;
use crate::entry::{fits, EntryView};
use crate::index::KeyIndex;
use crate::index::holds_place;
use crate::text::starts_with;
use vstd::prelude::*;

verus! {

/// The files and folders of an archive, each under its key. Every key occurs once.
pub struct ZipFiles {
    slots: Vec<(String, ZipEntry)>,
    index: KeyIndex,
}

/// Whether a key is a name, or lies under a prefix.
pub open spec fn in_tree(key: Seq<char>, name: Seq<char>, prefix: Seq<char>) -> bool {
    key == name || prefix.is_prefix_of(key)
}

/// What is left of a table when a name and everything under a prefix is taken out.
pub open spec fn without_tree(
    m: Map<Seq<char>, EntryView>,
    name: Seq<char>,
    prefix: Seq<char>,
) -> Map<Seq<char>, EntryView> {
    Map::new(|k: Seq<char>| m.contains_key(k) && !in_tree(k, name, prefix), |k: Seq<char>| m[k])
}

/// A table with an entry put in where the key is free.
pub open spec fn insert_new(
    m: Map<Seq<char>, EntryView>,
    key: Seq<char>,
    e: EntryView,
) -> Map<Seq<char>, EntryView> {
    if m.contains_key(key) {
        m
    } else {
        m.insert(key, e)
    }
}

/// Whether every entry of a table may stand under its key.
pub open spec fn all_fit(m: Map<Seq<char>, EntryView>) -> bool {
    forall|k: Seq<char>| #[trigger] m.contains_key(k) ==> fits(k, m[k])
}

/// The keys of slots.
spec fn keys_of(slots: Seq<(String, ZipEntry)>) -> Seq<Seq<char>> {
    Seq::new(slots.len(), |i: int| slots[i].0@)
}

impl View for ZipFiles {
    type V = Map<Seq<char>, EntryView>;

    /// The entry under each key.
    closed spec fn view(&self) -> Map<Seq<char>, EntryView> {
        Map::new(
            |k: Seq<char>| self.order().contains(k),
            |k: Seq<char>| self.slots@[self.order().index_of(k)].1@,
        )
    }
}

impl ZipFiles {
    /// The keys, in the order of the table.
    pub closed spec fn order(&self) -> Seq<Seq<char>> {
        keys_of(self.slots@)
    }

    /// Whether the index is that of the keys.
    pub closed spec fn indexed(&self) -> bool {
        self.index.covers(self.order())
    }

    /// Every key occurs once and is found, and every entry may stand under its key.
    pub open spec fn wf(&self) -> bool {
        &&& self.order().no_duplicates()
        &&& all_fit(self@)
        &&& self.indexed()
    }

    /// The keys in the order of the table are the keys that have an entry.
    pub proof fn lemma_order(&self)
        ensures
            forall|k: Seq<char>| #[trigger] self@.contains_key(k) <==> self.order().contains(k),
            self.order().to_set() == self@.dom(),
    {
        assert(self.order().to_set() =~= self@.dom());
    }

    proof fn lemma_slot(&self, i: int)
        requires
            self.order().no_duplicates(),
            0 <= i < self.slots@.len(),
        ensures
            self.order()[i] == self.slots@[i].0@,
            self@.contains_key(self.slots@[i].0@),
            self@[self.slots@[i].0@] == self.slots@[i].1@,
    {
        let k = self.order()[i];
        assert(self.order().contains(k));
        let j = self.order().index_of(k);
        assert(0 <= j < self.order().len() && self.order()[j] == k);
    }

    /// An empty table.
    pub fn new() -> (r: ZipFiles)
        ensures
            r.wf(),
            r@ == Map::<Seq<char>, EntryView>::empty(),
            r.order() == Seq::<Seq<char>>::empty(),
    {
        let r = ZipFiles { slots: Vec::new(), index: KeyIndex::new() };
        assert(r.order() =~= Seq::<Seq<char>>::empty());
        assert(r@ =~= Map::<Seq<char>, EntryView>::empty());
        r
    }

    /// How many entries there are.
    pub fn len(&self) -> (r: usize)
        ensures
            r == self.order().len(),
    {
        self.slots.len()
    }

    fn position(&self, key: &str) -> (r: Option<usize>)
        requires
            self.wf(),
        ensures
            match r {
                Some(i) => i < self.order().len() && self.order()[i as int] == key@
                    && self@.contains_key(key@),
                None => !self@.contains_key(key@),
            },
    {
        let wanted = key.to_owned();
        let list = match self.index.find(key) {
            Some(list) => list,
            None => {
                return None;
            },
        };
        let n: usize = list.len();
        for j in 0..n
            invariant
                n == list@.len(),
                wanted@ == key@,
                forall|x: int| 0 <= x < n ==> (#[trigger] list@[x]) < self.order().len(),
                forall|x: int| 0 <= x < j ==> self.order()[#[trigger] list@[x] as int] != key@,
        {
            let i: usize = list[j];
            if self.slots[i].0 == wanted {
                assert(self.order()[i as int] == key@);
                return Some(i);
            }
        }
        proof {
            if self.order().contains(key@) {
                let i = self.order().index_of(key@);
                assert(self.order()[i] == key@);
                assert(holds_place(list@, i));
                let x = choose|x: int| 0 <= x < list@.len() && #[trigger] list@[x] == i;
                assert(self.order()[list@[x] as int] == key@);
            }
        }
        None
    }

    /// The entry under a key.
    pub fn get(&self, key: &str) -> (r: Option<&ZipEntry>)
        requires
            self.wf(),
        ensures
            match r {
                Some(e) => self@.contains_key(key@) && e@ == self@[key@],
                None => !self@.contains_key(key@),
            },
    {
        match self.position(key) {
            Some(i) => {
                proof {
                    self.lemma_slot(i as int);
                }
                Some(&self.slots[i].1)
            },
            None => None,
        }
    }

    /// The key at a place of the table.
    pub fn key_at(&self, i: usize) -> (r: &String)
        requires
            i < self.order().len(),
        ensures
            r@ == self.order()[i as int],
    {
        &self.slots[i].0
    }

    /// The entry at a place of the table.
    pub fn entry_at(&self, i: usize) -> (r: &ZipEntry)
        requires
            self.wf(),
            i < self.order().len(),
        ensures
            self@.contains_key(self.order()[i as int]),
            r@ == self@[self.order()[i as int]],
    {
        proof {
            self.lemma_slot(i as int);
        }
        &self.slots[i].1
    }

    /// Puts an entry under a key, in place of the one that is there.
    pub(crate) fn insert(&mut self, key: String, entry: ZipEntry)
        requires
            old(self).wf(),
            fits(key@, entry@),
        ensures
            final(self).wf(),
            final(self)@ == old(self)@.insert(key@, entry@),
    {
        let found = self.position(&key);
        let ghost k = key@;
        let ghost e = entry@;
        match found {
            Some(i) => {
                self.slots.set(i, (key, entry));
                assert(self.order() =~= old(self).order());
            },
            None => {
                self.index.enter(&key, self.slots.len());
                self.slots.push((key, entry));
                assert(self.order() =~= old(self).order().push(k));
            },
        }
        proof {
            let a = *old(self);
            let b = *self;
            assert(b.order().no_duplicates());
            let m = a@.insert(k, e);
            assert forall|x: Seq<char>|
                (#[trigger] b@.dom().contains(x) <==> m.dom().contains(x)) && (
                b@.dom().contains(x) ==> b@[x] == m[x]) by {
                if b.order().contains(x) {
                    let j = b.order().index_of(x);
                    b.lemma_slot(j);
                    if j < a.order().len() {
                        a.lemma_slot(j);
                    }
                }
                if a.order().contains(x) {
                    let j = a.order().index_of(x);
                    assert(b.order()[j] == x);
                }
                if x == k {
                    match found {
                        Some(i) => {
                            assert(b.order()[i as int] == x);
                        },
                        None => {
                            assert(b.order()[b.order().len() - 1] == x);
                        },
                    }
                }
            }
            assert(b@.dom() =~= m.dom());
            assert(b@ =~= m);
        }
    }

    /// Puts an entry under a key where the key is free.
    pub(crate) fn insert_if_absent(&mut self, key: String, entry: ZipEntry)
        requires
            old(self).wf(),
            fits(key@, entry@),
        ensures
            final(self).wf(),
            final(self)@ == insert_new(old(self)@, key@, entry@),
    {
        if self.position(&key).is_none() {
            self.insert(key, entry);
        }
    }

    /// Takes out a name and everything under a prefix.
    pub(crate) fn remove_tree(&mut self, name: &String, prefix: &str)
        requires
            old(self).wf(),
        ensures
            final(self).wf(),
            final(self)@ == without_tree(old(self)@, name@, prefix@),
    {
        let mut slots: Vec<(String, ZipEntry)> = Vec::new();
        std::mem::swap(&mut slots, &mut self.slots);
        let ghost all = slots@;
        let ghost mut from: Seq<int> = Seq::empty();
        let mut kept: Vec<(String, ZipEntry)> = Vec::new();
        let mut index = KeyIndex::new();
        assert(keys_of(kept@) =~= Seq::<Seq<char>>::empty());
        for slot in it: slots
            invariant
                index.covers(keys_of(kept@)),
                it.seq() == all,
                all == old(self).slots@,
                from.len() == kept@.len(),
                forall|j: int|
                    0 <= j < from.len() ==> 0 <= #[trigger] from[j] < it.index() && kept@[j]
                        == all[from[j]] && !in_tree(all[from[j]].0@, name@, prefix@),
                forall|j: int, l: int| 0 <= j < l < from.len() ==> from[j] < from[l],
                forall|i: int|
                    0 <= i < it.index() && !in_tree(#[trigger] all[i].0@, name@, prefix@)
                        ==> from.contains(i),
        {
            let ghost before = from;
            if slot.0 != *name && !starts_with(&slot.0, prefix) {
                let ghost before_keys = keys_of(kept@);
                let ghost key = slot.0@;
                index.enter(&slot.0, kept.len());
                kept.push(slot);
                proof {
                    assert(keys_of(kept@) =~= before_keys.push(key));
                    from = from.push(it.index() as int);
                    assert(from[from.len() - 1] == it.index());
                }
            }
            assert forall|i: int|
                0 <= i < it.index() + 1 && !in_tree(#[trigger] all[i].0@, name@, prefix@) implies from.contains(
                i,
            ) by {
                if i < it.index() {
                    assert(before.contains(i));
                    let j = choose|j: int| 0 <= j < before.len() && before[j] == i;
                    assert(from[j] == i);
                }
            }
        }
        self.slots = kept;
        self.index = index;
        proof {
            assert(self.order() =~= keys_of(self.slots@));
            let a = *old(self);
            let b = *self;
            let m = without_tree(a@, name@, prefix@);
            assert forall|j: int, l: int| 0 <= j < l < b.order().len() implies b.order()[j]
                != b.order()[l] by {
                assert(b.order()[j] == a.order()[from[j]]);
                assert(b.order()[l] == a.order()[from[l]]);
                assert(from[j] < from[l]);
            }
            assert(b.order().no_duplicates());
            assert forall|x: Seq<char>|
                (#[trigger] b@.dom().contains(x) <==> m.dom().contains(x)) && (
                b@.dom().contains(x) ==> b@[x] == m[x]) by {
                if b.order().contains(x) {
                    let j = b.order().index_of(x);
                    b.lemma_slot(j);
                    a.lemma_slot(from[j]);
                }
                if m.contains_key(x) {
                    let i = a.order().index_of(x);
                    assert(all[i].0@ == x);
                    assert(from.contains(i));
                    let j = choose|j: int| 0 <= j < from.len() && from[j] == i;
                    assert(b.order()[j] == x);
                }
            }
            assert(b@.dom() =~= m.dom());
            assert(b@ =~= m);
        }
    }
}

impl Clone for ZipFiles {
    /// The same table once more.
    fn clone(&self) -> (r: ZipFiles)
        ensures
            r@ == self@,
            r.order() == self.order(),
            r.indexed(),
    {
        let mut slots: Vec<(String, ZipEntry)> = Vec::new();
        let mut index = KeyIndex::new();
        let n: usize = self.slots.len();
        assert(keys_of(slots@) =~= Seq::<Seq<char>>::empty());
        for i in 0..n
            invariant
                index.covers(keys_of(slots@)),
                n == self.slots@.len(),
                slots@.len() == i,
                forall|j: int|
                    0 <= j < i ==> (#[trigger] slots@[j]).0@ == self.slots@[j].0@ && slots@[j].1@
                        == self.slots@[j].1@,
        {
            let ghost before = keys_of(slots@);
            index.enter(&self.slots[i].0, i);
            slots.push((self.slots[i].0.clone(), self.slots[i].1.clone()));
            assert(keys_of(slots@) =~= before.push(self.slots@[i as int].0@));
        }
        let r = ZipFiles { slots, index };
        proof {
            assert(r.order() =~= self.order());
            assert forall|k: Seq<char>| self@.contains_key(k) implies r@[k] == self@[k] by {
                let i = self.order().index_of(k);
                assert(0 <= i < self.slots@.len());
            }
            assert(r@ =~= self@);
        }
        r
    }
}

} // verus!
