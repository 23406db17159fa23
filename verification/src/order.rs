//! The order in which the entries of a table are written: folders before files, then by depth,
//! then by name.
use crate::entry::EntryView;
use crate::files::ZipFiles;
use crate::text::{count_char, to_chars};
use crate::text::occurrences;
use vstd::prelude::*;

verus! {

/// Whether two texts agree on their first `i` characters.
pub open spec fn agree(a: Seq<char>, b: Seq<char>, i: int) -> bool {
    forall|j: int| 0 <= j < i ==> a[j] == b[j]
}

/// Whether the first place at which two texts differ is `i`, and the first of them is the lesser
/// there: it ends, or it has the lesser character.
pub open spec fn less_at(a: Seq<char>, b: Seq<char>, i: int) -> bool {
    &&& 0 <= i <= a.len()
    &&& i < b.len()
    &&& agree(a, b, i)
    &&& i == a.len() || a[i] < b[i]
}

/// Whether a text comes before another, character by character.
pub open spec fn text_less(a: Seq<char>, b: Seq<char>) -> bool {
    exists|i: int| less_at(a, b, i)
}

/// What decides where an entry is written.
pub struct Rank {
    pub dir: bool,
    pub depth: nat,
    pub name: Seq<char>,
}

/// Whether an entry of one rank is written before one of another.
pub open spec fn rank_before(a: Rank, b: Rank) -> bool {
    if a.dir != b.dir {
        a.dir
    } else if a.depth != b.depth {
        a.depth < b.depth
    } else {
        text_less(a.name, b.name)
    }
}

/// The rank of a key of a table.
pub open spec fn rank_of(m: Map<Seq<char>, EntryView>, key: Seq<char>) -> Rank {
    Rank { dir: m[key].dir, depth: occurrences(key, '/'), name: key }
}

/// Whether keys are those of a table, each once, in the order in which they are written.
pub open spec fn is_archive_order(order: Seq<Seq<char>>, m: Map<Seq<char>, EntryView>) -> bool {
    &&& forall|k: Seq<char>| order.contains(k) <==> #[trigger] m.contains_key(k)
    &&& forall|i: int, j: int|
        0 <= i < j < order.len() ==> rank_before(
            rank_of(m, #[trigger] order[i]),
            rank_of(m, #[trigger] order[j]),
        )
}

/// The keys of a table in the order in which they are written.
pub open spec fn archive_order(m: Map<Seq<char>, EntryView>) -> Seq<Seq<char>> {
    choose|order: Seq<Seq<char>>| is_archive_order(order, m)
}

/// No text comes before itself, and no two texts come before each other.
pub proof fn lemma_text_less_asymmetric(a: Seq<char>, b: Seq<char>)
    requires
        text_less(a, b),
    ensures
        a != b,
        !text_less(b, a),
{
    let i = choose|i: int| less_at(a, b, i);
    if text_less(b, a) {
        let j = choose|j: int| less_at(b, a, j);
        if i < j {
            assert(b[i] == a[i]);
        } else if j < i {
            assert(a[j] == b[j]);
        }
    }
}

/// Where a text comes before a second and that before a third, the first comes before the third.
pub proof fn lemma_text_less_transitive(a: Seq<char>, b: Seq<char>, c: Seq<char>)
    requires
        text_less(a, b),
        text_less(b, c),
    ensures
        text_less(a, c),
{
    let i = choose|i: int| less_at(a, b, i);
    let j = choose|j: int| less_at(b, c, j);
    if i <= j {
        assert(less_at(a, c, i));
    } else {
        assert(less_at(a, c, j));
    }
}

/// Of two different texts one comes before the other.
pub proof fn lemma_text_less_total(a: Seq<char>, b: Seq<char>)
    requires
        a != b,
    ensures
        text_less(a, b) || text_less(b, a),
{
    lemma_first_difference(a, b, 0);
}

proof fn lemma_first_difference(a: Seq<char>, b: Seq<char>, i: int)
    requires
        a != b,
        0 <= i <= a.len(),
        i <= b.len(),
        agree(a, b, i),
    ensures
        text_less(a, b) || text_less(b, a),
    decreases a.len() - i,
{
    if i == a.len() {
        if i == b.len() {
            assert(a =~= b);
        }
        assert(less_at(a, b, i));
    } else if i == b.len() {
        assert(less_at(b, a, i));
    } else if a[i] == b[i] {
        lemma_first_difference(a, b, i + 1);
    } else if a[i] < b[i] {
        assert(less_at(a, b, i));
    } else {
        assert(less_at(b, a, i));
    }
}

proof fn lemma_rank_asymmetric(a: Rank, b: Rank)
    requires
        rank_before(a, b),
    ensures
        !rank_before(b, a),
        a != b,
{
    if a.dir == b.dir && a.depth == b.depth {
        lemma_text_less_asymmetric(a.name, b.name);
    }
}

proof fn lemma_rank_transitive(a: Rank, b: Rank, c: Rank)
    requires
        rank_before(a, b),
        rank_before(b, c),
    ensures
        rank_before(a, c),
{
    if a.dir == b.dir && b.dir == c.dir && a.depth == b.depth && b.depth == c.depth {
        lemma_text_less_transitive(a.name, b.name, c.name);
    }
}

/// A table has one order in which its keys are written: whatever the order of the table, the
/// same archive comes out.
pub proof fn law_archive_order_unique(
    m: Map<Seq<char>, EntryView>,
    x: Seq<Seq<char>>,
    y: Seq<Seq<char>>,
)
    requires
        is_archive_order(x, m),
        is_archive_order(y, m),
    ensures
        x == y,
{
    lemma_prefix_same(m, x, y, 0);
}

proof fn lemma_prefix_same(
    m: Map<Seq<char>, EntryView>,
    x: Seq<Seq<char>>,
    y: Seq<Seq<char>>,
    i: int,
)
    requires
        is_archive_order(x, m),
        is_archive_order(y, m),
        0 <= i <= x.len(),
        i <= y.len(),
        forall|j: int| 0 <= j < i ==> x[j] == y[j],
    ensures
        x == y,
    decreases x.len() - i,
{
    if i == x.len() {
        if i < y.len() {
            assert(y.contains(y[i]));
            assert(m.contains_key(y[i]));
            assert(x.contains(y[i]));
            let k = choose|k: int| 0 <= k < x.len() && x[k] == y[i];
            assert(y[k] == y[i]);
            lemma_rank_asymmetric(rank_of(m, y[k]), rank_of(m, y[i]));
        }
        assert(x =~= y);
    } else {
        assert(x.contains(x[i]));
        assert(m.contains_key(x[i]));
        assert(y.contains(x[i]));
        let p = choose|p: int| 0 <= p < y.len() && y[p] == x[i];
        if p < i {
            assert(x[p] == x[i]);
            lemma_rank_asymmetric(rank_of(m, x[p]), rank_of(m, x[i]));
        }
        assert(y.contains(y[i]));
        assert(m.contains_key(y[i]));
        assert(x.contains(y[i]));
        let q = choose|q: int| 0 <= q < x.len() && x[q] == y[i];
        if q < i {
            assert(y[q] == y[i]);
            lemma_rank_asymmetric(rank_of(m, y[q]), rank_of(m, y[i]));
        }
        if p > i && q > i {
            lemma_rank_asymmetric(rank_of(m, y[i]), rank_of(m, y[p]));
            assert(rank_before(rank_of(m, x[i]), rank_of(m, x[q])));
        }
        assert(x[i] == y[i]);
        lemma_prefix_same(m, x, y, i + 1);
    }
}

/// What decides where an entry is written, worked out once.
struct SortKey {
    dir: bool,
    depth: usize,
    chars: Vec<char>,
}

impl SortKey {
    spec fn rank(&self) -> Rank {
        Rank { dir: self.dir, depth: self.depth as nat, name: self.chars@ }
    }
}

/// Whether places are given in the order in which their entries are written.
spec fn sorted(keys: Seq<SortKey>, places: Seq<usize>) -> bool {
    forall|i: int, j: int|
        0 <= i < j < places.len() ==> rank_before(
            keys[#[trigger] places[i] as int].rank(),
            keys[#[trigger] places[j] as int].rank(),
        )
}

/// Whether places exist and no two of their entries have the same name.
spec fn distinct(keys: Seq<SortKey>, places: Seq<usize>) -> bool {
    &&& forall|i: int| 0 <= i < places.len() ==> #[trigger] places[i] < keys.len()
    &&& forall|i: int, j: int|
        0 <= i < j < places.len() ==> keys[#[trigger] places[i] as int].chars@
            != keys[#[trigger] places[j] as int].chars@
}

fn chars_less(a: &Vec<char>, b: &Vec<char>) -> (r: bool)
    ensures
        r == text_less(a@, b@),
{
    let mut i: usize = 0;
    while i < a.len() && i < b.len() && a[i] == b[i]
        invariant
            i <= a@.len(),
            i <= b@.len(),
            agree(a@, b@, i as int),
        decreases a@.len() - i,
    {
        i = i + 1;
    }
    let r = i < b.len() && (i == a.len() || a[i] < b[i]);
    proof {
        if r {
            assert(less_at(a@, b@, i as int));
        } else if text_less(a@, b@) {
            let k = choose|k: int| less_at(a@, b@, k);
            if k < i {
                assert(a@[k] == b@[k]);
            } else if k > i {
                assert(a@[i as int] == b@[i as int]);
            }
        }
    }
    r
}

fn key_before(a: &SortKey, b: &SortKey) -> (r: bool)
    ensures
        r == rank_before(a.rank(), b.rank()),
{
    if a.dir != b.dir {
        a.dir
    } else if a.depth != b.depth {
        a.depth < b.depth
    } else {
        chars_less(&a.chars, &b.chars)
    }
}

fn merge(keys: &Vec<SortKey>, a: &Vec<usize>, b: &Vec<usize>) -> (r: Vec<usize>)
    requires
        sorted(keys@, a@),
        sorted(keys@, b@),
        distinct(keys@, a@ + b@),
    ensures
        sorted(keys@, r@),
        forall|x: usize| #[trigger] r@.contains(x) <==> (a@ + b@).contains(x),
{
    let mut r: Vec<usize> = Vec::new();
    let mut i: usize = 0;
    let mut j: usize = 0;
    let ghost ab = a@ + b@;
    assert forall|k: int| 0 <= k < a@.len() implies #[trigger] a@[k] < keys@.len() by {
        assert(ab[k] == a@[k]);
    }
    assert forall|k: int| 0 <= k < b@.len() implies #[trigger] b@[k] < keys@.len() by {
        assert(ab[a@.len() + k] == b@[k]);
    }
    assert forall|k: int, l: int| 0 <= k < a@.len() && 0 <= l < b@.len() implies keys@[
        #[trigger] a@[k] as int].chars@ != keys@[#[trigger] b@[l] as int].chars@ by {
        assert(ab[k] == a@[k]);
        assert(ab[a@.len() + l] == b@[l]);
    }
    while i < a.len() || j < b.len()
        invariant
            i <= a@.len(),
            j <= b@.len(),
            sorted(keys@, a@),
            sorted(keys@, b@),
            sorted(keys@, r@),
            r@.len() == i + j,
            forall|k: int| 0 <= k < a@.len() ==> #[trigger] a@[k] < keys@.len(),
            forall|k: int| 0 <= k < b@.len() ==> #[trigger] b@[k] < keys@.len(),
            forall|k: int, l: int|
                0 <= k < a@.len() && 0 <= l < b@.len() ==> keys@[#[trigger] a@[k] as int].chars@
                    != keys@[#[trigger] b@[l] as int].chars@,
            forall|k: int, l: int|
                0 <= k < r@.len() && i <= l < a@.len() ==> rank_before(
                    keys@[#[trigger] r@[k] as int].rank(),
                    keys@[#[trigger] a@[l] as int].rank(),
                ),
            forall|k: int, l: int|
                0 <= k < r@.len() && j <= l < b@.len() ==> rank_before(
                    keys@[#[trigger] r@[k] as int].rank(),
                    keys@[#[trigger] b@[l] as int].rank(),
                ),
            forall|x: usize|
                #[trigger] r@.contains(x) <==> a@.take(i as int).contains(x) || b@.take(
                    j as int,
                ).contains(x),
        decreases a@.len() - i + b@.len() - j,
    {
        let ghost before = r@;
        let from_a = if i == a.len() {
            false
        } else if j == b.len() {
            true
        } else {
            key_before(&keys[a[i]], &keys[b[j]])
        };
        if from_a {
            let x = a[i];
            proof {
                if j < b@.len() {
                    assert forall|l: int| j <= l < b@.len() implies rank_before(
                        keys@[x as int].rank(),
                        keys@[#[trigger] b@[l] as int].rank(),
                    ) by {
                        if l > j {
                            lemma_rank_transitive(
                                keys@[x as int].rank(),
                                keys@[b@[j as int] as int].rank(),
                                keys@[b@[l] as int].rank(),
                            );
                        }
                    }
                }
                lemma_take_contains(a@, i as int);
                lemma_push_contains(before, x);
            }
            r.push(x);
            i = i + 1;
        } else {
            let x = b[j];
            proof {
                if i < a@.len() {
                    lemma_rank_total(keys@[a@[i as int] as int], keys@[x as int]);
                    assert forall|l: int| i <= l < a@.len() implies rank_before(
                        keys@[x as int].rank(),
                        keys@[#[trigger] a@[l] as int].rank(),
                    ) by {
                        if l > i {
                            lemma_rank_transitive(
                                keys@[x as int].rank(),
                                keys@[a@[i as int] as int].rank(),
                                keys@[a@[l] as int].rank(),
                            );
                        }
                    }
                }
                lemma_take_contains(b@, j as int);
                lemma_push_contains(before, x);
            }
            r.push(x);
            j = j + 1;
        }
    }
    proof {
        assert(a@.take(i as int) == a@);
        assert(b@.take(j as int) == b@);
        assert forall|x: usize| #[trigger] r@.contains(x) <==> ab.contains(x) by {
            if a@.contains(x) {
                let k = choose|k: int| 0 <= k < a@.len() && a@[k] == x;
                assert(ab[k] == x);
            }
            if b@.contains(x) {
                let k = choose|k: int| 0 <= k < b@.len() && b@[k] == x;
                assert(ab[a@.len() + k] == x);
            }
            if ab.contains(x) {
                let k = choose|k: int| 0 <= k < ab.len() && ab[k] == x;
                if k < a@.len() {
                    assert(a@[k] == x);
                } else {
                    assert(b@[k - a@.len()] == x);
                }
            }
        }
    }
    r
}

proof fn lemma_rank_total(a: SortKey, b: SortKey)
    requires
        a.chars@ != b.chars@,
    ensures
        rank_before(a.rank(), b.rank()) || rank_before(b.rank(), a.rank()),
{
    lemma_text_less_total(a.chars@, b.chars@);
}

proof fn lemma_take_contains(s: Seq<usize>, i: int)
    requires
        0 <= i < s.len(),
    ensures
        forall|x: usize| #[trigger]
            s.take(i + 1).contains(x) <==> s.take(i).contains(x) || x == s[i],
{
    assert(s.take(i + 1) == s.take(i).push(s[i]));
    lemma_push_contains(s.take(i), s[i]);
}

proof fn lemma_push_contains(s: Seq<usize>, v: usize)
    ensures
        forall|x: usize| #[trigger] s.push(v).contains(x) <==> s.contains(x) || x == v,
{
    assert forall|x: usize| #[trigger] s.push(v).contains(x) <==> s.contains(x) || x == v by {
        if s.contains(x) {
            let k = choose|k: int| 0 <= k < s.len() && s[k] == x;
            assert(s.push(v)[k] == x);
        }
        if x == v {
            assert(s.push(v)[s.len() as int] == x);
        }
        if s.push(v).contains(x) {
            let k = choose|k: int| 0 <= k < s.push(v).len() && s.push(v)[k] == x;
            if k < s.len() {
                assert(s[k] == x);
            }
        }
    }
}

fn merge_sort(keys: &Vec<SortKey>, places: Vec<usize>) -> (r: Vec<usize>)
    requires
        distinct(keys@, places@),
    ensures
        sorted(keys@, r@),
        forall|x: usize| #[trigger] r@.contains(x) <==> places@.contains(x),
    decreases places@.len(),
{
    if places.len() < 2 {
        return places;
    }
    let mut left = places;
    let ghost all = left@;
    let half: usize = left.len() / 2;
    let right = left.split_off(half);
    assert(left@ + right@ == all);
    assert forall|i: int| 0 <= i < right@.len() implies #[trigger] right@[i] == all[half + i] by {}
    let a = merge_sort(keys, left);
    let b = merge_sort(keys, right);
    proof {
        let l = all.subrange(0, half as int);
        let q = all.subrange(half as int, all.len() as int);
        let ab = a@ + b@;
        assert(l + q == all);
        lemma_concat_contains(l, q);
        lemma_concat_contains(a@, b@);
        assert forall|i: int| 0 <= i < ab.len() implies all.contains(#[trigger] ab[i]) && ab[i]
            < keys@.len() by {
            assert(ab.contains(ab[i]));
            let k = choose|k: int| 0 <= k < all.len() && all[k] == ab[i];
            assert(all[k] < keys@.len());
        }
        assert forall|i: int, j: int| 0 <= i < j < ab.len() implies keys@[
            #[trigger] ab[i] as int].chars@ != keys@[#[trigger] ab[j] as int].chars@ by {
            if j < a@.len() {
                lemma_rank_asymmetric(keys@[a@[i] as int].rank(), keys@[a@[j] as int].rank());
            } else if i >= a@.len() {
                lemma_rank_asymmetric(
                    keys@[b@[i - a@.len()] as int].rank(),
                    keys@[b@[j - a@.len()] as int].rank(),
                );
            } else {
                assert(a@.contains(ab[i]) && b@.contains(ab[j]));
                assert(l.contains(ab[i]) && q.contains(ab[j]));
                let s = choose|s: int| 0 <= s < l.len() && l[s] == ab[i];
                let t = choose|t: int| 0 <= t < q.len() && q[t] == ab[j];
                assert(all[s] == ab[i] && all[half + t] == ab[j]);
            }
            lemma_different_names(keys@, all, ab[i], ab[j]);
        }
    }
    merge(keys, &a, &b)
}

proof fn lemma_different_names(keys: Seq<SortKey>, all: Seq<usize>, x: usize, y: usize)
    requires
        distinct(keys, all),
        all.contains(x),
        all.contains(y),
        x != y,
    ensures
        keys[x as int].chars@ != keys[y as int].chars@,
{
    let s = choose|s: int| 0 <= s < all.len() && all[s] == x;
    let t = choose|t: int| 0 <= t < all.len() && all[t] == y;
    if s < t {
        assert(keys[all[s] as int].chars@ != keys[all[t] as int].chars@);
    } else {
        assert(keys[all[t] as int].chars@ != keys[all[s] as int].chars@);
    }
}

proof fn lemma_concat_contains(a: Seq<usize>, b: Seq<usize>)
    ensures
        forall|x: usize| #[trigger] (a + b).contains(x) <==> a.contains(x) || b.contains(x),
{
    let ab = a + b;
    assert forall|x: usize| #[trigger] (a + b).contains(x) <==> a.contains(x) || b.contains(x) by {
        if a.contains(x) {
            let k = choose|k: int| 0 <= k < a.len() && a[k] == x;
            assert(ab[k] == x);
        }
        if b.contains(x) {
            let k = choose|k: int| 0 <= k < b.len() && b[k] == x;
            assert(ab[a.len() + k] == x);
        }
        if ab.contains(x) {
            let k = choose|k: int| 0 <= k < ab.len() && ab[k] == x;
            if k < a.len() {
                assert(a[k] == x);
            } else {
                assert(b[k - a.len()] == x);
            }
        }
    }
}

/// The keys that stand at given places of a table.
pub open spec fn keys_at(order: Seq<Seq<char>>, places: Seq<usize>) -> Seq<Seq<char>> {
    Seq::new(places.len(), |i: int| order[places[i] as int])
}

/// The places of a table, in the order in which their entries are written.
pub fn archive_places(files: &ZipFiles) -> (r: Vec<usize>)
    requires
        files.wf(),
    ensures
        r@.len() == files.order().len(),
        forall|i: int| 0 <= i < r@.len() ==> #[trigger] r@[i] < files.order().len(),
        keys_at(files.order(), r@) == archive_order(files@),
        is_archive_order(archive_order(files@), files@),
        r@.len() == archive_order(files@).len(),
        forall|i: int|
            0 <= i < r@.len() ==> files.order()[#[trigger] r@[i] as int] == archive_order(files@)[i],
{
    let mut keys: Vec<SortKey> = Vec::new();
    let mut places: Vec<usize> = Vec::new();
    let n: usize = files.len();
    for i in 0..n
        invariant
            n == files.order().len(),
            files.wf(),
            keys@.len() == i,
            places@.len() == i,
            forall|j: int| 0 <= j < i ==> #[trigger] places@[j] == j,
            forall|j: int|
                0 <= j < i ==> (#[trigger] keys@[j]).rank() == rank_of(files@, files.order()[j]),
    {
        let chars = to_chars(files.key_at(i));
        let depth = count_char(&chars, '/');
        keys.push(SortKey { dir: files.entry_at(i).dir, depth, chars });
        places.push(i);
    }
    let ghost order = files.order();
    proof {
        assert forall|i: int, j: int| 0 <= i < j < places@.len() implies keys@[
            #[trigger] places@[i] as int].chars@ != keys@[#[trigger] places@[j] as int].chars@ by {
            assert(keys@[i].rank().name == order[i]);
            assert(keys@[j].rank().name == order[j]);
        }
        assert(forall|j: int| 0 <= j < n ==> places@.contains(#[trigger] places@[j]));
    }
    let ghost all = places@;
    let r = merge_sort(&keys, places);
    proof {
        files.lemma_order();
        let sorted_keys = keys_at(order, r@);
        assert forall|i: int| 0 <= i < r@.len() implies #[trigger] r@[i] < n by {
            assert(r@.contains(r@[i]));
            assert(all.contains(r@[i]));
        }
        assert forall|k: Seq<char>| sorted_keys.contains(k) <==> #[trigger] files@.contains_key(
            k,
        ) by {
            if sorted_keys.contains(k) {
                let i = choose|i: int| 0 <= i < sorted_keys.len() && sorted_keys[i] == k;
                assert(order[r@[i] as int] == k);
            }
            if files@.contains_key(k) {
                assert(order.contains(k));
                let j = choose|j: int| 0 <= j < order.len() && order[j] == k;
                assert(all[j] == j);
                assert(r@.contains(j as usize));
                let i = choose|i: int| 0 <= i < r@.len() && r@[i] == j as usize;
                assert(sorted_keys[i] == k);
            }
        }
        assert forall|i: int, j: int| 0 <= i < j < sorted_keys.len() implies rank_before(
            rank_of(files@, #[trigger] sorted_keys[i]),
            rank_of(files@, #[trigger] sorted_keys[j]),
        ) by {
            assert(keys@[r@[i] as int].rank() == rank_of(files@, sorted_keys[i]));
            assert(keys@[r@[j] as int].rank() == rank_of(files@, sorted_keys[j]));
        }
        assert(is_archive_order(sorted_keys, files@));
        law_archive_order_unique(files@, sorted_keys, archive_order(files@));
        assert(r@.len() == n) by {
            lemma_same_length(files@, order, r@);
        }
    }
    r
}

/// Places that give every key of a duplicate-free order once are as many as the keys.
proof fn lemma_same_length(m: Map<Seq<char>, EntryView>, order: Seq<Seq<char>>, places: Seq<usize>)
    requires
        order.no_duplicates(),
        forall|k: Seq<char>| order.contains(k) <==> #[trigger] m.contains_key(k),
        forall|i: int| 0 <= i < places.len() ==> #[trigger] places[i] < order.len(),
        is_archive_order(keys_at(order, places), m),
    ensures
        places.len() == order.len(),
{
    let s = keys_at(order, places);
    assert forall|i: int, j: int| 0 <= i < j < s.len() implies s[i] != s[j] by {
        lemma_rank_asymmetric(rank_of(m, s[i]), rank_of(m, s[j]));
    }
    assert(s.no_duplicates());
    s.unique_seq_to_set();
    order.unique_seq_to_set();
    assert forall|k: Seq<char>| s.to_set().contains(k) <==> order.to_set().contains(k) by {
        assert(s.contains(k) <==> m.contains_key(k));
    }
    assert(s.to_set() =~= order.to_set());
}

} // verus!
