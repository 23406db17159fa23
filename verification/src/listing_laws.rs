//! What holds of going through the table.
use crate::files::ZipFiles;
use crate::listing::{all_answered, all_taken, are_matches, failed_after, found_by, listing};
use crate::listing::{object_views, picked, refused_at, tested};
use crate::object::ZipObject;
use crate::object::{listed_object, ObjectView};
use vstd::prelude::*;

verus! {

/// Whether places are those of the picks that are `true`, in their order.
pub open spec fn are_places(picks: Seq<bool>, from: Seq<int>) -> bool {
    &&& forall|j: int| 0 <= j < from.len() ==> 0 <= #[trigger] from[j] < picks.len()
    &&& forall|j: int| 0 <= j < from.len() ==> picks[#[trigger] from[j]]
    &&& forall|j: int, l: int|
        0 <= j < l < from.len() ==> #[trigger] from[j] < #[trigger] from[l]
    &&& forall|i: int| 0 <= i < picks.len() && #[trigger] picks[i] ==> from.contains(i)
}

proof fn lemma_places(list: Seq<ObjectView>, picks: Seq<bool>) -> (from: Seq<int>)
    ensures
        are_places(picks, from),
        picked(list, picks).len() == from.len(),
        from.len() == picks.filter(|b: bool| b).len(),
        forall|j: int| 0 <= j < from.len() ==> picked(list, picks)[j] == list[#[trigger] from[j]],
    decreases picks.len(),
{
    reveal(Seq::filter);
    if picks.len() == 0 {
        Seq::<int>::empty()
    } else {
        let less = picks.drop_last();
        let n = picks.len() - 1;
        let before = lemma_places(list, less);
        let from = if picks.last() {
            before.push(n)
        } else {
            before
        };
        assert forall|i: int| 0 <= i < picks.len() && #[trigger] picks[i] implies from.contains(
            i,
        ) by {
            if i < n {
                assert(less[i]);
                let j = choose|j: int| 0 <= j < before.len() && before[j] == i;
                assert(from[j] == i);
            } else {
                assert(from[before.len() as int] == i);
            }
        }
        assert forall|j: int| 0 <= j < from.len() implies picks[#[trigger] from[j]] by {
            if j < before.len() {
                assert(less[before[j]]);
            }
        }
        from
    }
}

/// What is picked of a list is every object whose pick is `true`, once, in the order of the list,
/// and nothing else; as many objects as there are picks that are `true`.
pub proof fn law_picked(list: Seq<ObjectView>, picks: Seq<bool>)
    requires
        picks.len() <= list.len(),
    ensures
        picked(list, picks).len() == picks.filter(|b: bool| b).len(),
        exists|from: Seq<int>|
            from.len() == picked(list, picks).len() && #[trigger] are_places(picks, from) && forall|
                j: int,
            |
                0 <= j < from.len() ==> picked(list, picks)[j] == list[#[trigger] from[j]],
        forall|i: int| 0 <= i < picks.len() && #[trigger] picks[i] ==> picked(list, picks).contains(
            list[i],
        ),
{
    let from = lemma_places(list, picks);
    let r = picked(list, picks);
    assert forall|i: int| 0 <= i < picks.len() && #[trigger] picks[i] implies r.contains(
        list[i],
    ) by {
        let j = choose|j: int| 0 <= j < from.len() && from[j] == i;
        assert(r[j] == list[from[j]]);
    }
}

/// A filter hands out an entry of the table where the function answers `true` to it, once, and
/// no other entry: as many objects as there were such answers, in the order of the table.
pub proof fn law_filter<E, F: Fn(&String, &ZipObject) -> Result<bool, E>>(
    predicate: F,
    files: ZipFiles,
    found: Seq<ZipObject>,
    picks: Seq<bool>,
)
    requires
        files.wf(),
        picks.len() == files.order().len(),
        all_answered::<E, F>(predicate, listing(files@, files.order()), picks),
        object_views(found) == picked(listing(files@, files.order()), picks),
    ensures
        forall|i: int|
            #![trigger picks[i]]
            0 <= i < picks.len() ==> (picks[i] <==> exists|j: int|
                0 <= j < found.len() && (#[trigger] found[j])@.name == files.order()[i]),
        forall|j: int|
            0 <= j < found.len() ==> files@.contains_key((#[trigger] found[j])@.name) && found[j]@
                == listed_object(found[j]@.name, files@[found[j]@.name]),
        found.len() == picks.filter(|b: bool| b).len(),
{
    let keys = files.order();
    let list = listing(files@, keys);
    let from = lemma_places(list, picks);
    files.lemma_order();
    assert(object_views(found).len() == found.len());
    assert forall|j: int| 0 <= j < found.len() implies (#[trigger] found[j])@ == list[from[j]] by {
        assert(object_views(found)[j] == found[j]@);
    }
    assert forall|j: int| 0 <= j < found.len() implies files@.contains_key(
        (#[trigger] found[j])@.name,
    ) && found[j]@ == listed_object(found[j]@.name, files@[found[j]@.name]) by {
        assert(keys.contains(keys[from[j]]));
        assert(found[j]@ == listed_object(keys[from[j]], files@[keys[from[j]]]));
    }
    assert forall|i: int|
        #![trigger picks[i]]
        0 <= i < picks.len() implies (picks[i] <==> exists|j: int|
        0 <= j < found.len() && (#[trigger] found[j])@.name == keys[i]) by {
        if picks[i] {
            let j = choose|j: int| 0 <= j < from.len() && from[j] == i;
            assert(found[j]@.name == keys[i]);
        }
        if exists|j: int| 0 <= j < found.len() && (#[trigger] found[j])@.name == keys[i] {
            let j = choose|j: int| 0 <= j < found.len() && (#[trigger] found[j])@.name == keys[i];
            assert(found[j]@.name == keys[from[j]]);
            assert(from[j] == i);
            assert(picks[from[j]]);
        }
    }
}

/// A filter asks the function about every entry, by its key and with what the entry shows.
pub proof fn law_filter_asks<E, F: Fn(&String, &ZipObject) -> Result<bool, E>>(
    predicate: F,
    files: ZipFiles,
    picks: Seq<bool>,
    i: int,
)
    requires
        files.wf(),
        all_answered::<E, F>(predicate, listing(files@, files.order()), picks),
        0 <= i < picks.len(),
    ensures
        i < files.order().len(),
        exists|name: &String, o: &ZipObject|
            name@ == files.order()[i] && o@.name == name@ && o@.dir
                == files@[files.order()[i]].dir && o@.data is None && #[trigger] call_ensures(
                predicate,
                (name, o),
                Ok::<bool, E>(picks[i]),
            ),
{
    let list = listing(files@, files.order());
    let answer = picks[i];
    let (name, o) = choose|name: &String, o: &ZipObject|
        name@ == list[i].name && o@ == list[i] && #[trigger] call_ensures(
            predicate,
            (name, o),
            Ok::<bool, E>(answer),
        );
    assert(name@ == files.order()[i]);
}

/// A filter that fails has asked about the entries in the order of the table, up to the one on
/// which the function failed, and hands out its error.
pub proof fn law_filter_failure<E, F: Fn(&String, &ZipObject) -> Result<bool, E>>(
    predicate: F,
    files: ZipFiles,
    picks: Seq<bool>,
    error: E,
)
    requires
        files.wf(),
        failed_after(predicate, listing(files@, files.order()), picks, error),
    ensures
        picks.len() < files.order().len(),
        exists|name: &String, o: &ZipObject|
            name@ == files.order()[picks.len() as int] && o@.name == name@
                && #[trigger] call_ensures(predicate, (name, o), Err::<bool, E>(error)),
{
    let list = listing(files@, files.order());
    let (name, o) = choose|name: &String, o: &ZipObject|
        name@ == list[picks.len() as int].name && o@ == list[picks.len() as int]
            && #[trigger] call_ensures(predicate, (name, o), Err::<bool, E>(error));
    assert(name@ == files.order()[picks.len() as int]);
}

/// A pattern is tried on every folder of the table, or on every entry where not folders alone are
/// asked for, and an entry is found exactly where it matches: one that is not found was tried and
/// did not match. Nothing is found twice.
pub proof fn law_patterns_find_all<F: Fn(&String) -> bool>(
    regex: F,
    files: ZipFiles,
    only_folders: bool,
    found: Seq<ZipObject>,
    key: Seq<char>,
)
    requires
        files.wf(),
        found_by(regex, files, only_folders, found),
        files@.contains_key(key),
        files@[key].dir || !only_folders,
    ensures
        (exists|j: int| 0 <= j < found.len() && (#[trigger] found[j])@.name == key) || (exists|
            name: &String,
        |
            name@ == key && #[trigger] call_ensures(regex, (name,), false)),
        forall|j: int|
            0 <= j < found.len() && (#[trigger] found[j])@.name == key ==> exists|name: &String|
                name@ == key && #[trigger] call_ensures(regex, (name,), true),
        forall|j: int|
            0 <= j < found.len() && (#[trigger] found[j])@.name == key ==> found[j]@
                == listed_object(key, files@[key]),
        forall|j: int, l: int|
            0 <= j < l < found.len() ==> (#[trigger] found[j])@.name != (
            #[trigger] found[l])@.name,
{
    let keys = files.order();
    let list = listing(files@, keys);
    let picks = choose|picks: Seq<bool>|
        picks.len() == keys.len() && #[trigger] are_matches(
            regex,
            files@,
            keys,
            only_folders,
            picks,
        ) && object_views(found) == picked(list, picks);
    let from = lemma_places(list, picks);
    files.lemma_order();
    assert(object_views(found).len() == found.len());
    assert forall|j: int| 0 <= j < found.len() implies (#[trigger] found[j])@.name == keys[from[j]]
        && found[j]@ == listed_object(keys[from[j]], files@[keys[from[j]]]) by {
        assert(object_views(found)[j] == found[j]@);
    }
    let i = keys.index_of(key);
    assert(keys[i] == key);
    assert(picks[i] ==> from.contains(i));
    assert(tested(regex, key, picks[i]));
    if picks[i] {
        let j = choose|j: int| 0 <= j < from.len() && from[j] == i;
        assert(found[j]@.name == key);
    }
    assert forall|j: int| 0 <= j < found.len() && (#[trigger] found[j])@.name == key implies exists|
        name: &String,
    |
        name@ == key && #[trigger] call_ensures(regex, (name,), true) by {
        assert(from[j] == i);
        assert(picks[from[j]]);
    }
    assert forall|j: int, l: int| 0 <= j < l < found.len() implies (#[trigger] found[j])@.name != (
    #[trigger] found[l])@.name by {
        assert(from[j] < from[l]);
    }
}

/// Going through the table without failure calls the function on every entry, by its key and with
/// what the entry shows in a listing.
pub proof fn law_visits<E, F: Fn(&String, &ZipObject) -> Result<(), E>>(
    callback: F,
    files: ZipFiles,
    key: Seq<char>,
)
    requires
        files.wf(),
        all_taken::<E, F>(
            callback,
            listing(files@, files.order()),
            files.order().len() as int,
        ),
        files@.contains_key(key),
    ensures
        exists|name: &String, o: &ZipObject|
            name@ == key && o@.name == key && o@.dir == files@[key].dir && o@.comment
                == files@[key].comment && o@.data is None && #[trigger] call_ensures(
                callback,
                (name, o),
                Ok::<(), E>(()),
            ),
{
    let keys = files.order();
    let list = listing(files@, keys);
    files.lemma_order();
    let i = keys.index_of(key);
    assert(keys[i] == key);
    assert(list[i] == listed_object(key, files@[key]));
    let (name, o) = choose|name: &String, o: &ZipObject|
        name@ == list[i].name && o@ == list[i] && #[trigger] call_ensures(
            callback,
            (name, o),
            Ok::<(), E>(()),
        );
    assert(name@ == key);
}

/// Going through the table ends with the error of the first entry on which the function fails, and
/// that is an entry of the table.
pub proof fn law_visit_failure<E, F: Fn(&String, &ZipObject) -> Result<(), E>>(
    callback: F,
    files: ZipFiles,
    n: int,
    error: E,
)
    requires
        files.wf(),
        refused_at(callback, listing(files@, files.order()), n, error),
    ensures
        0 <= n < files.order().len(),
        exists|name: &String, o: &ZipObject|
            name@ == files.order()[n] && o@.name == name@ && #[trigger] call_ensures(
                callback,
                (name, o),
                Err::<(), E>(error),
            ),
{
    let list = listing(files@, files.order());
    let (name, o) = choose|name: &String, o: &ZipObject|
        name@ == list[n].name && o@ == list[n] && #[trigger] call_ensures(
            callback,
            (name, o),
            Err::<(), E>(error),
        );
    assert(name@ == files.order()[n]);
}

/// The list of all files and folders holds every key of the table once, and nothing else.
pub proof fn law_files_lists_all(files: ZipFiles, r: Seq<(String, ZipObject)>, key: Seq<char>)
    requires
        files.wf(),
        r.len() == files.order().len(),
        forall|i: int|
            0 <= i < r.len() ==> (#[trigger] r[i]).0@ == files.order()[i] && r[i].1@
                == listed_object(files.order()[i], files@[files.order()[i]]),
    ensures
        files@.contains_key(key) <==> exists|i: int| 0 <= i < r.len() && (#[trigger] r[i]).0@ == key,
        forall|i: int, j: int|
            0 <= i < j < r.len() ==> (#[trigger] r[i]).0@ != (#[trigger] r[j]).0@,
        forall|i: int| 0 <= i < r.len() ==> (#[trigger] r[i]).1@.name == r[i].0@,
{
    files.lemma_order();
    if files@.contains_key(key) {
        let i = files.order().index_of(key);
        assert(r[i].0@ == key);
    }
    if exists|i: int| 0 <= i < r.len() && (#[trigger] r[i]).0@ == key {
        let i = choose|i: int| 0 <= i < r.len() && (#[trigger] r[i]).0@ == key;
        assert(files.order().contains(files.order()[i]));
    }
}

} // verus!
