//! Going through the table: every file and folder, or those that are picked.
use crate::entry::EntryView;
use crate::files::ZipFiles;
use crate::jszip::JSZip;
use crate::object::ZipObject;
use crate::object::{listed_object, ObjectView};
use vstd::prelude::*;

verus! {

/// The objects that show the entries under given keys.
pub open spec fn listing(m: Map<Seq<char>, EntryView>, keys: Seq<Seq<char>>) -> Seq<ObjectView> {
    Seq::new(keys.len(), |i: int| listed_object(keys[i], m[keys[i]]))
}

/// What a list of objects shows.
pub open spec fn object_views(list: Seq<ZipObject>) -> Seq<ObjectView> {
    Seq::new(list.len(), |i: int| list[i]@)
}

/// The objects of a list that are picked.
pub open spec fn picked(list: Seq<ObjectView>, picks: Seq<bool>) -> Seq<ObjectView>
    decreases picks.len(),
{
    if picks.len() == 0 {
        Seq::<ObjectView>::empty()
    } else if picks.last() {
        picked(list, picks.drop_last()).push(list[picks.len() - 1])
    } else {
        picked(list, picks.drop_last())
    }
}

/// Whether a function has given an answer to a key and its object.
pub open spec fn answered<T, E, F: Fn(&String, &ZipObject) -> Result<T, E>>(
    f: F,
    object: ObjectView,
    answer: Result<T, E>,
) -> bool {
    exists|name: &String, o: &ZipObject|
        name@ == object.name && o@ == object && #[trigger] call_ensures(f, (name, o), answer)
}

/// Whether a pattern has given an answer to a key.
pub open spec fn tested<F: Fn(&String) -> bool>(f: F, key: Seq<char>, answer: bool) -> bool {
    exists|name: &String| name@ == key && #[trigger] call_ensures(f, (name,), answer)
}

/// Whether a function has taken the first objects of a list without failing.
pub open spec fn all_taken<E, F: Fn(&String, &ZipObject) -> Result<(), E>>(
    f: F,
    list: Seq<ObjectView>,
    n: int,
) -> bool {
    &&& n <= list.len()
    &&& forall|i: int| 0 <= i < n ==> answered(f, #[trigger] list[i], Ok::<(), E>(()))
}

/// Whether a function has failed on an object of a list, after it took those before it.
pub open spec fn refused_at<E, F: Fn(&String, &ZipObject) -> Result<(), E>>(
    f: F,
    list: Seq<ObjectView>,
    n: int,
    error: E,
) -> bool {
    &&& 0 <= n < list.len()
    &&& all_taken::<E, F>(f, list, n)
    &&& answered(f, list[n], Err::<(), E>(error))
}

/// Whether a function has answered to the first objects of a list without failing.
pub open spec fn all_answered<E, F: Fn(&String, &ZipObject) -> Result<bool, E>>(
    f: F,
    list: Seq<ObjectView>,
    answers: Seq<bool>,
) -> bool {
    &&& answers.len() <= list.len()
    &&& forall|i: int|
        0 <= i < answers.len() ==> answered(f, list[i], Ok::<bool, E>(#[trigger] answers[i]))
}

/// Whether a function has failed on an object of a list, after answers to those before it.
pub open spec fn failed_after<E, F: Fn(&String, &ZipObject) -> Result<bool, E>>(
    f: F,
    list: Seq<ObjectView>,
    answers: Seq<bool>,
    error: E,
) -> bool {
    &&& answers.len() < list.len()
    &&& all_answered::<E, F>(f, list, answers)
    &&& answered(f, list[answers.len() as int], Err::<bool, E>(error))
}

/// Whether picks are those that a pattern makes among given keys: folders alone where asked for,
/// and of them those that match.
pub open spec fn are_matches<F: Fn(&String) -> bool>(
    f: F,
    m: Map<Seq<char>, EntryView>,
    keys: Seq<Seq<char>>,
    only_folders: bool,
    picks: Seq<bool>,
) -> bool {
    &&& picks.len() <= keys.len()
    &&& forall|i: int|
        0 <= i < picks.len() ==> if only_folders && !m[keys[i]].dir {
            !(#[trigger] picks[i])
        } else {
            tested(f, keys[i], picks[i])
        }
}

/// Whether objects are those of a table whose keys match a pattern, folders alone where asked
/// for.
pub open spec fn found_by<F: Fn(&String) -> bool>(
    regex: F,
    files: ZipFiles,
    only_folders: bool,
    found: Seq<ZipObject>,
) -> bool {
    exists|picks: Seq<bool>|
        picks.len() == files.order().len() && #[trigger] are_matches(
            regex,
            files@,
            files.order(),
            only_folders,
            picks,
        ) && object_views(found) == picked(listing(files@, files.order()), picks)
}

impl JSZip {
    /// Every file and folder of the table with its key.
    pub fn files(&self, files: &ZipFiles) -> (r: Vec<(String, ZipObject)>)
        requires
            files.wf(),
        ensures
            r@.len() == files.order().len(),
            forall|i: int|
                0 <= i < r@.len() ==> (#[trigger] r@[i]).0@ == files.order()[i] && r@[i].1@
                    == listed_object(files.order()[i], files@[files.order()[i]]),
    {
        let mut list: Vec<(String, ZipObject)> = Vec::new();
        let n: usize = files.len();
        for i in 0..n
            invariant
                files.wf(),
                n == files.order().len(),
                list@.len() == i,
                forall|j: int|
                    0 <= j < i ==> (#[trigger] list@[j]).0@ == files.order()[j] && list@[j].1@
                        == listed_object(files.order()[j], files@[files.order()[j]]),
        {
            let key = files.key_at(i);
            list.push((key.clone(), ZipObject::listed(key, files.entry_at(i))));
        }
        list
    }

    /// Calls a function on every file and folder of the table, up to its first failure.
    pub fn for_each<E, F: Fn(&String, &ZipObject) -> Result<(), E>>(
        &self,
        files: &ZipFiles,
        callback: F,
    ) -> (r: Result<(), E>)
        requires
            files.wf(),
            forall|name: &String, o: &ZipObject| call_requires(callback, (name, o)),
        ensures
            r is Ok ==> all_taken::<E, F>(
                callback,
                listing(files@, files.order()),
                files.order().len() as int,
            ),
            r matches Err(e) ==> exists|n: int| #[trigger]
                refused_at(callback, listing(files@, files.order()), n, e),
    {
        let n: usize = files.len();
        let ghost list = listing(files@, files.order());
        for i in 0..n
            invariant
                files.wf(),
                n == files.order().len(),
                list == listing(files@, files.order()),
                forall|name: &String, o: &ZipObject| call_requires(callback, (name, o)),
                all_taken::<E, F>(callback, list, i as int),
        {
            let key = files.key_at(i);
            let object = ZipObject::listed(key, files.entry_at(i));
            let answer = callback(key, &object);
            assert(answered(callback, list[i as int], answer));
            match answer {
                Ok(_) => {
                    assert(answer->Ok_0 == ());
                },
                Err(e) => {
                    assert(refused_at(callback, list, i as int, e));
                    return Err(e);
                },
            }
        }
        Ok(())
    }

    /// The files and folders of the table that a function picks, up to its first failure.
    pub fn filter<E, F: Fn(&String, &ZipObject) -> Result<bool, E>>(
        &self,
        files: &ZipFiles,
        predicate: F,
    ) -> (r: Result<Vec<ZipObject>, E>)
        requires
            files.wf(),
            forall|name: &String, o: &ZipObject| call_requires(predicate, (name, o)),
        ensures
            r matches Ok(found) ==> exists|picks: Seq<bool>|
                picks.len() == files.order().len() && #[trigger] all_answered::<E, F>(
                    predicate,
                    listing(files@, files.order()),
                    picks,
                ) && object_views(found@) == picked(listing(files@, files.order()), picks),
            r matches Err(e) ==> exists|picks: Seq<bool>| #[trigger]
                failed_after(predicate, listing(files@, files.order()), picks, e),
    {
        let mut found: Vec<ZipObject> = Vec::new();
        let n: usize = files.len();
        let ghost list = listing(files@, files.order());
        let ghost mut picks: Seq<bool> = Seq::empty();
        assert(object_views(found@) =~= picked(list, picks));
        for i in 0..n
            invariant
                files.wf(),
                n == files.order().len(),
                list == listing(files@, files.order()),
                forall|name: &String, o: &ZipObject| call_requires(predicate, (name, o)),
                picks.len() == i,
                all_answered::<E, F>(predicate, list, picks),
                object_views(found@) == picked(list, picks),
        {
            let key = files.key_at(i);
            let object = ZipObject::listed(key, files.entry_at(i));
            let answer = predicate(key, &object);
            assert(answered(predicate, list[i as int], answer));
            match answer {
                Ok(pick) => {
                    let ghost before = found@;
                    proof {
                        let old_picks = picks;
                        picks = picks.push(pick);
                        assert(picks.drop_last() =~= old_picks);
                    }
                    if pick {
                        found.push(object);
                        assert(object_views(found@) =~= object_views(before).push(object@));
                    }
                },
                Err(e) => {
                    let ghost cause = e;
                    let refused: Result<Vec<ZipObject>, E> = Err(e);
                    assert(refused->Err_0 == cause);
                    assert(failed_after(predicate, list, picks, refused->Err_0));
                    return refused;
                },
            }
        }
        Ok(found)
    }

    /// The files and folders of the table, or the folders alone, whose key matches a pattern.
    pub fn filter_internal<F: Fn(&String) -> bool>(
        &self,
        files: &ZipFiles,
        regex: F,
        only_folders: bool,
    ) -> (r: Vec<ZipObject>)
        requires
            files.wf(),
            forall|name: &String| call_requires(regex, (name,)),
        ensures
            found_by(regex, *files, only_folders, r@),
    {
        let mut found: Vec<ZipObject> = Vec::new();
        let n: usize = files.len();
        let ghost list = listing(files@, files.order());
        let ghost mut picks: Seq<bool> = Seq::empty();
        assert(object_views(found@) =~= picked(list, picks));
        for i in 0..n
            invariant
                files.wf(),
                n == files.order().len(),
                list == listing(files@, files.order()),
                forall|name: &String| call_requires(regex, (name,)),
                picks.len() == i,
                are_matches(regex, files@, files.order(), only_folders, picks),
                object_views(found@) == picked(list, picks),
        {
            let key = files.key_at(i);
            let entry = files.entry_at(i);
            let ghost before = found@;
            let mut pick = false;
            if !only_folders || entry.dir {
                pick = regex(key);
                assert(tested(regex, key@, pick));
            }
            proof {
                let old_picks = picks;
                picks = picks.push(pick);
                assert(picks.drop_last() =~= old_picks);
            }
            if pick {
                let object = ZipObject::listed(key, entry);
                found.push(object);
                assert(object_views(found@) =~= object_views(before).push(object@));
            }
        }
        found
    }
}

} // verus!
