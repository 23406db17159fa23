//! What holds of paths.
use crate::entry::folder_name;
use crate::jszip::folder_key;
use crate::path::{denotes_folder, folder_at, is_control, is_idle, is_parent, is_separator, join};
use crate::path::{kept, nonempty, parent_folders, resolved, sanitized, split, strip_controls};
use crate::path::trim_slashes;
use crate::text::ends_in;
use vstd::prelude::*;

verus! {

/// Whether a text holds no separator.
pub open spec fn is_component(part: Seq<char>, backslash: bool) -> bool {
    forall|i: int| 0 <= i < part.len() ==> !is_separator(#[trigger] part[i], backslash)
}

/// Whether a text is a component that names something.
pub open spec fn is_name(part: Seq<char>) -> bool {
    is_component(part, true) && !is_idle(part) && !is_parent(part)
}

/// Whether texts are components that name something.
pub open spec fn all_names(parts: Seq<Seq<char>>) -> bool {
    forall|i: int| 0 <= i < parts.len() ==> is_name(#[trigger] parts[i])
}

/// Whether a key is safe: taken apart at slashes and backslashes, every component of it names
/// something; there may be one slash more at the end, and the empty key is safe too.
pub open spec fn is_safe(key: Seq<char>) -> bool {
    let parts = split(key, true);
    &&& forall|i: int| 0 <= i < key.len() ==> #[trigger] key[i] != '\\'
    &&& forall|i: int|
        0 <= i < parts.len() ==> is_name(#[trigger] parts[i]) || (i == parts.len() - 1
            && parts[i].len() == 0)
}

proof fn lemma_split_components(s: Seq<char>, backslash: bool)
    ensures
        split(s, backslash).len() > 0,
        forall|i: int|
            0 <= i < split(s, backslash).len() ==> is_component(
                #[trigger] split(s, backslash)[i],
                backslash,
            ),
    decreases s.len(),
{
    if s.len() > 0 {
        let parts = split(s.drop_last(), backslash);
        lemma_split_components(s.drop_last(), backslash);
        if !is_separator(s.last(), backslash) {
            assert(is_component(parts.last(), backslash));
            assert(is_component(parts.last().push(s.last()), backslash));
        }
    }
}

proof fn lemma_split_append(s: Seq<char>, part: Seq<char>, backslash: bool)
    requires
        is_component(part, backslash),
    ensures
        split(s + part, backslash) == split(s, backslash).drop_last().push(
            split(s, backslash).last() + part,
        ),
    decreases part.len(),
{
    lemma_split_components(s, backslash);
    let parts = split(s, backslash);
    if part.len() == 0 {
        assert(s + part =~= s);
        assert(parts.last() + part =~= parts.last());
        assert(parts.drop_last().push(parts.last()) =~= parts);
    } else {
        let less = part.drop_last();
        assert(is_component(less, backslash));
        lemma_split_append(s, less, backslash);
        assert((s + part).drop_last() =~= s + less);
        assert((s + part).last() == part.last());
        let before = split(s + less, backslash);
        assert(before.drop_last() =~= parts.drop_last());
        assert(before.last().push(part.last()) =~= parts.last() + part);
    }
}

proof fn lemma_split_join(parts: Seq<Seq<char>>, backslash: bool)
    requires
        parts.len() > 0,
        forall|i: int| 0 <= i < parts.len() ==> is_component(#[trigger] parts[i], backslash),
    ensures
        split(join(parts), backslash) == parts,
    decreases parts.len(),
{
    if parts.len() == 1 {
        let empty = Seq::<char>::empty();
        lemma_split_append(empty, parts[0], backslash);
        assert(empty + parts[0] =~= parts[0]);
        assert(split(empty, backslash) =~= seq![empty]);
        assert(split(join(parts), backslash) =~= parts);
    } else {
        let less = parts.drop_last();
        assert forall|i: int| 0 <= i < less.len() implies is_component(
            #[trigger] less[i],
            backslash,
        ) by {
            assert(less[i] == parts[i]);
        }
        lemma_split_join(less, backslash);
        let head = join(less).push('/');
        assert(head.drop_last() =~= join(less));
        assert(split(head, backslash) == less.push(Seq::<char>::empty()));
        lemma_split_append(head, parts.last(), backslash);
        assert(less.push(Seq::<char>::empty()).drop_last() =~= less);
        assert(Seq::<char>::empty() + parts.last() =~= parts.last());
        assert(less.push(parts.last()) =~= parts);
    }
}

proof fn lemma_split_join_slash(parts: Seq<Seq<char>>, backslash: bool)
    requires
        parts.len() > 0,
        forall|i: int| 0 <= i < parts.len() ==> is_component(#[trigger] parts[i], backslash),
    ensures
        split(join(parts).push('/'), backslash) == parts.push(Seq::<char>::empty()),
{
    lemma_split_join(parts, backslash);
    assert(join(parts).push('/').drop_last() =~= join(parts));
}

proof fn lemma_kept_names(parts: Seq<Seq<char>>)
    requires
        forall|i: int| 0 <= i < parts.len() ==> is_component(#[trigger] parts[i], true),
    ensures
        all_names(kept(parts)),
    decreases parts.len(),
{
    if parts.len() > 0 {
        let less = parts.drop_last();
        assert forall|i: int| 0 <= i < less.len() implies is_component(
            #[trigger] less[i],
            true,
        ) by {
            assert(less[i] == parts[i]);
        }
        lemma_kept_names(less);
    }
}

proof fn lemma_kept_same(parts: Seq<Seq<char>>)
    requires
        all_names(parts),
    ensures
        kept(parts) == parts,
    decreases parts.len(),
{
    if parts.len() > 0 {
        let less = parts.drop_last();
        assert(all_names(less));
        lemma_kept_same(less);
        assert(is_name(parts[parts.len() - 1]));
        assert(less.push(parts.last()) =~= parts);
    }
}

proof fn lemma_join_names(parts: Seq<Seq<char>>)
    requires
        all_names(parts),
    ensures
        parts.len() > 0 ==> join(parts).len() > 0 && !denotes_folder(join(parts)),
        forall|i: int| 0 <= i < join(parts).len() ==> #[trigger] join(parts)[i] != '\\',
    decreases parts.len(),
{
    if parts.len() > 0 {
        let part = parts[parts.len() - 1];
        assert(is_name(part));
        assert(!is_separator(part[part.len() - 1], true));
        let less = parts.drop_last();
        assert(all_names(less));
        lemma_join_names(less);
        let s = join(parts);
        if parts.len() > 1 {
            let head = join(less).push('/');
            assert(s == head + part);
            assert forall|i: int| 0 <= i < s.len() implies #[trigger] s[i] != '\\' by {
                if i < head.len() {
                    assert(s[i] == head[i]);
                } else {
                    assert(s[i] == part[i - head.len()]);
                    assert(!is_separator(part[i - head.len()], true));
                }
            }
        } else {
            assert forall|i: int| 0 <= i < s.len() implies #[trigger] s[i] != '\\' by {
                assert(!is_separator(part[i], true));
            }
        }
    }
}

/// The safe form of a name consists of components that name something, with single slashes
/// between them, and a slash at the end where the name denotes a folder and a component is left.
proof fn lemma_sanitized_parts(path: Seq<char>) -> (parts: Seq<Seq<char>>)
    ensures
        parts == kept(split(path, true)),
        all_names(parts),
        parts.len() == 0 ==> sanitized(path).len() == 0,
        parts.len() > 0 ==> sanitized(path) == if denotes_folder(path) {
            join(parts).push('/')
        } else {
            join(parts)
        },
{
    let parts = kept(split(path, true));
    lemma_split_components(path, true);
    lemma_kept_names(split(path, true));
    lemma_join_names(parts);
    parts
}

/// The safe form of a name is safe: it has no backslash and no leading slash, and no component of
/// it is empty, `.` or `..`, so that it cannot lead out of the folder that it is put in.
pub proof fn law_sanitized_is_safe(path: Seq<char>)
    ensures
        is_safe(sanitized(path)),
        sanitized(path).len() > 0 ==> sanitized(path)[0] != '/',
{
    let parts = lemma_sanitized_parts(path);
    lemma_join_names(parts);
    let s = sanitized(path);
    if parts.len() == 0 {
        assert(s =~= Seq::<char>::empty());
        assert(split(s, true) =~= seq![Seq::<char>::empty()]);
    } else {
        assert forall|i: int| 0 <= i < parts.len() implies is_component(
            #[trigger] parts[i],
            true,
        ) by {
            assert(is_name(parts[i]));
        }
        lemma_split_join(parts, true);
        lemma_split_join_slash(parts, true);
        lemma_first_char(parts);
    }
}

proof fn lemma_first_char(parts: Seq<Seq<char>>)
    requires
        all_names(parts),
        parts.len() > 0,
    ensures
        join(parts).len() > 0,
        join(parts)[0] != '/',
    decreases parts.len(),
{
    assert(is_name(parts[0]));
    assert(!is_separator(parts[0][0], true));
    if parts.len() > 1 {
        let less = parts.drop_last();
        assert(less[0] == parts[0]);
        assert(all_names(less));
        lemma_first_char(less);
    }
}

/// A safe form is its own safe form.
pub proof fn law_sanitize_twice(path: Seq<char>)
    ensures
        sanitized(sanitized(path)) == sanitized(path),
{
    let parts = lemma_sanitized_parts(path);
    lemma_join_names(parts);
    let s = sanitized(path);
    if parts.len() == 0 {
        assert(s =~= Seq::<char>::empty());
        assert(split(s, true) =~= seq![Seq::<char>::empty()]);
        reveal_with_fuel(kept, 2);
        assert(seq![Seq::<char>::empty()].drop_last() =~= Seq::<Seq<char>>::empty());
        assert(sanitized(s) =~= s);
    } else {
        assert forall|i: int| 0 <= i < parts.len() implies is_component(
            #[trigger] parts[i],
            true,
        ) by {
            assert(is_name(parts[i]));
        }
        lemma_split_join(parts, true);
        lemma_split_join_slash(parts, true);
        lemma_kept_same(parts);
        assert(parts.push(Seq::<char>::empty()).drop_last() =~= parts);
    }
}

proof fn lemma_join_split(s: Seq<char>, backslash: bool)
    requires
        forall|i: int| 0 <= i < s.len() ==> #[trigger] s[i] != '\\' || !backslash,
    ensures
        join(split(s, backslash)) == s,
    decreases s.len(),
{
    lemma_split_components(s, backslash);
    if s.len() > 0 {
        let less = s.drop_last();
        assert forall|i: int| 0 <= i < less.len() implies #[trigger] less[i] != '\\'
            || !backslash by {
            assert(less[i] == s[i]);
        }
        lemma_join_split(less, backslash);
        lemma_split_components(less, backslash);
        let before = split(less, backslash);
        let parts = split(s, backslash);
        assert(s[s.len() - 1] != '\\' || !backslash);
        if is_separator(s.last(), backslash) {
            assert(s.last() == '/');
            assert(parts.drop_last() =~= before);
            assert(join(parts) =~= s);
        } else {
            assert(parts.drop_last() =~= before.drop_last());
            if parts.len() == 1 {
                assert(before.len() == 1);
                assert(parts[0] == less.push(s.last()));
                assert(less.push(s.last()) =~= s);
            } else {
                let head = join(before.drop_last()).push('/');
                assert(less == head + before.last());
                assert(parts.last() == before.last().push(s.last()));
                assert(join(parts) == head + before.last().push(s.last()));
                assert(head + before.last().push(s.last()) =~= less.push(s.last()));
                assert(less.push(s.last()) =~= s);
            }
        }
    }
}

/// The keys that sanitizing leaves as they are are those that are safe.
pub proof fn law_safe_keys(key: Seq<char>)
    ensures
        is_safe(key) <==> sanitized(key) == key,
{
    if sanitized(key) == key {
        law_sanitized_is_safe(key);
    }
    if is_safe(key) {
        let parts = split(key, true);
        lemma_split_components(key, true);
        lemma_join_split(key, true);
        let last = parts.len() - 1;
        if parts[last].len() == 0 {
            let names = parts.drop_last();
            assert(all_names(names)) by {
                assert forall|i: int| 0 <= i < names.len() implies is_name(#[trigger] names[i]) by {
                    assert(names[i] == parts[i]);
                }
            }
            lemma_kept_same(names);
            lemma_join_names(names);
            assert(kept(parts) == names);
            if names.len() == 0 {
                assert(join(parts) == parts[0]);
                assert(key.len() == 0);
                assert(sanitized(key) =~= key);
            } else {
                assert(join(parts) =~= join(names).push('/'));
                assert(ends_in(key, '/'));
            }
        } else {
            assert(all_names(parts));
            lemma_kept_same(parts);
            lemma_join_names(parts);
        }
    }
}

proof fn lemma_split_same(s: Seq<char>)
    requires
        forall|i: int| 0 <= i < s.len() ==> #[trigger] s[i] != '\\',
    ensures
        split(s, true) == split(s, false),
    decreases s.len(),
{
    if s.len() > 0 {
        let less = s.drop_last();
        assert forall|i: int| 0 <= i < less.len() implies #[trigger] less[i] != '\\' by {
            assert(less[i] == s[i]);
        }
        lemma_split_same(less);
        assert(s[s.len() - 1] != '\\');
    }
}

proof fn lemma_nonempty_components(parts: Seq<Seq<char>>, backslash: bool)
    requires
        forall|i: int| 0 <= i < parts.len() ==> is_component(#[trigger] parts[i], backslash),
    ensures
        forall|i: int|
            0 <= i < nonempty(parts).len() ==> (#[trigger] nonempty(parts)[i]).len() > 0
                && is_component(nonempty(parts)[i], backslash) && parts.contains(
                nonempty(parts)[i],
            ),
    decreases parts.len(),
{
    reveal(Seq::filter);
    if parts.len() > 0 {
        let less = parts.drop_last();
        assert forall|i: int| 0 <= i < less.len() implies is_component(
            #[trigger] less[i],
            backslash,
        ) by {
            assert(less[i] == parts[i]);
        }
        lemma_nonempty_components(less, backslash);
        assert(is_component(parts[parts.len() - 1], backslash));
        assert forall|i: int| 0 <= i < nonempty(parts).len() implies (
        #[trigger] nonempty(parts)[i]).len() > 0 && is_component(nonempty(parts)[i], backslash)
            && parts.contains(nonempty(parts)[i]) by {
            if i < nonempty(less).len() {
                let p = nonempty(less)[i];
                assert(nonempty(parts)[i] == p);
                let j = choose|j: int| 0 <= j < less.len() && less[j] == p;
                assert(parts[j] == p);
            } else {
                assert(nonempty(parts)[i] == parts[parts.len() - 1]);
            }
        }
    }
}

/// A folder that a path lies in ends in a slash.
pub proof fn law_parents_are_folders(path: Seq<char>, folder: Seq<char>)
    requires
        parent_folders(path).contains(folder),
    ensures
        folder.len() > 1,
        ends_in(folder, '/'),
{
    let i = choose|i: int|
        1 <= i < split(path, false).len() && split(path, false)[i - 1].len() > 0 && folder
            == #[trigger] folder_at(path, i);
    lemma_folder_names(path, i);
}

/// The components of the folder that the first components of a path lead to.
proof fn lemma_folder_names(path: Seq<char>, i: int)
    requires
        1 <= i < split(path, false).len(),
        split(path, false)[i - 1].len() > 0,
    ensures
        nonempty(split(path, false).take(i)).len() > 0,
        join(nonempty(split(path, false).take(i))).len() > 0,
        forall|j: int|
            0 <= j < nonempty(split(path, false).take(i)).len() ==> (
            #[trigger] nonempty(split(path, false).take(i))[j]).len() > 0 && is_component(
                nonempty(split(path, false).take(i))[j],
                false,
            ) && split(path, false).take(i).contains(nonempty(split(path, false).take(i))[j]),
{
    let parts = split(path, false).take(i);
    lemma_split_components(path, false);
    assert forall|j: int| 0 <= j < parts.len() implies is_component(#[trigger] parts[j], false) by {
        assert(parts[j] == split(path, false)[j]);
    }
    lemma_nonempty_components(parts, false);
    reveal(Seq::filter);
    assert(parts.last() == split(path, false)[i - 1]);
    let names = nonempty(parts);
    assert(names.last() == parts.last());
    assert(join(names).len() > 0);
}

proof fn lemma_nonempty_all(parts: Seq<Seq<char>>)
    requires
        forall|i: int| 0 <= i < parts.len() ==> (#[trigger] parts[i]).len() > 0,
    ensures
        nonempty(parts) == parts,
    decreases parts.len(),
{
    reveal(Seq::filter);
    if parts.len() > 0 {
        let less = parts.drop_last();
        assert forall|i: int| 0 <= i < less.len() implies (#[trigger] less[i]).len() > 0 by {
            assert(less[i] == parts[i]);
        }
        lemma_nonempty_all(less);
        assert(parts[parts.len() - 1].len() > 0);
        assert(less.push(parts.last()) =~= parts);
    } else {
        assert(nonempty(parts) =~= parts);
    }
}

proof fn lemma_nonempty_prefix(parts: Seq<Seq<char>>, n: int) -> (k: int)
    requires
        0 < n <= nonempty(parts).len(),
    ensures
        1 <= k <= parts.len(),
        parts[k - 1].len() > 0,
        nonempty(parts.take(k)) == nonempty(parts).take(n),
    decreases parts.len(),
{
    reveal(Seq::filter);
    let less = parts.drop_last();
    if n <= nonempty(less).len() {
        let k = lemma_nonempty_prefix(less, n);
        assert(less.take(k) =~= parts.take(k));
        assert(less[k - 1] == parts[k - 1]);
        assert(nonempty(parts).take(n) =~= nonempty(less).take(n));
        k
    } else {
        assert(parts.take(parts.len() as int) =~= parts);
        assert(nonempty(parts).take(n) =~= nonempty(parts));
        parts.len() as int
    }
}

proof fn lemma_outer_folder(path: Seq<char>, i: int, j: int)
    requires
        1 <= i < split(path, false).len(),
        split(path, false)[i - 1].len() > 0,
        1 <= j < split(folder_at(path, i), false).len(),
    ensures
        exists|k: int|
            1 <= k < split(path, false).len() && split(path, false)[k - 1].len() > 0 && folder_at(
                folder_at(path, i),
                j,
            ) == #[trigger] folder_at(path, k),
{
    let parts = split(path, false);
    let first = parts.take(i);
    let names = nonempty(first);
    let folder = folder_at(path, i);
    assert(names.len() > 0 && split(folder, false) == names.push(Seq::<char>::empty())
        && folder_at(folder, j) == join(names.take(j)).push('/')) by {
        lemma_folder_names(path, i);
        lemma_split_join_slash(names, false);
        let some = names.take(j);
        assert(names.push(Seq::<char>::empty()).take(j) =~= some);
        assert forall|x: int| 0 <= x < some.len() implies (#[trigger] some[x]).len() > 0 by {
            assert(some[x] == names[x]);
        }
        lemma_nonempty_all(some);
    }
    let k = lemma_nonempty_prefix(first, j);
    assert(first.take(k) =~= parts.take(k));
    assert(first[k - 1] == parts[k - 1]);
    assert(folder_at(path, k) == folder_at(folder, j));
}

/// The folders that a folder of a path lies in are folders of the path.
pub proof fn law_parents_of_parents(path: Seq<char>, folder: Seq<char>, outer: Seq<char>)
    requires
        parent_folders(path).contains(folder),
        parent_folders(folder).contains(outer),
    ensures
        parent_folders(path).contains(outer),
{
    let i = choose|i: int|
        1 <= i < split(path, false).len() && split(path, false)[i - 1].len() > 0 && folder
            == #[trigger] folder_at(path, i);
    let j = choose|j: int|
        1 <= j < split(folder, false).len() && split(folder, false)[j - 1].len() > 0 && outer
            == #[trigger] folder_at(folder, j);
    lemma_outer_folder(path, i, j);
}

/// The folders that a safe key lies in are safe.
pub proof fn law_parents_are_safe(key: Seq<char>, folder: Seq<char>)
    requires
        is_safe(key),
        parent_folders(key).contains(folder),
    ensures
        is_safe(folder),
{
    lemma_split_same(key);
    let parts = split(key, false);
    let i = choose|i: int|
        1 <= i < parts.len() && parts[i - 1].len() > 0 && folder == #[trigger] folder_at(key, i);
    lemma_folder_names(key, i);
    let names = nonempty(parts.take(i));
    assert(all_names(names)) by {
        assert forall|j: int| 0 <= j < names.len() implies is_name(#[trigger] names[j]) by {
            assert(names[j].len() > 0);
            let x = choose|x: int| 0 <= x < parts.take(i).len() && parts.take(i)[x] == names[j];
            assert(parts[x] == names[j]);
            assert(is_name(parts[x]));
        }
    }
    lemma_join_names(names);
    assert forall|j: int| 0 <= j < names.len() implies is_component(#[trigger] names[j], true) by {
        assert(is_name(names[j]));
    }
    lemma_split_join_slash(names, true);
    let whole = names.push(Seq::<char>::empty());
    assert forall|j: int| 0 <= j < whole.len() implies is_name(#[trigger] whole[j]) || (j
        == whole.len() - 1 && whole[j].len() == 0) by {
        if j < names.len() {
            assert(whole[j] == names[j]);
        }
    }
}

proof fn lemma_strip_idle(s: Seq<char>)
    requires
        forall|i: int| 0 <= i < s.len() ==> !is_control(#[trigger] s[i]),
    ensures
        strip_controls(s) == s,
    decreases s.len(),
{
    reveal(Seq::filter);
    if s.len() > 0 {
        let less = s.drop_last();
        assert forall|i: int| 0 <= i < less.len() implies !is_control(#[trigger] less[i]) by {
            assert(less[i] == s[i]);
        }
        lemma_strip_idle(less);
        assert(!is_control(s[s.len() - 1]));
        assert(less.push(s.last()) =~= s);
    } else {
        assert(strip_controls(s) =~= s);
    }
}

proof fn lemma_strip_clean(s: Seq<char>)
    ensures
        forall|i: int| 0 <= i < strip_controls(s).len() ==> !is_control(#[trigger] strip_controls(s)[i]),
{
    let pred = |c: char| !is_control(c);
    assert forall|i: int| 0 <= i < strip_controls(s).len() implies !is_control(
        #[trigger] strip_controls(s)[i],
    ) by {
        s.lemma_filter_pred(pred, i);
        assert(pred(s.filter(pred)[i]));
    }
}

/// A key holds no control codes.
pub proof fn law_keys_are_clean(folder: Seq<char>, name: Seq<char>)
    ensures
        forall|i: int|
            0 <= i < resolved(folder, name).len() ==> !is_control(
                #[trigger] resolved(folder, name)[i],
            ),
{
    if name.len() > 0 && name[0] == '/' {
        lemma_strip_clean(trim_slashes(name));
    } else {
        lemma_strip_clean(folder + name);
    }
}

/// A name with a leading slash stands for the same key in every folder.
pub proof fn law_absolute_names(folder: Seq<char>, other: Seq<char>, name: Seq<char>)
    requires
        name.len() > 0,
        name[0] == '/',
    ensures
        resolved(folder, name) == resolved(other, name),
{
}

/// A key that holds no control code and has no leading slash is reached from every folder, by
/// itself with a slash in front.
pub proof fn law_keys_are_reachable(folder: Seq<char>, key: Seq<char>)
    requires
        forall|i: int| 0 <= i < key.len() ==> !is_control(#[trigger] key[i]),
        key.len() > 0 ==> key[0] != '/',
    ensures
        resolved(folder, seq!['/'] + key) == key,
{
    let name = seq!['/'] + key;
    assert(name.drop_first() =~= key);
    assert(trim_slashes(key) == key);
    lemma_strip_idle(key);
}

proof fn lemma_trim_append(s: Seq<char>, rest: Seq<char>)
    requires
        rest.len() > 0 ==> rest[0] != '/',
    ensures
        trim_slashes(s + rest) == trim_slashes(s) + rest,
    decreases s.len(),
{
    if s.len() == 0 {
        assert(s + rest =~= rest);
        assert(trim_slashes(s) =~= s);
        assert(trim_slashes(rest) == rest);
    } else if s[0] == '/' {
        assert((s + rest).drop_first() =~= s.drop_first() + rest);
        lemma_trim_append(s.drop_first(), rest);
    }
}

proof fn lemma_strip_append(a: Seq<char>, b: Seq<char>)
    ensures
        strip_controls(a + b) == strip_controls(a) + strip_controls(b),
{
    Seq::filter_distributes_over_add(a, b, |c: char| !is_control(c));
}

proof fn lemma_strip_twice(s: Seq<char>)
    ensures
        strip_controls(strip_controls(s)) == strip_controls(s),
{
    lemma_strip_clean(s);
    lemma_strip_idle(strip_controls(s));
}

/// Entering a folder and then naming something in it is the same as naming it by the path through
/// that folder.
pub proof fn law_folder_paths(current_folder: Seq<char>, name: Seq<char>, rest: Seq<char>)
    requires
        rest.len() > 0 ==> rest[0] != '/',
    ensures
        resolved(folder_key(current_folder, Some(name)), rest) == resolved(
            current_folder,
            folder_name(name) + rest,
        ),
{
    let f = folder_name(name);
    let raw = if f[0] == '/' {
        trim_slashes(f)
    } else {
        current_folder + f
    };
    let key = strip_controls(raw);
    assert(folder_key(current_folder, Some(name)) == key);
    assert(strip_controls(key + rest) == strip_controls(raw + rest)) by {
        lemma_strip_twice(raw);
        lemma_strip_append(key, rest);
        lemma_strip_append(raw, rest);
    }
    assert(resolved(key, rest) == strip_controls(key + rest));
    assert((f + rest)[0] == f[0]);
    if f[0] == '/' {
        lemma_trim_append(f, rest);
    } else {
        assert(current_folder + (f + rest) =~= raw + rest);
    }
}

proof fn lemma_split_concat(a: Seq<char>, sep: char, b: Seq<char>, backslash: bool)
    requires
        is_separator(sep, backslash),
    ensures
        split(a.push(sep) + b, backslash) == split(a, backslash) + split(b, backslash),
    decreases b.len(),
{
    let head = a.push(sep);
    if b.len() == 0 {
        assert(head + b =~= head);
        assert(head.drop_last() =~= a);
        assert(split(b, backslash) =~= seq![Seq::<char>::empty()]);
        assert(split(head, backslash) =~= split(a, backslash) + split(b, backslash));
    } else {
        let less = b.drop_last();
        lemma_split_concat(a, sep, less, backslash);
        lemma_split_components(less, backslash);
        assert((head + b).drop_last() =~= head + less);
        let x = split(a, backslash);
        let y = split(less, backslash);
        assert((x + y).drop_last() =~= x + y.drop_last());
        assert((x + y).last() == y.last());
        assert(split(head + b, backslash) =~= x + split(b, backslash));
    }
}

proof fn lemma_kept_same_start(a: Seq<Seq<char>>, b: Seq<Seq<char>>, rest: Seq<Seq<char>>)
    requires
        kept(a) == kept(b),
    ensures
        kept(a + rest) == kept(b + rest),
    decreases rest.len(),
{
    if rest.len() == 0 {
        assert(a + rest =~= a);
        assert(b + rest =~= b);
    } else {
        let less = rest.drop_last();
        lemma_kept_same_start(a, b, less);
        assert((a + rest).drop_last() =~= a + less);
        assert((b + rest).drop_last() =~= b + less);
    }
}

/// The components that are left of a path that is empty or ends in a separator.
proof fn lemma_prefix(p: Seq<char>)
    requires
        p.len() == 0 || p.last() == '/' || p.last() == '\\',
    ensures
        split(p, true).len() > 0,
        split(p, true).last().len() == 0,
        kept(split(p, true).drop_last()) == kept(split(p, true)),
        all_names(kept(split(p, true))),
        sanitized(p) == if kept(split(p, true)).len() == 0 {
            Seq::<char>::empty()
        } else {
            join(kept(split(p, true))).push('/')
        },
{
    let names = lemma_sanitized_parts(p);
    lemma_split_components(p, true);
    if names.len() == 0 {
        assert(sanitized(p) =~= Seq::<char>::empty());
    } else if p.len() == 0 {
        assert(split(p, true).drop_last() =~= Seq::<Seq<char>>::empty());
    }
}

proof fn lemma_prefix_part(p: Seq<char>, part: Seq<char>)
    requires
        p.len() == 0 || p.last() == '/' || p.last() == '\\',
        is_component(part, true),
    ensures
        split(p + part, true) == split(p, true).drop_last().push(part),
        split(p + part, true).drop_last() == split(p, true).drop_last(),
{
    lemma_prefix(p);
    lemma_split_append(p, part, true);
    assert(split(p, true).last() + part =~= part);
    assert(split(p, true).drop_last().push(part).drop_last() =~= split(p, true).drop_last());
}

/// A component that names something is kept, letter for letter, behind the safe form of what
/// stands before it.
pub proof fn law_sanitize_keeps_names(p: Seq<char>, part: Seq<char>)
    requires
        p.len() == 0 || p.last() == '/' || p.last() == '\\',
        part.len() > 0,
        forall|i: int| 0 <= i < part.len() ==> #[trigger] part[i] != '/' && part[i] != '\\',
        part != seq!['.'],
        part != seq!['.', '.'],
    ensures
        sanitized(p + part) == sanitized(p) + part,
{
    assert(is_component(part, true));
    lemma_prefix(p);
    lemma_prefix_part(p, part);
    let names = kept(split(p, true));
    let path = p + part;
    assert(kept(split(path, true)) == names.push(part));
    assert(path.last() == part[part.len() - 1]);
    assert(names.push(part).drop_last() =~= names);
    if names.len() == 0 {
        assert(join(names.push(part)) == part);
        assert(sanitized(path) =~= sanitized(p) + part);
    } else {
        assert(join(names.push(part)) == join(names).push('/') + part);
        assert(sanitized(path) =~= sanitized(p) + part);
    }
}

/// A separator at the end of a path puts a slash at the end of its safe form, unless nothing is
/// left of the path.
pub proof fn law_sanitize_marks_folders(p: Seq<char>, sep: char)
    requires
        sep == '/' || sep == '\\',
        p.len() > 0 ==> p.last() != '/' && p.last() != '\\',
    ensures
        sanitized(p.push(sep)) == if sanitized(p).len() == 0 {
            Seq::<char>::empty()
        } else {
            sanitized(p).push('/')
        },
{
    let path = p.push(sep);
    assert(path.drop_last() =~= p);
    lemma_split_components(p, true);
    assert(split(path, true) == split(p, true).push(Seq::<char>::empty()));
    assert(split(path, true).drop_last() =~= split(p, true));
    assert(kept(split(path, true)) == kept(split(p, true)));
    let names = lemma_sanitized_parts(p);
    lemma_join_names(names);
    lemma_prefix(path);
    if names.len() == 0 {
        assert(sanitized(path) =~= Seq::<char>::empty());
    }
}

/// An empty component and the component `.` change nothing, and neither does a component that
/// names something with a `..` behind it.
pub proof fn law_sanitize_skips(p: Seq<char>, part: Seq<char>, sep: char)
    requires
        p.len() == 0 || p.last() == '/' || p.last() == '\\',
        sep == '/' || sep == '\\',
        part.len() > 0,
        forall|i: int| 0 <= i < part.len() ==> #[trigger] part[i] != '/' && part[i] != '\\',
        part != seq!['.'],
        part != seq!['.', '.'],
    ensures
        sanitized(p.push(sep)) == sanitized(p),
        sanitized((p + seq!['.']).push(sep)) == sanitized(p),
        sanitized(((p + part).push(sep) + seq!['.', '.']).push(sep)) == sanitized(p),
        sanitized(p).len() == 0 ==> sanitized((p + seq!['.', '.']).push(sep)).len() == 0,
{
    let empty = Seq::<char>::empty();
    lemma_prefix(p);
    let names = kept(split(p, true));
    lemma_join_names(names);
    lemma_prefix_after(p, empty, sep);
    assert(p + empty =~= p);
    lemma_prefix_after(p, seq!['.'], sep);
    lemma_prefix_after(p, seq!['.', '.'], sep);
    assert(is_component(part, true));
    lemma_prefix_after(p, part, sep);
    let inner = (p + part).push(sep);
    lemma_prefix(inner);
    lemma_prefix_after(inner, seq!['.', '.'], sep);
    assert(names.push(part).drop_last() =~= names);
    lemma_prefix(p.push(sep));
    lemma_prefix((p + seq!['.']).push(sep));
    lemma_prefix((p + seq!['.', '.']).push(sep));
    lemma_prefix((inner + seq!['.', '.']).push(sep));
}

proof fn lemma_prefix_after(p: Seq<char>, part: Seq<char>, sep: char)
    requires
        p.len() == 0 || p.last() == '/' || p.last() == '\\',
        sep == '/' || sep == '\\',
        is_component(part, true),
    ensures
        kept(split((p + part).push(sep), true)) == ({
            let names = kept(split(p, true));
            if is_idle(part) {
                names
            } else if is_parent(part) {
                if names.len() == 0 {
                    names
                } else {
                    names.drop_last()
                }
            } else {
                names.push(part)
            }
        }),
{
    lemma_prefix(p);
    lemma_prefix_part(p, part);
    let path = (p + part).push(sep);
    assert(path.drop_last() =~= p + part);
    assert(split(path, true).drop_last() =~= split(p + part, true));
    assert(split(path, true).last().len() == 0);
    assert(kept(split(path, true)) == kept(split(p + part, true)));
    assert(split(p + part, true).last() == part);
    assert(kept(split(p + part, true).drop_last()) == kept(split(p, true)));
}

/// The safe form of a path that starts with a folder goes by the safe form of that folder.
pub proof fn law_sanitize_in_steps(p: Seq<char>, rest: Seq<char>)
    requires
        p.len() == 0 || p.last() == '/' || p.last() == '\\',
    ensures
        sanitized(p + rest) == sanitized(sanitized(p) + rest),
{
    lemma_prefix(p);
    let names = kept(split(p, true));
    let safe = sanitized(p);
    lemma_join_names(names);
    lemma_split_behind(p, rest);
    if names.len() == 0 {
        assert(safe =~= Seq::<char>::empty());
        assert(split(safe, true).drop_last() =~= Seq::<Seq<char>>::empty());
        assert(names =~= Seq::<Seq<char>>::empty());
    } else {
        assert forall|i: int| 0 <= i < names.len() implies is_component(
            #[trigger] names[i],
            true,
        ) by {
            assert(is_name(names[i]));
        }
        lemma_split_join_slash(names, true);
        assert(split(safe, true).drop_last() =~= names);
        lemma_kept_same(names);
    }
    lemma_split_behind(safe, rest);
    lemma_kept_same_start(
        split(p, true).drop_last(),
        split(safe, true).drop_last(),
        split(rest, true),
    );
    assert(kept(split(p + rest, true)) == kept(split(safe + rest, true)));
    if rest.len() == 0 {
        assert(p + rest =~= p);
        assert(safe + rest =~= safe);
        law_sanitize_twice(p);
    } else {
        assert((p + rest).last() == rest.last());
        assert((safe + rest).last() == rest.last());
    }
}

proof fn lemma_split_behind(p: Seq<char>, rest: Seq<char>)
    requires
        p.len() == 0 || p.last() == '/' || p.last() == '\\',
    ensures
        split(p + rest, true) == split(p, true).drop_last() + split(rest, true),
{
    if p.len() == 0 {
        assert(p + rest =~= rest);
        assert(split(p, true).drop_last() =~= Seq::<Seq<char>>::empty());
        assert(split(p, true).drop_last() + split(rest, true) =~= split(rest, true));
    } else {
        let a = p.drop_last();
        assert(a.push(p.last()) =~= p);
        lemma_split_concat(a, p.last(), rest, true);
        assert(split(p, true).drop_last() =~= split(a, true));
    }
}

/// No stretch of a safe form between two slashes, or between a slash and an end of it, is `.` or
/// `..`, and no two slashes stand side by side.
pub proof fn law_sanitized_stays_inside(path: Seq<char>, i: int, j: int)
    requires
        0 <= i <= j <= sanitized(path).len(),
        i == 0 || sanitized(path)[i - 1] == '/',
        j == sanitized(path).len() || sanitized(path)[j] == '/',
        forall|x: int| i <= x < j ==> #[trigger] sanitized(path)[x] != '/',
    ensures
        sanitized(path).subrange(i, j) != seq!['.'],
        sanitized(path).subrange(i, j) != seq!['.', '.'],
        j < sanitized(path).len() ==> i < j,
        forall|x: int| 0 <= x < sanitized(path).len() ==> #[trigger] sanitized(path)[x] != '\\',
{
    law_sanitized_is_safe(path);
    let s = sanitized(path);
    let part = s.subrange(i, j);
    assert forall|x: int| 0 <= x < part.len() implies !is_separator(#[trigger] part[x], true) by {
        assert(part[x] == s[i + x]);
    }
    let head = s.take(i);
    lemma_prefix(head);
    lemma_prefix_part(head, part);
    let upto = s.take(j);
    assert(upto =~= head + part);
    let first = split(upto, true);
    let n = first.len() - 1;
    assert(first[n] == part);
    if j < s.len() {
        let rest = s.skip(j + 1);
        assert(s =~= upto.push('/') + rest);
        lemma_split_concat(upto, '/', rest, true);
        lemma_split_components(rest, true);
        assert(split(s, true)[n] == part);
        assert(n < split(s, true).len() - 1);
    } else {
        assert(s =~= upto);
        assert(split(s, true)[n] == part);
    }
    assert(is_name(split(s, true)[n]) || split(s, true)[n].len() == 0);
    if part == seq!['.'] {
        assert(is_idle(part));
    }
    if part == seq!['.', '.'] {
        assert(is_parent(part));
    }
}

/// A name without control codes and without a leading slash is the key itself at the root, and
/// inside a folder it stands behind the folder as it is. The control codes are the characters
/// from U+0000 to U+001F and from U+007F to U+009F.
pub proof fn law_plain_names(folder: Seq<char>, name: Seq<char>)
    requires
        forall|i: int|
            0 <= i < folder.len() ==> (#[trigger] folder[i]) as u32 > 0x1f && !(0x7f
                <= folder[i] as u32 <= 0x9f),
        forall|i: int|
            0 <= i < name.len() ==> (#[trigger] name[i]) as u32 > 0x1f && !(0x7f
                <= name[i] as u32 <= 0x9f),
        name.len() > 0 ==> name[0] != '/',
    ensures
        resolved(folder, name) == folder + name,
        resolved(seq![], name) == name,
{
    let empty = Seq::<char>::empty();
    lemma_strip_idle(folder);
    lemma_strip_idle(name);
    lemma_strip_append(folder, name);
    assert(empty + name =~= name);
}

/// A name of printable ASCII characters, spaces among them, without a leading slash is the key
/// itself at the root.
pub proof fn law_printable_names(name: Seq<char>)
    requires
        forall|i: int| 0 <= i < name.len() ==> ' ' <= #[trigger] name[i] <= '~',
        name.len() > 0 ==> name[0] != '/',
    ensures
        resolved(seq![], name) == name,
{
    assert forall|i: int| 0 <= i < name.len() implies (#[trigger] name[i]) as u32 > 0x1f && !(0x7f
        <= name[i] as u32 <= 0x9f) by {
        lemma_printable(name[i]);
    }
    law_plain_names(seq![], name);
}

proof fn lemma_printable(c: char)
    requires
        ' ' <= c <= '~',
    ensures
        0x20 <= c as u32 <= 0x7e,
{
}

/// A character at the end of a name comes out at the end of the key, unless it is a control code,
/// which changes nothing. A slash after nothing but slashes is left out of this.
pub proof fn law_names_grow(folder: Seq<char>, name: Seq<char>, c: char)
    requires
        c != '/' || (name.len() > 0 && name[0] != '/'),
    ensures
        resolved(folder, name.push(c)) == if c as u32 <= 0x1f || 0x7f <= c as u32 <= 0x9f {
            resolved(folder, name)
        } else {
            resolved(folder, name).push(c)
        },
{
    let raw = if name.len() > 0 && name[0] == '/' {
        trim_slashes(name)
    } else {
        folder + name
    };
    let more = name.push(c);
    assert(more[0] == if name.len() > 0 { name[0] } else { c });
    if name.len() > 0 && name[0] == '/' {
        lemma_trim_append(name, seq![c]);
        assert(name + seq![c] =~= more);
        assert(trim_slashes(name) + seq![c] =~= raw.push(c));
    } else {
        assert(folder + more =~= raw.push(c));
    }
    reveal(Seq::filter);
    assert(raw.push(c).drop_last() =~= raw);
}

/// What a name without a leading slash adds to the key of a folder is what it stands for at the
/// root; and a slash in front of a name leads to what the rest stands for at the root.
pub proof fn law_names_by_folder(folder: Seq<char>, name: Seq<char>)
    ensures
        name.len() > 0 && name[0] != '/' ==> resolved(folder, name) == resolved(folder, seq![])
            + resolved(seq![], name),
        resolved(folder, seq!['/'] + name) == resolved(seq![], name),
{
    let empty = Seq::<char>::empty();
    assert(folder + empty =~= folder);
    assert(empty + name =~= name);
    lemma_strip_append(folder, name);
    let slash = seq!['/'] + name;
    assert(slash.drop_first() =~= name);
    assert(trim_slashes(slash) == trim_slashes(name));
    if !(name.len() > 0 && name[0] == '/') {
        assert(trim_slashes(name) == name);
    }
}

spec fn outer_names(path: Seq<char>) -> Seq<Seq<char>> {
    nonempty(split(path, false).drop_last())
}

proof fn lemma_nonempty_append(a: Seq<Seq<char>>, b: Seq<Seq<char>>)
    ensures
        nonempty(a + b) == nonempty(a) + nonempty(b),
{
    Seq::filter_distributes_over_add(a, b, |p: Seq<char>| p.len() > 0);
}

proof fn lemma_parent_has_names(path: Seq<char>, f: Seq<char>)
    requires
        parent_folders(path).contains(f),
    ensures
        exists|n: int|
            1 <= n <= outer_names(path).len() && f == join(
                #[trigger] outer_names(path).take(n),
            ).push('/'),
{
    let parts = split(path, false);
    let outer = parts.drop_last();
    let i = choose|i: int|
        1 <= i < parts.len() && parts[i - 1].len() > 0 && f == #[trigger] folder_at(path, i);
    let first = nonempty(parts.take(i));
    assert(first.len() > 0) by {
        lemma_folder_names(path, i);
    }
    assert(outer =~= parts.take(i) + outer.skip(i));
    lemma_nonempty_append(parts.take(i), outer.skip(i));
    let n = first.len() as int;
    assert(outer_names(path).take(n) =~= first);
}

proof fn lemma_names_have_parent(path: Seq<char>, n: int)
    requires
        1 <= n <= outer_names(path).len(),
    ensures
        parent_folders(path).contains(join(outer_names(path).take(n)).push('/')),
{
    let parts = split(path, false);
    let outer = parts.drop_last();
    lemma_split_components(path, false);
    let k = lemma_nonempty_prefix(outer, n);
    assert(outer.take(k) =~= parts.take(k));
    assert(outer[k - 1] == parts[k - 1]);
    assert(folder_at(path, k) == join(outer_names(path).take(n)).push('/'));
}

proof fn lemma_same_names_same_parents(a: Seq<char>, b: Seq<char>)
    requires
        outer_names(a) == outer_names(b),
    ensures
        parent_folders(a) == parent_folders(b),
{
    assert forall|f: Seq<char>| parent_folders(a).contains(f) <==> parent_folders(b).contains(
        f,
    ) by {
        if parent_folders(a).contains(f) {
            lemma_parent_has_names(a, f);
            let n = choose|n: int|
                1 <= n <= outer_names(a).len() && f == join(
                    #[trigger] outer_names(a).take(n),
                ).push('/');
            lemma_names_have_parent(b, n);
        }
        if parent_folders(b).contains(f) {
            lemma_parent_has_names(b, f);
            let n = choose|n: int|
                1 <= n <= outer_names(b).len() && f == join(
                    #[trigger] outer_names(b).take(n),
                ).push('/');
            lemma_names_have_parent(a, n);
        }
    }
    assert(parent_folders(a) =~= parent_folders(b));
}

/// Slashes at the start of a path, and a second slash behind a slash, make no difference to the
/// folders that it lies in.
pub proof fn law_parents_skip_slashes(a: Seq<char>, b: Seq<char>)
    ensures
        parent_folders(seq!['/'] + b) == parent_folders(b),
        parent_folders(a.push('/').push('/') + b) == parent_folders(a.push('/') + b),
{
    let empty = Seq::<char>::empty();
    lemma_split_components(b, false);
    lemma_split_components(a, false);
    let one = seq![empty];
    let rest = split(b, false);
    let head = split(a, false);
    reveal_with_fuel(Seq::filter, 2);
    assert(one.drop_last() =~= Seq::<Seq<char>>::empty());
    assert(nonempty(one) =~= Seq::<Seq<char>>::empty());
    lemma_split_concat(empty, '/', b, false);
    assert(empty.push('/') =~= seq!['/']);
    assert(split(empty, false) =~= one);
    assert((one + rest).drop_last() =~= one + rest.drop_last());
    lemma_nonempty_append(one, rest.drop_last());
    assert(nonempty(one) + nonempty(rest.drop_last()) =~= nonempty(rest.drop_last()));
    lemma_same_names_same_parents(seq!['/'] + b, b);

    let twice = a.push('/');
    assert(twice.drop_last() =~= a);
    assert(split(twice, false) =~= head + one);
    lemma_split_concat(twice, '/', b, false);
    lemma_split_concat(a, '/', b, false);
    assert((head + one + rest).drop_last() =~= head + one + rest.drop_last());
    assert((head + rest).drop_last() =~= head + rest.drop_last());
    lemma_nonempty_append(head + one, rest.drop_last());
    lemma_nonempty_append(head, one);
    lemma_nonempty_append(head, rest.drop_last());
    assert(nonempty(head) + nonempty(one) =~= nonempty(head));
    lemma_same_names_same_parents(twice.push('/') + b, twice + b);
}

proof fn lemma_no_empty_component(s: Seq<char>)
    requires
        s.len() > 0 ==> s[0] != '/',
        forall|i: int| 0 <= i && i + 1 < s.len() && #[trigger] s[i] == '/' ==> s[i + 1] != '/',
    ensures
        split(s, false).len() > 0,
        forall|i: int|
            0 <= i < split(s, false).len() - 1 ==> (#[trigger] split(s, false)[i]).len() > 0,
        split(s, false).last().len() == 0 <==> s.len() == 0 || s.last() == '/',
    decreases s.len(),
{
    if s.len() > 0 {
        let less = s.drop_last();
        assert forall|i: int|
            0 <= i && i + 1 < less.len() && #[trigger] less[i] == '/' implies less[i + 1]
            != '/' by {
            assert(s[i] == less[i] && s[i + 1] == less[i + 1]);
        }
        lemma_no_empty_component(less);
        if s.last() == '/' {
            assert(less.len() > 0);
            assert(s[less.len() - 1] == less.last());
        }
    }
}

proof fn lemma_join_parts(a: Seq<Seq<char>>, b: Seq<Seq<char>>)
    requires
        a.len() > 0,
        b.len() > 0,
    ensures
        join(a + b) == join(a).push('/') + join(b),
    decreases b.len(),
{
    if b.len() == 1 {
        assert((a + b).drop_last() =~= a);
        assert((a + b).last() == b[0]);
    } else {
        let less = b.drop_last();
        lemma_join_parts(a, less);
        assert((a + b).drop_last() =~= a + less);
        assert((a + b).last() == b.last());
        assert(join(a + b) =~= join(a).push('/') + join(b));
    }
}

/// The folders that a key lies in are the parts of it, from its start, that end in a slash; a key
/// that ends in a slash is one of them itself. This speaks of keys without an empty component.
pub proof fn law_parents_are_prefixes(key: Seq<char>, folder: Seq<char>)
    requires
        key.len() > 0 ==> key[0] != '/',
        forall|i: int| 0 <= i && i + 1 < key.len() && #[trigger] key[i] == '/' ==> key[i + 1]
            != '/',
    ensures
        parent_folders(key).contains(folder) <==> {
            &&& 0 < folder.len() <= key.len()
            &&& folder.last() == '/'
            &&& key.take(folder.len() as int) == folder
        },
{
    let parts = split(key, false);
    let outer = parts.drop_last();
    lemma_no_empty_component(key);
    lemma_join_split(key, false);
    lemma_nonempty_all(outer);
    if parent_folders(key).contains(folder) {
        lemma_parent_has_names(key, folder);
        let n = choose|n: int|
            1 <= n <= outer.len() && folder == join(#[trigger] outer.take(n)).push('/');
        let a = outer.take(n);
        let b = parts.skip(n);
        assert(a + b =~= parts);
        lemma_join_parts(a, b);
        assert(key == folder + join(b));
        assert(key.take(folder.len() as int) =~= folder);
    }
    if 0 < folder.len() <= key.len() && folder.last() == '/' && key.take(folder.len() as int)
        == folder {
        let g = folder.drop_last();
        let rest = key.skip(folder.len() as int);
        assert(g.push('/') =~= folder);
        assert(key =~= g.push('/') + rest);
        lemma_split_concat(g, '/', rest, false);
        lemma_split_components(g, false);
        lemma_split_components(rest, false);
        let n = split(g, false).len() as int;
        assert(outer.take(n) =~= split(g, false));
        lemma_join_split(g, false);
        lemma_names_have_parent(key, n);
    }
}

} // verus!
