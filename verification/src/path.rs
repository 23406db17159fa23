//! Paths inside an archive: how a name becomes a key of the file table, how the names found in an
//! archive are made safe, and which folders a path lies in.
use crate::text::{append_chars, copy_chars, from_chars, same_chars, texts, to_chars};
use crate::text::ends_in;
use vstd::prelude::*;

verus! {

/// Whether a character is a control code (Unicode general category Cc).
pub open spec fn is_control(c: char) -> bool {
    c as u32 <= 0x1f || 0x7f <= c as u32 <= 0x9f
}

/// A text without its control codes.
pub open spec fn strip_controls(s: Seq<char>) -> Seq<char> {
    s.filter(|c: char| !is_control(c))
}

/// A text without the slashes that it starts with.
pub open spec fn trim_slashes(s: Seq<char>) -> Seq<char>
    decreases s.len(),
{
    if s.len() > 0 && s[0] == '/' {
        trim_slashes(s.drop_first())
    } else {
        s
    }
}

/// The key that a name stands for inside a folder: a name with a leading slash is taken from the
/// root, any other from the folder, and control codes are dropped.
pub open spec fn resolved(folder: Seq<char>, name: Seq<char>) -> Seq<char> {
    strip_controls(
        if name.len() > 0 && name[0] == '/' {
            trim_slashes(name)
        } else {
            folder + name
        },
    )
}

/// Whether a character separates the components of a path: always `/`, and `\` where asked for.
pub open spec fn is_separator(c: char, backslash: bool) -> bool {
    c == '/' || (backslash && c == '\\')
}

/// The components of a path, empty ones included. There is always at least one.
pub open spec fn split(s: Seq<char>, backslash: bool) -> Seq<Seq<char>>
    decreases s.len(),
{
    if s.len() == 0 {
        seq![Seq::<char>::empty()]
    } else {
        let parts = split(s.drop_last(), backslash);
        if is_separator(s.last(), backslash) {
            parts.push(Seq::<char>::empty())
        } else {
            parts.drop_last().push(parts.last().push(s.last()))
        }
    }
}

/// Components joined by single slashes.
pub open spec fn join(parts: Seq<Seq<char>>) -> Seq<char>
    decreases parts.len(),
{
    if parts.len() == 0 {
        Seq::<char>::empty()
    } else if parts.len() == 1 {
        parts[0]
    } else {
        join(parts.drop_last()).push('/') + parts.last()
    }
}

/// Whether a component says nothing about where a path leads.
pub open spec fn is_idle(part: Seq<char>) -> bool {
    part.len() == 0 || part == seq!['.']
}

/// Whether a component leads to the parent.
pub open spec fn is_parent(part: Seq<char>) -> bool {
    part == seq!['.', '.']
}

/// The components that are left when every `..` takes back the component before it, and never
/// one above the root.
pub open spec fn kept(parts: Seq<Seq<char>>) -> Seq<Seq<char>>
    decreases parts.len(),
{
    if parts.len() == 0 {
        Seq::<Seq<char>>::empty()
    } else {
        let before = kept(parts.drop_last());
        let part = parts.last();
        if is_idle(part) {
            before
        } else if is_parent(part) {
            if before.len() == 0 {
                before
            } else {
                before.drop_last()
            }
        } else {
            before.push(part)
        }
    }
}

/// Whether a name found in an archive denotes a folder.
pub open spec fn denotes_folder(name: Seq<char>) -> bool {
    ends_in(name, '/') || ends_in(name, '\\')
}

/// The safe form of a name found in an archive.
pub open spec fn sanitized(path: Seq<char>) -> Seq<char> {
    let body = join(kept(split(path, true)));
    if denotes_folder(path) && body.len() > 0 {
        body.push('/')
    } else {
        body
    }
}

/// The components that are not empty.
pub open spec fn nonempty(parts: Seq<Seq<char>>) -> Seq<Seq<char>> {
    parts.filter(|p: Seq<char>| p.len() > 0)
}

/// The key of the folder that the first `i` components of a path lead to.
pub open spec fn folder_at(path: Seq<char>, i: int) -> Seq<char> {
    join(nonempty(split(path, false).take(i))).push('/')
}

/// The keys of the folders that a path lies in.
pub open spec fn parent_folders(path: Seq<char>) -> Set<Seq<char>> {
    Set::new(
        |f: Seq<char>|
            exists|i: int|
                1 <= i < split(path, false).len() && split(path, false)[i - 1].len() > 0 && f
                    == #[trigger] folder_at(path, i),
    )
}

/// What is left of a text that ends in a slash when its leading slashes are dropped is empty or
/// ends in a slash.
pub proof fn lemma_trim_keeps_end(s: Seq<char>)
    requires
        ends_in(s, '/'),
    ensures
        trim_slashes(s).len() == 0 || ends_in(trim_slashes(s), '/'),
    decreases s.len(),
{
    if s[0] == '/' && s.len() > 1 {
        lemma_trim_keeps_end(s.drop_first());
    } else if s[0] == '/' {
        assert(s.drop_first().len() == 0);
        assert(trim_slashes(s.drop_first()) =~= s.drop_first());
    }
}

/// A name that ends in a slash stands for the empty key or for one that ends in a slash.
pub proof fn lemma_folder_key(folder: Seq<char>, name: Seq<char>)
    requires
        ends_in(name, '/'),
    ensures
        resolved(folder, name).len() == 0 || ends_in(resolved(folder, name), '/'),
{
    reveal(Seq::filter);
    if name[0] == '/' {
        lemma_trim_keeps_end(name);
    }
}

/// Whether a character is a control code.
pub fn is_control_char(c: char) -> (r: bool)
    ensures
        r == is_control(c),
{
    let u: u32 = c as u32;
    u <= 0x1f || (0x7f <= u && u <= 0x9f)
}

/// The key that `name` stands for inside `current_folder`.
pub fn resolve_path(current_folder: &str, name: &str) -> (r: String)
    ensures
        r@ == resolved(current_folder@, name@),
{
    let given = to_chars(name);
    let mut raw: Vec<char> = Vec::new();
    if given.len() > 0 && given[0] == '/' {
        let mut start: usize = 0;
        assert(given@.skip(0) == given@);
        while start < given.len() && given[start] == '/'
            invariant
                start <= given@.len(),
                trim_slashes(given@.skip(start as int)) == trim_slashes(given@),
            decreases given@.len() - start,
        {
            assert(given@.skip(start as int).drop_first() == given@.skip(start as int + 1));
            start = start + 1;
        }
        let rest = vstd::slice::slice_subrange(given.as_slice(), start, given.len());
        append_chars(&mut raw, rest);
        assert(raw@ == given@.skip(start as int));
    } else {
        raw = to_chars(current_folder);
        append_chars(&mut raw, &given);
    }
    let mut clean: Vec<char> = Vec::new();
    let n: usize = raw.len();
    proof {
        reveal(Seq::filter);
    }
    for i in 0..n
        invariant
            n == raw@.len(),
            clean@ == strip_controls(raw@.take(i as int)),
    {
        proof {
            reveal(Seq::filter);
        }
        assert(raw@.take(i as int + 1).drop_last() == raw@.take(i as int));
        if !is_control_char(raw[i]) {
            clean.push(raw[i]);
        }
    }
    assert(raw@.take(n as int) == raw@);
    from_chars(&clean)
}

/// The components of a path.
pub fn split_path(s: &Vec<char>, backslash: bool) -> (r: Vec<Vec<char>>)
    ensures
        texts(r@) == split(s@, backslash),
{
    let mut parts: Vec<Vec<char>> = Vec::new();
    let mut current: Vec<char> = Vec::new();
    let n: usize = s.len();
    assert(texts(parts@).push(current@) =~= split(s@.take(0), backslash));
    for i in 0..n
        invariant
            n == s@.len(),
            texts(parts@).push(current@) == split(s@.take(i as int), backslash),
    {
        let c = s[i];
        let ghost before = texts(parts@);
        let ghost word = current@;
        assert(s@.take(i as int + 1).drop_last() == s@.take(i as int));
        if c == '/' || (backslash && c == '\\') {
            parts.push(current);
            current = Vec::new();
            assert(texts(parts@) =~= before.push(word));
        } else {
            current.push(c);
            assert(before.push(word).drop_last() =~= before);
        }
    }
    assert(s@.take(n as int) == s@);
    let ghost before = texts(parts@);
    let ghost word = current@;
    parts.push(current);
    assert(texts(parts@) =~= before.push(word));
    parts
}

/// Components joined by single slashes.
fn join_parts(parts: &Vec<Vec<char>>) -> (r: Vec<char>)
    ensures
        r@ == join(texts(parts@)),
{
    let mut r: Vec<char> = Vec::new();
    let n: usize = parts.len();
    for i in 0..n
        invariant
            n == parts@.len(),
            r@ == join(texts(parts@).take(i as int)),
    {
        let ghost all = texts(parts@);
        assert(all.take(i as int + 1).drop_last() == all.take(i as int));
        if i > 0 {
            r.push('/');
        }
        append_chars(&mut r, &parts[i]);
        assert(r@ =~= join(all.take(i as int + 1)));
    }
    assert(texts(parts@).take(n as int) == texts(parts@));
    r
}

/// The safe form of a name found in an archive: it holds no `.`, `..` or empty component and does
/// not lead out of the root.
pub fn sanitize_path(path: &str) -> (r: String)
    ensures
        r@ == sanitized(path@),
{
    let chars = to_chars(path);
    let parts = split_path(&chars, true);
    let dot: Vec<char> = vec!['.'];
    let dots: Vec<char> = vec!['.', '.'];
    assert(dot@ =~= seq!['.']);
    assert(dots@ =~= seq!['.', '.']);
    let mut result: Vec<Vec<char>> = Vec::new();
    let n: usize = parts.len();
    assert(texts(result@) =~= kept(texts(parts@).take(0)));
    for i in 0..n
        invariant
            n == parts@.len(),
            dot@ == seq!['.'],
            dots@ == seq!['.', '.'],
            texts(result@) == kept(texts(parts@).take(i as int)),
    {
        let ghost all = texts(parts@);
        let ghost before = result@;
        assert(all.take(i as int + 1).drop_last() == all.take(i as int));
        let part = &parts[i];
        if part.len() == 0 || same_chars(part, &dot) {
        } else if same_chars(part, &dots) {
            let _ = result.pop();
            assert(before.len() > 0 ==> texts(result@) =~= texts(before).drop_last());
        } else {
            result.push(copy_chars(part));
            assert(texts(result@) =~= texts(before).push(part@));
        }
    }
    assert(texts(parts@).take(n as int) == texts(parts@));
    let mut joined = join_parts(&result);
    let folder = chars.len() > 0 && (chars[chars.len() - 1] == '/' || chars[chars.len() - 1]
        == '\\');
    if folder && joined.len() > 0 {
        joined.push('/');
    }
    from_chars(&joined)
}

} // verus!
