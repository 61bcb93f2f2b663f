//! Paths as text: the component-wise view of a Unix path.
//!
//! Paths are compared by their components, as `std::path::Path` does:
//! repeated separators, a trailing separator and `.` (other than at the front
//! of a relative path) make no difference. The root is the component `/`.

pub mod law;

use vstd::prelude::*;

use crate::text;

verus! {

broadcast use vstd::string::group_string_axioms;

/// `s` starts at the root.
pub open spec fn is_absolute(s: Seq<char>) -> bool {
    s.len() > 0 && s[0] == '/'
}

/// The components that stand before the first named one: the root, or the `.`
/// that a relative path starts with.
pub open spec fn leading(s: Seq<char>) -> Seq<Seq<char>> {
    let w = text::words(s, text::Separator::Slash);
    if is_absolute(s) {
        seq!["/"@]
    } else if w.len() > 0 && w[0] == "."@ {
        seq!["."@]
    } else {
        Seq::empty()
    }
}

/// The names in `s` other than `.`.
pub open spec fn names(s: Seq<char>) -> Seq<Seq<char>> {
    text::words(s, text::Separator::Slash).filter(|t: Seq<char>| t != "."@)
}

/// The components of the path `s`.
pub open spec fn comps(s: Seq<char>) -> Seq<Seq<char>> {
    leading(s) + names(s)
}

/// A component that names an entry of a directory.
pub open spec fn is_normal(c: Seq<char>) -> bool {
    c != "/"@ && c != "."@ && c != ".."@
}

/// The name of the file or directory that `s` leads to.
pub open spec fn file_name(s: Seq<char>) -> Option<Seq<char>> {
    let c = comps(s);
    if c.len() > 0 && is_normal(c.last()) {
        Some(c.last())
    } else {
        None
    }
}

/// The components of `s`, in order.
pub fn components(s: &str) -> (r: Vec<Vec<char>>)
    ensures
        text::texts(r@) == comps(s@),
{
    broadcast use text::lemma_texts_push;

    let c = text::chars_of(s);
    let w = text::split_words(c.as_slice(), text::Separator::Slash);
    let ghost keep = |t: Seq<char>| t != "."@;
    let ghost lead = leading(s@);
    let dot = text::chars_of(".");
    let mut out: Vec<Vec<char>> = Vec::new();
    assert(text::texts(out@) =~= Seq::<Seq<char>>::empty());
    if c.len() > 0 && c[0] == '/' {
        out.push(text::chars_of("/"));
        assert(text::texts(out@) =~= lead);
    } else if w.len() > 0 && text::same(w[0].as_slice(), dot.as_slice()) {
        assert(text::texts(w@)[0] == "."@);
        out.push(text::chars_of("."));
        assert(text::texts(out@) =~= lead);
    } else {
        assert(w@.len() > 0 ==> text::texts(w@)[0] == w@[0]@);
        assert(text::texts(out@) =~= lead);
    }
    let mut i: usize = 0;
    assert(text::texts(out@) =~= lead + text::texts(w@).take(0).filter(keep)) by {
        reveal(Seq::filter);
    }
    while i < w.len()
        invariant
            i <= w@.len(),
            dot@ == "."@,
            keep == (|t: Seq<char>| t != "."@),
            text::texts(out@) == lead + text::texts(w@).take(i as int).filter(keep),
        decreases w@.len() - i,
    {
        proof {
            reveal(Seq::filter);
            assert(text::texts(w@).take(i + 1).drop_last() =~= text::texts(w@).take(i as int));
            assert(text::texts(w@)[i as int] == w@[i as int]@);
        }
        if !text::same(w[i].as_slice(), dot.as_slice()) {
            let ghost before = text::texts(w@).take(i as int).filter(keep);
            out.push(vstd::slice::slice_to_vec(w[i].as_slice()));
            assert(lead + before.push(w@[i as int]@) =~= (lead + before).push(w@[i as int]@));
        }
        i += 1;
    }
    assert(text::texts(w@).take(i as int) =~= text::texts(w@));
    out
}

/// Equality of two lists of components.
fn same_components(a: &Vec<Vec<char>>, b: &Vec<Vec<char>>) -> (r: bool)
    ensures
        r == (text::texts(a@) == text::texts(b@)),
{
    if a.len() != b.len() {
        assert(text::texts(a@).len() != text::texts(b@).len());
        return false;
    }
    same_run(a, 0, b)
}

/// Whether `b` stands in `a` from position `from` on.
fn same_run(a: &Vec<Vec<char>>, from: usize, b: &Vec<Vec<char>>) -> (r: bool)
    requires
        from + b@.len() <= a@.len(),
    ensures
        r == (text::texts(a@).subrange(from as int, from + b@.len()) == text::texts(b@)),
        from == 0 && a@.len() == b@.len() ==> r == (text::texts(a@) == text::texts(b@)),
{
    let ghost ta = text::texts(a@);
    let ghost tb = text::texts(b@);
    proof {
        if from == 0 && a@.len() == b@.len() {
            assert(ta.subrange(0, b@.len() as int) =~= ta);
        }
    }
    let mut i: usize = 0;
    let total: usize = a.len();
    while i < b.len()
        invariant
            i <= b@.len(),
            total == a@.len(),
            from + b@.len() <= total,
            ta == text::texts(a@),
            tb == text::texts(b@),
            forall|j: int| 0 <= j < i ==> ta[from + j] == tb[j],
        decreases b@.len() - i,
    {
        if !text::same(a[from + i].as_slice(), b[i].as_slice()) {
            assert(ta[from + i] != tb[i as int]);
            assert(ta.subrange(from as int, from + b@.len())[i as int] == ta[from + i]);
            return false;
        }
        i += 1;
    }
    assert(ta.subrange(from as int, from + b@.len()) =~= tb);
    true
}

/// Path equality.
pub fn path_eq(a: &str, b: &str) -> (r: bool)
    ensures
        r == (comps(a@) == comps(b@)),
{
    same_components(&components(a), &components(b))
}

/// `path` is `base` or lies below it.
pub fn path_starts_with(path: &str, base: &str) -> (r: bool)
    ensures
        r == comps(base@).is_prefix_of(comps(path@)),
{
    let a = components(path);
    let b = components(base);
    if b.len() > a.len() {
        return false;
    }
    same_run(&a, 0, &b)
}

/// The last components of `path` are those of `tail`.
pub fn path_ends_with(path: &str, tail: &str) -> (r: bool)
    ensures
        r == comps(tail@).is_suffix_of(comps(path@)),
{
    let a = components(path);
    let b = components(tail);
    if b.len() > a.len() {
        return false;
    }
    let from: usize = a.len() - b.len();
    same_run(&a, from, &b)
}

/// The name that `path` ends in.
pub fn path_file_name(path: &str) -> (r: Option<String>)
    ensures
        match r {
            Some(n) => file_name(path@) == Some(n@),
            None => file_name(path@) is None,
        },
{
    let c = components(path);
    if c.len() == 0 {
        return None;
    }
    let last = &c[c.len() - 1];
    assert(comps(path@).last() == last@);
    if text::same(last.as_slice(), text::chars_of("/").as_slice()) || text::same(
        last.as_slice(),
        text::chars_of(".").as_slice(),
    ) || text::same(last.as_slice(), text::chars_of("..").as_slice()) {
        return None;
    }
    Some(text::string_of(last.as_slice()))
}

/// `list` holds a path equal to `p`.
pub open spec fn has_path(list: Seq<Seq<char>>, p: Seq<char>) -> bool {
    exists|i: int| 0 <= i < list.len() && comps(#[trigger] list[i]) == comps(p)
}

/// Whether `list` holds a path equal to `p`.
pub fn list_has_path(list: &[String], p: &str) -> (r: bool)
    ensures
        r == has_path(text::strs(list@), p@),
{
    let mut i: usize = 0;
    while i < list.len()
        invariant
            i <= list@.len(),
            forall|j: int|
                0 <= j < i ==> comps(#[trigger] text::strs(list@)[j]) != comps(p@),
        decreases list@.len() - i,
    {
        if path_eq(list[i].as_str(), p) {
            assert(comps(text::strs(list@)[i as int]) == comps(p@));
            return true;
        }
        i += 1;
    }
    false
}

/// `base` followed by `rel`; an absolute `rel` stands alone.
pub open spec fn joined(base: Seq<char>, rel: Seq<char>) -> Seq<char> {
    if is_absolute(rel) || base.len() == 0 {
        rel
    } else if base.last() == '/' {
        base + rel
    } else {
        base.push('/') + rel
    }
}

pub fn join(base: &str, rel: &str) -> (r: String)
    ensures
        r@ == joined(base@, rel@),
{
    let mut b = text::chars_of(base);
    let mut c = text::chars_of(rel);
    if (c.len() > 0 && c[0] == '/') || b.len() == 0 {
        return text::string_of(c.as_slice());
    }
    if b[b.len() - 1] != '/' {
        b.push('/');
    }
    b.append(&mut c);
    text::string_of(b.as_slice())
}

/// `base` followed by `rel`, for names that need not be text; an absolute `rel`
/// stands alone.
pub open spec fn joined_bytes(base: Seq<u8>, rel: Seq<u8>) -> Seq<u8> {
    if (rel.len() > 0 && rel[0] == 47) || base.len() == 0 {
        rel
    } else if base.last() == 47 {
        base + rel
    } else {
        base.push(47) + rel
    }
}

pub fn join_bytes(base: &[u8], rel: &[u8]) -> (r: Vec<u8>)
    ensures
        r@ == joined_bytes(base@, rel@),
{
    let mut b = vstd::slice::slice_to_vec(base);
    let mut c = vstd::slice::slice_to_vec(rel);
    if (c.len() > 0 && c[0] == 47) || b.len() == 0 {
        return c;
    }
    if b[b.len() - 1] != 47 {
        b.push(47);
    }
    b.append(&mut c);
    b
}

/// Components written out as a path.
pub open spec fn render(c: Seq<Seq<char>>) -> Seq<char>
    decreases c.len(),
{
    if c.len() == 0 {
        Seq::empty()
    } else {
        joined(render(c.drop_last()), c.last())
    }
}

fn render_path(c: &[Vec<char>]) -> (r: String)
    ensures
        r@ == render(text::texts(c@)),
{
    let mut out = String::new();
    let mut i: usize = 0;
    assert(text::texts(c@).take(0) =~= Seq::<Seq<char>>::empty());
    while i < c.len()
        invariant
            i <= c@.len(),
            out@ == render(text::texts(c@).take(i as int)),
        decreases c@.len() - i,
    {
        assert(text::texts(c@).take(i + 1).drop_last() =~= text::texts(c@).take(i as int));
        assert(text::texts(c@).take(i + 1).last() == c@[i as int]@);
        out = join(out.as_str(), text::string_of(c[i].as_slice()).as_str());
        i += 1;
    }
    assert(text::texts(c@).take(i as int) =~= text::texts(c@));
    out
}

/// The path next to `s` that is called `name`: the last component of `s`, if it
/// is a name, gives way to `name`.
pub open spec fn renamed(s: Seq<char>, name: Seq<char>) -> Seq<char> {
    let dir = if file_name(s) is Some {
        comps(s).drop_last()
    } else {
        comps(s)
    };
    joined(render(dir), name)
}

pub fn with_file_name(s: &str, name: &str) -> (r: String)
    ensures
        r@ == renamed(s@, name@),
{
    let mut c = components(s);
    if path_file_name(s).is_some() {
        let ghost before = c@;
        c.pop();
        assert(text::texts(c@) =~= comps(s@).drop_last());
    }
    join(render_path(c.as_slice()).as_str(), name)
}

/// A file name without its extension; a dot at its front starts none.
pub open spec fn file_stem(name: Seq<char>) -> Seq<char> {
    match text::last_dot(name) {
        Some(i) => if i == 0 {
            name
        } else {
            name.take(i)
        },
        None => name,
    }
}

/// The path `s` with the extension `ext` in place of its own.
pub open spec fn extended(s: Seq<char>, ext: Seq<char>) -> Seq<char> {
    match file_name(s) {
        Some(n) => renamed(s, file_stem(n) + "."@ + ext),
        None => s,
    }
}

pub fn with_extension(s: &str, ext: &str) -> (r: String)
    ensures
        r@ == extended(s@, ext@),
{
    match path_file_name(s) {
        None => text::owned(s),
        Some(n) => {
            let c = text::chars_of(n.as_str());
            let end: usize = match text::find_last_dot(c.as_slice()) {
                Some(i) => if i == 0 {
                    c.len()
                } else {
                    i
                },
                None => c.len(),
            };
            let stem = &c.as_slice()[0..end];
            assert(stem@ =~= file_stem(c@));
            let a = text::concat(text::string_of(stem).as_str(), ".");
            let name = text::concat(a.as_str(), ext);
            with_file_name(s, name.as_str())
        },
    }
}

} // verus!
