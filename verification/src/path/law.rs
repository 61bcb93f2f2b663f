//! What holds of paths, however they are written.

use vstd::prelude::*;

use super::{
    comps, file_name, file_stem, is_absolute, joined, joined_bytes, leading, names,
};
use crate::text;
use crate::text::law::{lemma_words, unbroken};

verus! {

broadcast use vstd::string::group_string_axioms;

/// A name that can stand in a directory: not empty, without slashes, and neither
/// `.` nor `..`.
pub open spec fn plain_name(n: Seq<char>) -> bool {
    &&& n.len() > 0
    &&& forall|i: int| 0 <= i < n.len() ==> #[trigger] n[i] != '/'
    &&& n != seq!['.']
    &&& n != seq!['.', '.']
}

pub proof fn lemma_dots()
    ensures
        "."@ == seq!['.'],
        ".."@ == seq!['.', '.'],
        "/"@ == seq!['/'],
{
    reveal_strlit(".");
    reveal_strlit("..");
    reveal_strlit("/");
    assert("."@ =~= seq!['.']);
    assert(".."@ =~= seq!['.', '.']);
    assert("/"@ =~= seq!['/']);
}

proof fn lemma_relative_has_word(a: Seq<char>)
    requires
        a.len() > 0,
        a[0] != '/',
    ensures
        text::words(a, text::Separator::Slash).len() > 0,
    decreases a.len(),
{
    let sep = text::Separator::Slash;
    let d = a.drop_last();
    let keep = |t: Seq<char>| t.len() > 0;
    if a.last() == '/' {
        assert(d[0] == a[0]);
        lemma_relative_has_word(d);
        lemma_words(d, '/', Seq::empty(), sep);
        assert(d.push('/') + Seq::<char>::empty() =~= a);
    } else {
        let p = text::pieces(a, sep);
        assert(p.last().len() > 0);
        p.lemma_filter_contains(keep, p.len() - 1);
    }
}

proof fn lemma_names_join(a: Seq<char>, b: Seq<char>)
    ensures
        names(a.push('/') + b) == names(a) + names(b),
{
    let sep = text::Separator::Slash;
    let keep = |t: Seq<char>| t != "."@;
    lemma_words(a, '/', b, sep);
    Seq::filter_distributes_over_add(text::words(a, sep), text::words(b, sep), keep);
}

/// The components of a path with another behind it are its own and the names in
/// the other.
pub proof fn lemma_comps_join(a: Seq<char>, b: Seq<char>)
    requires
        a.len() > 0,
    ensures
        comps(a.push('/') + b) == comps(a) + names(b),
{
    let sep = text::Separator::Slash;
    let s = a.push('/') + b;
    lemma_words(a, '/', b, sep);
    lemma_names_join(a, b);
    assert(s[0] == a[0]);
    let wa = text::words(a, sep);
    let ws = text::words(s, sep);
    if a[0] != '/' {
        lemma_relative_has_word(a);
        assert(ws[0] == wa[0]);
    }
    assert(leading(s) == leading(a));
    assert(comps(s) =~= comps(a) + names(b));
}

/// A plain name is the one name in itself, and its one component.
pub proof fn lemma_name_is_comp(n: Seq<char>)
    requires
        plain_name(n),
    ensures
        names(n) == seq![n],
        comps(n) == seq![n],
        !is_absolute(n),
{
    let sep = text::Separator::Slash;
    let keep = |t: Seq<char>| t != "."@;
    lemma_dots();
    assert(unbroken(n, sep));
    lemma_words(n, '/', Seq::empty(), sep);
    reveal(Seq::filter);
    let one = seq![n];
    assert(one.drop_last() =~= Seq::<Seq<char>>::empty());
    assert(one.drop_last().filter(keep) =~= Seq::<Seq<char>>::empty());
    assert(one.filter(keep) =~= one);
    assert(leading(n) =~= Seq::<Seq<char>>::empty());
    assert(comps(n) =~= one);
}

/// The path of an entry of a directory ends in the entry's name and begins with
/// the components of the directory.
pub proof fn lemma_entry_path(dir: Seq<char>, n: Seq<char>)
    requires
        dir.len() > 0,
        plain_name(n),
    ensures
        comps(joined(dir, n)) == comps(dir).push(n),
        comps(dir.push('/') + n) == comps(dir).push(n),
        file_name(joined(dir, n)) == Some(n),
        comps(dir).is_prefix_of(comps(joined(dir, n))),
{
    lemma_name_is_comp(n);
    lemma_comps_join(dir, n);
    lemma_dots();
    assert(comps(dir) + seq![n] =~= comps(dir).push(n));
    if dir.last() == '/' {
        let d = dir.drop_last();
        assert(d.push('/') + n =~= dir + n);
        lemma_slash_at_end(dir, n);
    }
    let c = comps(joined(dir, n));
    assert(c.take(comps(dir).len() as int) =~= comps(dir));
}

proof fn lemma_slash_at_end(dir: Seq<char>, n: Seq<char>)
    requires
        dir.len() > 0,
        dir.last() == '/',
        plain_name(n),
    ensures
        comps(dir + n) == comps(dir).push(n),
{
    let d = dir.drop_last();
    let none = Seq::<char>::empty();
    let sep = text::Separator::Slash;
    lemma_name_is_comp(n);
    assert(d.push('/') + n =~= dir + n);
    assert(d.push('/') + none =~= dir);
    lemma_words(none, '/', none, sep);
    assert(names(none) =~= Seq::<Seq<char>>::empty()) by {
        reveal(Seq::filter);
    }
    if d.len() > 0 {
        lemma_comps_join(d, n);
        lemma_comps_join(d, none);
        assert(comps(dir) =~= comps(d));
        assert(comps(dir + n) =~= comps(dir).push(n));
    } else {
        lemma_names_join(none, n);
        lemma_names_join(none, none);
        lemma_dots();
        assert(d =~= none);
        assert(none.push('/') + n =~= dir + n);
        assert(none.push('/') + none =~= dir);
        assert(dir[0] == '/' && (dir + n)[0] == '/');
        assert(leading(dir + n) == leading(dir));
        assert(comps(dir + n) =~= comps(dir).push(n));
    }
}

/// A slash at the end, or two in a row, make no difference to a path.
pub proof fn lemma_slashes(a: Seq<char>, b: Seq<char>)
    requires
        a.len() > 0,
    ensures
        comps(a.push('/')) == comps(a),
        comps(a.push('/').push('/') + b) == comps(a.push('/') + b),
{
    let none = Seq::<char>::empty();
    let sep = text::Separator::Slash;
    lemma_words(none, '/', none, sep);
    assert(names(none) =~= Seq::<Seq<char>>::empty()) by {
        reveal(Seq::filter);
    }
    lemma_comps_join(a, none);
    assert(a.push('/') + none =~= a.push('/'));
    assert(comps(a) + names(none) =~= comps(a));
    lemma_comps_join(a.push('/'), b);
    lemma_comps_join(a, b);
}

/// Putting paths together keeps their bytes: a slash is added where none is.
pub proof fn lemma_joined_bytes(base: Seq<u8>, rel: Seq<u8>)
    requires
        base.len() > 0,
        rel.len() > 0,
        rel[0] != 0x2f,
    ensures
        rel.is_suffix_of(joined_bytes(base, rel)),
        base.is_prefix_of(joined_bytes(base, rel)),
        joined_bytes(base, rel).len() == base.len() + rel.len() + if base.last() == 0x2f {
            0int
        } else {
            1int
        },
        joined_bytes(base, rel)[joined_bytes(base, rel).len() - rel.len() - 1] == 0x2f,
{
    let r = joined_bytes(base, rel);
    assert(r.skip(r.len() - rel.len()) =~= rel);
    assert(r.take(base.len() as int) =~= base);
}

/// The stem of a file name and its extension, with a dot between them, are the
/// name.
pub proof fn lemma_stem(stem: Seq<char>, ext: Seq<char>)
    requires
        stem.len() > 0,
        forall|i: int| 0 <= i < ext.len() ==> #[trigger] ext[i] != '.',
    ensures
        file_stem(stem.push('.') + ext) == stem,
{
    let n = stem.push('.') + ext;
    text::law::lemma_last_dot(n);
    assert(n[stem.len() as int] == '.');
    assert(forall|j: int| stem.len() < j < n.len() ==> #[trigger] n[j] == ext[j - stem.len() - 1]);
    assert(n.take(stem.len() as int) =~= stem);
}

// ───────────────────────── names beside others ─────────────────────────

/// A name that a path can go on with: not empty, without slashes, and not `.`.
pub open spec fn entry_name(n: Seq<char>) -> bool {
    &&& n.len() > 0
    &&& forall|i: int| 0 <= i < n.len() ==> #[trigger] n[i] != '/'
    &&& n != seq!['.']
}

proof fn lemma_entry_comp(n: Seq<char>)
    requires
        entry_name(n),
    ensures
        names(n) == seq![n],
        comps(n) == seq![n],
        !is_absolute(n),
{
    let sep = text::Separator::Slash;
    let keep = |t: Seq<char>| t != "."@;
    lemma_dots();
    assert(unbroken(n, sep));
    lemma_words(n, '/', Seq::empty(), sep);
    reveal(Seq::filter);
    let one = seq![n];
    assert(one.drop_last() =~= Seq::<Seq<char>>::empty());
    assert(one.drop_last().filter(keep) =~= Seq::<Seq<char>>::empty());
    assert(one.filter(keep) =~= one);
    assert(leading(n) =~= Seq::<Seq<char>>::empty());
    assert(comps(n) =~= one);
}

proof fn lemma_join_entry(dir: Seq<char>, n: Seq<char>)
    requires
        entry_name(n),
        dir.len() > 0,
    ensures
        comps(joined(dir, n)) == comps(dir).push(n),
        joined(dir, n).len() > 0,
{
    let none = Seq::<char>::empty();
    let sep = text::Separator::Slash;
    lemma_entry_comp(n);
    lemma_comps_join(dir, n);
    assert(comps(dir) + seq![n] =~= comps(dir).push(n));
    if dir.last() == '/' {
        let d = dir.drop_last();
        assert(d.push('/') + n =~= dir + n);
        assert(d.push('/') + none =~= dir);
        lemma_words(none, '/', none, sep);
        assert(names(none) =~= Seq::<Seq<char>>::empty()) by {
            reveal(Seq::filter);
        }
        if d.len() > 0 {
            lemma_comps_join(d, n);
            lemma_comps_join(d, none);
            assert(comps(dir) =~= comps(d));
        } else {
            assert(d =~= none);
            lemma_names_join(none, n);
            lemma_names_join(none, none);
            assert(none.push('/') + n =~= dir + n);
            assert(none.push('/') + none =~= dir);
            assert(dir[0] == '/' && (dir + n)[0] == '/');
            assert(leading(dir + n) == leading(dir));
            assert(comps(dir + n) =~= comps(dir).push(n));
        }
    }
}

proof fn lemma_split_unbroken_parts(s: Seq<char>, i: int)
    ensures
        unbroken(
            text::split_state(s, text::Separator::Slash).1,
            text::Separator::Slash,
        ),
        0 <= i < text::split_state(s, text::Separator::Slash).0.len() ==> unbroken(
            text::split_state(s, text::Separator::Slash).0[i],
            text::Separator::Slash,
        ),
    decreases s.len(),
{
    let sep = text::Separator::Slash;
    if s.len() > 0 {
        let d = s.drop_last();
        lemma_split_unbroken_parts(d, i);
        let (done, open) = text::split_state(d, sep);
        if s.last() != '/' {
            let o = open.push(s.last());
            assert forall|k: int| 0 <= k < o.len() implies !text::law::ends_piece(
                sep,
                #[trigger] o[k],
            ) by {
                if k < open.len() {
                    assert(o[k] == open[k]);
                }
            }
        }
    }
}

/// The names in a path are names that it can go on with.
proof fn lemma_names_are(s: Seq<char>, i: int)
    requires
        0 <= i < names(s).len(),
    ensures
        entry_name(names(s)[i]),
{
    let sep = text::Separator::Slash;
    let w = text::words(s, sep);
    let p = text::pieces(s, sep);
    let keep = |t: Seq<char>| t != "."@;
    let full = |t: Seq<char>| t.len() > 0;
    lemma_dots();
    let n = names(s)[i];
    assert(w.filter(keep).contains(n));
    w.lemma_filter_contains_rev(keep, n);
    assert(p.filter(full).contains(n));
    p.lemma_filter_contains_rev(full, n);
    let k = choose|k: int| 0 <= k < p.len() && p[k] == n;
    lemma_split_unbroken_parts(s, k);
    assert(unbroken(n, sep));
    assert forall|j: int| 0 <= j < n.len() implies #[trigger] n[j] != '/' by {
        assert(!text::law::ends_piece(sep, n[j]));
    }
}

/// What a path may start with.
pub open spec fn is_lead(l: Seq<Seq<char>>) -> bool {
    l == Seq::<Seq<char>>::empty() || l == seq![seq!['/']] || l == seq![seq!['.']]
}

proof fn lemma_dot_path()
    ensures
        comps(seq!['.']) == seq![seq!['.']],
        comps(seq!['/']) == seq![seq!['/']],
{
    let none = Seq::<char>::empty();
    let sep = text::Separator::Slash;
    let dot = seq!['.'];
    lemma_dots();
    lemma_words(none, '/', none, sep);
    assert(none.push('/') + none =~= seq!['/']);
    assert(comps(seq!['/']) =~= seq![seq!['/']]) by {
        reveal(Seq::filter);
    }
    assert(unbroken(dot, sep));
    lemma_words(dot, '/', none, sep);
    let keep = |t: Seq<char>| t != "."@;
    let one = seq![dot];
    reveal(Seq::filter);
    assert(one.drop_last() =~= Seq::<Seq<char>>::empty());
    assert(one.drop_last().filter(keep) =~= Seq::<Seq<char>>::empty());
    assert(one.filter(keep) =~= Seq::<Seq<char>>::empty());
    assert(comps(dot) =~= one);
}

proof fn lemma_render(lead: Seq<Seq<char>>, ns: Seq<Seq<char>>)
    requires
        is_lead(lead),
        forall|i: int| 0 <= i < ns.len() ==> entry_name(#[trigger] ns[i]),
        lead.len() + ns.len() > 0,
    ensures
        super::render(lead + ns).len() > 0,
        comps(super::render(lead + ns)) == lead + ns,
    decreases ns.len(),
{
    let c = lead + ns;
    let none = Seq::<char>::empty();
    lemma_dot_path();
    assert(super::render(Seq::<Seq<char>>::empty()) =~= none);
    if ns.len() == 0 {
        assert(c =~= lead);
        assert(c.drop_last() =~= Seq::<Seq<char>>::empty());
        assert(c.last() == lead[0]);
    } else {
        let d = ns.drop_last();
        let n = ns.last();
        assert(n == ns[ns.len() - 1]);
        assert forall|i: int| 0 <= i < d.len() implies entry_name(#[trigger] d[i]) by {
            assert(d[i] == ns[i]);
        }
        assert(c.drop_last() =~= lead + d);
        lemma_entry_comp(n);
        if lead.len() + d.len() > 0 {
            lemma_render(lead, d);
            lemma_join_entry(super::render(lead + d), n);
            assert((lead + d).push(n) =~= c);
        } else {
            assert(lead + d =~= Seq::<Seq<char>>::empty());
            assert(c =~= seq![n]);
        }
    }
}

proof fn lemma_leading_is(s: Seq<char>)
    ensures
        is_lead(leading(s)),
{
    lemma_dots();
    assert(leading(s) =~= Seq::<Seq<char>>::empty() || leading(s) =~= seq![seq!['/']] || leading(s)
        =~= seq![seq!['.']]);
}

/// A file beside another has the components of the other's directory, and its own
/// name behind them.
pub proof fn lemma_beside(s: Seq<char>, n: Seq<char>)
    requires
        file_name(s) is Some,
        plain_name(n),
    ensures
        comps(super::renamed(s, n)) == comps(s).drop_last().push(n),
        file_name(super::renamed(s, n)) == Some(n),
{
    let c = comps(s);
    let l = leading(s);
    let ns = names(s);
    lemma_dots();
    lemma_leading_is(s);
    lemma_entry_comp(n);
    assert(ns.len() > 0) by {
        if ns.len() == 0 {
            assert(c =~= l);
            assert(l.len() == 1 && (l[0] == seq!['/'] || l[0] == seq!['.']));
        }
    }
    let d = ns.drop_last();
    assert(c.drop_last() =~= l + d);
    assert forall|i: int| 0 <= i < d.len() implies entry_name(#[trigger] d[i]) by {
        lemma_names_are(s, i);
    }
    if l.len() + d.len() > 0 {
        lemma_render(l, d);
        lemma_join_entry(super::render(l + d), n);
    } else {
        assert(l + d =~= Seq::<Seq<char>>::empty());
        assert(super::render(l + d) =~= Seq::<char>::empty());
        assert(c.drop_last().push(n) =~= seq![n]);
    }
    assert(c.drop_last().push(n).last() == n);
}

/// A file with another extension lies in the same directory, under the stem of its
/// name, a dot and the extension.
pub proof fn lemma_extension(s: Seq<char>, stem: Seq<char>, old_ext: Seq<char>, ext: Seq<char>)
    requires
        file_name(s) == Some(stem.push('.') + old_ext),
        stem.len() > 0,
        forall|i: int| 0 <= i < stem.len() ==> #[trigger] stem[i] != '/',
        forall|i: int| 0 <= i < old_ext.len() ==> #[trigger] old_ext[i] != '.',
        ext.len() > 0,
        forall|i: int| 0 <= i < ext.len() ==> #[trigger] ext[i] != '/',
    ensures
        comps(super::extended(s, ext)) == comps(s).drop_last().push(stem.push('.') + ext),
{
    reveal_strlit(".");
    lemma_dots();
    lemma_stem(stem, old_ext);
    let n = stem.push('.') + ext;
    assert(stem + "."@ + ext =~= n);
    assert(plain_name(n)) by {
        assert forall|i: int| 0 <= i < n.len() implies #[trigger] n[i] != '/' by {
            if i < stem.len() {
                assert(n[i] == stem[i]);
            } else if i > stem.len() {
                assert(n[i] == ext[i - stem.len() - 1]);
            }
        }
        assert(n.len() >= 3);
    }
    lemma_beside(s, n);
}

} // verus!
