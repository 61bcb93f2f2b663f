//! What holds of texts, whatever they hold.

use vstd::prelude::*;

use super::{
    is_space, joined_with, last_dot, line_seq, lower, lower_char, pieces, split_state,
    trim_back, trim_front, trimmed, upper, upper_char, words, Separator,
};

verus! {

// ───────────────────────── letter case ─────────────────────────

/// The two characters are the same, or the same ASCII letter in two cases.
pub open spec fn alike_char(a: char, b: char) -> bool {
    ||| a == b
    ||| 'A' <= a && a <= 'Z' && b as int == a as int + 32
    ||| 'A' <= b && b <= 'Z' && a as int == b as int + 32
}

/// The two texts differ in the case of ASCII letters at most.
pub open spec fn alike(a: Seq<char>, b: Seq<char>) -> bool {
    a.len() == b.len() && forall|i: int| 0 <= i < a.len() ==> alike_char(#[trigger] a[i], b[i])
}

proof fn lemma_char_alike(a: char, b: char)
    ensures
        lower_char(a) == lower_char(b) <==> alike_char(a, b),
        upper_char(a) == upper_char(b) <==> alike_char(a, b),
{
}

/// Texts have the same lower case, and the same upper case, just when they differ
/// in case at most.
pub proof fn lemma_case(a: Seq<char>, b: Seq<char>)
    ensures
        lower(a) == lower(b) <==> alike(a, b),
        upper(a) == upper(b) <==> alike(a, b),
        lower(a).len() == a.len() && upper(a).len() == a.len(),
{
    if a.len() == b.len() {
        if alike(a, b) {
            assert forall|i: int| 0 <= i < a.len() implies lower(a)[i] == lower(b)[i] && upper(a)[i]
                == upper(b)[i] by {
                lemma_char_alike(a[i], b[i]);
            }
            assert(lower(a) =~= lower(b));
            assert(upper(a) =~= upper(b));
        }
        if lower(a) == lower(b) || upper(a) == upper(b) {
            assert forall|i: int| 0 <= i < a.len() implies alike_char(#[trigger] a[i], b[i]) by {
                assert(lower(a)[i] == lower_char(a[i]) && lower(b)[i] == lower_char(b[i]));
                assert(upper(a)[i] == upper_char(a[i]) && upper(b)[i] == upper_char(b[i]));
                lemma_char_alike(a[i], b[i]);
            }
        }
    } else {
        assert(lower(a).len() != lower(b).len());
        assert(upper(a).len() != upper(b).len());
    }
}

/// A text in lower case has no upper case letters and is like the text itself;
/// the other way round for upper case.
pub proof fn lemma_case_of(a: Seq<char>)
    ensures
        alike(lower(a), a),
        alike(upper(a), a),
        forall|i: int| 0 <= i < a.len() ==> !('A' <= #[trigger] lower(a)[i] && lower(a)[i] <= 'Z'),
        forall|i: int| 0 <= i < a.len() ==> !('a' <= #[trigger] upper(a)[i] && upper(a)[i] <= 'z'),
{
    assert forall|i: int| 0 <= i < a.len() implies alike_char(#[trigger] lower(a)[i], a[i]) by {
        lemma_char_alike(a[i], a[i]);
    }
    assert forall|i: int| 0 <= i < a.len() implies alike_char(#[trigger] upper(a)[i], a[i]) by {
        lemma_char_alike(a[i], a[i]);
    }
}

// ───────────────────────── splitting ─────────────────────────

/// The character ends a piece.
pub open spec fn ends_piece(sep: Separator, c: char) -> bool {
    match sep {
        Separator::Slash => c == '/',
        Separator::Field => c == '\0' || c == '\n',
        Separator::Space => is_space(c),
        Separator::Newline => c == '\n',
    }
}

/// No character of the text ends a piece.
pub open spec fn unbroken(s: Seq<char>, sep: Separator) -> bool {
    forall|i: int| 0 <= i < s.len() ==> !ends_piece(sep, #[trigger] s[i])
}

proof fn lemma_split_unbroken(s: Seq<char>, sep: Separator)
    requires
        unbroken(s, sep),
    ensures
        split_state(s, sep) == (Seq::<Seq<char>>::empty(), s),
    decreases s.len(),
{
    if s.len() > 0 {
        let d = s.drop_last();
        assert forall|i: int| 0 <= i < d.len() implies !ends_piece(sep, #[trigger] d[i]) by {
            assert(d[i] == s[i]);
        }
        lemma_split_unbroken(d, sep);
        assert(!ends_piece(sep, s[s.len() - 1]));
        assert(d.push(s.last()) =~= s);
    } else {
        assert(s =~= Seq::<char>::empty());
    }
}

proof fn lemma_split_at(a: Seq<char>, c: char, b: Seq<char>, sep: Separator)
    requires
        ends_piece(sep, c),
    ensures
        split_state(a.push(c) + b, sep).0 == split_state(a, sep).0.push(split_state(a, sep).1)
            + split_state(b, sep).0,
        split_state(a.push(c) + b, sep).1 == split_state(b, sep).1,
    decreases b.len(),
{
    let done = split_state(a, sep).0.push(split_state(a, sep).1);
    let s = a.push(c) + b;
    if b.len() == 0 {
        assert(s =~= a.push(c));
        assert(a.push(c).drop_last() =~= a);
        assert(split_state(s, sep).0 =~= done);
        assert(done + split_state(b, sep).0 =~= done);
    } else {
        let d = b.drop_last();
        lemma_split_at(a, c, d, sep);
        assert(s.drop_last() =~= a.push(c) + d);
        assert(s.last() == b.last());
        let (x, y) = split_state(d, sep);
        assert(done + x.push(y) =~= (done + x).push(y));
    }
}

/// A text is split at each character that ends a piece, and nowhere else: one
/// without such a character is a single piece, and of a text with one, the pieces
/// before it are followed by those after it.
pub proof fn lemma_pieces(a: Seq<char>, c: char, b: Seq<char>, sep: Separator)
    requires
        ends_piece(sep, c),
    ensures
        unbroken(a, sep) ==> pieces(a, sep) == seq![a],
        pieces(a.push(c) + b, sep) == pieces(a, sep) + pieces(b, sep),
{
    if unbroken(a, sep) {
        lemma_split_unbroken(a, sep);
        assert(pieces(a, sep) =~= seq![a]);
    }
    lemma_split_at(a, c, b, sep);
    assert(pieces(a.push(c) + b, sep) =~= pieces(a, sep) + pieces(b, sep));
}

/// The words of a text are those before a separator, then those after it; a text
/// without one is a word, unless it is empty.
pub proof fn lemma_words(a: Seq<char>, c: char, b: Seq<char>, sep: Separator)
    requires
        ends_piece(sep, c),
    ensures
        unbroken(a, sep) && a.len() > 0 ==> words(a, sep) == seq![a],
        a.len() == 0 ==> words(a, sep) == Seq::<Seq<char>>::empty(),
        words(a.push(c) + b, sep) == words(a, sep) + words(b, sep),
{
    reveal(Seq::filter);
    let keep = |t: Seq<char>| t.len() > 0;
    lemma_pieces(a, c, b, sep);
    Seq::filter_distributes_over_add(pieces(a, sep), pieces(b, sep), keep);
    let one = seq![a];
    assert(one.drop_last() =~= Seq::<Seq<char>>::empty());
    assert(one.drop_last().filter(keep) =~= Seq::<Seq<char>>::empty());
    if a.len() == 0 {
        assert(unbroken(a, sep));
        assert(one.filter(keep) =~= Seq::<Seq<char>>::empty());
    } else {
        assert(one.filter(keep) =~= one);
    }
}

/// A line goes up to a line feed, without a carriage return before it. What
/// follows the last line feed is a line if it is not empty.
pub proof fn lemma_lines(a: Seq<char>, b: Seq<char>)
    requires
        unbroken(a, Separator::Newline),
    ensures
        line_seq(a) == if a.len() == 0 {
            Seq::<Seq<char>>::empty()
        } else {
            seq![a]
        },
        a.len() == 0 || a.last() != '\r' ==> line_seq(a.push('\n') + b) == seq![a]
            + line_seq(b),
        line_seq(a.push('\r').push('\n') + b) == seq![a] + line_seq(b),
{
    let sep = Separator::Newline;
    let strip = |t: Seq<char>| super::without_cr(t);
    lemma_split_unbroken(a, sep);
    assert(Seq::<Seq<char>>::empty().map_values(strip) =~= Seq::<Seq<char>>::empty());
    assert(line_seq(a) =~= if a.len() == 0 {
        Seq::<Seq<char>>::empty()
    } else {
        seq![a]
    });
    lemma_split_at(a, '\n', b, sep);
    let ar = a.push('\r');
    assert(unbroken(ar, sep));
    lemma_split_unbroken(ar, sep);
    lemma_split_at(ar, '\n', b, sep);
    assert(ar.drop_last() =~= a);
    let (x, y) = split_state(b, sep);
    assert(Seq::<Seq<char>>::empty().push(ar) + x =~= seq![ar] + x);
    assert((seq![ar] + x).map_values(strip) =~= seq![a] + x.map_values(strip));
    assert(line_seq(ar.push('\n') + b) =~= seq![a] + line_seq(b));
    if a.len() == 0 || a.last() != '\r' {
        assert(Seq::<Seq<char>>::empty().push(a) + x =~= seq![a] + x);
        assert((seq![a] + x).map_values(strip) =~= seq![a] + x.map_values(strip));
        assert(line_seq(a.push('\n') + b) =~= seq![a] + line_seq(b));
    }
}

/// The last dot is a dot, and none comes after it.
pub proof fn lemma_last_dot(name: Seq<char>)
    ensures
        match last_dot(name) {
            Some(i) => {
                &&& 0 <= i < name.len()
                &&& name[i] == '.'
                &&& forall|j: int| i < j < name.len() ==> #[trigger] name[j] != '.'
            },
            None => forall|j: int| 0 <= j < name.len() ==> #[trigger] name[j] != '.',
        },
    decreases name.len(),
{
    if name.len() > 0 && name.last() != '.' {
        let d = name.drop_last();
        lemma_last_dot(d);
        assert(forall|j: int| 0 <= j < d.len() ==> #[trigger] d[j] == name[j]);
        assert(name[name.len() - 1] != '.');
        match last_dot(name) {
            Some(i) => {
                assert(name[i] == d[i]);
                assert forall|j: int| i < j < name.len() implies #[trigger] name[j]
                    != '.' by {
                    if j < d.len() {
                        assert(d[j] == name[j]);
                    }
                }
            },
            None => {
                assert forall|j: int| 0 <= j < name.len() implies #[trigger] name[j]
                    != '.' by {
                    if j < d.len() {
                        assert(d[j] == name[j]);
                    }
                }
            },
        }
    }
}

// ───────────────────────── trimming ─────────────────────────

/// All characters of the text are white space.
pub open spec fn blank(s: Seq<char>) -> bool {
    forall|i: int| 0 <= i < s.len() ==> is_space(#[trigger] s[i])
}

/// White space is what Unicode calls so: the blank, the characters from tab to
/// carriage return, and some beyond ASCII.
pub proof fn lemma_space(c: char)
    ensures
        is_space(c) <==> 0x09 <= c as int <= 0x0d || c as int == 0x20 || c as int == 0x85 || c as int
            == 0xa0 || c as int == 0x1680 || 0x2000 <= c as int <= 0x200a || c as int == 0x2028
            || c as int == 0x2029 || c as int == 0x202f || c as int == 0x205f || c as int == 0x3000,
{
}

proof fn lemma_trim_front(s: Seq<char>) -> (k: int)
    ensures
        0 <= k <= s.len(),
        trim_front(s) == s.skip(k),
        blank(s.take(k)),
        k < s.len() ==> !is_space(s[k]),
    decreases s.len(),
{
    if s.len() > 0 && is_space(s[0]) {
        let r = s.skip(1);
        let k = lemma_trim_front(r);
        assert(r.skip(k) =~= s.skip(k + 1));
        assert forall|i: int| 0 <= i < k + 1 implies is_space(#[trigger] s.take(k + 1)[i]) by {
            if i > 0 {
                assert(r.take(k)[i - 1] == s[i]);
            }
        }
        if k < r.len() {
            assert(r[k] == s[k + 1]);
        }
        k + 1
    } else {
        assert(s.skip(0) =~= s);
        0
    }
}

proof fn lemma_trim_back(s: Seq<char>) -> (k: int)
    ensures
        0 <= k <= s.len(),
        trim_back(s) == s.take(k),
        blank(s.skip(k)),
        k > 0 ==> !is_space(s[k - 1]),
    decreases s.len(),
{
    if s.len() > 0 && is_space(s.last()) {
        let r = s.drop_last();
        let k = lemma_trim_back(r);
        assert(r.take(k) =~= s.take(k));
        assert forall|i: int| 0 <= i < s.skip(k).len() implies is_space(#[trigger] s.skip(k)[i]) by {
            if k + i < r.len() {
                assert(r.skip(k)[i] == s[k + i]);
            }
        }
        k
    } else {
        assert(s.take(s.len() as int) =~= s);
        s.len() as int
    }
}

/// What is trimmed away is white space, and what is left neither starts nor ends
/// with any.
pub proof fn lemma_trimmed(s: Seq<char>) -> (r: (int, int))
    ensures
        0 <= r.0 <= r.1 <= s.len(),
        trimmed(s) == s.subrange(r.0, r.1),
        blank(s.take(r.0)),
        blank(s.skip(r.1)),
        r.0 < r.1 ==> !is_space(s[r.0]) && !is_space(s[r.1 - 1]),
{
    let a = lemma_trim_front(s);
    let f = trim_front(s);
    let n = lemma_trim_back(f);
    assert(f.take(n) =~= s.subrange(a, a + n));
    assert(f.skip(n) =~= s.skip(a + n));
    if n > 0 {
        assert(f[n - 1] == s[a + n - 1]);
        assert(f[0] == s[a]);
    }
    (a, a + n)
}

// ───────────────────────── putting together ─────────────────────────

/// Texts are put together in order, with the separator between any two.
pub proof fn lemma_joined(v: Seq<Seq<char>>, t: Seq<char>, sep: Seq<char>)
    ensures
        joined_with(Seq::empty(), sep) == Seq::<char>::empty(),
        joined_with(seq![t], sep) == t,
        v.len() > 0 ==> joined_with(v.push(t), sep) == joined_with(v, sep) + sep + t,
{
    assert(v.push(t).drop_last() =~= v);
}

/// A column is as wide as it should be, or as its text; the text stands at its
/// left or its right, and the rest is blank.
pub proof fn lemma_columns(s: Seq<char>, width: int)
    ensures
        super::at_left(s, width).len() == vstd::math::max(width, s.len() as int),
        super::at_right(s, width).len() == vstd::math::max(width, s.len() as int),
        s.is_prefix_of(super::at_left(s, width)),
        s.is_suffix_of(super::at_right(s, width)),
        forall|i: int|
            s.len() <= i < width ==> #[trigger] super::at_left(s, width)[i] as u32 == 0x20,
        forall|i: int|
            0 <= i < width - s.len() ==> #[trigger] super::at_right(s, width)[i] as u32 == 0x20,
{
    assert(super::at_left(s, width).take(s.len() as int) =~= s);
    let r = super::at_right(s, width);
    assert(r.skip(r.len() - s.len()) =~= s);
}

/// A text loses its prefix as often as it starts with it.
pub proof fn lemma_without_prefixes(p: Seq<char>, s: Seq<char>)
    requires
        p.len() > 0,
    ensures
        super::without_prefixes(p + s, p) == super::without_prefixes(s, p),
        !p.is_prefix_of(s) ==> super::without_prefixes(s, p) == s,
        super::without_prefixes(s, p).is_suffix_of(s),
        !p.is_prefix_of(super::without_prefixes(s, p)),
    decreases s.len(),
{
    let t = p + s;
    assert(t.take(p.len() as int) =~= p);
    assert(p.is_prefix_of(t));
    assert(t.skip(p.len() as int) =~= s);
    if p.is_prefix_of(s) {
        let r = s.skip(p.len() as int);
        lemma_without_prefixes(p, r);
        let w = super::without_prefixes(s, p);
        assert(s.skip(s.len() - w.len()) =~= r.skip(r.len() - w.len()));
    } else {
        assert(s.skip(0) =~= s);
    }
}

} // verus!
