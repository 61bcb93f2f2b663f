//! Text helpers over sequences of characters.
//!
//! The functions work on slices of `char` and state their results over
//! `Seq<char>`, so that callers can reason about strings without leaving the
//! mathematical model. Where a helper bears the name of a method of `str`, it
//! does what that method does.

pub mod law;

use vstd::prelude::*;
use vstd::utf8::{decode_utf8, encode_utf8, valid_utf8};

verus! {

broadcast use vstd::string::group_string_axioms;

/// `String::push` appends one character to the string.
pub assume_specification[ String::push ](s: &mut String, c: char)
    ensures
        final(s)@ == old(s)@.push(c),
;

// ───────────────────────── conversions ─────────────────────────

/// The characters of `s`, in order.
pub fn chars_of(s: &str) -> (r: Vec<char>)
    ensures
        r@ == s@,
{
    let mut out: Vec<char> = Vec::new();
    for c in it: s.chars()
        invariant
            it.seq() == s@,
            out@ == s@.take(it.index()),
    {
        out.push(c);
    }
    out
}

/// The string made of the characters `c`.
pub fn string_of(c: &[char]) -> (r: String)
    ensures
        r@ == c@,
{
    let mut out = String::new();
    let mut i: usize = 0;
    while i < c.len()
        invariant
            i <= c@.len(),
            out@ == c@.take(i as int),
        decreases c@.len() - i,
    {
        out.push(c[i]);
        i += 1;
    }
    out
}

/// A copy of `s`.
pub fn owned(s: &str) -> (r: String)
    ensures
        r@ == s@,
{
    string_of(chars_of(s).as_slice())
}

pub fn concat(a: &str, b: &str) -> (r: String)
    ensures
        r@ == a@ + b@,
{
    let mut out = chars_of(a);
    let mut tail = chars_of(b);
    out.append(&mut tail);
    string_of(out.as_slice())
}

/// What `String::from_utf8_lossy` makes of bytes that are not UTF-8: a text with
/// a replacement character for what is not.
pub uninterp spec fn repaired(b: Seq<u8>) -> Seq<char>;

/// The text of some bytes, repaired where they are not UTF-8.
pub open spec fn text_of(b: Seq<u8>) -> Seq<char> {
    if valid_utf8(b) {
        decode_utf8(b)
    } else {
        repaired(b)
    }
}

/// Calls `String::from_utf8_lossy`. Bytes that are UTF-8 give the text that they
/// encode. What others give depends on them alone and is only named.
#[verifier::external_body]
pub(crate) fn lossy(b: &[u8]) -> (r: String)
    ensures
        valid_utf8(b@) ==> r@ == decode_utf8(b@),
        !valid_utf8(b@) ==> r@ == repaired(b@),
{
    String::from_utf8_lossy(b).into_owned()
}

/// The bytes of a text.
pub fn bytes_of(s: &str) -> (r: Vec<u8>)
    ensures
        r@ == encode_utf8(s@),
{
    vstd::slice::slice_to_vec(s.as_bytes())
}

/// The bytes of a text stand for that text.
pub proof fn lemma_text_of_bytes(s: Seq<char>)
    ensures
        text_of(encode_utf8(s)) == s,
{
    vstd::utf8::encode_utf8_valid_utf8(s);
    vstd::utf8::encode_utf8_decode_utf8(s);
}

/// The bytes of two texts in a row are those of the one, then those of the other.
pub proof fn lemma_bytes_of_concat(a: Seq<char>, b: Seq<char>)
    ensures
        encode_utf8(a + b) == encode_utf8(a) + encode_utf8(b),
    decreases a.len(),
{
    if a.len() == 0 {
        assert(a + b =~= b);
        assert(encode_utf8(a) + encode_utf8(b) =~= encode_utf8(b));
    } else {
        lemma_bytes_of_concat(a.drop_first(), b);
        assert((a + b).drop_first() =~= a.drop_first() + b);
        let c = vstd::utf8::encode_scalar(a[0] as u32);
        assert(c + (encode_utf8(a.drop_first()) + encode_utf8(b)) =~= encode_utf8(a) + encode_utf8(
            b,
        ));
    }
}

/// The strings of a list, as sequences of characters.
pub open spec fn strs(v: Seq<String>) -> Seq<Seq<char>> {
    v.map_values(|s: String| s@)
}

/// Appending a string appends its characters.
pub broadcast proof fn lemma_strs_push(v: Seq<String>, s: String)
    ensures
        #[trigger] strs(v.push(s)) == strs(v).push(s@),
{
    assert(strs(v.push(s)) =~= strs(v).push(s@));
}

/// A copy of a list of strings.
pub fn clone_strings(v: &[String]) -> (r: Vec<String>)
    ensures
        strs(r@) == strs(v@),
{
    let mut out: Vec<String> = Vec::new();
    let mut i: usize = 0;
    while i < v.len()
        invariant
            i <= v@.len(),
            strs(out@) == strs(v@).take(i as int),
        decreases v@.len() - i,
    {
        let ghost before = out@;
        out.push(v[i].clone());
        proof {
            lemma_strs_push(before, out@.last());
            assert(strs(out@) =~= strs(v@).take(i + 1));
        }
        i += 1;
    }
    out
}

// ───────────────────────── equality ─────────────────────────

/// Character-by-character equality.
pub fn same(a: &[char], b: &[char]) -> (r: bool)
    ensures
        r == (a@ == b@),
{
    if a.len() != b.len() {
        return false;
    }
    let mut i: usize = 0;
    while i < a.len()
        invariant
            i <= a@.len(),
            a@.len() == b@.len(),
            forall|j: int| 0 <= j < i ==> a@[j] == b@[j],
        decreases a@.len() - i,
    {
        if a[i] != b[i] {
            return false;
        }
        i += 1;
    }
    assert(a@ =~= b@);
    true
}

/// Equality of two strings.
pub fn str_same(a: &str, b: &str) -> (r: bool)
    ensures
        r == (a@ == b@),
{
    same(chars_of(a).as_slice(), chars_of(b).as_slice())
}

/// Whether `list` holds a string equal to `s`.
pub fn list_has(list: &[String], s: &str) -> (r: bool)
    ensures
        r == strs(list@).contains(s@),
{
    let mut i: usize = 0;
    while i < list.len()
        invariant
            i <= list@.len(),
            forall|j: int| 0 <= j < i ==> strs(list@)[j] != s@,
        decreases list@.len() - i,
    {
        if str_same(list[i].as_str(), s) {
            assert(strs(list@)[i as int] == s@);
            return true;
        }
        i += 1;
    }
    false
}

// ───────────────────────── letter case ─────────────────────────

/// ASCII lower case of one character; other characters are unchanged.
pub open spec fn lower_char(c: char) -> char {
    if 'A' <= c && c <= 'Z' {
        (c as u8 + 32) as char
    } else {
        c
    }
}

/// ASCII upper case of one character; other characters are unchanged.
pub open spec fn upper_char(c: char) -> char {
    if 'a' <= c && c <= 'z' {
        (c as u8 - 32) as char
    } else {
        c
    }
}

pub open spec fn lower(s: Seq<char>) -> Seq<char> {
    s.map_values(|c: char| lower_char(c))
}

pub open spec fn upper(s: Seq<char>) -> Seq<char> {
    s.map_values(|c: char| upper_char(c))
}

pub fn to_lower_char(c: char) -> (r: char)
    ensures
        r == lower_char(c),
{
    if 'A' <= c && c <= 'Z' {
        (c as u8 + 32) as char
    } else {
        c
    }
}

pub fn to_upper_char(c: char) -> (r: char)
    ensures
        r == upper_char(c),
{
    if 'a' <= c && c <= 'z' {
        (c as u8 - 32) as char
    } else {
        c
    }
}

pub fn to_lower(s: &[char]) -> (r: Vec<char>)
    ensures
        r@ == lower(s@),
{
    let mut out: Vec<char> = Vec::new();
    let mut i: usize = 0;
    while i < s.len()
        invariant
            i <= s@.len(),
            out@ == lower(s@.take(i as int)),
        decreases s@.len() - i,
    {
        out.push(to_lower_char(s[i]));
        i += 1;
        assert(out@ =~= lower(s@.take(i as int)));
    }
    assert(s@.take(i as int) =~= s@);
    out
}

pub fn to_upper(s: &[char]) -> (r: Vec<char>)
    ensures
        r@ == upper(s@),
{
    let mut out: Vec<char> = Vec::new();
    let mut i: usize = 0;
    while i < s.len()
        invariant
            i <= s@.len(),
            out@ == upper(s@.take(i as int)),
        decreases s@.len() - i,
    {
        out.push(to_upper_char(s[i]));
        i += 1;
        assert(out@ =~= upper(s@.take(i as int)));
    }
    assert(s@.take(i as int) =~= s@);
    out
}

/// Equality up to ASCII case.
pub fn eq_ignore_ascii_case(a: &[char], b: &[char]) -> (r: bool)
    ensures
        r == (lower(a@) == lower(b@)),
{
    same(to_lower(a).as_slice(), to_lower(b).as_slice())
}

// ───────────────────────── searching ─────────────────────────

/// `needle` stands in `hay` at position `i`.
pub open spec fn occurs_at(hay: Seq<char>, needle: Seq<char>, i: int) -> bool {
    0 <= i && i + needle.len() <= hay.len() && hay.subrange(i, i + needle.len()) == needle
}

/// `needle` stands somewhere in `hay`.
pub open spec fn contains(hay: Seq<char>, needle: Seq<char>) -> bool {
    exists|i: int| occurs_at(hay, needle, i)
}

/// Where `needle` first stands in `hay`.
pub open spec fn first_at(hay: Seq<char>, needle: Seq<char>) -> Option<int>
    decreases hay.len(),
{
    if needle.is_prefix_of(hay) {
        Some(0)
    } else if hay.len() == 0 {
        None
    } else {
        match first_at(hay.skip(1), needle) {
            Some(i) => Some(i + 1),
            None => None,
        }
    }
}

/// The first place is a place, and there is none before it.
pub proof fn lemma_first_at(hay: Seq<char>, needle: Seq<char>)
    ensures
        match first_at(hay, needle) {
            Some(i) => occurs_at(hay, needle, i) && forall|j: int|
                0 <= j < i ==> !occurs_at(hay, needle, j),
            None => !contains(hay, needle),
        },
    decreases hay.len(),
{
    let n = needle.len() as int;
    if needle.is_prefix_of(hay) {
        assert(hay.subrange(0, n) =~= needle);
    } else {
        assert(!occurs_at(hay, needle, 0));
        if hay.len() > 0 {
            let rest = hay.skip(1);
            lemma_first_at(rest, needle);
            assert forall|j: int| 1 <= j implies occurs_at(hay, needle, j) == #[trigger] occurs_at(
                rest,
                needle,
                j - 1,
            ) by {
                if j + n <= hay.len() {
                    assert(hay.subrange(j, j + n) =~= rest.subrange(j - 1, j - 1 + n));
                }
            }
            match first_at(rest, needle) {
                Some(i) => {
                    assert(occurs_at(rest, needle, (i + 1) - 1));
                    assert forall|j: int| 0 <= j < i + 1 implies !occurs_at(hay, needle, j) by {
                        if j >= 1 {
                            assert(!occurs_at(rest, needle, j - 1));
                        }
                    }
                },
                None => {
                    assert forall|j: int| !occurs_at(hay, needle, j) by {
                        if j >= 1 {
                            assert(!occurs_at(rest, needle, j - 1));
                        }
                    }
                },
            }
        }
    }
}

pub fn starts_with(s: &[char], p: &[char]) -> (r: bool)
    ensures
        r == p@.is_prefix_of(s@),
{
    if p.len() > s.len() {
        return false;
    }
    assert(p@.is_prefix_of(s@) <==> s@.subrange(0, p@.len() as int) == p@);
    same(&s[0..p.len()], p)
}

pub fn ends_with(s: &[char], p: &[char]) -> (r: bool)
    ensures
        r == p@.is_suffix_of(s@),
{
    if p.len() > s.len() {
        return false;
    }
    assert(p@.is_suffix_of(s@) <==> s@.subrange(s@.len() - p@.len(), s@.len() as int) == p@);
    same(&s[s.len() - p.len()..s.len()], p)
}

/// What is left of `s` after the prefix `p`, if `s` starts with it.
pub fn strip_prefix<'a>(s: &'a [char], p: &[char]) -> (r: Option<&'a [char]>)
    ensures
        match r {
            Some(rest) => p@.is_prefix_of(s@) && rest@ == s@.skip(p@.len() as int),
            None => !p@.is_prefix_of(s@),
        },
{
    if starts_with(s, p) {
        let rest = &s[p.len()..s.len()];
        assert(rest@ =~= s@.skip(p@.len() as int));
        Some(rest)
    } else {
        None
    }
}

/// Position of the first occurrence of `needle` in `hay`.
pub fn find(hay: &[char], needle: &[char]) -> (r: Option<usize>)
    ensures
        match r {
            Some(i) => first_at(hay@, needle@) == Some(i as int) && i + needle@.len() <= hay@.len(),
            None => first_at(hay@, needle@) is None,
        },
        r is Some == contains(hay@, needle@),
{
    proof {
        lemma_first_at(hay@, needle@);
    }
    if needle.len() > hay.len() {
        return None;
    }
    let total: usize = hay.len();
    let last: usize = total - needle.len();
    let mut i: usize = 0;
    while i <= last
        invariant
            total == hay@.len(),
            last == total - needle@.len(),
            i <= last + 1,
            forall|j: int| 0 <= j < i ==> !occurs_at(hay@, needle@, j),
        decreases last + 1 - i,
    {
        if same(&hay[i..i + needle.len()], needle) {
            assert(occurs_at(hay@, needle@, i as int));
            proof {
                lemma_first_at(hay@, needle@);
            }
            return Some(i);
        }
        if i == last {
            assert(forall|j: int| !occurs_at(hay@, needle@, j));
            proof {
                lemma_first_at(hay@, needle@);
            }
            return None;
        }
        i += 1;
    }
    None
}

/// Whether `needle` stands anywhere in `hay`.
pub fn has(hay: &[char], needle: &[char]) -> (r: bool)
    ensures
        r == contains(hay@, needle@),
{
    match find(hay, needle) {
        Some(i) => true,
        None => false,
    }
}

/// [`has`] on strings.
pub fn str_has(hay: &str, needle: &str) -> (r: bool)
    ensures
        r == contains(hay@, needle@),
{
    has(chars_of(hay).as_slice(), chars_of(needle).as_slice())
}

/// [`starts_with`] on strings.
pub fn str_starts_with(s: &str, p: &str) -> (r: bool)
    ensures
        r == p@.is_prefix_of(s@),
{
    starts_with(chars_of(s).as_slice(), chars_of(p).as_slice())
}

/// [`ends_with`] on strings.
pub fn str_ends_with(s: &str, p: &str) -> (r: bool)
    ensures
        r == p@.is_suffix_of(s@),
{
    ends_with(chars_of(s).as_slice(), chars_of(p).as_slice())
}

// ───────────────────────── trimming ─────────────────────────

/// The characters with the Unicode property `White_Space`.
pub open spec fn is_space(c: char) -> bool {
    ||| '\u{9}' <= c && c <= '\u{d}'
    ||| c == ' '
    ||| c == '\u{85}'
    ||| c == '\u{a0}'
    ||| c == '\u{1680}'
    ||| '\u{2000}' <= c && c <= '\u{200a}'
    ||| c == '\u{2028}'
    ||| c == '\u{2029}'
    ||| c == '\u{202f}'
    ||| c == '\u{205f}'
    ||| c == '\u{3000}'
}

pub fn is_whitespace(c: char) -> (r: bool)
    ensures
        r == is_space(c),
{
    ('\u{9}' <= c && c <= '\u{d}') || c == ' ' || c == '\u{85}' || c == '\u{a0}' || c
        == '\u{1680}' || ('\u{2000}' <= c && c <= '\u{200a}') || c == '\u{2028}' || c
        == '\u{2029}' || c == '\u{202f}' || c == '\u{205f}' || c == '\u{3000}'
}

/// `s` without its leading white space.
pub open spec fn trim_front(s: Seq<char>) -> Seq<char>
    decreases s.len(),
{
    if s.len() > 0 && is_space(s[0]) {
        trim_front(s.skip(1))
    } else {
        s
    }
}

/// `s` without its trailing white space.
pub open spec fn trim_back(s: Seq<char>) -> Seq<char>
    decreases s.len(),
{
    if s.len() > 0 && is_space(s.last()) {
        trim_back(s.drop_last())
    } else {
        s
    }
}

/// `s` without the white space around it.
pub open spec fn trimmed(s: Seq<char>) -> Seq<char> {
    trim_back(trim_front(s))
}

/// What is left is the end of the text.
pub proof fn lemma_trim_front_part(s: Seq<char>)
    ensures
        trim_front(s).len() <= s.len(),
        trim_front(s) == s.skip(s.len() - trim_front(s).len()),
    decreases s.len(),
{
    if s.len() > 0 && is_space(s[0]) {
        lemma_trim_front_part(s.skip(1));
        assert(trim_front(s) =~= s.skip(s.len() - trim_front(s).len()));
    } else {
        assert(s.skip(0) =~= s);
    }
}

/// What is left is the start of the text.
pub proof fn lemma_trim_back_part(s: Seq<char>)
    ensures
        trim_back(s).len() <= s.len(),
        trim_back(s) == s.take(trim_back(s).len() as int),
    decreases s.len(),
{
    if s.len() > 0 && is_space(s.last()) {
        lemma_trim_back_part(s.drop_last());
        assert(trim_back(s) =~= s.take(trim_back(s).len() as int));
    } else {
        assert(s.take(s.len() as int) =~= s);
    }
}

pub fn trim<'a>(s: &'a [char]) -> (r: &'a [char])
    ensures
        r@ == trimmed(s@),
{
    let mut a: usize = 0;
    assert(s@.skip(0) =~= s@);
    while a < s.len() && is_whitespace(s[a])
        invariant
            a <= s@.len(),
            trim_front(s@.skip(a as int)) == trim_front(s@),
        decreases s@.len() - a,
    {
        assert(s@.skip(a as int).skip(1) =~= s@.skip(a + 1));
        a += 1;
    }
    let mut b: usize = s.len();
    assert(trim_front(s@) == s@.skip(a as int));
    assert(s@.subrange(a as int, b as int) =~= s@.skip(a as int));
    while b > a && is_whitespace(s[b - 1])
        invariant
            a <= b <= s@.len(),
            trim_front(s@) == s@.skip(a as int),
            trim_back(s@.subrange(a as int, b as int)) == trim_back(s@.skip(a as int)),
        decreases b - a,
    {
        assert(s@.subrange(a as int, b as int).drop_last() =~= s@.subrange(a as int, b - 1));
        b -= 1;
    }
    &s[a..b]
}

/// `s` without the copies of `p` at its front.
pub open spec fn without_prefixes(s: Seq<char>, p: Seq<char>) -> Seq<char>
    decreases s.len(),
{
    if p.len() > 0 && p.is_prefix_of(s) {
        without_prefixes(s.skip(p.len() as int), p)
    } else {
        s
    }
}

pub fn trim_start_matches<'a>(s: &'a [char], p: &[char]) -> (r: &'a [char])
    ensures
        r@ == without_prefixes(s@, p@),
{
    let mut a: usize = 0;
    assert(s@.skip(0) =~= s@);
    while p.len() > 0 && starts_with(&s[a..s.len()], p)
        invariant
            a <= s@.len(),
            s@.subrange(a as int, s@.len() as int) == s@.skip(a as int),
            without_prefixes(s@.skip(a as int), p@) == without_prefixes(s@, p@),
        decreases s@.len() - a,
    {
        assert(s@.skip(a as int).skip(p@.len() as int) =~= s@.skip(a + p@.len()));
        a += p.len();
        assert(s@.subrange(a as int, s@.len() as int) =~= s@.skip(a as int));
    }
    &s[a..s.len()]
}

// ───────────────────────── splitting ─────────────────────────

/// What a text is split at.
#[derive(Clone, Copy)]
pub enum Separator {
    /// `/`
    Slash,
    /// The terminators of an `lsof` field: NUL or line feed.
    Field,
    /// White space.
    Space,
    /// Line feed.
    Newline,
}

pub open spec fn separates(sep: Separator, c: char) -> bool {
    match sep {
        Separator::Slash => c == '/',
        Separator::Field => c == '\0' || c == '\n',
        Separator::Space => is_space(c),
        Separator::Newline => c == '\n',
    }
}

/// The pieces of `s` that a separator ends, and what follows the last of them.
pub open spec fn split_state(s: Seq<char>, sep: Separator) -> (Seq<Seq<char>>, Seq<char>)
    decreases s.len(),
{
    if s.len() == 0 {
        (Seq::empty(), Seq::empty())
    } else {
        let (done, open) = split_state(s.drop_last(), sep);
        if separates(sep, s.last()) {
            (done.push(open), Seq::empty())
        } else {
            (done, open.push(s.last()))
        }
    }
}

/// The pieces of `s` between separators, empty ones included: one more than
/// there are separators.
pub open spec fn pieces(s: Seq<char>, sep: Separator) -> Seq<Seq<char>> {
    split_state(s, sep).0.push(split_state(s, sep).1)
}

/// A list of character vectors, as sequences.
pub open spec fn texts(v: Seq<Vec<char>>) -> Seq<Seq<char>> {
    v.map_values(|t: Vec<char>| t@)
}

pub broadcast proof fn lemma_texts_push(v: Seq<Vec<char>>, t: Vec<char>)
    ensures
        #[trigger] texts(v.push(t)) == texts(v).push(t@),
{
    assert(texts(v.push(t)) =~= texts(v).push(t@));
}

fn is_separator(sep: Separator, c: char) -> (r: bool)
    ensures
        r == separates(sep, c),
{
    match sep {
        Separator::Slash => c == '/',
        Separator::Field => c == '\0' || c == '\n',
        Separator::Space => is_whitespace(c),
        Separator::Newline => c == '\n',
    }
}

pub fn split(s: &[char], sep: Separator) -> (r: Vec<Vec<char>>)
    ensures
        texts(r@) == pieces(s@, sep),
{
    broadcast use lemma_texts_push;

    let mut done: Vec<Vec<char>> = Vec::new();
    let mut open: Vec<char> = Vec::new();
    let mut i: usize = 0;
    assert(texts(done@) =~= Seq::<Seq<char>>::empty());
    while i < s.len()
        invariant
            i <= s@.len(),
            split_state(s@.take(i as int), sep) == (texts(done@), open@),
        decreases s@.len() - i,
    {
        assert(s@.take(i + 1).drop_last() =~= s@.take(i as int));
        if is_separator(sep, s[i]) {
            done.push(open);
            open = Vec::new();
        } else {
            open.push(s[i]);
        }
        i += 1;
    }
    assert(s@.take(i as int) =~= s@);
    done.push(open);
    done
}

/// The non-empty entries of `v`, in order.
pub open spec fn non_empty(v: Seq<Seq<char>>) -> Seq<Seq<char>> {
    v.filter(|t: Seq<char>| t.len() > 0)
}

/// The pieces of `s` that are not empty.
pub open spec fn words(s: Seq<char>, sep: Separator) -> Seq<Seq<char>> {
    non_empty(pieces(s, sep))
}

pub fn split_words(s: &[char], sep: Separator) -> (r: Vec<Vec<char>>)
    ensures
        texts(r@) == words(s@, sep),
{
    broadcast use lemma_texts_push;

    let all = split(s, sep);
    let ghost keep = |t: Seq<char>| t.len() > 0;
    let mut out: Vec<Vec<char>> = Vec::new();
    let mut i: usize = 0;
    assert(texts(out@) =~= texts(all@).take(0).filter(keep)) by {
        reveal(Seq::filter);
    }
    while i < all.len()
        invariant
            i <= all@.len(),
            keep == (|t: Seq<char>| t.len() > 0),
            texts(out@) == texts(all@).take(i as int).filter(keep),
        decreases all@.len() - i,
    {
        proof {
            reveal(Seq::filter);
            assert(texts(all@).take(i + 1).drop_last() =~= texts(all@).take(i as int));
        }
        if all[i].len() > 0 {
            out.push(vstd::slice::slice_to_vec(all[i].as_slice()));
        }
        i += 1;
    }
    assert(texts(all@).take(i as int) =~= texts(all@));
    out
}

/// `t` without one carriage return at its end.
pub open spec fn without_cr(t: Seq<char>) -> Seq<char> {
    if t.len() > 0 && t.last() == '\r' {
        t.drop_last()
    } else {
        t
    }
}

/// The lines of `s`: each ends in a line feed, or in a carriage return and a
/// line feed; the end of the last one may be missing.
pub open spec fn line_seq(s: Seq<char>) -> Seq<Seq<char>> {
    let (ended, rest) = split_state(s, Separator::Newline);
    let stripped = ended.map_values(|t: Seq<char>| without_cr(t));
    if rest.len() == 0 {
        stripped
    } else {
        stripped.push(rest)
    }
}

pub fn lines(s: &[char]) -> (r: Vec<Vec<char>>)
    ensures
        texts(r@) == line_seq(s@),
{
    broadcast use lemma_texts_push;

    let all = split(s, Separator::Newline);
    let ghost ended = split_state(s@, Separator::Newline).0;
    let ghost rest = split_state(s@, Separator::Newline).1;
    let ghost strip = |t: Seq<char>| without_cr(t);
    assert(texts(all@) == ended.push(rest));
    assert(all@.len() == texts(all@).len());
    let n: usize = all.len() - 1;
    let mut out: Vec<Vec<char>> = Vec::new();
    let mut i: usize = 0;
    assert(texts(out@) =~= ended.take(0).map_values(strip));
    while i < n
        invariant
            i <= n,
            n == all@.len() - 1,
            n == ended.len(),
            texts(all@) == ended.push(rest),
            strip == (|t: Seq<char>| without_cr(t)),
            texts(out@) == ended.take(i as int).map_values(strip),
        decreases n - i,
    {
        assert(all@[i as int]@ == texts(all@)[i as int]);
        assert(ended[i as int] == all@[i as int]@);
        let mut t = vstd::slice::slice_to_vec(all[i].as_slice());
        if t.len() > 0 && t[t.len() - 1] == '\r' {
            t.pop();
            assert(t@ =~= ended[i as int].drop_last());
        }
        assert(t@ == strip(ended[i as int]));
        assert(ended.take(i + 1).map_values(strip) =~= ended.take(i as int).map_values(strip).push(
            strip(ended[i as int]),
        ));
        out.push(t);
        i += 1;
    }
    assert(ended.take(n as int) =~= ended);
    assert(all@[n as int]@ == texts(all@)[n as int]);
    if all[n].len() > 0 {
        out.push(vstd::slice::slice_to_vec(all[n].as_slice()));
    }
    out
}

// ───────────────────────── extensions ─────────────────────────

/// Where the last dot of `name` stands.
pub open spec fn last_dot(name: Seq<char>) -> Option<int>
    decreases name.len(),
{
    if name.len() == 0 {
        None
    } else if name.last() == '.' {
        Some(name.len() - 1)
    } else {
        last_dot(name.drop_last())
    }
}

pub fn find_last_dot(name: &[char]) -> (r: Option<usize>)
    ensures
        match r {
            Some(i) => last_dot(name@) == Some(i as int) && i < name@.len(),
            None => last_dot(name@) is None,
        },
{
    let mut i: usize = name.len();
    assert(name@.take(i as int) =~= name@);
    while i > 0
        invariant
            i <= name@.len(),
            last_dot(name@.take(i as int)) == last_dot(name@),
        decreases i,
    {
        let ghost upto = name@.take(i as int);
        assert(upto.drop_last() =~= name@.take(i - 1));
        i -= 1;
        assert(upto.last() == name@[i as int]);
        if name[i] == '.' {
            return Some(i);
        }
    }
    None
}

// ───────────────────────── putting together ─────────────────────────

/// The texts of `v` with `sep` between them.
pub open spec fn joined_with(v: Seq<Seq<char>>, sep: Seq<char>) -> Seq<char>
    decreases v.len(),
{
    if v.len() == 0 {
        Seq::empty()
    } else if v.len() == 1 {
        v[0]
    } else {
        joined_with(v.drop_last(), sep) + sep + v.last()
    }
}

/// The texts of `v` from `from` on, with `sep` between them.
pub fn join_texts(v: &[Vec<char>], from: usize, sep: &str) -> (r: String)
    requires
        from <= v@.len(),
    ensures
        r@ == joined_with(texts(v@).skip(from as int), sep@),
{
    let ghost all = texts(v@).skip(from as int);
    let between = chars_of(sep);
    let mut out: Vec<char> = Vec::new();
    let mut i: usize = from;
    assert(all.take(0) =~= Seq::<Seq<char>>::empty());
    assert(out@ =~= joined_with(all.take(0), sep@));
    while i < v.len()
        invariant
            from <= i <= v@.len(),
            between@ == sep@,
            all == texts(v@).skip(from as int),
            out@ == joined_with(all.take(i - from), sep@),
        decreases v@.len() - i,
    {
        let ghost k = i - from;
        let ghost before = out@;
        assert(all.take(k + 1).drop_last() =~= all.take(k));
        assert(all.take(k + 1).last() == v@[i as int]@);
        if i > from {
            out.extend_from_slice(between.as_slice());
            assert(out@ =~= before + sep@);
        } else {
            assert(all.take(k + 1)[0] == v@[i as int]@);
        }
        let ghost mid = out@;
        out.extend_from_slice(v[i].as_slice());
        assert(out@ =~= mid + v@[i as int]@);
        assert(out@ =~= joined_with(all.take(k + 1), sep@));
        i += 1;
    }
    assert(all.take(i - from) =~= all);
    string_of(out.as_slice())
}

/// The strings of `v` with `sep` between them.
pub fn join_strings(v: &[String], sep: &str) -> (r: String)
    ensures
        r@ == joined_with(strs(v@), sep@),
{
    broadcast use lemma_texts_push;

    let mut list: Vec<Vec<char>> = Vec::new();
    let mut i: usize = 0;
    assert(texts(list@) =~= strs(v@).take(0));
    while i < v.len()
        invariant
            i <= v@.len(),
            texts(list@) == strs(v@).take(i as int),
        decreases v@.len() - i,
    {
        let one = chars_of(v[i].as_str());
        let ghost before = texts(list@);
        list.push(one);
        i += 1;
        assert(texts(list@) =~= before.push(one@));
        assert(texts(list@) =~= strs(v@).take(i as int));
    }
    assert(texts(list@).skip(0) =~= strs(v@));
    join_texts(list.as_slice(), 0, sep)
}

/// `n` spaces.
pub open spec fn blanks(n: int) -> Seq<char> {
    Seq::new(
        (if n > 0 {
            n
        } else {
            0
        }) as nat,
        |i: int| ' ',
    )
}

/// `s` at the left of a column of `width` characters.
pub open spec fn at_left(s: Seq<char>, width: int) -> Seq<char> {
    s + blanks(width - s.len())
}

/// `s` at the right of a column of `width` characters.
pub open spec fn at_right(s: Seq<char>, width: int) -> Seq<char> {
    blanks(width - s.len()) + s
}

fn gap(have: usize, width: usize) -> (r: Vec<char>)
    ensures
        r@ == blanks(width - have),
{
    let mut out: Vec<char> = Vec::new();
    if have >= width {
        assert(out@ =~= blanks(width - have));
        return out;
    }
    let n: usize = width - have;
    let mut i: usize = 0;
    while i < n
        invariant
            i <= n,
            out@ == blanks(i as int),
        decreases n - i,
    {
        out.push(' ');
        i += 1;
        assert(out@ =~= blanks(i as int));
    }
    out
}

pub fn pad_left(s: &[char], width: usize) -> (r: Vec<char>)
    ensures
        r@ == at_left(s@, width as int),
{
    let mut out = vstd::slice::slice_to_vec(s);
    let mut tail = gap(s.len(), width);
    out.append(&mut tail);
    out
}

pub fn pad_right(s: &[char], width: usize) -> (r: Vec<char>)
    ensures
        r@ == at_right(s@, width as int),
{
    let mut out = gap(s.len(), width);
    let mut tail = vstd::slice::slice_to_vec(s);
    out.append(&mut tail);
    out
}

} // verus!
