//! The strings of a property list, as far as the system's tools print them.

use vstd::prelude::*;

use crate::text;

verus! {

broadcast use vstd::string::group_string_axioms;

/// The text between the first `<string>` of `s` and the next `</string>`,
/// without the space around it.
pub open spec fn string_in(s: Seq<char>) -> Option<Seq<char>> {
    match text::first_at(s, "<string>"@) {
        None => None,
        Some(i) => {
            let rest = s.skip(i + 8);
            match text::first_at(rest, "</string>"@) {
                None => None,
                Some(n) => Some(text::trimmed(rest.take(n))),
            }
        },
    }
}

/// What stands behind the first `<key>` element for `key`.
pub open spec fn behind_key(s: Seq<char>, key: Seq<char>) -> Option<Seq<char>> {
    let needle = "<key>"@ + key + "</key>"@;
    match text::first_at(s, needle) {
        None => None,
        Some(i) => Some(s.skip(i + needle.len())),
    }
}

/// The string under `key`, blank or not.
pub open spec fn value_of(s: Seq<char>, key: Seq<char>) -> Option<Seq<char>> {
    match behind_key(s, key) {
        None => None,
        Some(rest) => string_in(rest),
    }
}

/// The string under `key`, if it is not blank.
pub open spec fn string_of_key(s: Seq<char>, key: Seq<char>) -> Option<Seq<char>> {
    match value_of(s, key) {
        Some(v) => if v.len() == 0 {
            None
        } else {
            Some(v)
        },
        None => None,
    }
}

/// The string under `key` in a property list.
pub fn plist_value(list: &str, key: &str) -> (r: Option<String>)
    ensures
        match r {
            Some(v) => value_of(list@, key@) == Some(v@),
            None => value_of(list@, key@) is None,
        },
{
    let s = text::chars_of(list);
    let mut needle = text::chars_of("<key>");
    let mut name = text::chars_of(key);
    let mut close = text::chars_of("</key>");
    needle.append(&mut name);
    needle.append(&mut close);
    assert(needle@ =~= "<key>"@ + key@ + "</key>"@);
    proof {
        reveal_strlit("<string>");
    }
    let open = text::chars_of("<string>");
    let shut = text::chars_of("</string>");
    match text::find(s.as_slice(), needle.as_slice()) {
        None => None,
        Some(i) => {
            let total: usize = s.len();
            let rest = &s.as_slice()[i + needle.len()..total];
            assert(rest@ =~= s@.skip(i + needle@.len()));
            match text::find(rest, open.as_slice()) {
                None => None,
                Some(k) => {
                    let body = &rest[k + 8..rest.len()];
                    assert(body@ =~= rest@.skip(k + 8));
                    match text::find(body, shut.as_slice()) {
                        None => None,
                        Some(n) => {
                            let inner = &body[0..n];
                            assert(inner@ =~= body@.take(n as int));
                            Some(text::string_of(text::trim(inner)))
                        },
                    }
                },
            }
        },
    }
}

/// The string under `key` in a property list, if it is not blank.
pub fn plist_string(list: &str, key: &str) -> (r: Option<String>)
    ensures
        match r {
            Some(v) => string_of_key(list@, key@) == Some(v@),
            None => string_of_key(list@, key@) is None,
        },
{
    match plist_value(list, key) {
        None => None,
        Some(v) => if text::chars_of(v.as_str()).len() == 0 {
            None
        } else {
            Some(v)
        },
    }
}

// ───────────────────────── laws ─────────────────────────

proof fn lemma_first_is(hay: Seq<char>, needle: Seq<char>, i: int)
    requires
        text::occurs_at(hay, needle, i),
        forall|j: int| 0 <= j < i ==> !text::occurs_at(hay, needle, j),
    ensures
        text::first_at(hay, needle) == Some(i),
{
    text::lemma_first_at(hay, needle);
    assert(text::contains(hay, needle));
    let k = text::first_at(hay, needle)->0;
    if k > i {
        assert(!text::occurs_at(hay, needle, i));
    } else if k < i {
        assert(!text::occurs_at(hay, needle, k));
    }
}

/// The string under a key is what stands in the first `<string>` element behind
/// the first `<key>` element for it, without the space around it. A blank one
/// counts as none.
pub proof fn lemma_value(
    before: Seq<char>,
    key: Seq<char>,
    between: Seq<char>,
    v: Seq<char>,
    after: Seq<char>,
)
    requires
        ({
            let needle = "<key>"@ + key + "</key>"@;
            let body = v + "</string>"@ + after;
            let rest = between + "<string>"@ + body;
            &&& forall|j: int|
                0 <= j < before.len() ==> !text::occurs_at(before + needle + rest, needle, j)
            &&& forall|j: int| 0 <= j < between.len() ==> !text::occurs_at(rest, "<string>"@, j)
            &&& forall|j: int| 0 <= j < v.len() ==> !text::occurs_at(body, "</string>"@, j)
        }),
    ensures
        ({
            let needle = "<key>"@ + key + "</key>"@;
            let s = before + needle + (between + "<string>"@ + (v + "</string>"@ + after));
            &&& value_of(s, key) == Some(text::trimmed(v))
            &&& string_of_key(s, key) == if text::trimmed(v).len() == 0 {
                None
            } else {
                Some(text::trimmed(v))
            }
        }),
{
    reveal_strlit("<string>");
    let needle = "<key>"@ + key + "</key>"@;
    let body = v + "</string>"@ + after;
    let rest = between + "<string>"@ + body;
    let s = before + needle + rest;
    let b = before.len() as int;
    let m = between.len() as int;
    assert(s.subrange(b, b + needle.len()) =~= needle);
    lemma_first_is(s, needle, b);
    assert(s.skip(b + needle.len()) =~= rest);
    assert(rest.subrange(m, m + 8) =~= "<string>"@);
    lemma_first_is(rest, "<string>"@, m);
    assert(rest.skip(m + 8) =~= body);
    let n = v.len() as int;
    assert(body.subrange(n, n + "</string>"@.len()) =~= "</string>"@);
    lemma_first_is(body, "</string>"@, n);
    assert(body.take(n) =~= v);
}

/// A list without the key has no string under it.
pub proof fn lemma_no_value(s: Seq<char>, key: Seq<char>)
    requires
        !text::contains(s, "<key>"@ + key + "</key>"@),
    ensures
        value_of(s, key) is None,
        string_of_key(s, key) is None,
{
    let needle = "<key>"@ + key + "</key>"@;
    text::lemma_first_at(s, needle);
    if let Some(i) = text::first_at(s, needle) {
        assert(text::occurs_at(s, needle, i));
    }
}

} // verus!
