//! Which files are encrypted streams, and under which name flags they are
//! decrypted.

use vstd::prelude::*;

use super::law::tree_sound;
use super::{below, flags_of, TreeView};
use crate::mmbd;
use crate::number;
use crate::path;
use crate::path::law::{lemma_comps_join, lemma_name_is_comp, plain_name};
use crate::text;
use crate::text::law::{alike, lemma_case, lemma_last_dot};

verus! {

broadcast use vstd::string::group_string_axioms;

/// The text starts with five decimal digits.
pub open spec fn five_digits(n: Seq<char>) -> bool {
    n.len() >= 5 && forall|i: int| 0 <= i < 5 ==> '0' <= #[trigger] n[i] && n[i] <= '9'
}

/// The number that the first five digits stand for.
pub open spec fn five_value(n: Seq<char>) -> int {
    10_000 * (n[0] as int - 48) + 1_000 * (n[1] as int - 48) + 100 * (n[2] as int - 48) + 10 * (
    n[3] as int - 48) + (n[4] as int - 48)
}

/// The name of a stream file: five digits and the extension, in whichever case.
pub open spec fn stream_name(n: Seq<char>, ext: Seq<char>) -> bool {
    five_digits(n) && alike(n.skip(5), ext)
}

proof fn lemma_words_used()
    ensures
        ".m2ts"@ == seq!['.', 'm', '2', 't', 's'],
        ".ssif"@ == seq!['.', 's', 's', 'i', 'f'],
        "BDMV"@ == seq!['B', 'D', 'M', 'V'],
        "STREAM"@ == seq!['S', 'T', 'R', 'E', 'A', 'M'],
        "SSIF"@ == seq!['S', 'S', 'I', 'F'],
{
    reveal_strlit(".m2ts");
    reveal_strlit(".ssif");
    reveal_strlit("BDMV");
    reveal_strlit("STREAM");
    reveal_strlit("SSIF");
    assert(".m2ts"@ =~= seq!['.', 'm', '2', 't', 's']);
    assert(".ssif"@ =~= seq!['.', 's', 's', 'i', 'f']);
    assert("BDMV"@ =~= seq!['B', 'D', 'M', 'V']);
    assert("STREAM"@ =~= seq!['S', 'T', 'R', 'E', 'A', 'M']);
    assert("SSIF"@ =~= seq!['S', 'S', 'I', 'F']);
}

proof fn lemma_upper_word(c: Seq<char>, word: Seq<char>)
    requires
        forall|i: int| 0 <= i < word.len() ==> 'A' <= #[trigger] word[i] && word[i] <= 'Z',
    ensures
        text::upper(c) == word <==> alike(c, word),
{
    assert(text::upper(word) =~= word);
    lemma_case(c, word);
}

/// The clip number of a stream file is what the five digits of its name stand
/// for; a file of another name has none.
pub proof fn lemma_clip_number(name: Seq<char>)
    ensures
        mmbd::clip_of(name) is Some <==> five_digits(name) && (name.len() == 5 || name[5] == '.' && (
        forall|i: int| 5 < i < name.len() ==> #[trigger] name[i] != '.')),
        mmbd::clip_of(name) matches Some(n) ==> n == five_value(name) && n < 100_000,
{
    lemma_last_dot(name);
    let s = mmbd::stem(name);
    if mmbd::clip_of(name) is Some {
        assert forall|i: int| 0 <= i < 5 implies '0' <= #[trigger] name[i] && name[i] <= '9' by {
            assert(s[i] == name[i]);
            assert(number::is_digit(s[i]));
        }
        number::lemma_five_places(s);
    }
    if five_digits(name) && (name.len() == 5 || name[5] == '.' && (forall|i: int|
        5 < i < name.len() ==> #[trigger] name[i] != '.')) {
        assert(s =~= name.take(5));
        assert forall|i: int| 0 <= i < 5 implies '0' <= #[trigger] s[i] && s[i] <= '9' by {
            assert(s[i] == name[i]);
        }
        number::lemma_five_places(s);
    }
}

proof fn lemma_ext(name: Seq<char>, ext: Seq<char>)
    requires
        ext.len() == 5,
        ext[0] == '.',
        forall|i: int|
            0 < i < 5 ==> #[trigger] ext[i] != '.' && !('A' <= ext[i] && ext[i] <= 'Z'),
    ensures
        mmbd::clip_of(name) is Some && ext.is_suffix_of(text::lower(name)) <==> stream_name(
            name,
            ext,
        ),
{
    let low = text::lower(name);
    lemma_clip_number(name);
    assert(text::lower(ext) =~= ext);
    if mmbd::clip_of(name) is Some && ext.is_suffix_of(low) {
        let k = low.len() - 5;
        assert(low.skip(k) == ext);
        assert forall|i: int| 0 <= i < 5 implies low[k + i] == #[trigger] ext[i] by {
            assert(low.skip(k)[i] == low[k + i]);
        }
        assert(low[k] == ext[0]);
        assert(name[k] == '.');
        assert(k >= 5) by {
            if k < 5 {
                assert('0' <= name[k] && name[k] <= '9');
            }
        }
        assert(k == 5) by {
            if k > 5 {
                assert(name[k] != '.');
            }
        }
        let tail = name.skip(5);
        assert(text::lower(tail) =~= ext);
        lemma_case(tail, ext);
    }
    if stream_name(name, ext) {
        let tail = name.skip(5);
        lemma_case(tail, ext);
        assert(text::lower(tail) == ext);
        assert(low.skip(5) =~= ext);
        assert forall|i: int| 5 < i < name.len() implies #[trigger] name[i] != '.' by {
            assert(tail[i - 5] == name[i]);
            assert(text::lower(tail)[i - 5] == ext[i - 5]);
        }
        assert(tail[0] == name[5]);
        assert(text::lower(tail)[0] == '.');
    }
}

proof fn lemma_exts(name: Seq<char>)
    ensures
        mmbd::clip_of(name) is Some && ".m2ts"@.is_suffix_of(text::lower(name)) <==> stream_name(
            name,
            seq!['.', 'm', '2', 't', 's'],
        ),
        mmbd::clip_of(name) is Some && ".ssif"@.is_suffix_of(text::lower(name)) <==> stream_name(
            name,
            seq!['.', 's', 's', 'i', 'f'],
        ),
{
    lemma_words_used();
    lemma_ext(name, ".m2ts"@);
    lemma_ext(name, ".ssif"@);
}

/// The file lies in `BDMV/STREAM` and its name is five digits and `.m2ts`.
pub open spec fn is_m2ts(dirs: Seq<Seq<char>>, name: Seq<char>) -> bool {
    &&& dirs.len() == 2
    &&& alike(dirs[0], seq!['B', 'D', 'M', 'V'])
    &&& alike(dirs[1], seq!['S', 'T', 'R', 'E', 'A', 'M'])
    &&& stream_name(name, seq!['.', 'm', '2', 't', 's'])
}

/// The file lies in `BDMV/STREAM/SSIF` and its name is five digits and `.ssif`.
pub open spec fn is_ssif(dirs: Seq<Seq<char>>, name: Seq<char>) -> bool {
    &&& dirs.len() == 3
    &&& alike(dirs[0], seq!['B', 'D', 'M', 'V'])
    &&& alike(dirs[1], seq!['S', 'T', 'R', 'E', 'A', 'M'])
    &&& alike(dirs[2], seq!['S', 'S', 'I', 'F'])
    &&& stream_name(name, seq!['.', 's', 's', 'i', 'f'])
}

/// The flags of the file with these components below the root of its disc: an
/// M2TS stream has its clip number, an SSIF stream the same with the top bit set,
/// and no other file has any.
pub open spec fn right_flags(dirs: Seq<Seq<char>>, name: Seq<char>, flags: Option<u32>) -> bool {
    match flags {
        Some(f) => {
            ||| is_m2ts(dirs, name) && f == five_value(name)
            ||| is_ssif(dirs, name) && f == 0x8000_0000 + five_value(name)
        },
        None => !is_m2ts(dirs, name) && !is_ssif(dirs, name),
    }
}

proof fn lemma_flags(root: Seq<char>, p: Seq<char>, dirs: Seq<Seq<char>>, last: Seq<char>, name: Seq<char>)
    requires
        below(root, p) == dirs.push(last),
    ensures
        right_flags(dirs, name, flags_of(root, p, name)),
{
    let c = below(root, p);
    lemma_words_used();
    lemma_exts(name);
    lemma_clip_number(name);
    if dirs.len() >= 2 {
        lemma_upper_word(dirs[0], "BDMV"@);
        lemma_upper_word(dirs[1], "STREAM"@);
    }
    if dirs.len() == 3 {
        lemma_upper_word(dirs[2], "SSIF"@);
    }
    assert(forall|i: int| 0 <= i < dirs.len() ==> c[i] == #[trigger] dirs[i]);
    if let Some(n) = mmbd::clip_of(name) {
        assert(0u32 | n == n) by (bit_vector);
        assert(n < 0x8000_0000u32 ==> 0x8000_0000u32 | n == 0x8000_0000u32 + n) by (bit_vector);
    }
}

/// The path of the file `last` in the directories `dirs` below `root`.
pub open spec fn file_below(root: Seq<char>, dirs: Seq<Seq<char>>, last: Seq<char>) -> Seq<char>
    decreases dirs.len(),
{
    if dirs.len() == 0 {
        if root.len() == 0 {
            last
        } else {
            root.push('/') + last
        }
    } else {
        file_below(root, dirs.drop_last(), dirs.last()).push('/') + last
    }
}

proof fn lemma_file_below(root: Seq<char>, dirs: Seq<Seq<char>>, last: Seq<char>)
    requires
        plain_name(last),
        forall|i: int| 0 <= i < dirs.len() ==> plain_name(#[trigger] dirs[i]),
    ensures
        file_below(root, dirs, last).len() > 0,
        path::comps(file_below(root, dirs, last)) == path::comps(root) + dirs.push(last),
    decreases dirs.len(),
{
    lemma_name_is_comp(last);
    let none = Seq::<char>::empty();
    if dirs.len() == 0 {
        if root.len() == 0 {
            assert(root =~= none);
            text::law::lemma_words(none, '/', none, text::Separator::Slash);
            assert(path::comps(none) =~= Seq::<Seq<char>>::empty()) by {
                reveal(Seq::filter);
            }
            assert(path::comps(root) + dirs.push(last) =~= seq![last]);
        } else {
            lemma_comps_join(root, last);
            assert(path::comps(root) + dirs.push(last) =~= path::comps(root) + seq![last]);
        }
    } else {
        let d = dirs.drop_last();
        assert forall|i: int| 0 <= i < d.len() implies plain_name(#[trigger] d[i]) by {
            assert(d[i] == dirs[i]);
        }
        assert(plain_name(dirs[dirs.len() - 1]));
        lemma_file_below(root, d, dirs.last());
        let p = file_below(root, d, dirs.last());
        lemma_comps_join(p, last);
        assert(d.push(dirs.last()) =~= dirs);
        assert(path::comps(p) + seq![last] =~= path::comps(root) + dirs.push(last));
    }
}

/// The name flags of any file of a disc: those of an M2TS stream are the number
/// that the five digits of its name stand for, those of an SSIF stream that number
/// with the top bit set, and no other file has any.
pub proof fn lemma_classified(root: Seq<char>, dirs: Seq<Seq<char>>, name: Seq<char>)
    requires
        plain_name(name),
        forall|i: int| 0 <= i < dirs.len() ==> plain_name(#[trigger] dirs[i]),
    ensures
        right_flags(dirs, name, flags_of(root, file_below(root, dirs, name), name)),
{
    lemma_file_below(root, dirs, name);
    let p = file_below(root, dirs, name);
    let c = path::comps(root);
    assert(path::comps(p).take(c.len() as int) =~= c);
    assert(path::comps(p).skip(c.len() as int) =~= dirs.push(name));
    lemma_flags(root, p, dirs, name, name);
}

/// The flags are those that a stream of this name has.
pub open spec fn named_by(name: Seq<char>, f: u32) -> bool {
    ||| stream_name(name, seq!['.', 'm', '2', 't', 's']) && f == five_value(name)
    ||| stream_name(name, seq!['.', 's', 's', 'i', 'f']) && f == 0x8000_0000 + five_value(name)
}

/// The name flags of a file are told by its name: the number that its five digits
/// stand for, with the top bit set where it is an SSIF file.
pub proof fn lemma_flags_name(root: Seq<char>, p: Seq<char>, name: Seq<char>)
    ensures
        flags_of(root, p, name) matches Some(f) ==> named_by(name, f),
{
    let c = below(root, p);
    if c.len() > 0 {
        assert(c.drop_last().push(c.last()) =~= c);
        lemma_flags(root, p, c.drop_last(), c.last(), name);
    }
}

proof fn lemma_same_digits(a: Seq<char>, b: Seq<char>)
    requires
        five_digits(a),
        five_digits(b),
        five_value(a) == five_value(b),
    ensures
        forall|i: int| 0 <= i < 5 ==> a[i] == b[i],
{
    assert('0' <= a[0] && a[0] <= '9' && '0' <= b[0] && b[0] <= '9');
    assert('0' <= a[1] && a[1] <= '9' && '0' <= b[1] && b[1] <= '9');
    assert('0' <= a[2] && a[2] <= '9' && '0' <= b[2] && b[2] <= '9');
    assert('0' <= a[3] && a[3] <= '9' && '0' <= b[3] && b[3] <= '9');
    assert('0' <= a[4] && a[4] <= '9' && '0' <= b[4] && b[4] <= '9');
    assert(a[0] as int == b[0] as int && a[1] as int == b[1] as int && a[2] as int == b[2] as int
        && a[3] as int == b[3] as int && a[4] as int == b[4] as int);
    assert(a[0] == b[0] && a[1] == b[1] && a[2] == b[2] && a[3] == b[3] && a[4] == b[4]);
}

/// Streams with different clip numbers, or of different kinds, have different
/// flags: two that share their flags, and so their units in the cache, have the
/// same name up to its case.
pub proof fn lemma_flags_tell_apart(
    root: Seq<char>,
    p: Seq<char>,
    a: Seq<char>,
    q: Seq<char>,
    b: Seq<char>,
)
    requires
        flags_of(root, p, a) is Some,
        flags_of(root, p, a) == flags_of(root, q, b),
    ensures
        alike(a, b),
{
    lemma_flags_name(root, p, a);
    lemma_flags_name(root, q, b);
    assert('0' <= a[0] && a[0] <= '9' && '0' <= b[0] && b[0] <= '9');
    assert('0' <= a[1] && a[1] <= '9' && '0' <= b[1] && b[1] <= '9');
    assert('0' <= a[2] && a[2] <= '9' && '0' <= b[2] && b[2] <= '9');
    assert('0' <= a[3] && a[3] <= '9' && '0' <= b[3] && b[3] <= '9');
    assert('0' <= a[4] && a[4] <= '9' && '0' <= b[4] && b[4] <= '9');
    lemma_same_digits(a, b);
    let m = seq!['.', 'm', '2', 't', 's'];
    let s = seq!['.', 's', 's', 'i', 'f'];
    let ext = if stream_name(a, m) {
        m
    } else {
        s
    };
    assert(stream_name(a, ext) && stream_name(b, ext)) by {
        if stream_name(a, m) && stream_name(a, s) {
            assert(a.skip(5)[2] == a[7]);
        }
        if stream_name(b, m) && stream_name(b, s) {
            assert(b.skip(5)[2] == b[7]);
        }
    }
    lemma_case(a.skip(5), ext);
    lemma_case(b.skip(5), ext);
    lemma_case(a.skip(5), b.skip(5));
    assert forall|i: int| 0 <= i < a.len() implies text::law::alike_char(#[trigger] a[i], b[i]) by {
        if i >= 5 {
            assert(a.skip(5)[i - 5] == a[i]);
            assert(b.skip(5)[i - 5] == b[i]);
        }
    }
}

/// In a tree, a stream is decrypted under the number in its own name.
pub proof fn lemma_tree_streams(t: TreeView, root: Seq<char>, i: int)
    requires
        tree_sound(t, root),
        0 <= i < t.nodes.len(),
        t.nodes[i].kind is Encrypted,
    ensures
        ({
            let name = text::text_of(t.nodes[i].name);
            let f = t.nodes[i].kind->name_flags;
            ||| stream_name(name, seq!['.', 'm', '2', 't', 's']) && f == five_value(name)
            ||| stream_name(name, seq!['.', 's', 's', 'i', 'f']) && f == 0x8000_0000 + five_value(
                name,
            )
        }),
{
    reveal(tree_sound);
    lemma_flags_name(root, text::text_of(t.nodes[i].path), text::text_of(t.nodes[i].name));
}

} // verus!
