//! Decimal and hexadecimal numerals.

use vstd::prelude::*;

verus! {

// ───────────────────────── reading ─────────────────────────

pub open spec fn is_digit(c: char) -> bool {
    '0' <= c && c <= '9'
}

/// The value of a sequence of decimal digits (0 for the empty one).
pub open spec fn digits_value(s: Seq<char>) -> nat
    decreases s.len(),
{
    if s.len() == 0 {
        0
    } else {
        digits_value(s.drop_last()) * 10 + (s.last() as u32 - '0' as u32) as nat
    }
}

pub open spec fn all_digits(s: Seq<char>) -> bool {
    forall|i: int| 0 <= i < s.len() ==> is_digit(#[trigger] s[i])
}

/// The number that a non-empty sequence of digits stands for.
pub open spec fn numeral(s: Seq<char>) -> Option<nat> {
    if s.len() > 0 && all_digits(s) {
        Some(digits_value(s))
    } else {
        None
    }
}

pub open spec fn has_sign(s: Seq<char>, sign: char) -> bool {
    s.len() > 0 && s[0] == sign
}

/// What `str::parse::<u32>` reads: digits, with at most one `+` before them.
pub open spec fn u32_of(s: Seq<char>) -> Option<u32> {
    let body = if has_sign(s, '+') {
        s.skip(1)
    } else {
        s
    };
    match numeral(body) {
        Some(n) => if n <= u32::MAX {
            Some(n as u32)
        } else {
            None
        },
        None => None,
    }
}

/// What `str::parse::<i32>` reads: digits, with at most one sign before them.
pub open spec fn i32_of(s: Seq<char>) -> Option<i32> {
    if has_sign(s, '-') {
        match numeral(s.skip(1)) {
            Some(n) => if n <= 0x8000_0000 {
                Some((-(n as int)) as i32)
            } else {
                None
            },
            None => None,
        }
    } else {
        match u32_of(s) {
            Some(n) => if n <= i32::MAX {
                Some(n as i32)
            } else {
                None
            },
            None => None,
        }
    }
}

pub fn is_ascii_digit(c: char) -> (r: bool)
    ensures
        r == is_digit(c),
{
    '0' <= c && c <= '9'
}

/// More digits never make the value smaller.
proof fn lemma_digits_grow(s: Seq<char>, i: int)
    requires
        0 <= i <= s.len(),
        all_digits(s),
    ensures
        digits_value(s.take(i)) <= digits_value(s),
    decreases s.len() - i,
{
    if i == s.len() {
        assert(s.take(i) =~= s);
    } else {
        lemma_digits_grow(s, i + 1);
        assert(s.take(i + 1).drop_last() =~= s.take(i));
        assert(is_digit(s[i]));
        assert(s.take(i + 1).last() == s[i]);
    }
}

/// The number that `s` stands for, if it is one and is no greater than `max`.
fn bounded_numeral(s: &[char], max: u64) -> (r: Option<u64>)
    requires
        max <= u32::MAX,
    ensures
        match r {
            Some(v) => numeral(s@) == Some(v as nat) && v <= max,
            None => match numeral(s@) {
                Some(n) => n > max,
                None => true,
            },
        },
{
    if s.len() == 0 {
        return None;
    }
    let mut v: u64 = 0;
    let mut i: usize = 0;
    assert(s@.take(0) =~= Seq::<char>::empty());
    while i < s.len()
        invariant
            i <= s@.len(),
            max <= u32::MAX,
            v <= max,
            v == digits_value(s@.take(i as int)),
            forall|j: int| 0 <= j < i ==> is_digit(#[trigger] s@[j]),
        decreases s@.len() - i,
    {
        let c = s[i];
        if !is_ascii_digit(c) {
            assert(!all_digits(s@));
            return None;
        }
        let d: u64 = c as u64 - '0' as u64;
        assert(s@.take(i + 1).drop_last() =~= s@.take(i as int));
        assert(s@.take(i + 1).last() == c);
        v = v * 10 + d;
        i += 1;
        assert(v == digits_value(s@.take(i as int)));
        if v > max {
            proof {
                if all_digits(s@) {
                    lemma_digits_grow(s@, i as int);
                }
            }
            return None;
        }
    }
    assert(s@.take(i as int) =~= s@);
    assert(all_digits(s@));
    Some(v)
}

pub fn parse_u32(s: &[char]) -> (r: Option<u32>)
    ensures
        r == u32_of(s@),
{
    let v = if s.len() > 0 && s[0] == '+' {
        let rest = &s[1..s.len()];
        assert(rest@ =~= s@.skip(1));
        bounded_numeral(rest, u32::MAX as u64)
    } else {
        bounded_numeral(s, u32::MAX as u64)
    };
    match v {
        Some(n) => Some(n as u32),
        None => None,
    }
}

pub fn parse_i32(s: &[char]) -> (r: Option<i32>)
    ensures
        r == i32_of(s@),
{
    if s.len() > 0 && s[0] == '-' {
        let rest = &s[1..s.len()];
        assert(rest@ =~= s@.skip(1));
        match bounded_numeral(rest, 0x8000_0000) {
            Some(n) => Some((-(n as i64)) as i32),
            None => None,
        }
    } else {
        match parse_u32(s) {
            Some(n) => if n <= i32::MAX as u32 {
                Some(n as i32)
            } else {
                None
            },
            None => None,
        }
    }
}

// ───────────────────────── writing ─────────────────────────

pub open spec fn digit_char(n: nat) -> char {
    (48 + n) as u8 as char
}

/// The decimal digits of `n`, without leading zeros.
pub open spec fn decimal(n: nat) -> Seq<char>
    decreases n,
{
    if n < 10 {
        seq![digit_char(n)]
    } else {
        decimal(n / 10).push(digit_char(n % 10))
    }
}

pub fn to_decimal(n: u64) -> (r: Vec<char>)
    ensures
        r@ == decimal(n as nat),
    decreases n,
{
    let last: char = (48 + (n % 10) as u8) as char;
    if n < 10 {
        let mut out: Vec<char> = Vec::new();
        out.push(last);
        out
    } else {
        let mut out = to_decimal(n / 10);
        out.push(last);
        out
    }
}

pub open spec fn hex_char(n: int) -> char {
    if n < 10 {
        (48 + n) as u8 as char
    } else {
        (87 + n) as u8 as char
    }
}

/// Two lower-case hexadecimal digits for each byte.
pub open spec fn hex_text(bytes: Seq<u8>) -> Seq<char>
    decreases bytes.len(),
{
    if bytes.len() == 0 {
        Seq::empty()
    } else {
        hex_text(bytes.drop_last()).push(hex_char(bytes.last() as int / 16)).push(
            hex_char(bytes.last() as int % 16),
        )
    }
}

fn hex_digit(n: u8) -> (r: char)
    requires
        n < 16,
    ensures
        r == hex_char(n as int),
{
    if n < 10 {
        (48 + n) as char
    } else {
        (87 + n) as char
    }
}

/// The bytes of a disc identifier, in hexadecimal.
pub fn hex(id: &[u8]) -> (r: String)
    ensures
        r@ == hex_text(id@),
{
    let mut out: Vec<char> = Vec::new();
    let mut i: usize = 0;
    assert(id@.take(0) =~= Seq::<u8>::empty());
    while i < id.len()
        invariant
            i <= id@.len(),
            out@ == hex_text(id@.take(i as int)),
        decreases id@.len() - i,
    {
        assert(id@.take(i + 1).drop_last() =~= id@.take(i as int));
        out.push(hex_digit(id[i] / 16));
        out.push(hex_digit(id[i] % 16));
        i += 1;
    }
    assert(id@.take(i as int) =~= id@);
    crate::text::string_of(out.as_slice())
}

// ───────────────────────── laws ─────────────────────────

/// Each digit counts ten times as much as the one after it.
pub proof fn lemma_five_places(s: Seq<char>)
    requires
        s.len() == 5,
        forall|i: int| 0 <= i < 5 ==> '0' <= #[trigger] s[i] && s[i] <= '9',
    ensures
        all_digits(s),
        digits_value(s) == 10_000 * (s[0] as int - 48) + 1_000 * (s[1] as int - 48) + 100 * (
        s[2] as int - 48) + 10 * (s[3] as int - 48) + (s[4] as int - 48),
{
    reveal_with_fuel(digits_value, 6);
    let a = s.drop_last();
    let b = a.drop_last();
    let c = b.drop_last();
    let d = c.drop_last();
    assert(is_digit(s[4]) && is_digit(s[3]) && is_digit(s[2]) && is_digit(s[1]) && is_digit(s[0]));
    assert(d.last() == s[0] && c.last() == s[1] && b.last() == s[2] && a.last() == s[3]);
    assert(d.drop_last().len() == 0);
}

/// A number that is written down reads as itself, and is written without leading
/// zeros.
pub proof fn lemma_decimal_reads(n: nat)
    ensures
        decimal(n).len() > 0,
        all_digits(decimal(n)),
        digits_value(decimal(n)) == n,
        decimal(n)[0] == '0' ==> n == 0,
        n <= u32::MAX ==> u32_of(decimal(n)) == Some(n as u32),
        n <= i32::MAX ==> i32_of(decimal(n)) == Some(n as i32),
        0 < n <= 0x8000_0000 ==> i32_of(seq!['-'] + decimal(n)) == Some((-(n as int)) as i32),
    decreases n,
{
    let s = decimal(n);
    if n >= 10 {
        lemma_decimal_reads(n / 10);
        assert(s.drop_last() =~= decimal(n / 10));
        let t = decimal(n / 10);
        assert forall|i: int| 0 <= i < s.len() implies is_digit(#[trigger] s[i]) by {
            if i < t.len() {
                assert(s[i] == t[i]);
            }
        }
        assert(s[0] == t[0]);
    } else {
        assert(s.drop_last() =~= Seq::<char>::empty());
    }
    assert(s.last() == digit_char(n % 10));
    assert(digit_char(n % 10) as u32 == 48 + n % 10);
    assert(digits_value(s) == digits_value(s.drop_last()) * 10 + n % 10);
    assert(is_digit(s[0]));
    assert((seq!['-'] + s).skip(1) =~= s);
}

/// A number that does not fit is not read, and a sign before it may be a plus.
pub proof fn lemma_decimal_bounds(n: nat)
    ensures
        n > u32::MAX ==> u32_of(decimal(n)) is None,
        n > i32::MAX ==> i32_of(decimal(n)) is None,
        n > 0x8000_0000 ==> i32_of(seq!['-'] + decimal(n)) is None,
        n <= u32::MAX ==> u32_of(seq!['+'] + decimal(n)) == Some(n as u32),
{
    lemma_decimal_reads(n);
    let s = decimal(n);
    assert(is_digit(s[0]));
    assert((seq!['-'] + s).skip(1) =~= s);
    assert((seq!['+'] + s).skip(1) =~= s);
}

/// What reads as a number is digits, with at most one sign before them.
pub proof fn lemma_reads_digits(s: Seq<char>)
    ensures
        u32_of(s) is Some ==> s.len() > 0 && (forall|i: int|
            0 < i < s.len() ==> '0' <= #[trigger] s[i] && s[i] <= '9') && ('0' <= s[0] && s[0] <= '9'
            || s[0] == '+' && s.len() > 1),
        i32_of(s) is Some ==> s.len() > 0 && (forall|i: int|
            0 < i < s.len() ==> '0' <= #[trigger] s[i] && s[i] <= '9') && ('0' <= s[0] && s[0] <= '9'
            || (s[0] == '+' || s[0] == '-') && s.len() > 1),
{
    let t = s.skip(1);
    if u32_of(s) is Some || i32_of(s) is Some {
        assert forall|i: int| 0 < i < s.len() implies '0' <= #[trigger] s[i] && s[i] <= '9' by {
            assert(t[i - 1] == s[i]);
            if all_digits(t) {
                assert(is_digit(t[i - 1]));
            } else {
                assert(is_digit(s[i]));
            }
        }
    }
}

/// The value of a hexadecimal digit.
pub open spec fn hex_value(c: char) -> int {
    if c <= '9' {
        c as int - 48
    } else {
        c as int - 87
    }
}

/// A byte is written as the two hexadecimal digits of its value, in order.
pub proof fn lemma_hex(bytes: Seq<u8>, i: int)
    requires
        0 <= i < bytes.len(),
    ensures
        hex_text(bytes).len() == 2 * bytes.len(),
        hex_value(hex_text(bytes)[2 * i]) * 16 + hex_value(hex_text(bytes)[2 * i + 1]) == bytes[i],
        forall|k: int|
            0 <= k < hex_text(bytes).len() ==> {
                let c = #[trigger] hex_text(bytes)[k];
                '0' <= c && c <= '9' || 'a' <= c && c <= 'f'
            },
    decreases bytes.len(),
{
    let d = bytes.drop_last();
    let t = hex_text(d);
    let all = hex_text(bytes);
    assert(hex_text(Seq::<u8>::empty()).len() == 0);
    if d.len() > 0 {
        if i < d.len() {
            lemma_hex(d, i);
        } else {
            lemma_hex(d, 0);
        }
    }
    assert(d.len() == 0 ==> t =~= Seq::<char>::empty());
    assert(all.len() == t.len() + 2);
    assert(forall|k: int| 0 <= k < t.len() ==> #[trigger] all[k] == t[k]);
}

} // verus!
