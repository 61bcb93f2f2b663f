//! Names, codes and units of MakeMKV's `libmmbd`.

use vstd::prelude::*;

use crate::number;
use crate::text;

verus! {

/// Size of an aligned unit: 32 transport stream packets of 192 bytes.
pub const UNIT_SIZE: usize = 6144;

/// Name flag: an M2TS file. The clip number goes in the low bits.
pub const FILE_M2TS: u32 = 0;

/// Name flag: an SSIF (3D) file. The clip number goes in the low bits.
pub const FILE_SSIF: u32 = 0x8000_0000;

/// Only apply AACS decryption, skip BD+.
pub const FLAG_AACS_ONLY: u32 = 0x0010_0000;

/// Only apply the BD+ transform.
pub const FLAG_BDPLUS_ONLY: u32 = 0x0020_0000;

/// Only remove bus encryption.
pub const FLAG_BUS_ONLY: u32 = 0x0040_0000;

/// Let the engine figure out the CPS unit.
pub const FLAG_AUTO_CPSID: u32 = 0x1000_0000;

pub const MSG_FLAG_WARNING: u32 = 0x1000_0000;

pub const MSG_FLAG_ERROR: u32 = 0x2000_0000;

pub const MSG_FLAG_MMBD_ERROR: u32 = 0x4000_0000;

/// Where the library stands inside the MakeMKV bundle.
pub open spec fn default_library() -> Seq<char> {
    "/Applications/MakeMKV.app/Contents/lib/libmmbd_new.dylib"@
}

/// The path of the library: the one that the environment names, or the one in
/// the MakeMKV bundle.
pub fn library_path(from_env: Option<&str>) -> (r: String)
    ensures
        r@ == match from_env {
            Some(p) => p@,
            None => default_library(),
        },
{
    match from_env {
        Some(p) => text::owned(p),
        None => text::owned("/Applications/MakeMKV.app/Contents/lib/libmmbd_new.dylib"),
    }
}

/// How grave a message of the library is.
#[derive(Clone, Copy, Debug, PartialEq, Eq, Structural)]
pub enum Gravity {
    Error,
    Warning,
    Info,
}

/// The gravity of a message, and its code, from its flags.
pub fn message_gravity(flags: u32) -> (r: (Gravity, u32))
    ensures
        r.0 == if flags & 0x6000_0000 != 0 {
            Gravity::Error
        } else if flags & 0x1000_0000 != 0 {
            Gravity::Warning
        } else {
            Gravity::Info
        },
        r.1 == flags & 0x000f_ffff,
{
    assert(MSG_FLAG_ERROR | MSG_FLAG_MMBD_ERROR == 0x6000_0000) by (bit_vector)
        requires
            MSG_FLAG_ERROR == 0x2000_0000u32,
            MSG_FLAG_MMBD_ERROR == 0x4000_0000u32,
    ;
    let code: u32 = flags & 0x000f_ffff;
    if flags & (MSG_FLAG_ERROR | MSG_FLAG_MMBD_ERROR) != 0 {
        (Gravity::Error, code)
    } else if flags & MSG_FLAG_WARNING != 0 {
        (Gravity::Warning, code)
    } else {
        (Gravity::Info, code)
    }
}

pub open spec fn open_error_text(code: i32) -> Seq<char> {
    if code == -2 {
        " (context not active: makemkvcon exited?)"@
    } else if code == -3 {
        " (could not enumerate drives)"@
    } else if code == -4 {
        " (MakeMKV could not open the disc at that locator)"@
    } else if code == -5 {
        " (disc opened but no titles found)"@
    } else if code == -6 || code == -7 {
        " (failed to retrieve disc/clip info)"@
    } else {
        ""@
    }
}

/// What a code of `mmbd_open` means, to be put behind a message.
pub fn describe_open_error(code: i32) -> (r: &'static str)
    ensures
        r@ == open_error_text(code),
{
    match code {
        -2 => " (context not active: makemkvcon exited?)",
        -3 => " (could not enumerate drives)",
        -4 => " (MakeMKV could not open the disc at that locator)",
        -5 => " (disc opened but no titles found)",
        -6 | -7 => " (failed to retrieve disc/clip info)",
        _ => "",
    }
}

pub open spec fn decrypt_error_text(code: i32) -> Seq<char> {
    if code == -2 {
        "no disc open / context inactive"@
    } else if code == -3 {
        "buffer is not an aligned unit (byte 4 is not 0x47)"@
    } else if code == -4 {
        "engine refused to return a unit key"@
    } else {
        "unknown error"@
    }
}

/// What a code of `mmbd_decrypt_unit` means.
pub fn describe_decrypt_error(code: i32) -> (r: &'static str)
    ensures
        r@ == decrypt_error_text(code),
{
    match code {
        -2 => "no disc open / context inactive",
        -3 => "buffer is not an aligned unit (byte 4 is not 0x47)",
        -4 => "engine refused to return a unit key",
        _ => "unknown error",
    }
}

/// What to do next to open a disc.
pub enum OpenStep {
    /// Open it by this locator.
    Open(String),
    /// Find out which device backs the source.
    AskDevice,
    Opened,
    /// The device is not known.
    NoDevice,
    Failed,
}

pub enum OpenStepView {
    Open(Seq<char>),
    AskDevice,
    Opened,
    NoDevice,
    Failed,
}

impl View for OpenStep {
    type V = OpenStepView;

    open spec fn view(&self) -> OpenStepView {
        match *self {
            OpenStep::Open(l) => OpenStepView::Open(l@),
            OpenStep::AskDevice => OpenStepView::AskDevice,
            OpenStep::Opened => OpenStepView::Opened,
            OpenStep::NoDevice => OpenStepView::NoDevice,
            OpenStep::Failed => OpenStepView::Failed,
        }
    }
}

/// A disc is opened by its path first and by its raw device second. `results`
/// tells how the attempts went that were made, `device` which device backs the
/// source, once that was asked.
pub open spec fn open_step(
    source: Seq<char>,
    results: Seq<bool>,
    device: Option<Option<Seq<char>>>,
) -> OpenStepView {
    if results.len() == 0 {
        OpenStepView::Open(source)
    } else if results.last() {
        OpenStepView::Opened
    } else if results.len() > 1 {
        OpenStepView::Failed
    } else {
        match device {
            None => OpenStepView::AskDevice,
            Some(None) => OpenStepView::NoDevice,
            Some(Some(d)) => OpenStepView::Open(d),
        }
    }
}

pub open spec fn device_view(device: Option<Option<&str>>) -> Option<Option<Seq<char>>> {
    match device {
        None => None,
        Some(None) => Some(None),
        Some(Some(d)) => Some(Some(d@)),
    }
}

pub fn open_next(source: &str, results: &[bool], device: Option<Option<&str>>) -> (r: OpenStep)
    ensures
        r@ == open_step(source@, results@, device_view(device)),
{
    let n: usize = results.len();
    if n == 0 {
        OpenStep::Open(text::owned(source))
    } else if results[n - 1] {
        OpenStep::Opened
    } else if n > 1 {
        OpenStep::Failed
    } else {
        match device {
            None => OpenStep::AskDevice,
            Some(None) => OpenStep::NoDevice,
            Some(Some(d)) => OpenStep::Open(text::owned(d)),
        }
    }
}

/// The file name without its extension: up to the last dot, or all of it.
pub open spec fn stem(name: Seq<char>) -> Seq<char> {
    match text::last_dot(name) {
        Some(i) => name.take(i),
        None => name,
    }
}

/// The clip number of a stream file: its name is five digits and an extension.
pub open spec fn clip_of(name: Seq<char>) -> Option<u32> {
    let s = stem(name);
    if s.len() == 5 && number::all_digits(s) {
        Some(number::digits_value(s) as u32)
    } else {
        None
    }
}

/// Clip number from an `xxxxx.m2ts` or `xxxxx.ssif` file name, if it has the
/// standard five-digit form.
pub fn clip_number(file_name: &str) -> (r: Option<u32>)
    ensures
        r == clip_of(file_name@),
{
    let c = text::chars_of(file_name);
    let n: usize = match text::find_last_dot(c.as_slice()) {
        Some(i) => i,
        None => c.len(),
    };
    let s = &c.as_slice()[0..n];
    assert(s@ =~= stem(file_name@));
    if n != 5 {
        return None;
    }
    let mut i: usize = 0;
    while i < 5
        invariant
            i <= 5,
            s@.len() == 5,
            s@ == stem(file_name@),
            forall|j: int| 0 <= j < i ==> number::is_digit(#[trigger] s@[j]),
        decreases 5 - i,
    {
        if !number::is_ascii_digit(s[i]) {
            assert(!number::all_digits(s@));
            return None;
        }
        i += 1;
    }
    proof {
        assert(number::is_digit(s@[0]));
        lemma_five_digits(s@);
    }
    number::parse_u32(s)
}

proof fn lemma_five_digits(s: Seq<char>)
    requires
        s.len() == 5,
        number::all_digits(s),
    ensures
        number::digits_value(s) <= 99_999,
{
    reveal_with_fuel(number::digits_value, 6);
    let a = s.drop_last();
    let b = a.drop_last();
    let c = b.drop_last();
    let d = c.drop_last();
    assert(number::is_digit(s[4]) && number::is_digit(s[3]) && number::is_digit(s[2])
        && number::is_digit(s[1]) && number::is_digit(s[0]));
    assert(d.last() == s[0] && c.last() == s[1] && b.last() == s[2] && a.last() == s[3]);
    assert(d.drop_last().len() == 0);
}

/// Every packet of the unit starts with a sync byte.
pub open spec fn clear_ts(unit: Seq<u8>) -> bool {
    unit.len() == 6144 && forall|i: int| 0 <= i < 32 ==> unit[#[trigger] (i * 192) + 4] == 0x47
}

/// Whether every 192-byte packet in a unit starts with a sync byte.
pub fn unit_looks_like_clear_ts(unit: &[u8]) -> (r: bool)
    ensures
        r == clear_ts(unit@),
{
    if unit.len() != UNIT_SIZE {
        return false;
    }
    let mut i: usize = 0;
    while i < 32
        invariant
            i <= 32,
            unit@.len() == 6144,
            forall|j: int| 0 <= j < i ==> unit@[#[trigger] (j * 192) + 4] == 0x47,
        decreases 32 - i,
    {
        if unit[i * 192 + 4] != 0x47 {
            assert(unit@[(i as int * 192) + 4] != 0x47);
            return false;
        }
        i += 1;
    }
    true
}

/// Whether the unit carries the AACS copy-permission bits of an encrypted one.
pub fn unit_is_encrypted(unit: &[u8]) -> (r: bool)
    ensures
        r == (unit@.len() > 0 && unit@[0] >= 0x40),
{
    if unit.len() == 0 {
        return false;
    }
    let b: u8 = unit[0];
    assert((b & 0xC0 != 0) == (b >= 0x40)) by (bit_vector);
    b & 0xC0 != 0
}

// ───────────────────────── laws ─────────────────────────

/// A disc is tried by its own path first. If that fails, the device behind it is
/// asked for and tried, once; without a device, or if that fails too, it is not
/// opened.
pub proof fn lemma_open_course(source: Seq<char>, device: Seq<char>)
    ensures
        open_step(source, Seq::empty(), None) == OpenStepView::Open(source),
        open_step(source, seq![true], None) == OpenStepView::Opened,
        open_step(source, seq![false], None) == OpenStepView::AskDevice,
        open_step(source, seq![false], Some(None)) == OpenStepView::NoDevice,
        open_step(source, seq![false], Some(Some(device))) == OpenStepView::Open(device),
        open_step(source, seq![false, true], Some(Some(device))) == OpenStepView::Opened,
        open_step(source, seq![false, false], Some(Some(device))) == OpenStepView::Failed,
{
    assert(seq![true].last());
    assert(!seq![false].last());
    assert(seq![false, true].last());
    assert(!seq![false, false].last());
}

/// A unit looks decrypted just when it is whole and each of its 32 packets of 192
/// bytes has the sync byte behind its header.
pub proof fn lemma_clear_unit(unit: Seq<u8>, i: int)
    ensures
        clear_ts(unit) ==> unit.len() == 6144 && (0 <= i < 32 ==> unit[192 * i + 4] == 0x47),
        !clear_ts(unit) && unit.len() == 6144 ==> exists|k: int|
            0 <= k < 32 && unit[#[trigger] (k * 192) + 4] != 0x47,
{
    if clear_ts(unit) && 0 <= i < 32 {
        assert(unit[(i * 192) + 4] == 0x47);
    }
}

} // verus!
