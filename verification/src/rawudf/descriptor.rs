//! Descriptors of a UDF volume as plain values.
//!
//! The descriptors themselves are parsed by `oxideav_bluray::udf`. What stands
//! here is what each parse yields, as far as the reader uses it, and the
//! partition maps, which that crate does not read.

use oxideav_bluray::udf;
use vstd::prelude::*;

use super::log::UdfError;

verus! {

// ───────────────────────── little-endian fields ─────────────────────────

pub open spec fn le16(b: Seq<u8>, at: int) -> int {
    b[at] + 0x100 * b[at + 1]
}

pub open spec fn le32(b: Seq<u8>, at: int) -> int {
    b[at] + 0x100 * b[at + 1] + 0x1_0000 * b[at + 2] + 0x100_0000 * b[at + 3]
}

pub open spec fn le64(b: Seq<u8>, at: int) -> int {
    le32(b, at) + 0x1_0000_0000 * le32(b, at + 4)
}

pub fn u16_at(b: &[u8], at: usize) -> (r: u16)
    requires
        at + 2 <= b@.len(),
    ensures
        r == le16(b@, at as int),
{
    b[at] as u16 + 0x100 * (b[at + 1] as u16)
}

pub fn u32_at(b: &[u8], at: usize) -> (r: u32)
    requires
        at + 4 <= b@.len(),
    ensures
        r == le32(b@, at as int),
{
    b[at] as u32 + 0x100 * (b[at + 1] as u32) + 0x1_0000 * (b[at + 2] as u32) + 0x100_0000 * (b[at
        + 3] as u32)
}

// ───────────────────────── tags and strings ─────────────────────────

pub const PRIMARY_VOLUME: u16 = 1;

pub const ANCHOR: u16 = 2;

pub const PARTITION: u16 = 5;

pub const LOGICAL_VOLUME: u16 = 6;

pub const TERMINATING: u16 = 8;

pub const FILE_SET: u16 = 256;

pub const FILE_IDENTIFIER: u16 = 257;

pub const FILE_ENTRY: u16 = 261;

pub const EXTENDED_FILE_ENTRY: u16 = 266;

pub open spec fn byte_sum(b: Seq<u8>) -> int
    decreases b.len(),
{
    if b.len() == 0 {
        0
    } else {
        byte_sum(b.drop_last()) + b.last()
    }
}

/// `b` starts with a descriptor tag of kind `id`: the reserved byte is zero and
/// the checksum is the sum of the tag's other bytes.
pub open spec fn tagged(b: Seq<u8>, id: u16) -> bool {
    &&& b.len() >= 16
    &&& le16(b, 0) == id
    &&& b[5] == 0
    &&& (byte_sum(b.take(16)) - b[4]) % 256 == b[4]
}

/// The characters of an 8-bit string, up to a zero byte.
pub open spec fn narrow_text(b: Seq<u8>) -> Seq<char>
    decreases b.len(),
{
    if b.len() == 0 || b[0] == 0 {
        Seq::empty()
    } else {
        seq![b[0] as char] + narrow_text(b.skip(1))
    }
}

/// The characters of a big-endian 16-bit string, up to a zero; a surrogate is
/// left out.
pub open spec fn wide_text(b: Seq<u8>) -> Seq<char>
    decreases b.len(),
{
    if b.len() < 2 {
        Seq::empty()
    } else {
        let c = 0x100 * b[0] + b[1];
        if c == 0 {
            Seq::empty()
        } else if 0xD800 <= c <= 0xDFFF {
            wide_text(b.skip(2))
        } else {
            seq![(c as u32) as char] + wide_text(b.skip(2))
        }
    }
}

/// The text of an OSTA compressed string: its first byte says how the rest is
/// coded.
pub open spec fn dstring(b: Seq<u8>) -> Option<Seq<char>> {
    if b.len() == 0 || b[0] == 0 {
        Some(Seq::empty())
    } else if b[0] == 8 {
        Some(narrow_text(b.skip(1)))
    } else if b[0] == 16 && b.len() % 2 == 1 {
        Some(wide_text(b.skip(1)))
    } else {
        None
    }
}

/// The text of a fixed-size field, whose last byte is the string's length.
pub open spec fn dstring_field(b: Seq<u8>) -> Option<Seq<char>> {
    if b.last() as int > b.len() - 1 {
        None
    } else {
        dstring(b.take(b.last() as int))
    }
}

// ───────────────────────── descriptors ─────────────────────────

/// Where an information control block stands: a block of a partition.
#[derive(Clone, Copy, Debug, PartialEq, Eq, Structural)]
pub struct Icb {
    pub block: u32,
    pub partition_ref: u16,
}

/// The address in the `long_ad` at byte `at`.
pub open spec fn long_ad(b: Seq<u8>, at: int) -> Icb {
    Icb { block: le32(b, at + 4) as u32, partition_ref: le16(b, at + 8) as u16 }
}

/// Length in bytes and first sector of the volume descriptor sequence.
pub open spec fn anchor_of(b: Seq<u8>) -> Option<(u32, u32)> {
    if tagged(b, ANCHOR) && b.len() >= 32 {
        Some((le32(b, 16) as u32, le32(b, 20) as u32))
    } else {
        None
    }
}

/// The volume's name.
pub open spec fn primary_of(b: Seq<u8>) -> Option<Seq<char>> {
    if tagged(b, PRIMARY_VOLUME) && b.len() >= 56 {
        dstring_field(b.subrange(24, 56))
    } else {
        None
    }
}

/// A partition: its number and its first sector.
#[derive(Clone, Copy, Debug, PartialEq, Eq, Structural)]
pub struct Partition {
    pub number: u16,
    pub start: u32,
}

pub open spec fn partition_of(b: Seq<u8>) -> Option<Partition> {
    if tagged(b, PARTITION) && b.len() >= 196 {
        Some(Partition { number: le16(b, 22) as u16, start: le32(b, 188) as u32 })
    } else {
        None
    }
}

/// A logical volume: its block size, and where its file set stands.
#[derive(Clone, Copy, Debug, PartialEq, Eq, Structural)]
pub struct LogicalVolume {
    pub block_size: u32,
    pub file_set: Icb,
}

pub open spec fn logical_of(b: Seq<u8>) -> Option<LogicalVolume> {
    if tagged(b, LOGICAL_VOLUME) && b.len() >= 440 && dstring_field(b.subrange(84, 212)) is Some {
        Some(LogicalVolume { block_size: le32(b, 212) as u32, file_set: long_ad(b, 248) })
    } else {
        None
    }
}

/// Where the root directory stands.
pub open spec fn file_set_of(b: Seq<u8>) -> Option<Icb> {
    if tagged(b, FILE_SET) && b.len() >= 416 {
        Some(long_ad(b, 400))
    } else {
        None
    }
}

/// An entry of a directory as it is recorded.
pub struct Identifier {
    pub name: String,
    pub icb: Icb,
    pub characteristics: u8,
    /// Bytes up to the next entry.
    pub total_size: usize,
}

pub struct IdentifierView {
    pub name: Seq<char>,
    pub icb: Icb,
    pub characteristics: u8,
    pub total_size: int,
}

impl View for Identifier {
    type V = IdentifierView;

    open spec fn view(&self) -> IdentifierView {
        IdentifierView {
            name: self.name@,
            icb: self.icb,
            characteristics: self.characteristics,
            total_size: self.total_size as int,
        }
    }
}

pub open spec fn identifier_of(b: Seq<u8>) -> Option<IdentifierView> {
    if b.len() < 38 || !tagged(b, FILE_IDENTIFIER) {
        None
    } else {
        let from = 38 + le16(b, 36);
        let to = from + b[19];
        if b.len() < to {
            None
        } else {
            match dstring(b.subrange(from, to)) {
                None => None,
                Some(name) => Some(
                    IdentifierView {
                        name,
                        icb: long_ad(b, 20),
                        characteristics: b[18],
                        total_size: (to + 3) / 4 * 4,
                    },
                ),
            }
        }
    }
}

/// A run of blocks of a file. Kind 0 is recorded; the others hold nothing.
#[derive(Clone, Copy, Debug, PartialEq, Eq, Structural)]
pub struct Extent {
    pub length: u32,
    pub kind: u8,
    pub block: u32,
    /// The partition, where it is not that of the File Entry.
    pub partition_ref: Option<u16>,
}

/// A File Entry: the file's length, and its bytes, either inside the entry or
/// in extents.
pub struct FileEntry {
    pub information_length: u64,
    pub embedded: bool,
    pub data: Vec<u8>,
    pub extents: Vec<Extent>,
}

pub struct FileEntryView {
    pub information_length: u64,
    pub embedded: bool,
    pub data: Seq<u8>,
    pub extents: Seq<Extent>,
}

impl View for FileEntry {
    type V = FileEntryView;

    open spec fn view(&self) -> FileEntryView {
        FileEntryView {
            information_length: self.information_length,
            embedded: self.embedded,
            data: self.data@,
            extents: self.extents@,
        }
    }
}

/// How allocation descriptors are written: short ones have no partition, long
/// ones do, and extended ones also tell how much of the extent is recorded.
pub const SHORT_ADS: u16 = 0;

pub const LONG_ADS: u16 = 1;

pub const EXTENDED_ADS: u16 = 2;

/// In place of allocation descriptors stand the file's bytes.
pub const EMBEDDED: u16 = 3;

pub open spec fn ad_size(form: int) -> int {
    if form == SHORT_ADS {
        8
    } else if form == LONG_ADS {
        16
    } else {
        20
    }
}

/// The extent of the allocation descriptor that `a` starts with. The two upper
/// bits of its length are its kind.
pub open spec fn extent_of(form: int, a: Seq<u8>) -> Extent {
    let length = (le32(a, 0) % 0x4000_0000) as u32;
    let kind = (le32(a, 0) / 0x4000_0000) as u8;
    if form == SHORT_ADS {
        Extent { length, kind, block: le32(a, 4) as u32, partition_ref: None }
    } else if form == LONG_ADS {
        Extent {
            length,
            kind,
            block: le32(a, 4) as u32,
            partition_ref: Some(le16(a, 8) as u16),
        }
    } else {
        Extent {
            length: le32(a, 8) as u32,
            kind,
            block: le32(a, 12) as u32,
            partition_ref: Some(le16(a, 16) as u16),
        }
    }
}

/// The extents of the allocation descriptors in `a`, up to one without a length
/// or one that points to more of them. A compressed extent cannot be read.
pub open spec fn extents_in(form: int, a: Seq<u8>) -> Option<Seq<Extent>>
    decreases a.len(),
{
    if a.len() < ad_size(form) || le32(a, 0) % 0x4000_0000 == 0 || le32(a, 0) / 0x4000_0000 == 3 {
        Some(Seq::empty())
    } else if form == EXTENDED_ADS && le32(a, 4) % 0x4000_0000 != le32(a, 8) {
        None
    } else {
        match extents_in(form, a.skip(ad_size(form))) {
            Some(rest) => Some(seq![extent_of(form, a)] + rest),
            None => None,
        }
    }
}

/// Where a File Entry tells the lengths of its attributes and of its allocation
/// descriptors, which follow: an extended entry has them further on.
pub open spec fn lengths_at(b: Seq<u8>) -> int {
    if le16(b, 0) == EXTENDED_FILE_ENTRY {
        208
    } else {
        168
    }
}

/// The attributes and the allocation descriptors are no longer than the bytes.
pub open spec fn areas_fit(b: Seq<u8>) -> bool {
    &&& b.len() >= lengths_at(b) + 8
    &&& le32(b, lengths_at(b)) + le32(b, lengths_at(b) + 4) <= b.len()
}

/// What bytes say as a File Entry, if they are one.
pub open spec fn file_entry_of(b: Seq<u8>) -> Option<FileEntryView> {
    let form = le16(b, 34) % 8;
    let from = lengths_at(b) + 8 + le32(b, lengths_at(b));
    let to = from + le32(b, lengths_at(b) + 4);
    let information_length = le64(b, 56) as u64;
    if !(tagged(b, FILE_ENTRY) || tagged(b, EXTENDED_FILE_ENTRY)) || b.len() < lengths_at(b) + 8
        || form > EMBEDDED || b.len() < to {
        None
    } else if form == EMBEDDED {
        Some(
            FileEntryView {
                information_length,
                embedded: true,
                data: b.subrange(from, to),
                extents: Seq::empty(),
            },
        )
    } else {
        match extents_in(form, b.subrange(from, to)) {
            Some(extents) => Some(
                FileEntryView { information_length, embedded: false, data: Seq::empty(), extents },
            ),
            None => None,
        }
    }
}

proof fn lemma_extents_fit(form: int, a: Seq<u8>)
    ensures
        extents_in(form, a) matches Some(s) ==> s.len() * 8 <= a.len(),
    decreases a.len(),
{
    if a.len() >= ad_size(form) {
        lemma_extents_fit(form, a.skip(ad_size(form)));
    }
}

/// An allocation descriptor takes at least eight bytes, and an entry that holds
/// its file's bytes has no extents.
pub proof fn lemma_file_entry_fits(b: Seq<u8>)
    ensures
        file_entry_of(b) matches Some(e) ==> {
            &&& e.extents.len() * 8 <= b.len()
            &&& e.data.len() <= b.len()
            &&& e.embedded ==> e.extents.len() == 0
        },
{
    let from = lengths_at(b) + 8 + le32(b, lengths_at(b));
    let to = from + le32(b, lengths_at(b) + 4);
    if b.len() >= to {
        lemma_extents_fit(le16(b, 34) % 8, b.subrange(from, to));
    }
}

// ───────────────────────── the outside parsers ─────────────────────────

/// The error of `oxideav_bluray`.
#[verifier::external_type_specification]
#[verifier::external_body]
pub struct ExBlurayError(oxideav_bluray::error::BlurayError);

/// `AnchorVolumeDescriptorPointer::parse`: succeeds on a tagged anchor of at
/// least 32 bytes and yields the main sequence's length and location.
#[verifier::external_body]
fn parse_anchor(b: &[u8]) -> (r: Result<(u32, u32), oxideav_bluray::error::BlurayError>)
    ensures
        match r {
            Ok(a) => anchor_of(b@) == Some(a),
            Err(_) => anchor_of(b@) is None,
        },
{
    let a = udf::AnchorVolumeDescriptorPointer::parse(b)?;
    let main = a.main_volume_descriptor_sequence;
    Ok((main.length, main.location))
}

/// `PrimaryVolumeDescriptor::parse`: succeeds on a tagged descriptor of at
/// least 56 bytes whose name is a sound string, and yields that name.
#[verifier::external_body]
fn parse_primary(b: &[u8]) -> (r: Result<String, oxideav_bluray::error::BlurayError>)
    ensures
        match r {
            Ok(name) => primary_of(b@) == Some(name@),
            Err(_) => primary_of(b@) is None,
        },
{
    let p = udf::PrimaryVolumeDescriptor::parse(b)?;
    Ok(p.volume_identifier)
}

/// `PartitionDescriptor::parse`: succeeds on a tagged descriptor of at least
/// 196 bytes and yields the partition's number and first sector.
#[verifier::external_body]
fn parse_partition(b: &[u8]) -> (r: Result<Partition, oxideav_bluray::error::BlurayError>)
    ensures
        match r {
            Ok(p) => partition_of(b@) == Some(p),
            Err(_) => partition_of(b@) is None,
        },
{
    let p = udf::PartitionDescriptor::parse(b)?;
    Ok(Partition { number: p.partition_number, start: p.partition_starting_location })
}

/// `LogicalVolumeDescriptor::parse`: succeeds on a tagged descriptor of at
/// least 440 bytes whose name is a sound string, and yields the block size and
/// the file set's address.
#[verifier::external_body]
fn parse_logical(b: &[u8]) -> (r: Result<LogicalVolume, oxideav_bluray::error::BlurayError>)
    ensures
        match r {
            Ok(v) => logical_of(b@) == Some(v),
            Err(_) => logical_of(b@) is None,
        },
{
    let v = udf::LogicalVolumeDescriptor::parse(b)?;
    let at = v.file_set_descriptor_location.location;
    Ok(
        LogicalVolume {
            block_size: v.logical_block_size,
            file_set: Icb { block: at.block, partition_ref: at.partition_ref },
        },
    )
}

/// `FileSetDescriptor::parse`: succeeds on a tagged descriptor of at least 416
/// bytes and yields the root directory's address.
#[verifier::external_body]
fn parse_file_set(b: &[u8]) -> (r: Result<Icb, oxideav_bluray::error::BlurayError>)
    ensures
        match r {
            Ok(icb) => file_set_of(b@) == Some(icb),
            Err(_) => file_set_of(b@) is None,
        },
{
    let at = udf::FileSetDescriptor::parse(b)?.root_directory_icb.location;
    Ok(Icb { block: at.block, partition_ref: at.partition_ref })
}

/// `FileIdentifierDescriptor::parse`: succeeds on a tagged descriptor whose
/// name lies inside `b` and is a sound string, and yields its name, address,
/// characteristics and its length, rounded up to a multiple of four.
#[verifier::external_body]
fn parse_identifier(b: &[u8]) -> (r: Result<Identifier, oxideav_bluray::error::BlurayError>)
    ensures
        match r {
            Ok(d) => identifier_of(b@) == Some(d@),
            Err(_) => identifier_of(b@) is None,
        },
{
    let d = udf::FileIdentifierDescriptor::parse(b)?;
    let icb = Icb { block: d.icb.location.block, partition_ref: d.icb.location.partition_ref };
    Ok(
        Identifier {
            name: d.identifier,
            icb,
            characteristics: d.file_characteristics,
            total_size: d.total_size,
        },
    )
}

/// `FileEntry::parse`, with `FileEntry::extents`: succeeds on a tagged plain or
/// extended entry whose areas lie inside `b`, and yields the file's length and
/// its bytes, or else the extents up to the first that has no length or that
/// points to more descriptors. It fails on a form of descriptors that it does not
/// know and on a compressed extent. The parser adds up the lengths of the entry's
/// areas, so they have to be ones that a machine word can hold.
#[verifier::external_body]
fn parse_file_entry(b: &[u8]) -> (r: Result<FileEntry, oxideav_bluray::error::BlurayError>)
    requires
        areas_fit(b@),
    ensures
        match r {
            Ok(e) => file_entry_of(b@) == Some(e@),
            Err(_) => file_entry_of(b@) is None,
        },
{
    let e = udf::FileEntry::parse(b)?;
    let extents = e.extents().into_iter().map(
        |x| Extent { length: x.length, kind: x.extent_type, block: x.block, partition_ref: x.partition_ref },
    ).collect();
    Ok(
        FileEntry {
            information_length: e.information_length,
            embedded: matches!(e.ad_type, udf::AdType::EmbeddedInIcb),
            data: e.embedded_data,
            extents,
        },
    )
}

// ───────────────────────── with the reader's errors ─────────────────────────

pub fn anchor(b: &[u8]) -> (r: Result<(u32, u32), UdfError>)
    ensures
        match anchor_of(b@) {
            Some(a) => r == Ok::<(u32, u32), UdfError>(a),
            None => r == Err::<(u32, u32), UdfError>(UdfError::BadAnchor),
        },
{
    match parse_anchor(b) {
        Ok(a) => Ok(a),
        Err(_) => Err(UdfError::BadAnchor),
    }
}

pub fn primary(b: &[u8]) -> (r: Result<String, UdfError>)
    ensures
        match r {
            Ok(name) => primary_of(b@) == Some(name@),
            Err(e) => primary_of(b@) is None && e == UdfError::BadPrimary,
        },
{
    match parse_primary(b) {
        Ok(p) => Ok(p),
        Err(_) => Err(UdfError::BadPrimary),
    }
}

pub fn partition(b: &[u8]) -> (r: Result<Partition, UdfError>)
    ensures
        match partition_of(b@) {
            Some(p) => r == Ok::<Partition, UdfError>(p),
            None => r == Err::<Partition, UdfError>(UdfError::BadPartition),
        },
{
    match parse_partition(b) {
        Ok(p) => Ok(p),
        Err(_) => Err(UdfError::BadPartition),
    }
}

pub fn logical(b: &[u8]) -> (r: Result<LogicalVolume, UdfError>)
    ensures
        match logical_of(b@) {
            Some(v) => r == Ok::<LogicalVolume, UdfError>(v),
            None => r == Err::<LogicalVolume, UdfError>(UdfError::BadLogical),
        },
{
    match parse_logical(b) {
        Ok(v) => Ok(v),
        Err(_) => Err(UdfError::BadLogical),
    }
}

pub fn file_set(b: &[u8]) -> (r: Result<Icb, UdfError>)
    ensures
        match file_set_of(b@) {
            Some(icb) => r == Ok::<Icb, UdfError>(icb),
            None => r == Err::<Icb, UdfError>(UdfError::BadFileSet),
        },
{
    match parse_file_set(b) {
        Ok(icb) => Ok(icb),
        Err(_) => Err(UdfError::BadFileSet),
    }
}

/// The entry of a directory at byte `at`.
pub fn identifier(b: &[u8], at: u64) -> (r: Result<Identifier, UdfError>)
    ensures
        match r {
            Ok(d) => identifier_of(b@) == Some(d@) && 38 <= d@.total_size <= 0x1_0200,
            Err(e) => identifier_of(b@) is None && e == (UdfError::BadIdentifier { at }),
        },
{
    match parse_identifier(b) {
        Ok(d) => Ok(d),
        Err(_) => Err(UdfError::BadIdentifier { at }),
    }
}

/// The File Entry of sector `lba`, from the bytes that stand there.
pub fn file_entry(b: &[u8], lba: u64) -> (r: Result<FileEntry, UdfError>)
    ensures
        match r {
            Ok(e) => {
                &&& file_entry_of(b@) == Some(e@)
                &&& e@.extents.len() * 8 <= b@.len()
                &&& e@.data.len() <= b@.len()
                &&& e@.embedded ==> e@.extents.len() == 0
            },
            Err(e) => file_entry_of(b@) is None && e == (UdfError::BadEntry { lba }),
        },
{
    proof {
        lemma_file_entry_fits(b@);
    }
    if b.len() < 176 {
        return Err(UdfError::BadEntry { lba });
    }
    let at: usize = if u16_at(b, 0) == EXTENDED_FILE_ENTRY {
        208
    } else {
        168
    };
    if b.len() < at + 8 {
        return Err(UdfError::BadEntry { lba });
    }
    let areas: u64 = u32_at(b, at) as u64 + u32_at(b, at + 4) as u64;
    if areas > b.len() as u64 {
        return Err(UdfError::BadEntry { lba });
    }
    match parse_file_entry(b) {
        Ok(e) => Ok(e),
        Err(_) => Err(UdfError::BadEntry { lba }),
    }
}

// ───────────────────────── partition maps ─────────────────────────

/// An entry of the partition map table.
#[derive(Clone, Copy, Debug, PartialEq, Eq, Structural)]
pub enum PartMap {
    Type1 { partition_number: u16 },
    Metadata { physical_partition_number: u16, metadata_file_loc: u32, mirror_file_loc: u32 },
    Other,
}

/// `Metadata` in ASCII.
pub open spec fn metadata_word() -> Seq<u8> {
    seq![77u8, 101, 116, 97, 100, 97, 116, 97]
}

/// An entity identifier, past its flags, holds the word `Metadata`.
pub open spec fn metadata_ident(regid: Seq<u8>) -> bool {
    exists|i: int|
        1 <= i <= regid.len() - 8 && #[trigger] regid.subrange(i, i + 8) == metadata_word()
}

/// What the bytes of one partition map say.
pub open spec fn map_of(raw: Seq<u8>) -> PartMap {
    if raw[0] == 1 && raw.len() >= 6 {
        PartMap::Type1 { partition_number: le16(raw, 4) as u16 }
    } else if raw[0] == 2 && raw.len() >= 64 && metadata_ident(raw.subrange(4, 36)) {
        PartMap::Metadata {
            physical_partition_number: le16(raw, 38) as u16,
            metadata_file_loc: le32(raw, 40) as u32,
            mirror_file_loc: le32(raw, 44) as u32,
        }
    } else {
        PartMap::Other
    }
}

/// The maps from entry `index` on, which starts at byte `off` of the table, up
/// to `count` of them. Each entry says its own length in its second byte.
pub open spec fn maps_from(table: Seq<u8>, off: int, index: int, count: int) -> Result<
    Seq<PartMap>,
    UdfError,
>
    decreases count - index,
{
    if index >= count {
        Ok(Seq::empty())
    } else if off + 2 > table.len() {
        Err(UdfError::MapOverrun { index: index as u32 })
    } else {
        let len = table[off + 1];
        if len < 2 || off + len > table.len() {
            Err(UdfError::MapLength { index: index as u32, claimed: len })
        } else {
            match maps_from(table, off + len, index + 1, count) {
                Err(e) => Err(e),
                Ok(rest) => Ok(seq![map_of(table.subrange(off, off + len))] + rest),
            }
        }
    }
}

/// The partition maps of a Logical Volume Descriptor. The table starts at byte
/// 440; its length and its number of entries stand at 264 and 268.
pub open spec fn maps_of(lvd: Seq<u8>) -> Result<Seq<PartMap>, UdfError> {
    if lvd.len() < 440 {
        Err(UdfError::MapsTruncated)
    } else {
        let end = if 440 + le32(lvd, 264) < lvd.len() {
            440 + le32(lvd, 264)
        } else {
            lvd.len() as int
        };
        maps_from(lvd.subrange(440, end), 0, 0, le32(lvd, 268))
    }
}

fn is_metadata_ident(regid: &[u8]) -> (r: bool)
    ensures
        r == metadata_ident(regid@),
{
    let n: usize = regid.len();
    let mut i: usize = 1;
    while i < n && n - i >= 8
        invariant
            1 <= i,
            n == regid@.len(),
            forall|j: int|
                1 <= j < i && j <= regid@.len() - 8 ==> #[trigger] regid@.subrange(j, j + 8)
                    != metadata_word(),
        decreases n - i,
    {
        if regid[i] == 77 && regid[i + 1] == 101 && regid[i + 2] == 116 && regid[i + 3] == 97
            && regid[i + 4] == 100 && regid[i + 5] == 97 && regid[i + 6] == 116 && regid[i + 7]
            == 97 {
            assert(regid@.subrange(i as int, i + 8) =~= metadata_word());
            return true;
        }
        proof {
            let w = regid@.subrange(i as int, i + 8);
            if w == metadata_word() {
                assert(w[0] == 77 && w[1] == 101 && w[2] == 116 && w[3] == 97);
                assert(w[4] == 100 && w[5] == 97 && w[6] == 116 && w[7] == 97);
            }
        }
        i += 1;
    }
    false
}

fn parse_one_map(raw: &[u8]) -> (r: PartMap)
    requires
        raw@.len() >= 1,
    ensures
        r == map_of(raw@),
{
    if raw[0] == 1 && raw.len() >= 6 {
        PartMap::Type1 { partition_number: u16_at(raw, 4) }
    } else if raw[0] == 2 && raw.len() >= 64 && is_metadata_ident(&raw[4..36]) {
        PartMap::Metadata {
            physical_partition_number: u16_at(raw, 38),
            metadata_file_loc: u32_at(raw, 40),
            mirror_file_loc: u32_at(raw, 44),
        }
    } else {
        PartMap::Other
    }
}

/// Reads the partition map table of a Logical Volume Descriptor.
pub fn parse_partition_maps(lvd_sector: &[u8]) -> (r: Result<Vec<PartMap>, UdfError>)
    ensures
        match r {
            Ok(maps) => maps_of(lvd_sector@) == Ok::<Seq<PartMap>, UdfError>(maps@),
            Err(e) => maps_of(lvd_sector@) == Err::<Seq<PartMap>, UdfError>(e),
        },
{
    if lvd_sector.len() < 440 {
        return Err(UdfError::MapsTruncated);
    }
    let map_len: u32 = u32_at(lvd_sector, 264);
    let nmaps: u32 = u32_at(lvd_sector, 268);
    let room: u64 = (lvd_sector.len() - 440) as u64;
    let end: usize = if (map_len as u64) < room {
        440 + map_len as usize
    } else {
        lvd_sector.len()
    };
    let table = &lvd_sector[440..end];
    let ghost all = maps_of(lvd_sector@);
    let mut off: usize = 0;
    let mut i: u32 = 0;
    let mut maps: Vec<PartMap> = Vec::new();
    assert(maps_from(table@, 0, 0, nmaps as int) == all);
    proof {
        if let Ok(rest) = all {
            assert(maps@ + rest =~= rest);
        }
    }
    while i < nmaps
        invariant
            i <= nmaps,
            off <= table@.len(),
            all == maps_of(lvd_sector@),
            match maps_from(table@, off as int, i as int, nmaps as int) {
                Ok(rest) => all == Ok::<Seq<PartMap>, UdfError>(maps@ + rest),
                Err(e) => all == Err::<Seq<PartMap>, UdfError>(e),
            },
        decreases nmaps - i,
    {
        if table.len() - off < 2 {
            return Err(UdfError::MapOverrun { index: i });
        }
        let len: u8 = table[off + 1];
        if len < 2 || table.len() - off < len as usize {
            return Err(UdfError::MapLength { index: i, claimed: len });
        }
        let raw = &table[off..off + len as usize];
        let one = parse_one_map(raw);
        proof {
            if let Ok(rest) = maps_from(table@, off + len, i + 1, nmaps as int) {
                assert(maps@ + (seq![one] + rest) =~= maps@.push(one) + rest);
            }
        }
        maps.push(one);
        off += len as usize;
        i += 1;
    }
    assert(maps@ + Seq::<PartMap>::empty() =~= maps@);
    Ok(maps)
}

} // verus!
