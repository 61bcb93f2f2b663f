use bdmount::disc::walk::{ScanError, TreeBuilder};
use bdmount::disc::{DiscTree, NodeKind, ROOT_ID};
use bdmount::rawudf::descriptor::{
    file_entry, parse_partition_maps, Extent, FileEntry, PartMap, Partition,
};
use bdmount::rawudf::device::try_bd;
use bdmount::rawudf::log::{read_abs, Outcome, ReadLog, Step, UdfError};
use bdmount::rawudf::space::{
    build_spaces, extents_abs, fe_physical_extents, read_entry_bytes, resolve, Space,
};
use bdmount::rawudf::volume::file_meta;
use bdmount::rawudf::{RawUdf, PREFETCH_WINDOW};

// ───────────────────────── an image of a disc ─────────────────────────

const SECTOR: usize = 2048;
const STREAM_LEN: usize = 20_000;

/// A device that holds `image`, gives at most `cap` bytes per read and fails at
/// one offset.
struct Device {
    image: Vec<u8>,
    cap: usize,
    fail_at: Option<u64>,
    reads: usize,
}

impl Device {
    fn new(image: Vec<u8>) -> Device {
        Device { image, cap: usize::MAX, fail_at: None, reads: 0 }
    }

    fn run<T>(&mut self, mut f: impl FnMut(&ReadLog) -> Step<T>) -> Result<T, UdfError> {
        let mut log = ReadLog::new();
        loop {
            match f(&log) {
                Step::Done(t) => return Ok(t),
                Step::Fail(e) => return Err(e),
                Step::Need(q) => {
                    assert!(log.get(q).is_none(), "asked twice");
                    self.reads += 1;
                    if self.fail_at == Some(q.offset) {
                        log.record(q, Outcome::Failed);
                        continue;
                    }
                    let from = (q.offset as usize).min(self.image.len());
                    let n = (q.len as usize).min(self.cap).min(self.image.len() - from);
                    log.record(q, Outcome::Bytes(self.image[from..from + n].to_vec()));
                }
            }
        }
    }

    fn open(&mut self) -> Result<RawUdf, UdfError> {
        self.run(|log| RawUdf::open("/dev/rdisk6", log))
    }

    fn tree(&mut self, udf: &mut RawUdf) -> Result<DiscTree, UdfError> {
        let begun: Result<TreeBuilder, ScanError> = self.run(|log| DiscTree::scan_udf(udf, log))?;
        let mut walk = begun.ok().unwrap();
        loop {
            let over = self.run(|log| walk.step_udf(udf, log))?;
            if over.ok().unwrap() {
                return Ok(walk.into_tree());
            }
        }
    }
}

fn put16(b: &mut [u8], at: usize, v: u16) {
    b[at..at + 2].copy_from_slice(&v.to_le_bytes());
}

fn put32(b: &mut [u8], at: usize, v: u32) {
    b[at..at + 4].copy_from_slice(&v.to_le_bytes());
}

fn tag(b: &mut [u8], id: u16) {
    put16(b, 0, id);
    b[4] = 0;
    b[5] = 0;
    let sum: u32 = b[..16].iter().map(|x| *x as u32).sum();
    b[4] = sum as u8;
}

fn long_ad(b: &mut [u8], at: usize, len: u32, block: u32, pref: u16) {
    put32(b, at, len);
    put32(b, at + 4, block);
    put16(b, at + 8, pref);
}

/// A File Entry with its allocation area.
fn entry(kind: u16, info_len: u64, area: &[u8]) -> Vec<u8> {
    let mut b = vec![0u8; 176];
    put16(&mut b, 34, kind);
    b[56..64].copy_from_slice(&info_len.to_le_bytes());
    put32(&mut b, 172, area.len() as u32);
    tag(&mut b, 261);
    b.extend_from_slice(area);
    b
}

fn fid(name: &str, kind: u8, block: u32, pref: u16) -> Vec<u8> {
    let mut b = vec![0u8; 38];
    b[18] = kind;
    b[19] = if name.is_empty() { 0 } else { name.len() as u8 + 1 };
    long_ad(&mut b, 20, 2048, block, pref);
    tag(&mut b, 257);
    if !name.is_empty() {
        b.push(8);
        b.extend_from_slice(name.as_bytes());
    }
    while b.len() % 4 != 0 {
        b.push(0);
    }
    b
}

fn place(image: &mut [u8], sector: usize, b: &[u8]) {
    image[sector * SECTOR..sector * SECTOR + SECTOR].fill(0);
    image[sector * SECTOR..sector * SECTOR + b.len()].copy_from_slice(b);
}

fn lvd(block_size: u32, fsd_block: u32, fsd_ref: u16, maps: &[u8], nmaps: u32) -> Vec<u8> {
    let mut b = vec![0u8; SECTOR];
    put32(&mut b, 212, block_size);
    long_ad(&mut b, 248, 2048, fsd_block, fsd_ref);
    put32(&mut b, 264, maps.len() as u32);
    put32(&mut b, 268, nmaps);
    b[440..440 + maps.len()].copy_from_slice(maps);
    tag(&mut b, 6);
    b
}

fn two_maps(number: u16) -> Vec<u8> {
    let mut m = vec![0u8; 70];
    m[0] = 1;
    m[1] = 6;
    put16(&mut m, 4, number);
    m[6] = 2;
    m[7] = 64;
    m[6 + 5..6 + 13].copy_from_slice(b"Metadata");
    put16(&mut m, 6 + 38, number);
    put32(&mut m, 6 + 40, 20);
    put32(&mut m, 6 + 44, 21);
    m
}

fn directory(entries: &[Vec<u8>]) -> Vec<u8> {
    let raw = entries.concat();
    entry(3, raw.len() as u64, &raw)
}

fn stream_byte(i: usize) -> u8 {
    (i % 251) as u8
}

/// A Blu-ray: the file set and the directories stand in a metadata partition,
/// the stream in the physical one, in two runs.
fn disc() -> Vec<u8> {
    let mut image = vec![0u8; 430 * SECTOR];
    let mut anchor = vec![0u8; SECTOR];
    put32(&mut anchor, 16, 6 * SECTOR as u32);
    put32(&mut anchor, 20, 32);
    tag(&mut anchor, 2);
    place(&mut image, 256, &anchor);

    let mut pvd = vec![0u8; SECTOR];
    pvd[24] = 8;
    pvd[25..30].copy_from_slice(b"MOVIE");
    pvd[55] = 6;
    tag(&mut pvd, 1);
    place(&mut image, 32, &pvd);
    let mut pd = vec![0u8; SECTOR];
    put16(&mut pd, 22, 1);
    put32(&mut pd, 188, 300);
    tag(&mut pd, 5);
    place(&mut image, 33, &pd);
    place(&mut image, 34, &lvd(2048, 0, 1, &two_maps(1), 2));
    let mut end = vec![0u8; SECTOR];
    tag(&mut end, 8);
    place(&mut image, 35, &end);

    // The metadata file and its mirror: eight blocks at block 30.
    let mut area = vec![0u8; 8];
    put32(&mut area, 0, 16 * SECTOR as u32);
    put32(&mut area, 4, 30);
    place(&mut image, 320, &entry(0, 16 * SECTOR as u64, &area));
    place(&mut image, 321, &entry(0, 16 * SECTOR as u64, &area));

    let mut fsd = vec![0u8; SECTOR];
    long_ad(&mut fsd, 400, 2048, 1, 1);
    tag(&mut fsd, 256);
    place(&mut image, 330, &fsd);
    place(
        &mut image,
        331,
        &directory(&[
            fid("", 0x0a, 1, 1),
            fid("AACS", 0x02, 8, 1),
            fid("BDMV", 0x02, 2, 1),
            fid("gone", 0x04, 9, 1),
            fid(".DS_Store", 0, 3, 1),
        ]),
    );
    place(
        &mut image,
        332,
        &directory(&[
            fid("", 0x0a, 1, 1),
            fid("index.bdmv", 0, 3, 1),
            fid("STREAM", 0x02, 4, 1),
        ]),
    );
    place(&mut image, 333, &entry(3, 8, b"INDX0200"));
    place(
        &mut image,
        334,
        &directory(&[fid("00001.m2ts", 0, 5, 1), fid("notes.txt", 0, 6, 1)]),
    );
    // The stream: 10 000 bytes at block 100, the rest at block 110.
    let mut runs = vec![0u8; 32];
    long_ad(&mut runs, 0, 10_240, 100, 0);
    long_ad(&mut runs, 16, (STREAM_LEN - 10_240) as u32, 110, 0);
    place(&mut image, 335, &entry(1, STREAM_LEN as u64, &runs));
    place(&mut image, 336, &entry(3, 40, b"short"));
    for i in 0..STREAM_LEN {
        let at = if i < 10_240 { 400 * SECTOR + i } else { 410 * SECTOR + i - 10_240 };
        image[at] = stream_byte(i);
    }
    image
}

fn stream(from: usize, to: usize) -> Vec<u8> {
    (from..to).map(stream_byte).collect()
}

// ───────────────────────── bytes of a device ─────────────────────────

#[test]
fn read_abs_fills_short_preads() {
    let mut data = vec![0u8; 8192];
    for (i, b) in data.iter_mut().enumerate() {
        *b = (i % 251) as u8;
    }
    for cap in [usize::MAX, 2048, 700, 1] {
        let mut dev = Device::new(data.clone());
        dev.cap = cap;
        let got = dev.run(|log| read_abs(log, 100, 3000)).unwrap();
        assert_eq!(got, data[100..3100]);
    }
}

#[test]
fn read_abs_ends_with_the_device() {
    let data: Vec<u8> = (0..5000).map(|i| (i % 251) as u8).collect();
    let mut dev = Device::new(data.clone());
    assert_eq!(dev.run(|log| read_abs(log, 4900, 3000)).unwrap(), data[4900..]);
    assert!(dev.run(|log| read_abs(log, 9000, 10)).unwrap().is_empty());
    assert!(dev.run(|log| read_abs(log, 0, 0)).unwrap().is_empty());
    dev.fail_at = Some(2048);
    assert_eq!(
        dev.run(|log| read_abs(log, 3000, 10)),
        Err(UdfError::ReadBytes { offset: 2048, len: 2048 })
    );
}

#[test]
fn long_reads_go_by_mebibytes() {
    let data = vec![7u8; 3 * 1024 * 1024];
    let mut dev = Device::new(data);
    let got = dev.run(|log| read_abs(log, 0, 2 * 1024 * 1024 + 1)).unwrap();
    assert_eq!(got.len(), 2 * 1024 * 1024 + 1);
    assert_eq!(dev.reads, 3);
}

// ───────────────────────── partition maps ─────────────────────────

#[test]
fn parses_type1_and_metadata_maps() {
    let mut lvd = vec![0u8; 512];
    // map_table_length = 6+64, number_of_partition_maps = 2
    lvd[264..268].copy_from_slice(&70u32.to_le_bytes());
    lvd[268..272].copy_from_slice(&2u32.to_le_bytes());
    // type 1 → partition number 1
    lvd[440] = 1;
    lvd[441] = 6;
    lvd[444..446].copy_from_slice(&1u16.to_le_bytes());
    // type 2 metadata → physical partition 1, file loc 20
    lvd[446] = 2;
    lvd[447] = 64;
    lvd[446 + 5..446 + 5 + 8].copy_from_slice(b"Metadata");
    lvd[446 + 38..446 + 40].copy_from_slice(&1u16.to_le_bytes());
    lvd[446 + 40..446 + 44].copy_from_slice(&20u32.to_le_bytes());
    lvd[446 + 44..446 + 48].copy_from_slice(&21u32.to_le_bytes());
    let maps = parse_partition_maps(&lvd).unwrap();
    assert_eq!(
        maps,
        vec![
            PartMap::Type1 { partition_number: 1 },
            PartMap::Metadata {
                physical_partition_number: 1,
                metadata_file_loc: 20,
                mirror_file_loc: 21,
            },
        ]
    );
}

#[test]
fn broken_map_tables() {
    assert_eq!(parse_partition_maps(&[0u8; 439]), Err(UdfError::MapsTruncated));
    assert_eq!(parse_partition_maps(&[0u8; 440]), Ok(vec![]));
    let table = |bytes: &[u8], n: u32| {
        let mut b = vec![0u8; 440];
        put32(&mut b, 264, bytes.len() as u32);
        put32(&mut b, 268, n);
        b.extend_from_slice(bytes);
        parse_partition_maps(&b)
    };
    assert_eq!(table(&[9, 2, 1], 2), Err(UdfError::MapOverrun { index: 1 }));
    assert_eq!(table(&[9, 1], 1), Err(UdfError::MapLength { index: 0, claimed: 1 }));
    assert_eq!(table(&[9, 4, 0], 1), Err(UdfError::MapLength { index: 0, claimed: 4 }));
    assert_eq!(table(&[1, 5, 0, 0, 0], 1), Ok(vec![PartMap::Other]));
    let mut plain = vec![0u8; 64];
    plain[0] = 2;
    plain[1] = 64;
    plain[4..12].copy_from_slice(b"Metadata");
    assert_eq!(table(&plain, 1), Ok(vec![PartMap::Other]), "the flags are no part of the name");
    plain[5..13].copy_from_slice(b"Metadata");
    assert!(matches!(table(&plain, 1), Ok(v) if matches!(v[0], PartMap::Metadata { .. })));
}

// ───────────────────────── spaces and entries ─────────────────────────

fn spaces() -> Vec<Option<Space>> {
    vec![
        Some(Space::Physical { start: 2 }),
        Some(Space::Metadata { extents: vec![(10, 4096), (20, 2048)] }),
        None,
    ]
}

#[test]
fn blocks_become_sectors() {
    let s = spaces();
    assert_eq!(resolve(&s, 0, 5), Ok(7));
    assert_eq!(resolve(&s, 0, u32::MAX), Ok(u32::MAX as u64 + 2));
    assert_eq!(resolve(&s, 1, 0), Ok(10));
    assert_eq!(resolve(&s, 1, 1), Ok(11));
    assert_eq!(resolve(&s, 1, 2), Ok(20));
    assert_eq!(resolve(&s, 1, 3), Err(UdfError::PastMetadata { block: 3 }));
    assert_eq!(resolve(&s, 2, 0), Err(UdfError::NoSpace { partition_ref: 2 }));
    assert_eq!(resolve(&s, 3, 0), Err(UdfError::NoSpace { partition_ref: 3 }));
}

fn extent(length: u32, kind: u8, block: u32, partition_ref: Option<u16>) -> Extent {
    Extent { length, kind, block, partition_ref }
}

#[test]
fn recorded_extents_are_placed() {
    let e = [
        extent(100, 0, 1, None),
        extent(50, 1, 9, None),
        extent(60, 0, 0, Some(0)),
    ];
    assert_eq!(extents_abs(&spaces(), &e, 1), Ok(vec![(11 * 2048, 100), (2 * 2048, 60)]));
    assert_eq!(
        extents_abs(&spaces(), &e, 2),
        Err(UdfError::NoSpace { partition_ref: 2 })
    );
    assert_eq!(fe_physical_extents(&e, 300), vec![(301, 100), (300, 60)]);
}

#[test]
fn maps_become_spaces() {
    let mut dev = Device::new(disc());
    let pds = [Partition { number: 7, start: 70 }, Partition { number: 1, start: 300 }];
    let lone = dev.run(|log| build_spaces(log, &pds, &[], 7)).unwrap();
    assert_eq!(lone.len(), 8);
    assert!(matches!(lone[7], Some(Space::Physical { start: 70 })));
    assert!(lone[..7].iter().all(|s| s.is_none()));
    let other = dev.run(|log| build_spaces(log, &pds, &[], 0)).unwrap();
    assert!(matches!(other[0], Some(Space::Physical { start: 300 })));
    let maps = [PartMap::Other, PartMap::Type1 { partition_number: 7 }];
    let two = dev.run(|log| build_spaces(log, &pds, &maps, 1)).unwrap();
    assert!(two[0].is_none() && two[1].is_some());
    assert_eq!(
        dev.run(|log| build_spaces(log, &pds, &maps, 0)).err(),
        Some(UdfError::FsdUnresolved { partition_ref: 0 })
    );
    // A map needs its partition.
    assert_eq!(
        dev.run(|log| build_spaces(log, &[], &maps, 1)).err(),
        Some(UdfError::NoPartitionNumber { number: 7 })
    );
}

fn parsed(b: &[u8]) -> Option<(u64, bool, Vec<u8>, Vec<Extent>)> {
    let e = file_entry(b, 5).ok()?;
    Some((e.information_length, e.embedded, e.data, e.extents))
}

#[test]
fn each_form_of_entry() {
    let mut short = vec![0u8; 40];
    put32(&mut short, 0, 2048);
    put32(&mut short, 4, 7);
    put32(&mut short, 8, 0x4000_0800);
    put32(&mut short, 12, 9);
    put32(&mut short, 24, 99);
    assert_eq!(
        parsed(&entry(0, 3000, &short)),
        Some((3000, false, vec![], vec![extent(2048, 0, 7, None), extent(2048, 1, 9, None)])),
        "up to one without a length"
    );
    put32(&mut short, 8, 0xC000_0800);
    assert_eq!(
        parsed(&entry(0, 3000, &short)),
        Some((3000, false, vec![], vec![extent(2048, 0, 7, None)])),
        "up to one that points to more"
    );
    let mut long = vec![0u8; 37];
    long_ad(&mut long, 0, 100, 3, 1);
    long_ad(&mut long, 16, 0x8000_0064, 4, 2);
    assert_eq!(
        parsed(&entry(1, 200, &long)).unwrap().3,
        vec![extent(100, 0, 3, Some(1)), extent(100, 2, 4, Some(2))]
    );
    let mut wide = vec![0u8; 20];
    put32(&mut wide, 0, 4096);
    put32(&mut wide, 4, 100);
    put32(&mut wide, 8, 100);
    put32(&mut wide, 12, 6);
    put16(&mut wide, 16, 1);
    assert_eq!(parsed(&entry(2, 100, &wide)).unwrap().3, vec![extent(100, 0, 6, Some(1))]);
    put32(&mut wide, 4, 90);
    assert_eq!(parsed(&entry(2, 100, &wide)), None, "compressed");
    assert_eq!(parsed(&entry(3, 4, b"text")), Some((4, true, b"text".to_vec(), vec![])));
    assert_eq!(parsed(&entry(4, 4, b"text")), None, "no such form");
}

#[test]
fn entries_that_do_not_fit() {
    let plain = entry(3, 4, b"text");
    assert_eq!(plain.len(), 180);
    assert!(parsed(&plain).is_some());
    assert_eq!(parsed(&plain[..179]), None);
    assert_eq!(parsed(&plain[..100]), None);
    assert_eq!(parsed(&[]), None);
    let mut huge = plain.clone();
    put32(&mut huge, 168, u32::MAX);
    assert_eq!(parsed(&huge), None);
    let mut extended = vec![0u8; 216];
    put16(&mut extended, 34, 3);
    put32(&mut extended, 208, 2);
    put32(&mut extended, 212, 3);
    extended.extend_from_slice(b"--abc");
    tag(&mut extended, 266);
    assert_eq!(parsed(&extended), Some((0, true, b"abc".to_vec(), vec![])));
    assert_eq!(parsed(&extended[..200]), None);
    tag(&mut extended, 260);
    assert!(matches!(file_entry(&extended, 5), Err(UdfError::BadEntry { lba: 5 })));
}

#[test]
fn bytes_of_an_entry() {
    let image: Vec<u8> = (0..40 * SECTOR).map(|i| (i / SECTOR) as u8).collect();
    let mut dev = Device::new(image);
    let s = spaces();
    let fe = FileEntry {
        information_length: 3000,
        embedded: false,
        data: vec![],
        extents: vec![extent(2048, 0, 0, None), extent(2048, 0, 2, None), extent(9, 0, 99, Some(0))],
    };
    let got = dev.run(|log| read_entry_bytes(log, &s, &fe, 1)).unwrap();
    assert_eq!(got, [vec![10u8; 2048], vec![20u8; 952]].concat());
    let meta = file_meta(&s, &fe, 1).ok().unwrap();
    assert_eq!((meta.size, meta.embedded), (3000, None));
    assert_eq!(meta.extents, vec![(10 * 2048, 2048), (20 * 2048, 2048), (101 * 2048, 9)]);
    let inside =
        FileEntry { information_length: 3, embedded: true, data: vec![1, 2, 3, 4], extents: vec![] };
    assert_eq!(dev.run(|log| read_entry_bytes(log, &s, &inside, 9)).unwrap(), vec![1, 2, 3]);
    assert_eq!(file_meta(&s, &inside, 9).ok().unwrap().embedded, Some(vec![1, 2, 3]));
    assert!(matches!(file_meta(&s, &fe, 2), Err(UdfError::NoSpace { partition_ref: 2 })));
}

// ───────────────────────── opening ─────────────────────────

#[test]
fn opens_a_disc_with_a_metadata_partition() {
    let mut dev = Device::new(disc());
    let udf = dev.open().unwrap();
    assert_eq!(udf.label, "MOVIE");
    assert_eq!(udf.device, "/dev/rdisk6");
    assert_eq!((udf.root_icb.block, udf.root_icb.partition_ref), (1, 1));
    assert!(dev.run(|log| udf.has_bdmv(log)).unwrap());
    assert!(dev.run(|log| try_bd("/dev/rdisk6", log)).is_ok());
}

#[test]
fn a_blank_label_gets_a_stock_name() {
    let mut image = disc();
    let at = 32 * SECTOR;
    image[at + 25..at + 30].fill(b' ');
    assert_eq!(Device::new(image).open().unwrap().label, "BluRay");
}

#[test]
fn a_wide_label_is_decoded() {
    let mut image = disc();
    let b = &mut image[32 * SECTOR..33 * SECTOR];
    b[24] = 16;
    b[25..29].copy_from_slice(&[0x00, 0x41, 0x30, 0x42]);
    b[55] = 5;
    assert_eq!(Device::new(image).open().unwrap().label, "A\u{3042}");
}

#[test]
fn the_mirror_stands_in_for_the_metadata_file() {
    let mut image = disc();
    image[320 * SECTOR] = 0;
    let mut dev = Device::new(image);
    assert_eq!(dev.open().unwrap().label, "MOVIE");
    dev.fail_at = Some(321 * SECTOR as u64);
    assert_eq!(dev.open().err(), Some(UdfError::ReadEntry { lba: 321 }));
}

#[test]
fn a_volume_without_maps_has_one_space() {
    let mut image = disc();
    // The file set's own partition number names no partition: the last one counts.
    place(&mut image, 34, &lvd(2048, 30, 0, &[], 0));
    let udf = Device::new(image).open().unwrap();
    assert_eq!(udf.spaces.len(), 1);
    assert_eq!(udf.root_icb.block, 1);
}

fn open_error(change: impl FnOnce(&mut Vec<u8>)) -> UdfError {
    let mut image = disc();
    change(&mut image);
    Device::new(image).open().err().unwrap()
}

#[test]
fn faults_of_a_volume() {
    let zero = |s: usize| move |i: &mut Vec<u8>| place(i, s, &[]);
    let spoil = |s: usize| move |i: &mut Vec<u8>| i[s * SECTOR + 4] ^= 1;
    assert_eq!(open_error(|i| i.truncate(256 * SECTOR)), UdfError::ShortSector { lba: 256, got: 0 });
    assert_eq!(open_error(|i| i.truncate(256 * SECTOR + 9)), UdfError::ShortSector { lba: 256, got: 9 });
    assert_eq!(open_error(zero(256)), UdfError::BadAnchor);
    assert_eq!(open_error(spoil(32)), UdfError::BadPrimary);
    assert_eq!(open_error(spoil(33)), UdfError::BadPartition);
    assert_eq!(open_error(spoil(34)), UdfError::BadLogical);
    assert_eq!(open_error(zero(32)), UdfError::NoPrimary);
    assert_eq!(open_error(zero(33)), UdfError::NoPartition);
    assert_eq!(open_error(zero(34)), UdfError::NoLogical);
    assert_eq!(open_error(zero(330)), UdfError::BadFileSet);
    assert_eq!(
        open_error(|i| place(i, 34, &lvd(512, 0, 1, &two_maps(1), 2))),
        UdfError::BlockSize { size: 512 }
    );
    assert_eq!(
        open_error(|i| place(i, 34, &lvd(2048, 0, 1, &two_maps(9), 2))),
        UdfError::NoPartitionNumber { number: 9 }
    );
    assert_eq!(
        open_error(|i| place(i, 34, &lvd(2048, 0, 5, &two_maps(1), 2))),
        UdfError::FsdUnresolved { partition_ref: 5 }
    );
    assert_eq!(
        open_error(|i| place(i, 34, &lvd(2048, 99, 1, &two_maps(1), 2))),
        UdfError::PastMetadata { block: 99 }
    );
    assert_eq!(
        open_error(|i| place(i, 320, &entry(3, 2, b"xx"))),
        UdfError::NoMetadataExtents
    );
    assert_eq!(
        open_error(|i| {
            place(i, 320, &[]);
            place(i, 321, &[]);
        }),
        UdfError::BadEntry { lba: 321 }
    );
    let mut dev = Device::new(disc());
    dev.fail_at = Some(256 * SECTOR as u64);
    assert_eq!(dev.open().err(), Some(UdfError::ReadSector { lba: 256 }));
}

#[test]
fn an_entry_that_overruns_is_malformed() {
    assert_eq!(
        open_error(|i| {
            for s in [320, 321] {
                put32(&mut i[s * SECTOR..], 168, u32::MAX);
                put32(&mut i[s * SECTOR..], 172, u32::MAX);
            }
        }),
        UdfError::BadEntry { lba: 321 }
    );
}

// ───────────────────────── paths ─────────────────────────

#[test]
fn paths_are_followed_in_whichever_case() {
    let mut dev = Device::new(disc());
    let udf = dev.open().unwrap();
    let a = dev.run(|log| udf.lookup(log, "BDMV/STREAM/00001.m2ts")).unwrap();
    let b = dev.run(|log| udf.lookup(log, "/bdmv//stream/00001.M2TS/")).unwrap();
    assert_eq!((a.block, a.partition_ref), (5, 1));
    assert_eq!(a, b);
    let root = dev.run(|log| udf.lookup(log, "")).unwrap();
    assert_eq!(root, udf.root_icb);
    assert_eq!(
        dev.run(|log| udf.lookup(log, "BDMV/none")),
        Err(UdfError::NotFound { depth: 1 })
    );
    assert_eq!(
        dev.run(|log| udf.lookup(log, "BDMV/index.bdmv/x")),
        Err(UdfError::IntoFile { depth: 2 })
    );
    assert_eq!(dev.run(|log| udf.lookup(log, "gone")), Err(UdfError::NotFound { depth: 0 }));
}

#[test]
fn directories_leave_out_deleted_and_parent_entries() {
    let mut dev = Device::new(disc());
    let udf = dev.open().unwrap();
    let root: Vec<(String, bool)> = dev
        .run(|log| udf.list_dir(log, "/"))
        .unwrap()
        .into_iter()
        .map(|e| (e.name, e.is_directory))
        .collect();
    assert_eq!(
        root,
        vec![("AACS".to_string(), true), ("BDMV".into(), true), (".DS_Store".into(), false)]
    );
    assert_eq!(dev.run(|log| udf.list_dir(log, "BDMV")).unwrap().len(), 2);
}

#[test]
fn faults_of_a_directory() {
    let mut image = disc();
    image[332 * SECTOR + 176] ^= 1;
    let mut dev = Device::new(image);
    let udf = dev.open().unwrap();
    assert_eq!(
        dev.run(|log| udf.list_dir(log, "BDMV")).err(),
        Some(UdfError::BadIdentifier { at: 0 })
    );
    assert!(!dev.run(|log| udf.has_bdmv(log)).unwrap());
    let mut image = disc();
    place(&mut image, 331, &directory(&[fid("BDMV", 0x02, 2, 7)]));
    let mut dev = Device::new(image);
    let udf = dev.open().unwrap();
    assert_eq!(
        dev.run(|log| udf.list_dir(log, "BDMV")).err(),
        Some(UdfError::NoSpace { partition_ref: 7 })
    );
}

// ───────────────────────── files ─────────────────────────

const STREAM: &str = "BDMV/STREAM/00001.m2ts";

#[test]
fn reads_across_extents() {
    for cap in [usize::MAX, 1000] {
        let mut dev = Device::new(disc());
        dev.cap = usize::MAX;
        let mut udf = dev.open().unwrap();
        dev.cap = usize::MAX;
        assert_eq!(dev.run(|log| udf.file_size(log, STREAM)).unwrap(), STREAM_LEN as u64);
        dev.cap = cap;
        let got = dev.run(|log| udf.read_at(log, STREAM, 9000, 3000)).unwrap();
        assert_eq!(got, stream(9000, 12_000));
        let tail = dev.run(|log| udf.read_at(log, STREAM, 19_990, 100)).unwrap();
        assert_eq!(tail, stream(19_990, STREAM_LEN));
        assert!(dev.run(|log| udf.read_at(log, STREAM, 20_000, 1)).unwrap().is_empty());
        assert!(dev.run(|log| udf.read_at(log, STREAM, 0, 0)).unwrap().is_empty());
        let all = dev.run(|log| udf.read_at(log, STREAM, 0, usize::MAX)).unwrap();
        assert_eq!(all, stream(0, STREAM_LEN));
    }
}

#[test]
fn embedded_files() {
    let mut dev = Device::new(disc());
    let mut udf = dev.open().unwrap();
    let index = "BDMV/index.bdmv";
    assert_eq!(dev.run(|log| udf.read_at(log, index, 2, 100)).unwrap(), b"DX0200");
    let notes = "BDMV/STREAM/notes.txt";
    assert_eq!(dev.run(|log| udf.file_size(log, notes)).unwrap(), 40);
    assert_eq!(dev.run(|log| udf.read_at(log, notes, 1, 3)).unwrap(), b"hor");
    assert_eq!(
        dev.run(|log| udf.read_at(log, notes, 0, 40)),
        Err(UdfError::EmbeddedShort)
    );
}

#[test]
fn a_failed_read_leaves_the_volume_usable() {
    let mut dev = Device::new(disc());
    let mut udf = dev.open().unwrap();
    dev.fail_at = Some(400 * SECTOR as u64);
    assert_eq!(
        dev.run(|log| udf.read_at(log, STREAM, 0, 10)),
        Err(UdfError::ReadBytes { offset: 400 * SECTOR as u64, len: 10_240 })
    );
    dev.fail_at = None;
    assert_eq!(dev.run(|log| udf.read_at(log, STREAM, 0, 10)).unwrap(), stream(0, 10));
}

#[test]
fn the_window_serves_without_the_device() {
    let mut dev = Device::new(disc());
    let mut udf = dev.open().unwrap();
    dev.run(|log| udf.read_at(log, STREAM, 0, 10)).unwrap();
    let reads = dev.reads;
    assert_eq!(dev.run(|log| udf.read_at(log, STREAM, 15_000, 100)).unwrap(), stream(15_000, 15_100));
    assert_eq!(dev.reads, reads);
    assert_eq!(PREFETCH_WINDOW, 16 * 1024 * 1024);
}

#[test]
fn prefetch_fills_next_slot_then_read_promotes_it() {
    let mut data = vec![0u8; 32 * 1024];
    for (i, b) in data.iter_mut().enumerate() {
        *b = (i % 251) as u8;
    }
    // Exercise the same aligned fill used for /dev/diskN payload windows.
    let mut dev = Device::new(data.clone());
    let want = PREFETCH_WINDOW.min(data.len() as u64);
    let window = dev.run(|log| read_abs(log, 0, want)).unwrap();
    assert_eq!(window, data[..window.len()]);
    assert_eq!(window.len(), data.len());
}

#[test]
fn a_prefetched_window_is_promoted_when_it_is_read() {
    let mut dev = Device::new(disc());
    let mut udf = dev.open().unwrap();
    dev.run(|log| udf.prefetch(log, STREAM, 4096, 8192)).unwrap();
    assert!(udf.ahead.is_none());
    let next = udf.next.as_ref().unwrap();
    assert_eq!((next.off, next.buf.clone()), (4096, stream(4096, 12_288)));
    let reads = dev.reads;
    assert_eq!(dev.run(|log| udf.read_at(log, STREAM, 5000, 100)).unwrap(), stream(5000, 5100));
    assert_eq!(dev.reads, reads);
    assert!(udf.next.is_none());
    assert_eq!(udf.ahead.as_ref().unwrap().off, 4096);
}

#[test]
fn prefetch_does_nothing_where_there_is_nothing_to_do() {
    let mut dev = Device::new(disc());
    let mut udf = dev.open().unwrap();
    dev.run(|log| udf.prefetch(log, STREAM, 0, 0)).unwrap();
    dev.run(|log| udf.prefetch(log, STREAM, STREAM_LEN as u64, 10)).unwrap();
    assert!(udf.next.is_none());
    dev.run(|log| udf.read_at(log, STREAM, 0, 10)).unwrap();
    let reads = dev.reads;
    dev.run(|log| udf.prefetch(log, STREAM, 100, 10)).unwrap();
    assert_eq!(dev.reads, reads);
    assert!(udf.next.is_none());
}

// ───────────────────────── the tree ─────────────────────────

#[test]
fn the_tree_mirrors_the_disc() {
    let mut dev = Device::new(disc());
    let mut udf = dev.open().unwrap();
    let tree = dev.tree(&mut udf).unwrap();
    assert_eq!(tree.label, "MOVIE");
    assert_eq!(tree.source, "/dev/rdisk6");
    assert_eq!((tree.file_count, tree.encrypted_count), (3, 1));
    let root = tree.children(ROOT_ID);
    assert_eq!(root.len(), 1, "AACS and .DS_Store are left out");
    let bdmv = tree.lookup(ROOT_ID, b"BDMV").unwrap();
    assert_eq!(root[0], bdmv);
    assert!(tree.lookup(ROOT_ID, b"AACS").is_none());
    let names: Vec<Vec<u8>> =
        tree.children(bdmv).iter().map(|id| tree.get(*id).unwrap().name.clone()).collect();
    assert_eq!(names, vec![b"index.bdmv".to_vec(), b"STREAM".to_vec()]);
    let stream_dir = tree.lookup(bdmv, b"STREAM").unwrap();
    let clip = tree.get(tree.lookup(stream_dir, b"00001.m2ts").unwrap()).unwrap();
    assert!(matches!(clip.kind, NodeKind::Encrypted { name_flags: 1 }));
    assert_eq!((clip.size, clip.parent, clip.path_text().as_str()), (STREAM_LEN as u64, stream_dir, STREAM));
    assert_eq!(tree.largest_encrypted().unwrap().id, clip.id);
    let ids: Vec<u64> = tree.iter().iter().map(|n| n.id).collect();
    assert_eq!(ids, vec![1, 2, 3, 4, 5, 6]);
    assert!(tree.children(clip.id).is_empty());
    assert!(tree.get(99).is_none());
}

#[test]
fn a_disc_without_an_index_is_no_bluray() {
    let mut image = disc();
    place(&mut image, 331, &directory(&[fid("VIDEO_TS", 0x02, 2, 1)]));
    let mut dev = Device::new(image);
    let udf = dev.open().unwrap();
    let r = dev.run(|log| DiscTree::scan_udf(&udf, log)).unwrap();
    assert!(matches!(r, Err(ScanError::NotBluRay)));
    assert_eq!(dev.run(|log| try_bd("/dev/rdisk6", log)), Err(UdfError::NotFound { depth: 0 }));
}

#[test]
fn a_directory_that_cannot_be_read_fails_the_scan() {
    let mut image = disc();
    image[334 * SECTOR] ^= 1;
    let mut dev = Device::new(image);
    let mut udf = dev.open().unwrap();
    assert!(matches!(dev.tree(&mut udf), Err(UdfError::BadEntry { lba: 334 })));
}
