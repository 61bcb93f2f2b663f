use bdmount::decrypt::{
    read_plain, Action, Begin, DecryptEngine, EngineError, Phase, PlainNext, PlainRead,
};
use bdmount::disc::{Node, NodeKind, Timestamp};
use bdmount::mmbd::{
    clip_number, describe_decrypt_error, describe_open_error, library_path, message_gravity,
    open_next, unit_is_encrypted, unit_looks_like_clear_ts, Gravity, OpenStep, FILE_M2TS, FILE_SSIF, FLAG_AACS_ONLY,
    FLAG_AUTO_CPSID, FLAG_BDPLUS_ONLY, FLAG_BUS_ONLY, UNIT_SIZE,
};

const UNIT: usize = 6144;

/// An encrypted file: units with a sync byte are disguised by a mask.
struct Source {
    cipher: Vec<u8>,
    reads: Vec<(u64, u64)>,
    unlocked: usize,
    ahead: Vec<(u64, u64)>,
}

fn unlock(unit: &[u8]) -> Vec<u8> {
    unit.iter().enumerate().map(|(i, b)| if i % 192 == 4 { *b } else { b ^ 0x5a }).collect()
}

impl Source {
    fn new(len: usize) -> Source {
        let mut cipher: Vec<u8> = (0..len).map(|i| (i / 7 % 256) as u8).collect();
        for u in 0..len / UNIT {
            // Every third unit carries no sync byte.
            let sync = u % 3 != 2;
            for p in 0..32 {
                cipher[u * UNIT + p * 192 + 4] = if sync { 0x47 } else { 0 };
            }
        }
        Source { cipher, reads: vec![], unlocked: 0, ahead: vec![] }
    }

    fn plain(&self) -> Vec<u8> {
        let mut out = Vec::new();
        for unit in self.cipher.chunks(UNIT) {
            if unit.len() == UNIT && unit[4] == 0x47 {
                out.extend_from_slice(&unlock(unit));
            } else {
                out.extend_from_slice(unit);
            }
        }
        out
    }

    fn read(
        &mut self,
        engine: &mut DecryptEngine,
        node: &Node,
        offset: u64,
        count: usize,
    ) -> Result<Vec<u8>, EngineError> {
        match engine.read(node, offset, count) {
            Begin::Refused(e) => return Err(e),
            Begin::Done(b) => return Ok(b),
            Begin::Passthrough => panic!("the file is encrypted"),
            Begin::Miss => {}
        }
        let (mut job, mut action) = engine.start(node, offset, count)?;
        loop {
            action = match action {
                Action::Done(b) => {
                    assert_eq!(job.phase(), Phase::Over);
                    return Ok(b);
                }
                Action::Source { offset, len } => {
                    assert_eq!(job.phase(), Phase::Source);
                    self.reads.push((offset, len));
                    let from = (offset as usize).min(self.cipher.len());
                    let to = (offset as usize + len as usize).min(self.cipher.len());
                    let (ahead, next) = engine.source(&mut job, self.cipher[from..to].to_vec());
                    self.ahead.extend(ahead);
                    next
                }
                Action::Unlock { name_flags, file_offset, unit } => {
                    assert_eq!(job.phase(), Phase::Unlock);
                    assert_eq!(name_flags, 7);
                    assert_eq!(unit, self.cipher[file_offset as usize..file_offset as usize + UNIT]);
                    self.unlocked += 1;
                    engine.decrypted(&mut job, Some(unlock(&unit)))?
                }
            };
        }
    }
}

fn node(size: usize, kind: NodeKind) -> Node {
    Node {
        id: 9,
        parent: 1,
        name: b"00007.m2ts".to_vec(),
        path: "BDMV/STREAM/00007.m2ts".into(),
        size: size as u64,
        mtime: Timestamp { secs: 0, nanos: 0 },
        kind,
    }
}

fn stream_node(size: usize) -> Node {
    node(size, NodeKind::Encrypted { name_flags: 7 })
}

#[test]
fn any_range_comes_out_decrypted() {
    let len = 200 * UNIT + 1000;
    let mut src = Source::new(len);
    let plain = src.plain();
    let n = stream_node(len);
    let mut e = DecryptEngine::new(0);
    for (offset, count) in [
        (0, 1),
        (0, UNIT),
        (5, 3 * UNIT),
        (UNIT - 1, 2),
        (100 * UNIT + 17, 50_000),
        (len - 10, 10),
        (len - 10, 100),
        (0, len),
        (17, len),
    ] {
        let end = (offset + count).min(len);
        let got = src.read(&mut e, &n, offset as u64, count).unwrap();
        assert_eq!(got, plain[offset..end], "{offset}+{count}");
    }
}

#[test]
fn nothing_past_the_end() {
    let mut src = Source::new(UNIT);
    let n = stream_node(UNIT);
    let mut e = DecryptEngine::new(0);
    assert!(src.read(&mut e, &n, UNIT as u64, 5).unwrap().is_empty());
    assert!(src.read(&mut e, &n, u64::MAX, 5).unwrap().is_empty());
    assert!(src.read(&mut e, &n, 0, 0).unwrap().is_empty());
    assert_eq!(src.reads, vec![]);
    assert_eq!(e.stats(), (0, 0, 0, 0));
}

#[test]
fn a_short_source_ends_the_read() {
    let mut src = Source::new(3 * UNIT);
    let n = stream_node(10 * UNIT);
    let mut e = DecryptEngine::new(0);
    assert_eq!(src.read(&mut e, &n, 100, 10 * UNIT).unwrap(), src.plain()[100..]);
}

#[test]
fn a_repeated_read_comes_from_the_cache() {
    let len = 10 * UNIT;
    let mut src = Source::new(len);
    let n = stream_node(len);
    let mut e = DecryptEngine::new(0);
    let a = src.read(&mut e, &n, 50, 7000).unwrap();
    let (reads, unlocked) = (src.reads.len(), src.unlocked);
    assert_eq!(unlocked, 7, "units without a sync byte are served as they are");
    let b = src.read(&mut e, &n, 50, 7000).unwrap();
    assert_eq!(a, b);
    assert_eq!((src.reads.len(), src.unlocked), (reads, unlocked));
    assert_eq!(e.stats(), (7, 2, 14_000, 0));
}

#[test]
fn sequential_reads_take_large_windows() {
    let len = 6000 * UNIT;
    let mut src = Source::new(len);
    let n = stream_node(len);
    let mut e = DecryptEngine::new_with_udf(64 * 1024 * 1024);
    src.read(&mut e, &n, 0, 10).unwrap();
    assert_eq!(src.reads, vec![(0, 64 * UNIT as u64)]);
    src.read(&mut e, &n, 64 * UNIT as u64, 10).unwrap();
    assert_eq!(src.reads[1], (64 * UNIT as u64, 2730 * UNIT as u64));
    let far = 5000 * UNIT as u64;
    src.read(&mut e, &n, far, 10).unwrap();
    assert_eq!(src.reads[2], (far, 64 * UNIT as u64));
    // What is fetched ahead starts where the window ended.
    assert_eq!(src.ahead[0], (64 * UNIT as u64, 16 * 1024 * 1024));
    assert_eq!(src.ahead[2], (far + 64 * UNIT as u64, (len as u64) - far - 64 * UNIT as u64));
}

#[test]
fn the_last_window_ends_with_the_file() {
    let len = 3 * UNIT + 5;
    let mut src = Source::new(len);
    let n = stream_node(len);
    let mut e = DecryptEngine::new_with_udf(0);
    src.read(&mut e, &n, 0, 10).unwrap();
    assert_eq!(src.reads, vec![(0, 4 * UNIT as u64)]);
    assert_eq!(src.ahead, vec![]);
}

#[test]
fn a_full_cache_drops_the_unit_that_was_used_least_recently() {
    let len = 130 * UNIT;
    let mut src = Source::new(len);
    let n = stream_node(len);
    let mut e = DecryptEngine::new(0);
    src.read(&mut e, &n, 0, 10).unwrap();
    assert_eq!(src.reads.len(), 1);
    // Unit 0 is used again, so unit 1 goes first when others come.
    src.read(&mut e, &n, 0, 10).unwrap();
    let last = len as u64 - UNIT as u64;
    src.read(&mut e, &n, last, 10).unwrap();
    assert_eq!(src.reads.len(), 2);
    src.read(&mut e, &n, 0, 10).unwrap();
    assert_eq!(src.reads.len(), 2);
    src.read(&mut e, &n, UNIT as u64, 10).unwrap();
    assert_eq!(src.reads.len(), 3);
}

#[test]
fn a_unit_that_cannot_be_decrypted_fails_the_read() {
    let n = stream_node(4 * UNIT);
    let src = Source::new(4 * UNIT);
    let mut e = DecryptEngine::new(0);
    assert!(matches!(e.read(&n, 0, 10), Begin::Miss));
    let (mut job, _) = e.start(&n, 0, 10).ok().unwrap();
    let (_, action) = e.source(&mut job, src.cipher.clone());
    assert!(matches!(action, Action::Unlock { file_offset: 0, .. }));
    let r = e.decrypted(&mut job, None);
    assert!(matches!(r, Err(EngineError::Undecrypted { unit: 0 })));
    assert_eq!(e.stats(), (0, 0, 0, 1));
}

#[test]
fn a_unit_that_is_not_clean_is_counted() {
    let n = stream_node(UNIT);
    let src = Source::new(UNIT);
    let mut e = DecryptEngine::new(0);
    let (mut job, _) = e.start(&n, 0, 10).ok().unwrap();
    e.source(&mut job, src.cipher.clone());
    let r = e.decrypted(&mut job, Some(vec![1u8; UNIT]));
    assert!(matches!(r, Ok(Action::Done(b)) if b == vec![1u8; 10]));
    assert_eq!(e.stats(), (1, 0, 10, 1));
}

#[test]
fn plain_files_pass_through() {
    let n = node(100, NodeKind::Passthrough);
    let mut e = DecryptEngine::new(0);
    assert!(matches!(e.read(&n, 0, 10), Begin::Passthrough));
}

#[test]
fn nothing_is_read_after_shutdown() {
    let n = stream_node(UNIT);
    let mut e = DecryptEngine::new(0);
    assert!(!e.is_shutting_down());
    e.shutdown();
    assert!(e.is_shutting_down());
    assert!(matches!(e.read(&n, 0, 10), Begin::Refused(EngineError::ShutDown)));
    assert!(matches!(e.start(&n, 0, 10), Err(EngineError::ShutDown)));
    let p = node(100, NodeKind::Passthrough);
    assert!(matches!(e.read(&p, 0, 10), Begin::Refused(EngineError::ShutDown)));
}

#[test]
fn plain_reads_go_on_until_full_or_at_the_end() {
    let mut done = 0;
    assert_eq!(read_plain(5, 10, &mut done, None), PlainNext::Read { offset: 5, len: 10 });
    assert_eq!(
        read_plain(5, 10, &mut done, Some(PlainRead::Got(4))),
        PlainNext::Read { offset: 9, len: 6 }
    );
    assert_eq!(
        read_plain(5, 10, &mut done, Some(PlainRead::Interrupted)),
        PlainNext::Read { offset: 9, len: 6 }
    );
    assert_eq!(read_plain(5, 10, &mut done, Some(PlainRead::Got(0))), PlainNext::Done(4));
    assert_eq!(read_plain(5, 10, &mut done, Some(PlainRead::Got(6))), PlainNext::Done(10));
    assert_eq!(read_plain(5, 10, &mut done, Some(PlainRead::Failed)), PlainNext::Failed);
    assert_eq!(read_plain(5, 0, &mut 0, None), PlainNext::Done(0));
}

// ───────────────────────── names and units ─────────────────────────

#[test]
fn clip_numbers() {
    assert_eq!(clip_number("00012.m2ts"), Some(12));
    assert_eq!(clip_number("99999.ssif"), Some(99_999));
    assert_eq!(clip_number("00012"), Some(12));
    assert_eq!(clip_number("0012.m2ts"), None);
    assert_eq!(clip_number("000123.m2ts"), None);
    assert_eq!(clip_number("0001a.m2ts"), None);
    assert_eq!(clip_number("00012.x.m2ts"), None);
    assert_eq!(clip_number(""), None);
}

#[test]
fn units_and_their_marks() {
    let mut u = vec![0u8; UNIT];
    assert!(!unit_looks_like_clear_ts(&u));
    for p in 0..32 {
        u[p * 192 + 4] = 0x47;
    }
    assert!(unit_looks_like_clear_ts(&u));
    assert!(!unit_looks_like_clear_ts(&u[..UNIT - 1]));
    u[31 * 192 + 4] = 0;
    assert!(!unit_looks_like_clear_ts(&u));
    assert!(!unit_is_encrypted(&[]));
    assert!(!unit_is_encrypted(&[0x3f]));
    assert!(unit_is_encrypted(&[0x40]));
    assert!(unit_is_encrypted(&[0xc0]));
}

#[test]
fn flags_of_the_library() {
    assert_eq!(UNIT_SIZE, 6144);
    assert_eq!((FILE_M2TS, FILE_SSIF), (0, 0x8000_0000));
    assert_eq!(FLAG_AACS_ONLY | FLAG_BDPLUS_ONLY | FLAG_BUS_ONLY, 0x0070_0000);
    assert_eq!(FLAG_AUTO_CPSID, 0x1000_0000);
}

#[test]
fn where_the_library_is() {
    assert_eq!(library_path(Some("/x.dylib")), "/x.dylib");
    assert_eq!(library_path(None), "/Applications/MakeMKV.app/Contents/lib/libmmbd_new.dylib");
}

#[test]
fn messages_by_their_flags() {
    assert_eq!(message_gravity(0x2000_0001), (Gravity::Error, 1));
    assert_eq!(message_gravity(0x4000_0000), (Gravity::Error, 0));
    assert_eq!(message_gravity(0x1012_3456), (Gravity::Warning, 0x2_3456));
    assert_eq!(message_gravity(5), (Gravity::Info, 5));
}

fn opens(step: OpenStep, locator: &str) -> bool {
    matches!(step, OpenStep::Open(l) if l == locator)
}

#[test]
fn a_disc_is_opened_by_path_and_then_by_device() {
    assert!(opens(open_next("/Volumes/M", &[], None), "/Volumes/M"));
    assert!(matches!(open_next("/Volumes/M", &[true], None), OpenStep::Opened));
    assert!(matches!(open_next("/Volumes/M", &[false], None), OpenStep::AskDevice));
    assert!(matches!(open_next("/Volumes/M", &[false], Some(None)), OpenStep::NoDevice));
    let dev = Some(Some("/dev/rdisk6"));
    assert!(opens(open_next("/Volumes/M", &[false], dev), "/dev/rdisk6"));
    assert!(matches!(open_next("/Volumes/M", &[false, true], dev), OpenStep::Opened));
    assert!(matches!(open_next("/Volumes/M", &[false, false], dev), OpenStep::Failed));
}

#[test]
fn error_codes_in_words() {
    assert_eq!(describe_open_error(-4), " (MakeMKV could not open the disc at that locator)");
    assert_eq!(describe_open_error(-7), describe_open_error(-6));
    assert_eq!(describe_open_error(0), "");
    assert_eq!(describe_decrypt_error(-3), "buffer is not an aligned unit (byte 4 is not 0x47)");
    assert_eq!(describe_decrypt_error(-9), "unknown error");
}
