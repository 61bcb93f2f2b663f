use bdmount::disc::walk::{Entry, Look, ScanError, TreeBuilder, WalkNeed};
use bdmount::disc::{
    bd_candidates, classify, find_bd_volumes, find_bd_volumes_except, inspect_volume,
    raw_device_for_volume, DiscTree, NodeKind, Timestamp, VolumeFacts, ROOT_ID,
};
use bdmount::mmbd::{FILE_M2TS, FILE_SSIF};
use bdmount::mount::MountEntry;
use bdmount::session::{count_units, probe_targets, probe_want};
use bdmount::vfs::{BdFs, NfsError, Refused};

// ───────────────────────── classification ─────────────────────────

#[test]
fn classifies_streams() {
    let root = "/Volumes/X";
    assert_eq!(
        classify(root, "/Volumes/X/BDMV/STREAM/00012.m2ts", "00012.m2ts"),
        Some(FILE_M2TS | 12)
    );
    assert_eq!(
        classify(root, "/Volumes/X/BDMV/STREAM/SSIF/00003.ssif", "00003.ssif"),
        Some(FILE_SSIF | 3)
    );
    assert_eq!(classify(root, "/Volumes/X/BDMV/BACKUP/STREAM/00012.m2ts", "00012.m2ts"), None);
    assert_eq!(classify(root, "/Volumes/X/BDMV/PLAYLIST/00000.mpls", "00000.mpls"), None);
}

#[test]
fn classifies_in_whichever_case() {
    assert_eq!(classify("", "bdmv/stream/00001.M2TS", "00001.M2TS"), Some(1));
    assert_eq!(classify("", "BDMV/STREAM/ssif/00001.SSIF", "00001.SSIF"), Some(FILE_SSIF | 1));
    assert_eq!(classify("", "BDMV/STREAM/00001.ssif", "00001.ssif"), None);
    assert_eq!(classify("", "BDMV/STREAM/abc.m2ts", "abc.m2ts"), None);
    assert_eq!(classify("", "STREAM/00001.m2ts", "00001.m2ts"), None);
    assert_eq!(classify("/other", "BDMV/STREAM/00001.m2ts", "00001.m2ts"), Some(1));
}

// ───────────────────────── walking a mounted disc ─────────────────────────

fn time(secs: u64) -> Timestamp {
    Timestamp { secs, nanos: 5 }
}

/// What a look at a path shows, and the entries of a directory.
fn look(path: &str) -> Look {
    match path {
        "/Volumes/M/BDMV" | "/Volumes/M/BDMV/STREAM" | "/Volumes/M/CERT" => Look::Dir { mtime: time(1) },
        "/Volumes/M/BDMV/index.bdmv" => Look::File { size: 100, mtime: time(2) },
        "/Volumes/M/BDMV/STREAM/00002.m2ts" => Look::File { size: 70_000, mtime: time(3) },
        "/Volumes/M/BDMV/STREAM/00001.m2ts" => Look::File { size: 50_000, mtime: time(3) },
        "/Volumes/M/BDMV/STREAM/pipe" => Look::Other,
        "/Volumes/M/BDMV/STREAM/lost" => Look::Gone,
        p => panic!("nothing should look at {p}"),
    }
}

fn list(path: &str) -> Vec<&'static str> {
    match path {
        "/Volumes/M" => vec!["CERT", "aacs", "BDMV", ".DS_Store", "System Volume Information"],
        "/Volumes/M/BDMV" => vec!["index.bdmv", ".DS_Store", "STREAM"],
        "/Volumes/M/BDMV/STREAM" => vec!["pipe", "lost", "00002.m2ts", "00001.m2ts"],
        "/Volumes/M/CERT" => vec![],
        p => panic!("nothing should list {p}"),
    }
}

fn scan() -> DiscTree {
    let mut walk: TreeBuilder = DiscTree::scan("/Volumes/M", true, time(9)).ok().unwrap();
    loop {
        match walk.next() {
            WalkNeed::Nothing => return walk.into_tree(),
            WalkNeed::List { path } => {
                assert!(walk.wants_listing());
                let entries = list(&String::from_utf8_lossy(&path))
                    .into_iter()
                    .map(|n| Entry { name: n.as_bytes().to_vec(), is_dir: false })
                    .collect();
                walk.listed(entries);
            }
            WalkNeed::Look { path, .. } => {
                assert!(walk.wants_look());
                walk.looked(look(&String::from_utf8_lossy(&path))).ok().unwrap();
            }
        }
    }
}

#[test]
fn a_mounted_disc_is_walked_by_name() {
    let t = scan();
    assert_eq!((t.label.as_str(), t.source.as_str()), ("M", "/Volumes/M"));
    let nodes: Vec<(u64, u64, String)> =
        t.nodes.iter().map(|n| (n.id, n.parent, n.path_text())).collect();
    let nodes: Vec<(u64, u64, &str)> =
        nodes.iter().map(|(id, parent, path)| (*id, *parent, path.as_str())).collect();
    assert_eq!(
        nodes,
        vec![
            (1, 1, "/Volumes/M"),
            (2, 1, "/Volumes/M/BDMV"),
            (3, 2, "/Volumes/M/BDMV/STREAM"),
            (4, 3, "/Volumes/M/BDMV/STREAM/00001.m2ts"),
            (5, 3, "/Volumes/M/BDMV/STREAM/00002.m2ts"),
            (7, 2, "/Volumes/M/BDMV/index.bdmv"),
            (8, 1, "/Volumes/M/CERT"),
        ],
        "a pipe takes a number and has no node"
    );
    assert_eq!(t.children(ROOT_ID), vec![2, 8]);
    assert_eq!(t.children(3), vec![4, 5]);
    assert_eq!((t.file_count, t.encrypted_count), (3, 2));
    assert_eq!(t.get(4).unwrap().mtime, time(3));
    assert_eq!(t.nodes[0].mtime, time(9));
    assert_eq!(t.largest_encrypted().unwrap().id, 5);
    assert!(matches!(t.get(7).unwrap().kind, NodeKind::Passthrough));
    assert!(t.get(2).unwrap().is_dir() && !t.get(4).unwrap().is_dir());
}

#[test]
fn names_that_are_no_text_keep_their_bytes() {
    let mut walk = DiscTree::scan("/Volumes/M", true, time(9)).ok().unwrap();
    assert!(matches!(walk.next(), WalkNeed::List { path } if path == b"/Volumes/M"));
    let names: [&[u8]; 3] = [b"b\xff\xfe.txt", b"a\xc3\xa9", b"\xffAACS"];
    walk.listed(names.iter().map(|n| Entry { name: n.to_vec(), is_dir: false }).collect());
    let mut seen = Vec::new();
    loop {
        match walk.next() {
            WalkNeed::Look { path, .. } => {
                walk.looked(Look::File { size: 1, mtime: time(1) }).ok().unwrap();
                seen.push(path);
            }
            WalkNeed::Nothing => break,
            WalkNeed::List { .. } => panic!("there is no other directory"),
        }
    }
    let t = walk.into_tree();
    assert_eq!(
        seen,
        vec![
            b"/Volumes/M/a\xc3\xa9".to_vec(),
            b"/Volumes/M/b\xff\xfe.txt".to_vec(),
            b"/Volumes/M/\xffAACS".to_vec(),
        ],
        "by their bytes"
    );
    let odd = t.lookup(ROOT_ID, b"b\xff\xfe.txt").and_then(|id| t.get(id)).unwrap();
    assert_eq!((odd.name.as_slice(), odd.path.as_slice()), (names[0], seen[1].as_slice()));
    assert_eq!(odd.path_text(), "/Volumes/M/b\u{fffd}\u{fffd}.txt");
    let text = t.lookup(ROOT_ID, "a\u{e9}".as_bytes()).and_then(|id| t.get(id)).unwrap();
    assert_eq!(text.path_text(), "/Volumes/M/a\u{e9}");
    assert!(t.lookup(ROOT_ID, "b\u{fffd}\u{fffd}.txt".as_bytes()).is_none());
}

#[test]
fn a_volume_without_an_index_is_not_walked() {
    assert!(matches!(DiscTree::scan("/Volumes/M", false, time(0)), Err(ScanError::NotBluRay)));
    let root = DiscTree::scan("/", true, time(0)).ok().unwrap().into_tree();
    assert_eq!(root.label, "BluRay");
}

// ───────────────────────── volumes ─────────────────────────

fn entry(at: &str, from: &str, fs: &str) -> MountEntry {
    MountEntry { mount_point: at.into(), from: from.into(), fs_type: fs.into() }
}

fn table() -> Vec<MountEntry> {
    vec![
        entry("/", "/dev/disk1", "apfs"),
        entry("/Volumes/Z", "/dev/disk6", "udf"),
        entry("/Volumes/N", "127.0.0.1:/", "nfs"),
        entry("/Volumes/Share", "server:/", "udf"),
        entry("/Volumes/A", "/dev/disk7", "hfs"),
        entry("/Volumes/B", "/dev/disk8", "msdos"),
        entry("/VolumesX", "/dev/disk9", "udf"),
    ]
}

#[test]
fn only_local_discs_are_looked_at() {
    assert_eq!(bd_candidates(&table(), &[]), vec!["/Volumes/Z".to_string(), "/Volumes/A".into()]);
    assert_eq!(bd_candidates(&table(), &["/Volumes/Z/".to_string()]), vec!["/Volumes/A".to_string()]);
}

#[test]
fn blu_rays_come_by_path() {
    let yes = |has_aacs| VolumeFacts { has_index: true, has_aacs };
    let no = VolumeFacts { has_index: false, has_aacs: true };
    let v = find_bd_volumes(&table(), &[yes(true), yes(false)]);
    let got: Vec<(&str, &str, bool)> =
        v.iter().map(|x| (x.path.as_str(), x.label.as_str(), x.protected)).collect();
    assert_eq!(got, vec![("/Volumes/A", "A", false), ("/Volumes/Z", "Z", true)]);
    assert_eq!(find_bd_volumes(&table(), &[no, yes(true)]).len(), 1);
    assert!(find_bd_volumes(&table(), &[]).is_empty());
    let skip = vec!["/Volumes/A".to_string()];
    assert_eq!(find_bd_volumes_except(&table(), &skip, &[yes(true)])[0].path, "/Volumes/Z");
    assert!(inspect_volume("/", yes(true)).is_none());
    assert!(inspect_volume("/Volumes/A", no).is_none());
}

#[test]
fn the_device_of_a_volume() {
    let info = "<key>X</key><string>a</string><key>ParentWholeDisk</key>\n<string> disk6 </string>";
    assert_eq!(raw_device_for_volume(info).as_deref(), Some("/dev/rdisk6"));
    assert_eq!(raw_device_for_volume("<key>X</key>"), None);
}

// ───────────────────────── the view ─────────────────────────

fn view() -> BdFs {
    BdFs::new(scan(), 501, 20)
}

#[test]
fn lookups_in_the_view() {
    let fs = view();
    assert_eq!(fs.root_dir(), ROOT_ID);
    assert_eq!(fs.lookup(1, b"BDMV"), Ok(2));
    assert_eq!(fs.lookup(2, b"."), Ok(2));
    assert_eq!(fs.lookup(3, b".."), Ok(2));
    assert_eq!(fs.lookup(1, b".."), Ok(1));
    assert_eq!(fs.lookup(1, b"bdmv"), Err(NfsError::NoEntry));
    assert_eq!(fs.lookup(4, b"x"), Err(NfsError::NotDir));
    assert_eq!(fs.lookup(6, b"x"), Err(NfsError::NoEntry));
}

#[test]
fn attributes_of_the_view() {
    let fs = view();
    let d = fs.getattr(3).unwrap();
    assert!(d.is_dir);
    assert_eq!((d.mode, d.nlink, d.size, d.used), (0o555, 4, 4096, 4096));
    let f = fs.getattr(4).unwrap();
    assert_eq!((f.mode, f.nlink, f.size, f.used, f.fileid), (0o444, 1, 50_000, 50_000, 4));
    assert_eq!((f.uid, f.gid, f.seconds, f.nseconds), (501, 20, 3, 5));
    assert_eq!(fs.getattr(99), Err(NfsError::NoEntry));
    // 0x5bd00000 * 31 + 'M', and never even.
    assert_eq!(fs.fsid, (0x5bd0_0000u64 * 31 + 77) | 1);
    assert_eq!(f.fsid, fs.fsid);
}

#[test]
fn pages_of_a_directory_follow_each_other() {
    let fs = view();
    let all = fs.readdir(2, 0, 10).ok().unwrap();
    let ids: Vec<u64> = all.entries.iter().map(|e| e.fileid).collect();
    assert_eq!(ids, vec![3, 7]);
    assert!(all.end);
    assert_eq!(all.entries[1].name, b"index.bdmv");
    let first = fs.readdir(2, 0, 1).ok().unwrap();
    assert_eq!((first.entries[0].fileid, first.end), (3, false));
    let second = fs.readdir(2, 3, 1).ok().unwrap();
    assert_eq!((second.entries[0].fileid, second.end), (7, true));
    let none = fs.readdir(2, 7, 1).ok().unwrap();
    assert!(none.entries.is_empty() && none.end);
    assert!(matches!(fs.readdir(2, 4, 1), Err(NfsError::BadCookie)));
    assert!(matches!(fs.readdir(4, 0, 1), Err(NfsError::NotDir)));
    assert!(matches!(fs.readdir(99, 0, 1), Err(NfsError::NoEntry)));
}

#[test]
fn reads_of_the_view() {
    let fs = view();
    assert_eq!(fs.read_target(4).ok().unwrap().size, 50_000);
    assert!(matches!(fs.read_target(2), Err(NfsError::IsDir)));
    assert!(matches!(fs.read_target(99), Err(NfsError::NoEntry)));
    assert_eq!(fs.read_eof(4, 49_000, 999), Ok(false));
    assert_eq!(fs.read_eof(4, 49_000, 1000), Ok(true));
    assert_eq!(fs.read_eof(4, u64::MAX, 0), Ok(true));
    assert_eq!(fs.read_eof(99, 0, 0), Err(NfsError::NoEntry));
}

#[test]
fn the_view_is_read_only() {
    let fs = view();
    for r in [
        Refused::SetAttr,
        Refused::Write,
        Refused::Create,
        Refused::CreateExclusive,
        Refused::MakeDir,
        Refused::Remove,
        Refused::Rename,
        Refused::Symlink,
    ] {
        assert_eq!(fs.refuse(r), NfsError::ReadOnly);
    }
    assert_eq!(fs.refuse(Refused::ReadLink), NfsError::NotSupported);
}

// ───────────────────────── probing ─────────────────────────

#[test]
fn streams_to_probe() {
    let t = scan();
    assert_eq!(probe_targets(&t, false), Some(vec![4]));
    assert_eq!(probe_targets(&t, true), Some(vec![3, 4]));
    let empty = DiscTree::scan("/Volumes/M", true, time(0)).ok().unwrap().into_tree();
    assert_eq!(probe_targets(&empty, false), None);
    assert_eq!(probe_targets(&empty, true), Some(vec![]));
}

#[test]
fn how_much_to_probe() {
    assert_eq!(probe_want(256, false, 10_000_000), 256 * 6144);
    assert_eq!(probe_want(256, true, 10_000_000), 8 * 6144);
    assert_eq!(probe_want(256, false, 1000), 1000);
    assert_eq!(probe_want(u64::MAX, false, u64::MAX), u64::MAX);
    assert_eq!(probe_want(0, false, 1000), 0);
}

#[test]
fn clean_units_are_counted() {
    let mut clean = vec![0u8; 6144];
    for p in 0..32 {
        clean[p * 192 + 4] = 0x47;
    }
    let mut marked = clean.clone();
    marked[0] = 0x80;
    let mut data = clean.clone();
    data.extend_from_slice(&marked);
    data.extend_from_slice(&clean);
    data.extend_from_slice(&clean[..100]);
    assert_eq!(count_units(&data), (2, 2));
    assert_eq!(count_units(&[]), (0, 0));
}
