use bdmount::drives::{list_drives, DriveFacts, OpticalDrive};
use bdmount::da::OpticalClass;
use bdmount::idle::{
    attach_drives, eject_request_path, eject_verdict, holder_line, idle_paths,
    is_hard_os_udf_holder, is_safe_to_eject, list_makemkvcon, makemkvcon_helpers, observe,
    observed_paths, optical_paths, optical_volumes, parse_lsof_f, presence_check, release_our_helpers, status_path,
    status_temp_path, wait_until_idle, EjectRequest, HelperProc, HelperStep, Holder, Presence,
    Seen, State,
};
use bdmount::mount::MountEntry;

fn holder(pid: u32, name: &str, path: &str) -> Holder {
    Holder { pid, name: name.into(), path: path.into() }
}

fn entry(at: &str, from: &str, fs: &str) -> MountEntry {
    MountEntry { mount_point: at.into(), from: from.into(), fs_type: fs.into() }
}

// ───────────────────────── open files ─────────────────────────

#[test]
fn parses_lsof_fields() {
    let raw = "p1920\0cmakemkvcon\0n/dev/rdisk6\0p698\0cFinder\0n/Volumes/GRADUATE_THE\0";
    let h = parse_lsof_f(raw);
    assert_eq!(h.len(), 2);
    assert_eq!(h[0], Holder { pid: 1920, name: "makemkvcon".into(), path: "/dev/rdisk6".into() });
    assert_eq!(h[1].name, "Finder");
}

#[test]
fn lsof_itself_and_broken_fields_are_left_out() {
    assert!(parse_lsof_f("p5\nclsof\nn/a\n").is_empty());
    assert!(parse_lsof_f("pxyz\nca\nn/a\n").is_empty());
    assert!(parse_lsof_f("").is_empty());
    let two = parse_lsof_f("p5\nca\nn/a\nn/b\nf3\np+6\ncb\nn/c\n");
    assert_eq!(two, vec![holder(5, "a", "/a"), holder(5, "a", "/b"), holder(6, "b", "/c")]);
}

// ───────────────────────── verdicts ─────────────────────────

#[test]
fn makemkvcon_on_raw_device_is_not_safe() {
    let src = "/Volumes/GRADUATE_THE";
    let holders = vec![holder(1, "makemkvcon", "guiserver")];
    assert!(!is_safe_to_eject(&holders, src));
    assert!(is_safe_to_eject(&[], src));
}

#[test]
fn handbrake_on_nfs_folder_blocks_eject() {
    let src = "/dev/rdisk6";
    let holders = vec![holder(42, "HandBrake", "/Users/kevin/BluRay Decrypted/GRADUATE_THE")];
    assert!(!is_safe_to_eject(&holders, src));
}

#[test]
fn every_kind_of_blocking_holder() {
    let src = "/Volumes/X";
    for h in [
        holder(1, "handbrakecli", "/tmp"),
        holder(1, "sh", "/opt/makemkvcon"),
        holder(1, "sh", "/dev/disk6"),
        holder(1, "sh", "/dev/rdisk6"),
        holder(1, "sh", "/home/BluRay Decrypted/a"),
        holder(1, "sh", "/Volumes/X/BDMV"),
    ] {
        assert!(!is_safe_to_eject(&[h], src));
    }
    assert!(is_safe_to_eject(&[holder(1, "Finder", "/Volumes/Y")], src));
}

#[test]
fn finder_is_not_a_hard_udf_holder_handbrake_is() {
    let finder = holder(1, "Finder", "/Volumes/GRADUATE_THE");
    let hb = holder(2, "HandBrake", "/Volumes/GRADUATE_THE");
    assert!(!is_hard_os_udf_holder(&finder));
    assert!(is_hard_os_udf_holder(&hb));
}

#[test]
fn players_are_hard_holders() {
    for n in ["makemkvcon", "HandBrakeCLI", "VLC", "IINA", "mpv", "Infuse"] {
        assert!(is_hard_os_udf_holder(&holder(1, n, "/x")));
    }
    assert!(is_hard_os_udf_holder(&holder(1, "sh", "/dev/disk6")));
    assert!(!is_hard_os_udf_holder(&holder(1, "mds", "/dev/null")));
}

#[test]
fn verdict_names_the_holders() {
    let safe = eject_verdict(&[], "/dev/rdisk6");
    assert_eq!(safe.len(), 2);
    assert!(safe[1].starts_with("SAFE TO EJECT."));
    let h = holder(42, "HandBrake", "/dev/rdisk6");
    assert_eq!(holder_line(&h), "  pid     42  HandBrake         /dev/rdisk6");
    let not = eject_verdict(&[h], "/dev/rdisk6");
    assert_eq!(not[1], "NOT safe to eject yet. Still holding the drive:");
    assert_eq!(not[2], "  pid     42  HandBrake         /dev/rdisk6");
    assert!(not[3].starts_with("Quit HandBrake"));
}

// ───────────────────────── paths ─────────────────────────

#[test]
fn optical_paths_include_block_and_raw() {
    let p = optical_paths("/Volumes/X", Some("/dev/rdisk6"));
    assert!(p.iter().any(|x| x == "/dev/rdisk6"));
    assert!(p.iter().any(|x| x == "/dev/disk6"));
}

#[test]
fn optical_paths_of_other_devices() {
    assert_eq!(optical_paths("/a", None), vec!["/a".to_string()]);
    assert_eq!(optical_paths("/a", Some("/dev/disk6"))[2], "/dev/rdisk6");
    assert_eq!(optical_paths("/a", Some("disk6")).len(), 2);
}

#[test]
fn status_files() {
    assert_eq!(status_path(Some("/x/s"), Some("/home/u")), "/x/s");
    assert_eq!(
        status_path(None, Some("/home/u")),
        "/home/u/Library/Application Support/bdmount/status.json"
    );
    assert_eq!(status_path(None, None), "/tmp/Library/Application Support/bdmount/status.json");
    assert_eq!(eject_request_path("/x/status.json"), "/x/eject-request.json");
    assert_eq!(status_temp_path("/x/status.json"), "/x/status.json.tmp");
    assert_eq!(status_temp_path("/x/.hidden"), "/x/.hidden.json.tmp");
}

#[test]
fn presence_is_told_without_touching_volumes() {
    assert_eq!(presence_check("/dev/rdisk6"), Presence::LookAtNode);
    assert_eq!(presence_check("/Volumes/X"), Presence::MountTable);
    assert_eq!(presence_check("/home/u"), Presence::Assume);
    assert_eq!(presence_check("/device"), Presence::Assume);
}

// ───────────────────────── helpers ─────────────────────────

#[test]
fn does_not_claim_makemkv_gui_helper() {
    let us = 4711;
    let gui = HelperProc {
        pid: 1923,
        ppid: 1922,
        cmd: "/Applications/MakeMKV.app/Contents/MacOS/makemkvcon guiserver A0001+shm".into(),
    };
    assert!(!gui.is_ours(us));
    let orphan = HelperProc {
        pid: 99,
        ppid: 1,
        cmd: "/Applications/MakeMKV.app/Contents/MacOS/makemkvcon guiserver A0001+std".into(),
    };
    assert!(orphan.is_ours(us));
}

const PS: &str = "  10     1 /opt/makemkvcon guiserver A\n  11  4711 /opt/makemkvcon  guiserver B\n\
12 99 /opt/makemkvcon guiserver C\n13 1 /bin/sh makemkvcon\nx 1 /opt/makemkvcon y\n14 1\n";

#[test]
fn helpers_of_a_process_listing() {
    let h = list_makemkvcon(PS);
    assert_eq!(h.len(), 3);
    assert_eq!((h[1].pid, h[1].ppid, h[1].cmd.as_str()), (11, 4711, "/opt/makemkvcon guiserver B"));
    let holders = makemkvcon_helpers(PS);
    assert_eq!(holders[0], holder(10, "makemkvcon", "/opt/makemkvcon guiserver A"));
}

#[test]
fn only_our_helpers_are_killed_and_only_at_the_end() {
    assert!(matches!(release_our_helpers(PS, 4711, false), HelperStep::Again));
    match release_our_helpers(PS, 4711, true) {
        HelperStep::Kill(v) => assert_eq!(v, vec![10, 11]),
        _ => panic!("must kill"),
    }
    assert!(matches!(release_our_helpers("12 99 /opt/makemkvcon guiserver C\n", 4711, true), HelperStep::Gone));
}

// ───────────────────────── snapshots ─────────────────────────

fn drives() -> Vec<OpticalDrive> {
    list_drives(&[DriveFacts { id: "disk6".into(), info: None, class: OpticalClass::BluRay }])
}

fn seen(helpers: Vec<Holder>, open: Vec<Holder>) -> Seen {
    Seen { helpers, open, volumes: vec![], claimed: vec!["disk6".into()], drives: drives() }
}

#[test]
fn observed_paths_with_and_without_a_source() {
    let table = vec![
        entry("/Volumes/M", "/dev/disk6s1", "udf"),
        entry("/Volumes/N", "/dev/disk7", "hfs"),
        entry("/mnt", "/dev/disk8", "udf"),
    ];
    assert_eq!(
        observed_paths(None, Some("/mp"), None, &table),
        vec!["/Volumes/M".to_string(), "/dev/disk6s1".into(), "/dev/rdisk6s1".into(), "/mp".into()]
    );
    assert_eq!(observed_paths(Some("/s"), None, None, &table), vec!["/s".to_string()]);
}

#[test]
fn snapshots_follow_the_state() {
    let s = observe(Some("/dev/rdisk6"), Some("/mp"), State::Releasing, seen(vec![], vec![]));
    assert_eq!((s.state, s.safe_to_eject), (State::SafeToEject, true));
    assert_eq!(s.label.as_deref(), Some("rdisk6"));
    assert_eq!(s.claimed_bsd, vec!["disk6".to_string()]);
    assert_eq!(s.mount_pid, None);
    assert_eq!(s.drives[0].state, "waiting");
    let helper = || vec![holder(1, "makemkvcon", "x")];
    let s = observe(Some("/dev/rdisk6"), None, State::Releasing, seen(helper(), vec![]));
    assert_eq!((s.state, s.safe_to_eject), (State::Stuck, false));
    for st in [State::Opening, State::Serving] {
        let s = observe(None, None, st, seen(vec![], vec![]));
        assert_eq!((s.state, s.safe_to_eject), (st, false));
    }
    let s = observe(None, None, State::Idle, seen(helper(), vec![]));
    assert_eq!((s.state, s.safe_to_eject), (State::Idle, false));
    let s = observe(None, None, State::SafeToEject, seen(vec![], vec![]));
    assert_eq!((s.state, s.safe_to_eject), (State::SafeToEject, true));
    let s = observe(None, None, State::Stuck, seen(vec![], vec![]));
    assert_eq!((s.state, s.safe_to_eject), (State::Stuck, false));
}

#[test]
fn an_open_volume_is_not_safe_without_a_source() {
    let table = vec![
        entry("/Volumes/X", "/dev/disk6", "udf"),
        entry("/Volumes/N", "/dev/disk7", "hfs"),
    ];
    let with = |h: Holder| {
        let mut s = seen(vec![], vec![h]);
        s.volumes = optical_volumes(&table);
        observe(None, None, State::Idle, s)
    };
    let s = with(holder(42, "HandBrake", "/Volumes/X/BDMV/index.bdmv"));
    assert_eq!(s.holders, vec![holder(42, "HandBrake", "/Volumes/X/BDMV/index.bdmv")]);
    assert_eq!((s.state, s.safe_to_eject), (State::Idle, false));
    assert!(!with(holder(42, "Finder", "/dev/disk6")).safe_to_eject);
    assert!(!with(holder(42, "Finder", "/dev/rdisk6")).safe_to_eject);
    assert!(with(holder(42, "Finder", "/Users/u/file")).safe_to_eject);
}

#[test]
fn optical_volumes_of_the_mount_table() {
    let table = vec![
        entry("/Volumes/M", "/dev/disk6s1", "udf"),
        entry("/Volumes/N", "/dev/disk7", "hfs"),
        entry("/Volumes/O", "/dev/disk8", "cd9660"),
        entry("/mnt", "/dev/disk9", "udf"),
        entry("/Volumes/P", "server:/", "udf"),
    ];
    assert_eq!(optical_volumes(&table), vec!["/Volumes/M".to_string(), "/Volumes/O".into()]);
}

#[test]
fn a_holder_is_reported_once() {
    let h = || holder(1, "makemkvcon", "x");
    let s = observe(None, None, State::Idle, seen(vec![h()], vec![h(), holder(1, "a", "y")]));
    assert_eq!(s.holders, vec![h(), holder(1, "a", "y")]);
}

#[test]
fn drives_of_a_snapshot_are_brought_up_to_date() {
    let mut s = observe(None, None, State::Serving, seen(vec![], vec![]));
    let live = vec![("/dev/rdisk6".to_string(), "L".to_string(), "/mp".to_string(), false)];
    attach_drives(&mut s, &drives(), &live);
    assert_eq!(s.drives[0].state, "serving");
    assert_eq!(s.state, State::Serving);
}

#[test]
fn waiting_ends_when_this_disc_is_free() {
    assert_eq!(
        idle_paths("/dev/rdisk6", Some("/dev/rdisk6"), Some("/mp")),
        vec!["/dev/rdisk6".to_string(), "/dev/rdisk6".into(), "/dev/disk6".into(), "/mp".into()]
    );
    assert!(wait_until_idle("/Volumes/X", &[], false));
    assert!(wait_until_idle("/Volumes/X", &[holder(1, "makemkvcon", "guiserver")], false));
    assert!(!wait_until_idle("/Volumes/X", &[holder(1, "a", "/Volumes/X/f")], false));
    assert!(!wait_until_idle("/Volumes/X", &[holder(1, "a", "/dev/disk6")], false));
    assert!(wait_until_idle("/Volumes/X", &[holder(1, "a", "/dev/disk6")], true));
}

#[test]
fn an_empty_eject_request() {
    let r = EjectRequest::default();
    assert_eq!(r, EjectRequest { device: None, all: false });
}
