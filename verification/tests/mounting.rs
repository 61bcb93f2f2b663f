use bdmount::disc::{BdVolume, VolumeFacts};
use bdmount::da::OpticalClass;
use bdmount::drives::{list_drives, DriveFacts};
use bdmount::idle::{observe, EjectRequest, Holder, Seen, Snapshot, State};
use bdmount::mount::run::{
    lacks_permission, nfs_options, sanitize, Action, Event, MountError, MountRun, TreeFacts,
};
use bdmount::mount::{
    active_mounts, default_base_dir, find_by_path, held_off_sources, is_device_path, is_mounted,
    is_volume_mounted, mark_source_released, prepare_next, reap_orphaned_helpers, sweep_hold_off,
    teardown_snapshot, unmount_os_volume_polite, unmount_path, unmount_requested, volume_path,
    HoldOff, MountEntry, MountFlags, MountOptions, MountedDisc, PrepareStep, Registry, Teardown,
    UnmountStep, UnmountTool, DEFAULT_CACHE_BYTES,
};
use bdmount::session::report::{drive_list_line, status_lines, volume_list_line};
use bdmount::session::serve::{Action as Serve, Event as Tick, Serving};
use bdmount::session::takeover::{
    Action as Take, Event as TakeEvent, TakeError, TakeOver,
};
use bdmount::session::{
    ask_process, cache_bytes, claims_volume, eject_met, eject_request, eject_wait,
    found_state, live_state, log_filter, next_options, pick_volume, publish_live,
    unmount_targets, watch_list,
};
use bdmount::watch::{Found, Gone, Served, ViewFacts, WatchOptions, Watcher};

fn strings(v: &[&str]) -> Vec<String> {
    v.iter().map(|s| s.to_string()).collect()
}

fn entry(at: &str, from: &str, fs: &str) -> MountEntry {
    MountEntry { mount_point: at.into(), from: from.into(), fs_type: fs.into() }
}

fn mounted(source: &str, label: &str, at: &str) -> MountedDisc {
    MountedDisc {
        source: source.into(),
        label: label.into(),
        mountpoint: at.into(),
        port: 2049,
        raw_device: Some("/dev/rdisk6".into()),
        flags: MountFlags { mounted: true, torn_down: false },
        id: 0,
    }
}

fn ids(reg: &Registry) -> Vec<u64> {
    reg.mounts().iter().map(|d| d.id).collect()
}

fn holder(pid: u32, name: &str, path: &str) -> Holder {
    Holder { pid, name: name.into(), path: path.into() }
}

fn seen(helpers: Vec<Holder>, open: Vec<Holder>) -> Seen {
    let drives =
        list_drives(&[DriveFacts { id: "disk6".into(), info: None, class: OpticalClass::BluRay }]);
    Seen { helpers, open, volumes: vec![], claimed: vec!["disk6".into()], drives }
}

// ───────────────────────── the mount table ─────────────────────────

#[test]
fn our_own_views_in_the_mount_table() {
    let t = vec![
        entry("/mp/A", "127.0.0.1:/", "nfs"),
        entry("/mp/B", "localhost:/", "nfs"),
        entry("/mp/C", "server:/", "nfs"),
        entry("/Volumes/M", "/dev/disk6", "udf"),
    ];
    assert_eq!(active_mounts(&t), strings(&["/mp/A", "/mp/B"]));
    assert!(is_mounted(&t, "/mp/A/", "/elsewhere"));
    assert!(is_mounted(&t, "/link", "/mp/B"));
    assert!(!is_mounted(&t, "/mp/C", "/mp/C"));
    assert!(is_volume_mounted(&t, "/Volumes/M/"));
    assert!(!is_volume_mounted(&t, "/Volumes"));
}

#[test]
fn options_of_a_mount() {
    assert_eq!(default_base_dir(Some("/b"), None), "/b");
    assert_eq!(default_base_dir(None, Some("/home/u")), "/home/u/BluRay Decrypted");
    assert_eq!(default_base_dir(None, None), "/tmp/BluRay Decrypted");
    let o = MountOptions::new("/b".into());
    assert_eq!((o.cache_bytes, o.mountpoint), (DEFAULT_CACHE_BYTES, None));
    assert_eq!(DEFAULT_CACHE_BYTES, 64 * 1024 * 1024);
    assert_eq!(
        nfs_options(4242),
        "ro,nolocks,vers=3,tcp,hard,intr,rsize=131072,readahead=16,actimeo=3600,timeo=600,port=4242,mountport=4242"
    );
    assert!(lacks_permission("mount_nfs: Operation not permitted"));
    assert!(!lacks_permission("mount_nfs: no route to host"));
    assert_eq!(sanitize(" a/b:c\0d "), "a_b_c_d");
    assert_eq!(sanitize(" \t"), "BluRay");
}

// ───────────────────────── hold-off ─────────────────────────

#[test]
fn released_sources_are_held_off_for_a_while() {
    let mut h = HoldOff::new();
    mark_source_released(&mut h, "/Volumes/A", 1000);
    mark_source_released(&mut h, "/Volumes/B", 1000);
    mark_source_released(&mut h, "/Volumes/A/", 9000);
    assert_eq!(h.released.len(), 2);
    assert_eq!(held_off_sources(&mut h, &[], 15_999), strings(&["/Volumes/A", "/Volumes/B"]));
    assert_eq!(held_off_sources(&mut h, &[], 16_000), strings(&["/Volumes/A"]));
    let t = vec![entry("/Volumes/A", "/dev/disk6", "udf")];
    sweep_hold_off(&mut h, &t, 1_000_000);
    assert_eq!(h.released.len(), 1);
    assert!(held_off_sources(&mut h, &[], 1_000_000).is_empty());
}

#[test]
fn orphans_of_a_crash() {
    let ps = "10 1 /a/makemkvcon guiserver x\n11 2 /a/makemkvcon guiserver x\n\
12 1 /a/makemkvcon info\n13 1 makemkvcon guiserver\nx 1 /a/makemkvcon guiserver\n-7 1 /a/makemkvcon guiserver\n";
    assert_eq!(reap_orphaned_helpers(ps), vec![10, -7]);
}

// ───────────────────────── unmounting ─────────────────────────

#[test]
fn our_views_are_unmounted_with_more_and_more_force() {
    assert_eq!(unmount_path(false, &[]), UnmountStep::Done);
    assert_eq!(unmount_path(true, &[]), UnmountStep::Try(UnmountTool::Umount));
    assert_eq!(unmount_path(true, &[false]), UnmountStep::Try(UnmountTool::UmountForce));
    assert_eq!(unmount_path(true, &[false, false]), UnmountStep::Try(UnmountTool::DiskutilForce));
    assert_eq!(unmount_path(true, &[false, true]), UnmountStep::Done);
    assert_eq!(unmount_path(true, &[false, false, false]), UnmountStep::Failed);
}

#[test]
fn volumes_of_the_system_are_never_forced() {
    assert_eq!(unmount_os_volume_polite(false, &[]), UnmountStep::Done);
    assert_eq!(unmount_os_volume_polite(true, &[]), UnmountStep::Try(UnmountTool::Umount));
    assert_eq!(unmount_os_volume_polite(true, &[None]), UnmountStep::Try(UnmountTool::Diskutil));
    assert_eq!(unmount_os_volume_polite(true, &[Some(true)]), UnmountStep::Done);
    assert_eq!(unmount_os_volume_polite(true, &[None, Some(false)]), UnmountStep::Failed);
    assert_eq!(unmount_os_volume_polite(false, &[None, Some(false)]), UnmountStep::Done);
}

#[test]
fn live_mounts_are_found_by_either_end() {
    let live = vec![mounted("/dev/rdisk6", "A", "/mp/A"), mounted("/Volumes/B", "B", "/mp/B")];
    assert_eq!(find_by_path(&live, "/mp/B/"), Some(1));
    assert_eq!(find_by_path(&live, "/dev/rdisk6"), Some(0));
    assert_eq!(find_by_path(&live, "/x"), None);
    assert_eq!(unmount_requested(&live, "/Volumes/B"), Some((1, true)));
    assert_eq!(unmount_requested(&live, "/mp/B"), Some((1, false)));
    assert_eq!(unmount_requested(&live, "/x"), None);
    assert_eq!(volume_path("/Volumes/B//"), "/Volumes/B");
    assert_eq!(volume_path("/"), "/");
}

#[test]
fn a_mount_is_released_once() {
    let mut m = mounted("/dev/rdisk6", "A", "/mp/A");
    assert_eq!((m.source(), m.label(), m.mountpoint()), ("/dev/rdisk6", "A", "/mp/A"));
    assert_eq!((m.port(), m.raw_device()), (2049, Some("/dev/rdisk6")));
    assert!(m.is_active());
    assert!(m.source_present(true, &[]) && !m.source_present(false, &[]));
    let mut reg = Registry::new();
    let mut b = mounted("/dev/rdisk7", "B", "/mp/B");
    assert!(reg.register(&mut m) && reg.register(&mut b));
    assert_eq!((m.id, b.id, ids(&reg)), (1, 2, vec![1, 2]));
    let mut h = HoldOff::new();
    assert_eq!(
        m.teardown(&mut reg, &mut h, 1000, true),
        Teardown::Release { publish: false, unmount: true, release_helpers: false, remove_dir: true }
    );
    assert!(!m.is_active());
    assert_eq!(ids(&reg), vec![2]);
    assert_eq!(find_by_path(reg.mounts(), "/mp/A"), None);
    assert_eq!(held_off_sources(&mut h, &[], 15_999), strings(&["/dev/rdisk6"]));
    // Again: nothing to do, but the source is held off anew.
    assert_eq!(m.teardown(&mut reg, &mut h, 9000, true), Teardown::Nothing);
    assert_eq!((reg.mounts().len(), h.released.len()), (1, 1));
    assert_eq!(held_off_sources(&mut h, &[], 23_999), strings(&["/dev/rdisk6"]));
    assert!(held_off_sources(&mut h, &[], 24_000).is_empty());
    let mut n = mounted("/Volumes/B", "B", "/mp/B");
    assert!(!n.source_present(true, &[]));
    assert!(n.source_present(false, &[entry("/Volumes/B", "/dev/disk6", "udf")]));
    let mut last = Registry::new();
    assert!(last.register(&mut n));
    assert_eq!(
        n.teardown(&mut last, &mut h, 0, false),
        Teardown::Release { publish: true, unmount: false, release_helpers: true, remove_dir: false }
    );
    assert!(last.mounts().is_empty());
}

#[test]
fn mounts_on_one_port_are_told_apart() {
    let mut reg = Registry::new();
    let mut one = mounted("/dev/rdisk6", "A", "/mp/A");
    let mut two = mounted("/dev/rdisk6", "A", "/mp/A");
    let mut three = mounted("/dev/rdisk6", "A", "/mp/A");
    assert!(reg.register(&mut one) && reg.register(&mut two) && reg.register(&mut three));
    let mut h = HoldOff::new();
    two.teardown(&mut reg, &mut h, 0, true);
    assert_eq!(ids(&reg), vec![one.id, three.id]);
    one.teardown(&mut reg, &mut h, 0, true);
    assert_eq!(
        three.teardown(&mut reg, &mut h, 0, true),
        Teardown::Release { publish: true, unmount: true, release_helpers: true, remove_dir: true }
    );
    // A number is not given out twice.
    let mut four = mounted("/dev/rdisk8", "D", "/mp/D");
    assert!(reg.register(&mut four));
    assert_eq!((four.id, reg.mounts()[0].label.as_str()), (4, "D"));
}

#[test]
fn a_mount_point_is_cleared_created_and_empty() {
    assert_eq!(prepare_next(true, None, None, None), PrepareStep::Unmount);
    assert_eq!(prepare_next(true, Some(false), None, None), PrepareStep::Stale);
    assert_eq!(prepare_next(true, Some(true), None, None), PrepareStep::Create);
    assert_eq!(prepare_next(false, None, None, None), PrepareStep::Create);
    assert_eq!(prepare_next(false, None, Some(false), None), PrepareStep::NotCreated);
    assert_eq!(prepare_next(false, None, Some(true), None), PrepareStep::List);
    assert_eq!(prepare_next(false, None, Some(true), Some(None)), PrepareStep::Unreadable);
    assert_eq!(prepare_next(false, None, Some(true), Some(Some(false))), PrepareStep::NotEmpty);
    assert_eq!(prepare_next(true, Some(true), Some(true), Some(Some(true))), PrepareStep::Ready);
}

#[test]
fn an_eject_is_waited_for_until_it_is_met() {
    assert!(eject_wait(false, true, false));
    assert!(!eject_wait(true, true, false), "the time is up");
    assert!(!eject_wait(false, false, false), "there is nobody to wait for");
    assert!(!eject_wait(false, true, true), "it was met");
}

#[test]
fn a_release_is_safe_only_without_helpers() {
    let m = mounted("/dev/rdisk6", "A", "/mp/A");
    let s = teardown_snapshot(&m, seen(vec![], vec![]), 7);
    assert_eq!((s.state, s.safe_to_eject), (State::SafeToEject, true));
    assert_eq!((s.label.as_deref(), s.mount_pid), (Some("A"), Some(7)));
    let s = teardown_snapshot(&m, seen(vec![holder(1, "makemkvcon", "x")], vec![]), 7);
    assert_eq!((s.state, s.safe_to_eject), (State::Stuck, false));
    let s = teardown_snapshot(&m, seen(vec![], vec![holder(1, "a", "/dev/disk6")]), 7);
    assert_eq!((s.state, s.holders.len()), (State::Stuck, 1));
}

// ───────────────────────── the course of a mount ─────────────────────────

fn tree(label: &str, encrypted_count: usize) -> Event {
    Event::Scanned(Some(TreeFacts { label: label.into(), encrypted_count }))
}

fn device_run() -> MountRun {
    let (mut run, a) = MountedDisc::mount("/dev/rdisk6s1", &MountOptions::new("/base".into()));
    assert!(matches!(a, Action::OpenRaw { device } if device == "/dev/rdisk6s1"));
    assert!(matches!(run.step(tree("A/B", 3)), Action::OpenDisc { source } if source == "/dev/rdisk6s1"));
    assert!(matches!(run.step(Event::DiscReady(true)), Action::Serve));
    assert!(matches!(run.step(Event::Serving(Some(99))), Action::Prepare { mountpoint } if mountpoint == "/base/A_B"));
    assert!(matches!(run.step(Event::Prepared(true)), Action::Attach { port: 99, .. }));
    run
}

#[test]
fn a_device_goes_live() {
    let mut run = device_run();
    assert!(!run.disc().flags.mounted);
    assert!(matches!(run.step(Event::Attached(true)), Action::Live));
    let d = run.disc();
    assert!(d.flags.mounted && d.is_active());
    assert_eq!((d.label(), d.mountpoint(), d.port()), ("A/B", "/base/A_B", 99));
    assert_eq!(d.raw_device(), Some("/dev/rdisk6s1"));
    assert!(matches!(run.step(Event::Attached(true)), Action::Fail(MountError::OutOfTurn)));
}

#[test]
fn a_view_that_cannot_be_mounted_is_undone() {
    let mut run = device_run();
    assert!(matches!(run.step(Event::Attached(false)), Action::Undo { mountpoint } if mountpoint == "/base/A_B"));
    assert!(matches!(run.step(Event::Undone), Action::Fail(MountError::NotAttached)));
}

#[test]
fn a_volume_is_resolved_looked_at_and_scanned() {
    let mut o = MountOptions::new("/base".into());
    o.mountpoint = Some("/here".into());
    let facts = |has_aacs| VolumeFacts { has_index: true, has_aacs };
    for (aacs, encrypted, opens) in [(false, 0, false), (true, 0, true), (false, 1, true)] {
        let (mut run, a) = MountedDisc::mount("/link", &o);
        assert!(matches!(a, Action::Resolve { source } if source == "/link"));
        assert!(matches!(run.step(Event::Resolved(Some("/Volumes/M".into()))), Action::AskDevice { volume } if volume == "/Volumes/M"));
        let info = "<key>ParentWholeDisk</key><string>disk6</string>".to_string();
        assert!(matches!(run.step(Event::DeviceInfo(Some(info))), Action::Look { .. }));
        assert!(matches!(run.step(Event::Looked(facts(aacs))), Action::Scan { .. }));
        let a = run.step(tree("M", encrypted));
        assert_eq!(matches!(a, Action::OpenDisc { .. }), opens);
        assert_eq!(matches!(a, Action::StartEngine), !opens);
        run.step(Event::DiscReady(true));
        assert!(matches!(run.step(Event::Serving(Some(1))), Action::Prepare { mountpoint } if mountpoint == "/here"));
        assert_eq!(run.disc().raw_device(), Some("/dev/rdisk6"));
    }
}

#[test]
fn faults_on_the_way() {
    let o = MountOptions::new("/base".into());
    let fails = |a: Action, e: MountError| matches!(a, Action::Fail(x) if x == e);
    let start = |s: &str| MountedDisc::mount(s, &o).0;
    assert!(fails(start("/x").step(Event::Resolved(None)), MountError::NoSource));
    assert!(fails(start("/x").step(Event::Undone), MountError::OutOfTurn));
    let mut run = start("/x");
    run.step(Event::Resolved(Some("/Volumes/M".into())));
    run.step(Event::DeviceInfo(None));
    let none = VolumeFacts { has_index: false, has_aacs: true };
    assert!(fails(run.step(Event::Looked(none)), MountError::NotBluRay));
    assert!(fails(start("/dev/disk6").step(Event::Scanned(None)), MountError::Unreadable));
    assert_eq!(start("/dev/r/..").disc().raw_device(), Some("/dev/r/.."));
    let mut run = start("/dev/disk6");
    assert_eq!(run.disc().raw_device(), Some("/dev/rdisk6"));
    run.step(tree("", 0));
    assert!(fails(run.step(Event::DiscReady(false)), MountError::NoDisc));
    let mut run = start("/dev/disk6");
    run.step(tree("", 0));
    run.step(Event::DiscReady(true));
    assert!(fails(run.step(Event::Serving(None)), MountError::NoServer));
    let mut run = start("/dev/disk6");
    run.step(tree("", 0));
    run.step(Event::DiscReady(true));
    assert!(matches!(run.step(Event::Serving(Some(1))), Action::Prepare { mountpoint } if mountpoint == "/base/BluRay"));
    assert!(fails(run.step(Event::Prepared(false)), MountError::NotPrepared));
}

// ───────────────────────── watching ─────────────────────────

fn found(source: &str, protected: bool) -> Found {
    Found { source: source.into(), protected }
}

#[test]
fn views_that_are_gone_are_dropped_and_held_off() {
    let mut w = Watcher::new();
    for (s, m) in [("/a", "/mp/a"), ("/b", "/mp/b"), ("/c", "/mp/c")] {
        w.active.push(Served { source: s.into(), mountpoint: m.into() });
    }
    let mut h = HoldOff::new();
    let facts = [
        ViewFacts { active: true, present: true },
        ViewFacts { active: false, present: true },
        ViewFacts { active: true, present: false },
    ];
    w.drop_gone(&facts);
    assert_eq!(w.active.len(), 1);
    let (b, fate) = w.next_gone().unwrap();
    assert_eq!((b.source.as_str(), b.mountpoint.as_str(), fate), ("/b", "/mp/b", Gone::Released));
    w.released(&mut h, 5);
    let (c, fate) = w.next_gone().unwrap();
    assert_eq!((c.source.as_str(), fate), ("/c", Gone::Vanished));
    assert_eq!(held_off_sources(&mut h, &[], 5), strings(&["/b"]), "not before it is released");
    // The release took twenty seconds; the hold-off starts at its end.
    w.released(&mut h, 20_000);
    assert!(w.next_gone().is_none());
    w.released(&mut h, 30_000);
    let held = held_off_sources(&mut h, &[], 34_999);
    assert_eq!(held, strings(&["/c"]));
    assert_eq!(w.skipped(&held), strings(&["/a", "/c"]));
}

#[test]
fn which_volumes_are_mounted() {
    let mut w = Watcher::new();
    w.mounted("/served", "/mp/served");
    let f = vec![
        found("/base/own", true),
        found("/served", true),
        found("/plain", false),
        found("/disc", true),
    ];
    assert_eq!(w.next_mount(&f, 0, false, "/base", 0), Some(3));
    assert_eq!(w.next_mount(&f, 0, true, "/base", 0), Some(2));
    assert_eq!(w.next_mount(&f, 4, true, "/base", 0), None);
    w.mount_failed("/disc", 1000);
    assert_eq!(w.next_mount(&f, 0, false, "/base", 60_999), None);
    assert_eq!(w.next_mount(&f, 0, false, "/base", 61_000), Some(3));
    w.mount_failed("/disc", 61_000);
    w.mounted("/disc", "/mp/disc");
    assert!(w.failed.released.is_empty());
    assert_eq!(w.next_mount(&f, 0, false, "/base", 61_000), None);
}

#[test]
fn options_of_a_watch() {
    let o = WatchOptions::new(0, true, MountOptions::new("/b".into()));
    assert_eq!((o.poll, o.include_unprotected), (1, true));
    assert_eq!(WatchOptions::new(5, false, MountOptions::new("/b".into())).poll, 5);
}

// ───────────────────────── commands ─────────────────────────

fn volume(path: &str, protected: bool) -> BdVolume {
    BdVolume { path: path.into(), label: "L".into(), protected }
}

#[test]
fn the_volume_of_a_command() {
    let v = vec![volume("/a", false), volume("/b", true)];
    assert_eq!(pick_volume(Some("/x"), &v).as_deref(), Some("/x"));
    assert_eq!(pick_volume(None, &v).as_deref(), Some("/b"));
    assert_eq!(pick_volume(None, &v[..1]).as_deref(), Some("/a"));
    assert_eq!(pick_volume(None, &[]), None);
    assert_eq!(volume_list_line(&v[1]), format!("  {:<40} AACS protected", "/b"));
    assert_eq!(volume_list_line(&v[0]), format!("  {:<40} unprotected", "/a"));
}

#[test]
fn small_decisions() {
    assert_eq!(log_filter(0), "bdmount=info,libmmbd=warn,nfsserve=warn");
    assert_eq!(log_filter(9), "trace");
    assert_eq!(cache_bytes(64), Some(67_108_864));
    assert_eq!(cache_bytes(usize::MAX), None);
    assert_eq!(found_state(&strings(&["/mp"]), &[]), State::Serving);
    assert_eq!(found_state(&[], &[holder(1, "a", "b")]), State::Stuck);
    assert_eq!(found_state(&[], &[]), State::Idle);
    assert_eq!(unmount_targets(true, None, &strings(&["/a"])), Some(strings(&["/a"])));
    assert_eq!(unmount_targets(false, Some("/b"), &[]), Some(strings(&["/b"])));
    assert_eq!(unmount_targets(false, None, &[]), None);
    assert_eq!(live_state(false, State::Serving), State::Opening);
    assert_eq!(live_state(true, State::Serving), State::Serving);
    assert!(is_device_path("/dev/rdisk6") && !is_device_path("/Volumes/M"));
    assert!(claims_volume(None, OpticalClass::Dvd));
    assert!(!claims_volume(Some("/dev/rdisk6"), OpticalClass::Dvd));
    assert!(claims_volume(Some("/dev/rdisk6"), OpticalClass::Unknown));
}

#[test]
fn devices_to_serve() {
    assert_eq!(watch_list(&[], None), Some(vec![]));
    assert_eq!(watch_list(&[], Some("/Volumes/M")), None);
    let d = strings(&["/dev/rdisk6"]);
    assert_eq!(watch_list(&d, Some("/dev/disk6")), Some(d.clone()));
    assert_eq!(watch_list(&d, Some("/dev/rdisk7")), Some(strings(&["/dev/rdisk6", "/dev/rdisk7"])));
    let mut o = MountOptions::new("/b".into());
    o.mountpoint = Some("/first".into());
    assert_eq!(next_options(&o, false).mountpoint.as_deref(), Some("/first"));
    assert_eq!(next_options(&o, true).mountpoint, None);
}

#[test]
fn requests_to_eject() {
    assert_eq!(eject_request(None), EjectRequest { device: None, all: true });
    assert_eq!(eject_request(Some("disk7")), EjectRequest { device: Some("disk7".into()), all: false });
    assert_eq!(ask_process(Some(5), 5, true), None);
    assert_eq!(ask_process(Some(5), 6, false), None);
    assert_eq!(ask_process(Some(5), 6, true), Some(5));
    assert_eq!(ask_process(None, 6, true), None);
}

fn published(live: &[MountedDisc]) -> Snapshot {
    let first = &live[0];
    let mut s = observe(
        Some(first.source()),
        Some(first.mountpoint()),
        State::Serving,
        seen(vec![holder(1234567, "makemkvcon", "guiserver")], vec![]),
    );
    publish_live(&mut s, live, &seen(vec![], vec![]).drives, 77);
    s
}

#[test]
fn what_is_published_and_when_an_eject_is_met() {
    let s = published(&[mounted("/dev/rdisk6", "A", "/mp/A")]);
    assert_eq!((s.label.as_deref(), s.mount_pid), (Some("rdisk6"), Some(77)));
    assert_eq!(s.drives[0].label.as_deref(), Some("A"));
    assert!(!eject_met(&s.drives, None));
    assert!(!eject_met(&s.drives, Some("disk6")));
    assert!(eject_met(&s.drives, Some("disk7")));
    let two = published(&[mounted("/dev/rdisk6", "A", "/a"), mounted("/dev/rdisk7", "B", "/b")]);
    assert_eq!(two.label.as_deref(), Some("2 discs"));
}

#[test]
fn status_for_the_user() {
    let s = published(&[mounted("/dev/rdisk6", "A", "/mp/A")]);
    assert_eq!(
        status_lines(&s),
        strings(&[
            "state:           Serving",
            "safe_to_eject:   false",
            "source:          /dev/rdisk6",
            "mountpoint:      /mp/A",
            "holders:",
            "  pid 1234567  makemkvcon        guiserver",
            "claimed:         disk6",
            "drives:",
            "  /dev/rdisk6     unknown   bluray      serving  A",
        ])
    );
    let mut idle = observe(None, None, State::Idle, seen(vec![], vec![]));
    idle.drives.clear();
    idle.claimed_bsd.clear();
    assert_eq!(
        status_lines(&idle),
        strings(&["state:           Idle", "safe_to_eject:   true", "holders:         (none)"])
    );
    let d = seen(vec![], vec![]).drives;
    assert_eq!(drive_list_line(&d[0]), "  /dev/rdisk6     unknown       bluray");
}

// ───────────────────────── serving ─────────────────────────

fn serving(devices: &[&str]) -> Serving {
    let mut s = Serving::new();
    for d in devices {
        assert!(matches!(s.step(Tick::Tick(None)), Serve::Survey));
        s.step(Tick::Surveyed(vec![]));
        s.step(Tick::Polled(Some(d.to_string())));
        let mp = format!("/mp/{d}");
        assert!(matches!(
            s.step(Tick::Mounted(Some(Served { source: d.to_string(), mountpoint: mp }))),
            Serve::Publish { serving: true }
        ));
        assert!(matches!(s.step(Tick::Published), Serve::Rest));
    }
    s
}

fn skipped(s: &mut Serving, facts: Vec<ViewFacts>) -> Vec<String> {
    match s.step(Tick::Surveyed(facts)) {
        Serve::Poll { skip } => skip,
        _ => panic!("must look for a new disc"),
    }
}

#[test]
fn a_tick_without_discs() {
    let mut s = Serving::new();
    assert!(matches!(s.step(Tick::Tick(None)), Serve::Survey));
    assert!(skipped(&mut s, vec![]).is_empty());
    assert!(matches!(s.step(Tick::Polled(None)), Serve::Publish { serving: false }));
    assert!(matches!(s.step(Tick::Published), Serve::Rest));
    assert!(matches!(s.step(Tick::Ejected), Serve::OutOfTurn));
}

#[test]
fn the_first_disc_alone_goes_to_an_explicit_place() {
    let mut s = Serving::new();
    s.step(Tick::Tick(None));
    s.step(Tick::Surveyed(vec![]));
    assert!(matches!(s.step(Tick::Polled(Some("/dev/rdisk6".into()))), Serve::Mount { first: true, .. }));
    assert!(matches!(s.step(Tick::Mounted(None)), Serve::Publish { serving: false }));
    let mut s = serving(&["/dev/rdisk6"]);
    s.step(Tick::Tick(None));
    assert_eq!(skipped(&mut s, vec![]), strings(&["/dev/rdisk6"]));
    assert!(matches!(s.step(Tick::Polled(Some("/dev/rdisk7".into()))), Serve::Mount { first: false, .. }));
}

#[test]
fn discs_that_are_gone_are_forgotten() {
    let mut s = serving(&["/dev/rdisk6", "/dev/rdisk7"]);
    s.step(Tick::Tick(None));
    let facts = vec![
        ViewFacts { active: true, present: false },
        ViewFacts { active: true, present: true },
    ];
    assert_eq!(skipped(&mut s, facts), strings(&["/dev/rdisk7"]));
}

#[test]
fn one_device_is_ejected_and_the_others_stay() {
    let mut s = serving(&["/dev/rdisk6", "/dev/rdisk7", "/dev/rdisk8"]);
    let one = EjectRequest { device: Some("disk7".into()), all: false };
    assert!(matches!(s.step(Tick::Tick(Some(one))), Serve::Release { source } if source == "/dev/rdisk7"));
    assert!(matches!(s.step(Tick::Released(true)), Serve::Eject { source } if source == "/dev/rdisk7"));
    assert!(matches!(s.step(Tick::Ejected), Serve::Survey));
    assert_eq!(skipped(&mut s, vec![]), strings(&["/dev/rdisk6", "/dev/rdisk8"]));
    s.step(Tick::Polled(None));
    s.step(Tick::Published);
    let all = EjectRequest { device: None, all: true };
    assert!(matches!(s.step(Tick::Tick(Some(all))), Serve::Release { source } if source == "/dev/rdisk6"));
    assert!(matches!(s.step(Tick::Released(false)), Serve::Release { source } if source == "/dev/rdisk8"));
    assert!(matches!(s.step(Tick::Released(true)), Serve::Eject { .. }));
    assert!(matches!(s.step(Tick::Ejected), Serve::Survey));
    assert!(skipped(&mut s, vec![]).is_empty());
    let none = EjectRequest::default();
    let mut s = serving(&["/dev/rdisk6"]);
    assert!(matches!(s.step(Tick::Tick(Some(none))), Serve::Survey));
}

// ───────────────────────── taking over ─────────────────────────

#[test]
fn a_volume_is_taken_over_politely() {
    let none = TakeOver::take_over_os_bd_if_needed("/Volumes/M", Some("/dev/rdisk6"), &strings(&["disk7"]));
    assert!(none.is_none());
    assert!(TakeOver::take_over_os_bd_if_needed("/Volumes/M", None, &strings(&["disk7"])).is_none());
    let (mut t, a) =
        TakeOver::take_over_os_bd_if_needed("/Volumes/M", Some("/dev/rdisk6"), &strings(&["disk6"])).unwrap();
    match a {
        Take::FindHolders { paths } => assert_eq!(
            paths,
            strings(&["/Volumes/M", "/Volumes/M", "/dev/rdisk6", "/dev/disk6"])
        ),
        _ => panic!("must look for holders"),
    }
    let finder = vec![holder(1, "Finder", "/Volumes/M")];
    assert!(matches!(t.step(TakeEvent::Holders(finder)), Take::Unmount));
    assert!(matches!(t.step(TakeEvent::Unmounted(true)), Take::See));
    assert!(matches!(t.step(TakeEvent::Seen { mounted: true, expired: false }), Take::See));
    assert!(matches!(t.step(TakeEvent::Seen { mounted: false, expired: true }), Take::Claim { bsd } if bsd == "disk6"));
    assert!(matches!(t.step(TakeEvent::Claimed), Take::Open { bsd } if bsd == "disk6"));
    assert!(matches!(t.step(TakeEvent::Opened(Some("/dev/rdisk6".into()))), Take::Done { device } if device == "/dev/rdisk6"));
}

#[test]
fn a_volume_in_use_is_left_alone() {
    let begin = |raw| TakeOver::take_over_os_bd_if_needed("/Volumes/M", raw, &[]).unwrap().0;
    let mut t = begin(None);
    let busy = vec![holder(1, "Finder", "/x"), holder(2, "VLC", "/x"), holder(3, "mpv", "/x")];
    match t.step(TakeEvent::Holders(busy)) {
        Take::Fail(TakeError::InUse(s)) => assert_eq!(s, "VLC (pid 2), mpv (pid 3)"),
        _ => panic!("must refuse"),
    }
    let mut t = begin(None);
    t.step(TakeEvent::Holders(vec![]));
    assert!(matches!(t.step(TakeEvent::Unmounted(false)), Take::Fail(TakeError::NotUnmounted)));
    let mut t = begin(None);
    t.step(TakeEvent::Holders(vec![]));
    t.step(TakeEvent::Unmounted(true));
    assert!(matches!(t.step(TakeEvent::Seen { mounted: true, expired: true }), Take::Fail(TakeError::NotGone)));
    let mut t = begin(None);
    t.step(TakeEvent::Holders(vec![]));
    t.step(TakeEvent::Unmounted(true));
    assert!(matches!(t.step(TakeEvent::Seen { mounted: false, expired: false }), Take::Fail(TakeError::NoDevice)));
    let mut t = begin(Some("/dev/rdisk6"));
    t.step(TakeEvent::Holders(vec![]));
    t.step(TakeEvent::Unmounted(true));
    t.step(TakeEvent::Seen { mounted: false, expired: false });
    t.step(TakeEvent::Claimed);
    assert!(matches!(t.step(TakeEvent::Opened(None)), Take::Fail(TakeError::NotOpened)));
    assert!(matches!(begin(None).step(TakeEvent::Claimed), Take::Fail(TakeError::OutOfTurn)));
}
