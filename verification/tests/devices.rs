use bdmount::da::{
    all_claimed_bsd_names, bsd_for_raw, claim_bsd, claimed_bsd_names, claimed_persist_path,
    claimed_whole_disks, class_from_levels, clear_claimed, eject_after_release,
    eject_after_release_filter, eject_cleared, eject_name, ejected, load_persisted_claimed,
    needs_peek, persist_claimed, raw_has_bdmv, registry_name, should_dissent, ClaimFile, Claims, EjectError, MediaLevel, OpticalClass,
};
use bdmount::drives::{
    class_from_optical_type, drive_statuses, list_drive_ids, list_drives, media_class_name,
    normalize_bus, DriveFacts,
};
use bdmount::idle::Holder;
use bdmount::plist::plist_string;
use bdmount::rawudf::device::{
    claimed_since, diskutil_optical_ids, payload_is_buffered, payload_path, OpticalNode, Search,
};
use bdmount::rawudf::{
    bsd_whole_disk, devices_match, find_optical_rdisks, open_bd_rdisk_for_bsd, poll_bd_rdisk,
    rdisk_paths_for_bsd, sanitize_label, wait_for_bd_rdisk,
};

fn strings(v: &[&str]) -> Vec<String> {
    v.iter().map(|s| s.to_string()).collect()
}

// ───────────────────────── names ─────────────────────────

#[test]
fn devices_match_rdisk_and_disk() {
    assert!(devices_match("/dev/rdisk6", "/dev/disk6"));
    assert!(devices_match("/dev/rdisk6", "/dev/rdisk6s1"));
    assert!(!devices_match("/dev/rdisk6", "/dev/rdisk7"));
}

#[test]
fn devices_match_is_symmetric_and_takes_bare_names() {
    assert!(devices_match("disk6", "/dev/rdisk6s1"));
    assert!(devices_match("/dev/rdisk6s1", "disk6"));
    assert!(devices_match("/tmp//a/", "/tmp/a"));
    assert!(!devices_match("/tmp/a", "/tmp/b"));
    assert!(devices_match("/x/rfoo", "/y/foo"));
}

#[test]
fn does_not_split_disk_on_the_letter_s() {
    assert_eq!(bsd_whole_disk("disk6").as_deref(), Some("disk6"));
    assert_eq!(bsd_whole_disk("disk6s1").as_deref(), Some("disk6"));
    assert_eq!(bsd_whole_disk("disk16s2").as_deref(), Some("disk16"));
    assert_eq!(bsd_whole_disk("rdi"), None);
}

#[test]
fn whole_disk_of_a_whole_disk_is_itself() {
    let w = bsd_whole_disk("disk12s3").unwrap();
    assert_eq!(bsd_whole_disk(&w).as_deref(), Some("disk12"));
    assert_eq!(bsd_whole_disk("disk"), None);
    assert_eq!(bsd_whole_disk("diskette"), None);
}

#[test]
fn rdisk_paths_include_slice_and_whole() {
    let p = rdisk_paths_for_bsd("disk6s1");
    assert!(p.iter().any(|x| x == "/dev/rdisk6s1"));
    assert!(p.iter().any(|x| x == "/dev/rdisk6"));
    assert!(!p.iter().any(|x| x == "/dev/rdi"));
}

#[test]
fn raw_nodes_in_order_and_never_of_the_system_disk() {
    assert_eq!(rdisk_paths_for_bsd("disk6"), strings(&["/dev/rdisk6", "/dev/rdisk6s1"]));
    assert_eq!(
        rdisk_paths_for_bsd("disk6s2"),
        strings(&["/dev/rdisk6s2", "/dev/rdisk6", "/dev/rdisk6s1"])
    );
    assert!(rdisk_paths_for_bsd("disk0s1").is_empty());
    assert!(rdisk_paths_for_bsd("sda").is_empty());
}

#[test]
fn labels_become_directory_names() {
    assert_eq!(sanitize_label(" A/B:C "), "A_B_C");
    assert_eq!(sanitize_label("  "), "BluRay");
    assert_eq!(sanitize_label("MOVIE"), "MOVIE");
}

#[test]
fn buffered_node_beside_a_raw_one() {
    assert_eq!(payload_path("/dev/rdisk6").as_deref(), Some("/dev/disk6"));
    assert_eq!(payload_path("/dev/disk6"), None);
    assert_eq!(payload_path("/"), None);
}

#[test]
fn buffered_payload_falls_back_when_not_optical_2048() {
    // Regular files have no block size; the raw node stays in use.
    assert!(!payload_is_buffered(None));
    assert!(!payload_is_buffered(Some(512)));
    assert!(payload_is_buffered(Some(2048)));
}

// ───────────────────────── searching ─────────────────────────

const LISTING: &str = "/dev/disk0 (internal):\n   0: GUID_partition_scheme *500.3 GB disk0\n\
/dev/disk6 (external, physical):\n   0: CD_partition_scheme *50.0 GB disk6\n   1: Apple_UDF MOVIE 50.0 GB disk6s1\n\
/dev/disk7 (external, physical):\n   0: FDisk_partition_scheme *1 GB disk7\n";

#[test]
fn optical_lines_of_a_listing() {
    assert_eq!(diskutil_optical_ids(LISTING), strings(&["disk6", "disk6s1"]));
    assert!(diskutil_optical_ids("").is_empty());
}

#[test]
fn claimed_nodes_come_first_and_dvds_are_left_out() {
    let listed = vec![
        OpticalNode { id: "disk6s1".into(), class: OpticalClass::BluRay },
        OpticalNode { id: "disk8".into(), class: OpticalClass::Dvd },
        OpticalNode { id: "disk9".into(), class: OpticalClass::Unknown },
    ];
    assert_eq!(
        find_optical_rdisks(&strings(&["disk6"]), &listed),
        strings(&["/dev/rdisk6", "/dev/rdisk6s1", "/dev/rdisk9", "/dev/rdisk9s1"])
    );
}

#[test]
fn poll_asks_in_order_and_skips() {
    let devices = strings(&["/dev/rdisk6", "/dev/rdisk7", "/dev/rdisk8"]);
    let skip = strings(&["disk6"]);
    match poll_bd_rdisk(&devices, &[], &skip, &[]) {
        Search::Probe(p) => assert_eq!(p, "/dev/rdisk7"),
        _ => panic!("must ask"),
    }
    match poll_bd_rdisk(&devices, &[false], &skip, &[]) {
        Search::Probe(p) => assert_eq!(p, "/dev/rdisk8"),
        _ => panic!("must ask"),
    }
    match poll_bd_rdisk(&devices, &[false, true], &skip, &[]) {
        Search::Found(p) => assert_eq!(p, "/dev/rdisk8"),
        _ => panic!("must find"),
    }
    assert!(matches!(poll_bd_rdisk(&devices, &[false, false], &skip, &[]), Search::Nothing));
    match poll_bd_rdisk(&devices, &[true], &[], &strings(&["/dev/disk8"])) {
        Search::Found(p) => assert_eq!(p, "/dev/rdisk8"),
        _ => panic!("must find"),
    }
}

#[test]
fn taken_over_disc_is_tried_until_the_time_is_up() {
    assert!(matches!(open_bd_rdisk_for_bsd("disk6", &[], true), Search::Nothing));
    match open_bd_rdisk_for_bsd("disk6", &[], false) {
        Search::Probe(p) => assert_eq!(p, "/dev/rdisk6"),
        _ => panic!("must ask"),
    }
    assert!(matches!(open_bd_rdisk_for_bsd("disk6", &[false, false], true), Search::Again));
    match open_bd_rdisk_for_bsd("disk6", &[false, true], true) {
        Search::Found(p) => assert_eq!(p, "/dev/rdisk6s1"),
        _ => panic!("must find"),
    }
}

#[test]
fn claimed_disc_is_given_up_after_two_minutes() {
    assert_eq!(claimed_since(true, None, 5), Some(5));
    assert_eq!(claimed_since(true, Some(3), 5), Some(3));
    assert_eq!(claimed_since(false, Some(3), 5), None);
    let devices = strings(&["/dev/rdisk6"]);
    assert!(matches!(wait_for_bd_rdisk(&devices, &[false], Some(0), 119_999), Search::Again));
    assert!(matches!(wait_for_bd_rdisk(&devices, &[false], Some(0), 120_000), Search::Nothing));
    assert!(matches!(wait_for_bd_rdisk(&devices, &[false], None, u64::MAX), Search::Again));
    assert!(matches!(wait_for_bd_rdisk(&devices, &[true], Some(0), 120_000), Search::Found(_)));
}

// ───────────────────────── classes ─────────────────────────

#[test]
fn dissent_only_bluray_or_unknown_bdmv() {
    assert!(should_dissent("udf", OpticalClass::BluRay, false));
    assert!(should_dissent("udf", OpticalClass::BluRay, true));
    assert!(should_dissent("cd9660", OpticalClass::BluRay, false));
    assert!(!should_dissent("udf", OpticalClass::Dvd, true), "AVCHD on DVD must pass through");
    assert!(!should_dissent("udf", OpticalClass::Cd, true));
    assert!(should_dissent("udf", OpticalClass::Unknown, true));
    assert!(!should_dissent("udf", OpticalClass::Unknown, false));
    assert!(!should_dissent("hfs", OpticalClass::BluRay, true));
}

#[test]
fn only_an_unknown_disc_is_peeked_at() {
    assert!(needs_peek("udf", OpticalClass::Unknown));
    assert!(!needs_peek("udf", OpticalClass::BluRay));
    assert!(!needs_peek("hfs", OpticalClass::Unknown));
    assert!(matches!(raw_has_bdmv("disk6", &[false, true]), Search::Found(_)));
    assert!(matches!(raw_has_bdmv("disk6", &[false, false]), Search::Nothing));
}

#[test]
fn missing_disk_is_unknown_class() {
    // The registry has no level for a disk that is not there.
    assert_eq!(registry_name("disk999"), "disk999");
    assert_eq!(class_from_levels(&[]), OpticalClass::Unknown);
}

#[test]
fn first_optical_level_decides() {
    let none = MediaLevel { bd: false, dvd: false, cd: false };
    let bd = MediaLevel { bd: true, dvd: false, cd: false };
    let dvd = MediaLevel { bd: false, dvd: true, cd: false };
    let cd = MediaLevel { bd: false, dvd: false, cd: true };
    assert_eq!(class_from_levels(&[none, dvd, bd]), OpticalClass::Dvd);
    assert_eq!(class_from_levels(&[none, bd]), OpticalClass::BluRay);
    assert_eq!(class_from_levels(&[cd]), OpticalClass::Cd);
    let mut deep = vec![none; 16];
    deep.push(bd);
    assert_eq!(class_from_levels(&deep), OpticalClass::Unknown);
    deep[15] = bd;
    assert_eq!(class_from_levels(&deep), OpticalClass::BluRay);
}

#[test]
fn device_paths_become_bsd_names() {
    assert_eq!(registry_name(" /dev/rdisk6\n"), "disk6");
    assert_eq!(registry_name("/dev/disk6"), "disk6");
    assert_eq!(bsd_for_raw("/dev/rdisk6s1"), "disk6");
    assert_eq!(bsd_for_raw("/dev/rfoo"), "foo");
    assert_eq!(eject_name("disk6s1"), "disk6");
    assert_eq!(eject_name("foo"), "foo");
}

// ───────────────────────── claims ─────────────────────────

#[test]
fn claims_are_kept_once() {
    let mut c = Claims::new();
    claim_bsd(&mut c, "disk6s1".into());
    claim_bsd(&mut c, "disk6s1".into());
    claim_bsd(&mut c, "".into());
    claim_bsd(&mut c, "disk7".into());
    assert_eq!(claimed_bsd_names(&c), strings(&["disk6s1", "disk7"]));
    assert_eq!(
        all_claimed_bsd_names(&c, &strings(&["disk7", "disk8s1"])),
        strings(&["disk6s1", "disk7", "disk8s1"])
    );
    assert_eq!(
        claimed_whole_disks(&c, &strings(&["disk6", "junk"])),
        strings(&["disk6", "disk7"])
    );
    clear_claimed(&mut c);
    assert!(claimed_bsd_names(&c).is_empty());
}

#[test]
fn claims_stand_beside_the_status() {
    assert_eq!(claimed_persist_path("/a/b/status.json"), "/a/b/claimed.json");
}

#[test]
fn kept_claims_are_read_back() {
    assert!(load_persisted_claimed(None).is_empty());
    assert!(load_persisted_claimed(Some("")).is_empty());
    assert!(load_persisted_claimed(Some("[\"disk6\", 7]")).is_empty());
    assert!(load_persisted_claimed(Some("{\"disk6\": 1}")).is_empty());
    assert_eq!(
        load_persisted_claimed(Some(" [\"disk6s1\",\n \"disk\\u0037\"] ")),
        strings(&["disk6s1", "disk7"])
    );
}

#[test]
fn claims_are_written_out_or_the_file_goes() {
    let mut c = Claims::new();
    assert!(matches!(persist_claimed(&c), ClaimFile::Remove));
    claim_bsd(&mut c, "disk6s1".into());
    claim_bsd(&mut c, "a \"b\"".into());
    match persist_claimed(&c) {
        ClaimFile::Write(text) => {
            assert_eq!(text, "[\n  \"disk6s1\",\n  \"a \\\"b\\\"\"\n]");
            assert_eq!(load_persisted_claimed(Some(&text)), claimed_bsd_names(&c));
        }
        _ => panic!("there are claims to write"),
    }
    clear_claimed(&mut c);
    assert!(matches!(persist_claimed(&c), ClaimFile::Remove));
}

// ───────────────────────── ejecting ─────────────────────────

fn two_claims() -> Claims {
    let mut c = Claims::new();
    claim_bsd(&mut c, "disk6s1".into());
    claim_bsd(&mut c, "disk7".into());
    claim_bsd(&mut c, "disk66".into());
    c
}

#[test]
fn nothing_claimed_nothing_ejected() {
    let none = Claims::new();
    assert!(matches!(eject_after_release(&none, &[]), Err(EjectError::NothingClaimed)));
    let c = two_claims();
    assert!(matches!(
        eject_after_release_filter(&c, &[], Some("/dev/rdisk9")),
        Err(EjectError::NothingClaimed)
    ));
}

#[test]
fn eject_all_and_eject_one() {
    let c = two_claims();
    let all = eject_after_release(&c, &[]).ok().unwrap();
    assert!(all.release_all);
    assert_eq!(all.disks, strings(&["disk6", "disk7", "disk66"]));
    assert_eq!(all.source, "/dev/rdisk6");
    let one = eject_after_release_filter(&c, &[], Some("/dev/rdisk7")).ok().unwrap();
    assert!(!one.release_all);
    assert_eq!(one.disks, strings(&["disk7"]));
    assert_eq!(one.source, "/dev/rdisk7");
}

#[test]
fn held_drives_and_dvds_are_not_ejected() {
    let c = two_claims();
    let plan = eject_after_release(&c, &[]).ok().unwrap();
    let busy = vec![Holder { pid: 7, name: "x".into(), path: "/dev/rdisk6".into() }];
    assert_eq!(eject_cleared(&plan, &busy, &[]), Err(EjectError::HoldersRemain));
    let dvd = vec![OpticalClass::Dvd, OpticalClass::Cd, OpticalClass::Dvd];
    assert_eq!(eject_cleared(&plan, &[], &dvd), Err(EjectError::PassThroughOnly));
    let mixed = vec![OpticalClass::BluRay, OpticalClass::Cd, OpticalClass::Unknown];
    assert_eq!(eject_cleared(&plan, &[], &mixed), Ok(strings(&["disk6", "disk66"])));
}

#[test]
fn ejecting_gives_up_the_claims_of_that_disk_alone() {
    let mut c = two_claims();
    ejected(&mut c, &strings(&["disk6"]), false);
    assert_eq!(claimed_bsd_names(&c), strings(&["disk7", "disk66"]));
    ejected(&mut c, &strings(&["disk7"]), true);
    assert!(claimed_bsd_names(&c).is_empty());
}

// ───────────────────────── drives ─────────────────────────

#[test]
fn bus_normalizes() {
    assert_eq!(normalize_bus("USB"), "usb");
    assert_eq!(normalize_bus("SATA"), "sata");
    assert_eq!(normalize_bus("Thunderbolt"), "thunderbolt");
}

#[test]
fn other_buses_keep_their_names() {
    assert_eq!(normalize_bus("Serial ATA"), "sata");
    assert_eq!(normalize_bus("ATAPI"), "ata");
    assert_eq!(normalize_bus("FireWire"), "firewire");
}

#[test]
fn optical_type_to_class() {
    assert_eq!(class_from_optical_type("Blu-ray"), Some(OpticalClass::BluRay));
    assert_eq!(class_from_optical_type("DVD-R"), Some(OpticalClass::Dvd));
    assert_eq!(class_from_optical_type("CD-ROM"), Some(OpticalClass::Cd));
}

#[test]
fn unknown_types_have_no_class() {
    assert_eq!(class_from_optical_type("floppy"), None);
    assert_eq!(class_from_optical_type("bd-re"), Some(OpticalClass::BluRay));
}

#[test]
fn plist_string_reads_protocol() {
    let t = "<key>BusProtocol</key>\n<string>USB</string>";
    assert_eq!(plist_string(t, "BusProtocol").as_deref(), Some("USB"));
}

#[test]
fn plist_string_needs_a_value() {
    assert_eq!(plist_string("<key>A</key><string>  </string>", "A"), None);
    assert_eq!(plist_string("<key>A</key><string>x", "A"), None);
    assert_eq!(plist_string("<key>A</key>", "A"), None);
    assert_eq!(plist_string("<string>x</string>", "A"), None);
    let two = "<key>A</key><string>1</string><key>B</key><string> 2 </string>";
    assert_eq!(plist_string(two, "B").as_deref(), Some("2"));
}

#[test]
fn optical_disks_of_a_listing_by_name() {
    let infos = vec![
        Some("<key>OpticalDeviceType</key>".to_string()),
        Some("nothing".to_string()),
    ];
    assert_eq!(list_drive_ids(LISTING, &infos), strings(&["disk6"]));
    let turned = "/dev/disk9 (x):\n/dev/disk10 (x):\n";
    let both = vec![Some("Blu-ray".to_string()), Some("CD_partition".to_string())];
    assert_eq!(list_drive_ids(turned, &both), strings(&["disk10", "disk9"]));
    assert!(list_drive_ids(turned, &[None, None]).is_empty());
}

fn facts(id: &str, info: Option<&str>, class: OpticalClass) -> DriveFacts {
    DriveFacts { id: id.into(), info: info.map(|s| s.to_string()), class }
}

#[test]
fn drives_and_what_is_in_them() {
    let info = "<key>BusProtocol</key><string>USB</string>\
<key>OpticalDeviceType</key><string>BD-ROM, DVD-ROM</string>\
<key>OpticalMediaType</key><string>DVD-R</string>";
    let d = list_drives(&[
        facts("disk6", Some(info), OpticalClass::BluRay),
        facts("disk7", None, OpticalClass::Unknown),
        facts("disk8", None, OpticalClass::Cd),
    ]);
    assert_eq!(d[0].device, "/dev/rdisk6");
    assert_eq!(d[0].bus, "usb");
    assert_eq!(d[0].class, OpticalClass::Dvd);
    assert!(d[0].media && d[0].bd_capable);
    assert_eq!(d[1].bus, "unknown");
    assert!(!d[1].media && !d[1].bd_capable);
    assert_eq!(d[2].class, OpticalClass::Cd);
    assert!(d[2].media);
}

#[test]
fn class_names() {
    assert_eq!(media_class_name(OpticalClass::BluRay, true), "bluray");
    assert_eq!(media_class_name(OpticalClass::Dvd, true), "dvd");
    assert_eq!(media_class_name(OpticalClass::Cd, true), "cd");
    assert_eq!(media_class_name(OpticalClass::Unknown, true), "unknown");
    assert_eq!(media_class_name(OpticalClass::BluRay, false), "empty");
}

#[test]
fn drives_serve_pass_through_or_wait() {
    let d = list_drives(&[
        facts("disk6", None, OpticalClass::BluRay),
        facts("disk7", None, OpticalClass::Dvd),
        facts("disk8", None, OpticalClass::Unknown),
    ]);
    let live = vec![("/dev/rdisk6".to_string(), "MOVIE".to_string(), "/mp".to_string(), false)];
    let s = drive_statuses(&d, &live);
    assert_eq!(s[0].state, "serving");
    assert_eq!(s[0].label.as_deref(), Some("MOVIE"));
    assert_eq!(s[0].mountpoint.as_deref(), Some("/mp"));
    assert!(!s[0].safe_to_eject);
    assert_eq!(s[1].state, "passthrough");
    assert_eq!(s[1].media_class, "dvd");
    assert!(s[1].safe_to_eject);
    assert_eq!(s[2].state, "waiting");
    assert_eq!(s[2].label, None);
}
