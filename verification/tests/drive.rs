use dynon_usb_updater::drive::{self, Drive, EmptyReason, RootEntry, Sandbox, TargetKind};
use dynon_usb_updater::scan::Cycle;

fn entry(name: &str, is_dir: bool) -> RootEntry {
    RootEntry {
        name: name.to_string(),
        is_dir,
    }
}

fn blank(path: &str) -> Drive {
    Drive {
        path: path.to_string(),
        name: "DYNON".into(),
        kind: TargetKind::Mounted,
        uuid: Some("1234-ABCD".into()),
        total: 100,
        free: 10,
        writable: true,
        score: 0,
        installed_cycle: None,
        entitlement: None,
        reclaimable: None,
        reachable: true,
    }
}

#[test]
fn a_skyview_stick_is_recognised_from_its_root() {
    let root = [
        entry("airmate_av_data_us_2607_013712.dup", false),
        entry("airmate_av_data_us_2608_013712.dup", false),
        entry("airmate_obstacle_data_us_2609_013712.dup", false),
        entry("CHARTS-013712.key", false),
        entry("FACTORY", true),
        entry("pilot-notes.txt", false),
    ];
    let (score, cycle, entitlement) = drive::recognise(true, &root, "DYNON");
    assert_eq!(score, 2 + 2 + 2 + 1 + 1);
    assert_eq!(cycle, Some(Cycle { year: 2026, number: 8 }));
    assert_eq!(entitlement.as_deref(), Some("013712"));
}

#[test]
fn an_unrelated_stick_scores_nothing() {
    let root = [entry("photos", true), entry("report.pdf", false)];
    let (score, cycle, entitlement) = drive::recognise(false, &root, "KINGSTON");
    assert_eq!(score, 0);
    assert_eq!(cycle, None);
    assert_eq!(entitlement, None);
    let mut d = blank("/media/x");
    d.score = score;
    assert!(!d.recognised());
    d.score = 2;
    assert!(d.recognised());
}

#[test]
fn a_package_and_a_skyview_label_add_one_each() {
    let root = [entry("SkyView_16.4.4.duc", false), entry("User Settings", true)];
    let (score, _, _) = drive::recognise(false, &root, "my skyview");
    assert_eq!(score, 3);
}

#[test]
fn drive_paths_and_keys() {
    let d = blank("/run/media/pilot/DYNON");
    assert_eq!(d.plates_dir(), "/run/media/pilot/DYNON/ChartData/Plates");
    assert_eq!(blank("/mnt/").plates_dir(), "/mnt/ChartData/Plates");
    assert_eq!(d.key(), "1234-ABCD|DYNON");
    let mut n = blank("/x");
    n.uuid = None;
    assert_eq!(n.key(), "|DYNON");
}

#[test]
fn room_counts_the_plates_that_will_be_cleared() {
    let mut d = blank("/x");
    assert!(d.fits(10));
    assert!(!d.fits(11));
    d.reclaimable = Some((5, 3));
    assert!(d.fits(15));
    assert!(!d.fits(16));
    d.free = u64::MAX;
    assert!(d.fits(u64::MAX));
}

#[test]
fn an_empty_drive_list_is_explained() {
    let s = |sandboxed, grants_media, media_roots_visible, hardware_present| Sandbox {
        sandboxed,
        grants_media,
        media_roots_visible,
        hardware_present,
    };
    assert_eq!(s(false, true, true, false).classify(), EmptyReason::NothingConnected);
    assert_eq!(s(false, true, true, true).classify(), EmptyReason::NotMounted);
    assert_eq!(s(true, false, true, false).classify(), EmptyReason::SandboxBlocked);
    assert_eq!(s(true, true, false, false).classify(), EmptyReason::SandboxBlocked);
    assert_eq!(s(true, true, true, true).classify(), EmptyReason::SandboxBlocked);
    assert_eq!(s(true, true, true, false).classify(), EmptyReason::NothingConnected);
}

#[test]
fn the_sandbox_info_file_says_whether_media_is_visible() {
    assert!(drive::sandbox_grants_media(None));
    assert!(drive::sandbox_grants_media(Some(
        "[Context]\nshared=network;ipc;\nfilesystems=xdg-download;/run/media;\n"
    )));
    assert!(drive::sandbox_grants_media(Some("[Context]\r\nfilesystems=host\r\n")));
    assert!(drive::sandbox_grants_media(Some("filesystems=home;host-os")));
    assert!(!drive::sandbox_grants_media(Some("[Context]\nfilesystems=home;xdg-download\n")));
    assert!(!drive::sandbox_grants_media(Some("[Context]\nshared=network\n")));
    assert!(!drive::sandbox_grants_media(Some("")));
    // Only the first filesystems= line counts.
    assert!(!drive::sandbox_grants_media(Some("filesystems=home\nfilesystems=host\n")));
}

#[test]
fn block_device_attributes_are_read_trimmed() {
    assert!(drive::removable_flag("1\n"));
    assert!(!drive::removable_flag("0\n"));
    assert!(drive::partition_has_size(" 62521344\n"));
    assert!(!drive::partition_has_size("0\n"));
}
