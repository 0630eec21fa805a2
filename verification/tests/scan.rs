use dynon_usb_updater::scan::{
    self, archive_from_entries, archive_sizes_fit_in, Cycle, DupFile, DupKind, DupScan, ScanStep,
    WalkEntry, ZipEntry,
};

fn entries(names: &[&str], size: u64) -> Vec<ZipEntry> {
    names
        .iter()
        .enumerate()
        .map(|(index, name)| ZipEntry {
            index,
            name: name.to_string(),
            is_dir: name.ends_with('/'),
            size,
        })
        .collect()
}

fn read(path: &str, names: &[&str]) -> Result<scan::Archive, scan::ArchiveError> {
    let list = entries(names, 7);
    assert!(archive_sizes_fit_in(&list));
    archive_from_entries(path, &list)
}

#[test]
fn cycle_parsing_ignores_digits_inside_longer_runs() {
    // The entitlement group 013712 must not yield cycle 3712.
    let c = scan::parse_cycle("airmate_av_data_us_2608_013712.dup").unwrap();
    assert_eq!(c.label(), "2608");
    assert_eq!(scan::parse_cycle("no_cycle_here.dup"), None);
    assert_eq!(scan::parse_cycle("us_2614_x.dup"), None); // 14 is not a cycle
}

#[test]
fn entitlement_ids_are_extracted_and_matched() {
    assert_eq!(
        scan::parse_entitlement("airmate_av_data_us_2608_013712.dup").as_deref(),
        Some("013712")
    );
    assert_eq!(
        scan::parse_key_entitlement("CHARTS-013712.key").as_deref(),
        Some("013712")
    );
    assert_eq!(scan::parse_key_entitlement("notes.txt"), None);
}

#[test]
fn archive_strips_chartdata_and_plates_but_keeps_data_folders() {
    let archive = read(
        "/tmp/zip-strip/US-Plates-2608.zip",
        &[
            "ChartData/Plates/US/a.png",
            "ChartData/Plates/US/b.png",
            "ChartData/.DS_Store",
        ],
    )
    .unwrap();
    assert_eq!(archive.members.len(), 2, "junk must not be counted");
    assert_eq!(archive.junk_skipped, 1);
    // The data folder US/ survives; only the wrappers are removed.
    assert_eq!(archive.members[0].dest, "US/a.png");
    assert_eq!(archive.wrapper.as_deref(), Some("US"));
    assert_eq!(archive.cycle.unwrap().label(), "2608");
}

#[test]
fn a_file_beside_the_data_folder_stops_the_strip() {
    let archive = read(
        "/tmp/zip-mixed/plates.zip",
        &["ChartData/Plates/US/a.png", "ChartData/Plates/index.db"],
    )
    .unwrap();
    assert_eq!(archive.members.len(), 2);
    assert!(archive.members.iter().any(|m| m.dest == "US/a.png"));
    assert!(archive.members.iter().any(|m| m.dest == "index.db"));
    assert_eq!(
        archive.wrapper, None,
        "no single wrapper when a file sits beside it"
    );
}

#[test]
fn traversal_and_absolute_members_are_rejected() {
    let err = read("/tmp/zip-evil/evil.zip", &["../../etc/passwd"])
        .unwrap_err()
        .message();
    assert!(err.contains("unsafe"), "got: {err}");
}

#[test]
fn an_archive_with_only_junk_is_an_error() {
    assert!(read("/tmp/zip-junk/junk.zip", &["__MACOSX/._x", "Thumbs.db"]).is_err());
}

#[test]
fn absolute_and_backslash_climbing_members_are_unsafe() {
    assert_eq!(
        read("/tmp/a.zip", &["/etc/passwd"]).unwrap_err(),
        scan::ArchiveError::UnsafePaths
    );
    assert_eq!(
        read("/tmp/a.zip", &["ChartData\\..\\..\\x.png"]).unwrap_err(),
        scan::ArchiveError::UnsafePaths
    );
    assert_eq!(
        read("/tmp/a.zip", &["US/"]).unwrap_err(),
        scan::ArchiveError::NoPlates
    );
    assert_eq!(
        scan::ArchiveError::NoPlates.message(),
        "this archive contains no plate files"
    );
}

#[test]
fn archive_totals_sizes_and_names_itself() {
    let archive = read(
        "/home/pilot/Downloads/US-Plates-2607.zip",
        &["Plates/US/a.png", "Plates/US/b.png", "Plates/US/c.png"],
    )
    .unwrap();
    assert_eq!(archive.total_bytes, 21);
    assert_eq!(archive.name(), "US-Plates-2607.zip");
    assert_eq!(archive.path, "/home/pilot/Downloads/US-Plates-2607.zip");
    let stripped = archive.members_stripped(true);
    assert_eq!(stripped.len(), 3);
    assert_eq!(stripped[0].dest, "a.png");
    assert_eq!(archive.members_stripped(false)[0].dest, "US/a.png");
}

#[test]
fn classification_follows_the_names() {
    assert_eq!(scan::classify("airmate_av_data_us_2608_1.dup"), DupKind::Aviation);
    assert_eq!(
        scan::classify("airmate_obstacle_data_us_2608_1.dup"),
        DupKind::Obstacle
    );
    assert_eq!(scan::classify("terrain.dup"), DupKind::Other);
    assert_eq!(scan::classify("ob_data_FAA_2604.dup"), DupKind::Obstacle);
    assert_eq!(scan::classify("av_data_FAA_2608.dup"), DupKind::Aviation);
    assert_eq!(scan::classify("NAVDATA.DUP"), DupKind::Aviation);
}

#[test]
fn cycle_labels_are_two_digit_year_and_number() {
    assert_eq!(Cycle { year: 2026, number: 8 }.label(), "2608");
    assert_eq!(Cycle { year: 2101, number: 13 }.label(), "0113");
    assert_eq!(
        scan::parse_cycle("FAA_av2613.dup"),
        Some(Cycle { year: 2026, number: 13 })
    );
    assert_eq!(scan::parse_cycle("x_2600_y.dup"), None);
}

fn dup(path: &str, modified: i128) -> DupFile {
    let name = path.rsplit('/').next().unwrap();
    DupFile {
        path: path.to_string(),
        kind: scan::classify(name),
        cycle: scan::parse_cycle(name),
        entitlement: scan::parse_entitlement(name),
        size: 1,
        modified,
    }
}

#[test]
fn newest_prefers_the_cycle_then_the_time() {
    let files = vec![
        dup("/d/airmate_av_data_us_2607_013712.dup", 50),
        dup("/d/airmate_av_data_us_2608_013712.dup", 10),
        dup("/d/airmate_obstacle_data_us_2608_013712.dup", 10),
        dup("/d/av_data_nocycle.dup", 99),
    ];
    let av = scan::newest(&files, DupKind::Aviation).unwrap();
    assert_eq!(av.name(), "airmate_av_data_us_2608_013712.dup");
    assert_eq!(av.cycle.unwrap().label(), "2608");
    assert!(scan::newest(&files, DupKind::Other).is_none());
    let sorted = scan::sort_newest_first(files);
    assert_eq!(sorted[0].cycle.unwrap().label(), "2608");
    assert_eq!(sorted[3].name(), "av_data_nocycle.dup");
}

fn walk_entry(path: &str, is_dir: bool) -> WalkEntry {
    WalkEntry {
        path: path.to_string(),
        is_dir,
        size: 3,
        modified: 0,
    }
}

/// Drives a walk over an in-memory folder tree.
fn walk(tree: &[(&str, Vec<WalkEntry>)], root: &str, max_depth: usize) -> (Vec<DupFile>, Vec<String>) {
    let listing = |p: &str| {
        tree.iter()
            .find(|(d, _)| *d == p)
            .map(|(_, e)| e.clone())
            .unwrap_or_default()
    };
    let mut read = vec![root.to_string()];
    let mut scan = DupScan::new();
    scan.enter(listing(root), max_depth);
    loop {
        match scan.next() {
            ScanStep::Read(dir, depth) => {
                read.push(dir.clone());
                scan.enter(listing(&dir), depth);
            }
            ScanStep::Continue => {}
            ScanStep::Done => break,
        }
    }
    (scan.finish(), read)
}

#[test]
fn the_walk_keeps_visible_dup_files_within_its_depth() {
    let tree = vec![
        (
            "/src",
            vec![
                walk_entry("/src/airmate_av_data_us_2607_013712.dup", false),
                walk_entry("/src/.hidden.dup", false),
                walk_entry("/src/notes.txt", false),
                walk_entry("/src/sub", true),
                walk_entry("/src/.git", true),
            ],
        ),
        (
            "/src/sub",
            vec![
                walk_entry("/src/sub/AIRMATE_AV_DATA_US_2608_013712.DUP", false),
                walk_entry("/src/sub/deeper", true),
            ],
        ),
        (
            "/src/sub/deeper",
            vec![walk_entry("/src/sub/deeper/too_deep_2609.dup", false)],
        ),
    ];
    let (files, read) = walk(&tree, "/src", 2);
    assert_eq!(read, vec!["/src".to_string(), "/src/sub".to_string()]);
    assert_eq!(files.len(), 2);
    assert_eq!(files[0].name(), "AIRMATE_AV_DATA_US_2608_013712.DUP");
    assert_eq!(files[1].name(), "airmate_av_data_us_2607_013712.dup");
    assert_eq!(files[1].entitlement.as_deref(), Some("013712"));

    let (files, read) = walk(&tree, "/src", 3);
    assert_eq!(read.len(), 3);
    assert_eq!(files.len(), 3);
}

#[test]
fn path_file_names_follow_path_rules() {
    assert_eq!(scan::path_file_name("/a/b/c.dup"), "c.dup");
    assert_eq!(scan::path_file_name("/a/b/"), "b");
    assert_eq!(scan::path_file_name("/"), "");
    assert_eq!(scan::path_file_name("a/.."), "");
}

#[test]
fn classification_and_ranking() {
    assert_eq!(scan::classify("airmate_av_data_us_2608_1.dup"), DupKind::Aviation);
    assert_eq!(scan::classify("airmate_obstacle_data_us_2608_1.dup"), DupKind::Obstacle);
    assert_eq!(scan::classify("terrain.dup"), DupKind::Other);
    // Both providers' obstacle naming must be recognised.
    assert_eq!(scan::classify("ob_data_FAA_2604.dup"), DupKind::Obstacle);
    assert_eq!(scan::classify("av_data_FAA_2608.dup"), DupKind::Aviation);

    let tree = vec![(
        "/rank",
        vec![
            walk_entry("/rank/airmate_av_data_us_2607_013712.dup", false),
            walk_entry("/rank/airmate_av_data_us_2608_013712.dup", false),
            walk_entry("/rank/airmate_obstacle_data_us_2608_013712.dup", false),
        ],
    )];
    let (files, _) = walk(&tree, "/rank", 3);
    assert_eq!(files.len(), 3);
    let av = scan::newest(&files, DupKind::Aviation).unwrap();
    assert_eq!(av.name(), "airmate_av_data_us_2608_013712.dup");
    assert_eq!(av.cycle.unwrap().label(), "2608");
}

#[test]
fn without_a_cycle_the_date_in_the_name_comes_before_the_time() {
    let files = vec![
        dup("/d/nav_2026-07-09.dup", 500),
        dup("/d/nav_2026-08-06.dup", 100),
        dup("/d/nav_undated.dup", 900),
    ];
    let sorted = scan::sort_newest_first(files.clone());
    assert_eq!(sorted[0].name(), "nav_2026-08-06.dup");
    assert_eq!(sorted[1].name(), "nav_2026-07-09.dup");
    assert_eq!(sorted[2].name(), "nav_undated.dup");
    assert_eq!(scan::name_date("nav_2026-08-06.dup"), 20260806);
    assert_eq!(scan::name_date("nav_2026-13-06.dup"), 0);
    assert_eq!(scan::name_date("x2026-02-31y"), 20260231);
    assert_eq!(scan::name_date("no date"), 0);
}

#[test]
fn cycles_rank_by_year_then_number() {
    let mut older = dup("/d/av_data_a.dup", 900);
    older.cycle = Some(Cycle { year: 2026, number: 150 });
    let mut newer = dup("/d/av_data_b.dup", 100);
    newer.cycle = Some(Cycle { year: 2027, number: 0 });
    let files = vec![older, newer];
    let best = scan::newest(&files, DupKind::Aviation).unwrap();
    assert_eq!(best.name(), "av_data_b.dup");
}

#[test]
fn plate_archives_are_ranked_and_decoys_ignored() {
    let names: Vec<String> = ["US-Plates-2608.zip", "US-Plates-2607.zip", "324-Jaunell-Road.zip", "notes.zip"]
        .iter()
        .map(|n| n.to_string())
        .collect();
    let cycle = scan::parse_cycle("airmate_av_data_us_2608_013712.dup");
    let ranked: Vec<String> = scan::rank_plate_archives(&names, cycle)
        .iter()
        .map(|&i| names[i].clone())
        .collect();
    assert_eq!(ranked.first().map(String::as_str), Some("US-Plates-2608.zip"));
    assert!(ranked.contains(&"US-Plates-2607.zip".to_string()));
    // An unrelated zip in the same folder must never be offered.
    assert!(!ranked.iter().any(|n| n.contains("Jaunell")), "decoy ranked: {ranked:?}");
    assert!(!ranked.iter().any(|n| n == "notes.zip"));
}

#[test]
fn the_databases_cycle_outranks_a_later_archive() {
    let names: Vec<String> = ["us-plates-2609.ZIP", "US-Plates-2608.zip"].iter().map(|n| n.to_string()).collect();
    let ranked = scan::rank_plate_archives(&names, scan::parse_cycle("x_2608.dup"));
    assert_eq!(ranked, vec![1, 0]);
    assert_eq!(scan::rank_plate_archives(&names, None), vec![0, 1]);
}

fn members(names: &[&str]) -> Vec<String> {
    names.iter().map(|n| n.to_string()).collect()
}

#[test]
fn a_database_package_reports_both_cycles_separately() {
    let package = scan::package_from_members(
        "/downloads/FAA_av2608_ob2604.duc",
        &members(&["av_data_FAA_2608.dup", "ob_data_FAA_2604.dup"]),
    )
    .expect("should be recognised as databases");
    assert_eq!(package.aviation.unwrap().label(), "2608");
    assert_eq!(package.obstacle.unwrap().label(), "2604");
    // The two cycles differ in Dynon's own file, so one number will not do.
    assert_eq!(package.version(), "Aviation 2608 · Obstacles 2604");
}

#[test]
fn a_firmware_package_is_not_mistaken_for_databases() {
    assert!(
        scan::package_from_members("/d/SkyView_16.4.4.duc", &members(&["firmware.bin", "release_notes.txt"])).is_none(),
        ".duc is Dynon's generic container; only database packages may be offered"
    );
}

#[test]
fn packages_are_ranked_newest_first() {
    let found: Vec<scan::Package> = [
        ("FAA_av2607_ob2604.duc", vec!["av_data_FAA_2607.dup", "ob_data_FAA_2604.dup"]),
        ("FAA_av2608_ob2604.duc", vec!["av_data_FAA_2608.dup", "ob_data_FAA_2604.dup"]),
        ("SkyView_16.4.4.duc", vec!["firmware.bin"]),
    ]
    .iter()
    .filter_map(|(name, m)| scan::package_from_members(name, &members(m)))
    .collect();
    assert_eq!(found.len(), 2, "the firmware package must be excluded");
    let order = scan::packages_newest_first(&found);
    assert_eq!(found[order[0]].aviation.unwrap().label(), "2608");
    assert_eq!(found[order[1]].aviation.unwrap().label(), "2607");
}

#[test]
fn labels_key_names_and_kinds_read_back() {
    for (year, number) in [(2000u16, 1u8), (2026, 8), (2099, 13)] {
        let c = Cycle { year, number };
        assert_eq!(scan::parse_cycle(&c.label()), Some(c));
        assert_eq!(scan::parse_cycle(&format!("airmate_av_data_us_{}_013712.dup", c.label())), Some(c));
    }
    assert_eq!(scan::parse_key_entitlement("CHARTS-013712.key").as_deref(), Some("013712"));
    assert_eq!(scan::parse_key_entitlement("charts-013712.key"), None);
    let name = "Airmate_Obstacle_AV_DATA_2608.dup";
    assert_eq!(scan::classify(name), scan::classify(&name.to_ascii_uppercase()));
    assert_eq!(scan::classify(name), scan::classify(&name.to_ascii_lowercase()));
    assert_eq!(scan::classify(name), DupKind::Obstacle);
}
