use dynon_usb_updater::drive::{Drive, EmptyReason, TargetKind};
use dynon_usb_updater::job::{DriveOutcome, DriveState, Outcome, Severity};
use dynon_usb_updater::scan::{self, Cycle, DupFile, DupKind};
use dynon_usb_updater::ui::{self, BannerAction, Classes, ResultIcon, Sources, Tone};

fn drive(name: &str) -> Drive {
    Drive {
        path: format!("/run/media/pilot/{name}"),
        name: name.to_string(),
        kind: TargetKind::Mounted,
        uuid: None,
        total: 1_000,
        free: 500,
        writable: true,
        score: 4,
        installed_cycle: Some(Cycle { year: 2026, number: 7 }),
        entitlement: Some("013712".into()),
        reclaimable: None,
        reachable: true,
    }
}

fn dup(path: &str) -> DupFile {
    let name = path.rsplit('/').next().unwrap();
    DupFile {
        path: path.to_string(),
        kind: scan::classify(name),
        cycle: scan::parse_cycle(name),
        entitlement: scan::parse_entitlement(name),
        size: 10,
        modified: 0,
    }
}

fn sources() -> Sources {
    let mut s = Sources::new();
    s.load_folder(
        "/home/pilot/Downloads".into(),
        vec![
            dup("/home/pilot/Downloads/airmate_av_data_us_2607_013712.dup"),
            dup("/home/pilot/Downloads/airmate_av_data_us_2608_013712.dup"),
            dup("/home/pilot/Downloads/airmate_obstacle_data_us_2608_013712.dup"),
        ],
    );
    s
}

#[test]
fn durations_read_naturally() {
    assert_eq!(ui::duration_text(0), "1 seconds");
    assert_eq!(ui::duration_text(42), "42 seconds");
    assert_eq!(ui::duration_text(89), "1 minute");
    assert_eq!(ui::duration_text(90), "2 minutes");
    assert_eq!(ui::duration_text(3599), "60 minutes");
    assert_eq!(ui::duration_text(3600), "1 hour 0 minutes");
    assert_eq!(ui::duration_text(7_500), "2 hours 5 minutes");
    assert_eq!(ui::duration_precise(59), "59 s");
    assert_eq!(ui::duration_precise(125), "2 min 5 s");
    assert_eq!(ui::duration_precise(7_500), "2 h 5 min");
}

#[test]
fn drive_names_become_a_phrase() {
    let names = |v: &[&str]| v.iter().map(|s| s.to_string()).collect::<Vec<_>>();
    assert_eq!(ui::drive_names_text(&names(&[])), "");
    assert_eq!(ui::drive_names_text(&names(&["A"])), "A");
    assert_eq!(ui::drive_names_text(&names(&["A", "B"])), "A and B");
    assert_eq!(ui::drive_names_text(&names(&["A", "B", "C"])), "3 drives");
    assert_eq!(ui::drive_list_text(&[drive("DYNON"), drive("SPARE")]), "DYNON and SPARE");
}

#[test]
fn small_words() {
    assert_eq!(ui::drive_state_text(DriveState::ExtractingPlates), "Extracting plates");
    assert!(ui::state_is_active(DriveState::Finishing));
    assert!(!ui::state_is_active(DriveState::Done));
    assert_eq!(ui::onoff(true), "on");
    assert_eq!(ui::onoff(false), "off");
    assert_eq!(ui::capitalize("the drive stopped"), "The drive stopped");
    assert_eq!(ui::capitalize("ßtraße"), "SStraße");
    assert_eq!(ui::capitalize(""), "");
    assert_eq!(
        ui::log_line("12:00:01", Severity::Warning, "careful"),
        "12:00:01\t[warn]  careful\n"
    );
    assert!(ui::shows_step_detail(None, "Copying"));
    assert!(ui::shows_step_detail(Some(DriveState::CopyingDatabases), "Preparing…"));
    assert!(!ui::shows_step_detail(Some(DriveState::CopyingDatabases), "Copying"));
}

#[test]
fn loading_a_folder_picks_the_newest_of_each_kind() {
    let mut s = sources();
    assert_eq!(
        s.aviation.as_deref(),
        Some("/home/pilot/Downloads/airmate_av_data_us_2608_013712.dup")
    );
    assert_eq!(s.cycle().unwrap().label(), "2608");
    assert_eq!(s.db_cycle().unwrap().label(), "2608");
    assert!(s.anything_to_copy());
    s.skip_database(DupKind::Aviation);
    assert!(s.skip_aviation);
    assert_eq!(s.aviation, None);
    assert!(s.anything_to_copy());
    s.skip_database(DupKind::Obstacle);
    assert!(!s.anything_to_copy());
    assert_eq!(s.cycle(), None);
}

#[test]
fn only_a_ready_drive_starts_selected() {
    let target = Some(Cycle { year: 2026, number: 8 });
    let ready = drive("DYNON");
    assert!(ui::preselected(&ready, 100, target, &[], &[]));
    let mut unrelated = drive("KINGSTON");
    unrelated.score = 0;
    assert!(!ui::preselected(&unrelated, 100, target, &[], &[]));
    let mut current = drive("DYNON");
    current.installed_cycle = target;
    assert!(!ui::preselected(&current, 100, target, &[], &[]));
    assert!(ui::preselected(&current, 100, target, &[], &["|DYNON".to_string()]));
    assert!(!ui::preselected(&ready, 1_000, target, &[], &[]));
    // A carried-over selection wins either way.
    assert!(ui::preselected(&unrelated, 100, target, &["|KINGSTON".to_string()], &[]));
    assert!(!ui::preselected(&ready, 100, target, &["|OTHER".to_string()], &[]));
    assert!(ui::ready_to_select(&ready, 500));
    assert!(!ui::ready_to_select(&ready, 501));
}

#[test]
fn the_update_button_explains_what_is_missing() {
    let s = sources();
    let cards = [drive("DYNON"), drive("SPARE")];
    let reason = |folder_is_dir, active: &[bool], needed| {
        ui::readiness_reason(&s, folder_is_dir, "~/Downloads", &cards, active, needed)
    };
    assert_eq!(
        reason(false, &[true, false], 10).as_deref(),
        Some("Choose a folder that contains this cycle's files")
    );
    assert_eq!(
        reason(true, &[false, false], 10).as_deref(),
        Some("Select a drive to continue")
    );
    assert_eq!(reason(true, &[true, false], 10), None);
    assert_eq!(
        reason(true, &[false, true], 600).as_deref(),
        Some("SPARE doesn't have room for this update — deselect it to continue")
    );
    let empty = Sources::new();
    assert_eq!(
        ui::readiness_reason(&empty, true, "", &[], &[], 0).as_deref(),
        Some("Choose a folder that contains this cycle's files")
    );
    let mut loading = sources();
    loading.archive_loading_started("US-Plates-2608.zip".into());
    assert_eq!(
        ui::readiness_reason(&loading, true, "~/Downloads", &cards, &[true, false], 10).as_deref(),
        Some("Still reading US-Plates-2608.zip…")
    );
    assert_eq!(ui::update_label(&[]), "Update Drives");
    assert_eq!(ui::update_label(&[drive("DYNON")]), "Update DYNON");
    assert_eq!(ui::update_label(&[drive("A_VERY_LONG_DRIVE_NAME")]), "Update 1 Drive");
    assert_eq!(ui::update_label(&cards), "Update 2 Drives");
    assert_eq!(
        ui::ready_summary("428 kB", &cards, "1 minute", true, true),
        "Writes 428 kB to DYNON and SPARE · about 1 minute · copies verified · old databases replaced"
    );
}

#[test]
fn the_banner_names_the_first_problem() {
    let s = sources();
    let mut cards = vec![drive("DYNON"), drive("RO")];
    cards[1].writable = false;
    let b = ui::pick_banner(&s, true, "~/Downloads", &cards, &[true, true], 10, true).unwrap();
    assert_eq!(b.title, "RO cannot be written to.");
    match b.button {
        Some(("Deselect", BannerAction::Deselect(key))) => assert_eq!(key, "|RO"),
        _ => panic!("expected a deselect button"),
    }
    let b = ui::pick_banner(&s, false, "~/Downloads", &cards, &[true, true], 10, true).unwrap();
    assert_eq!(b.title, "The folder ~/Downloads is no longer available.");

    let mut other = drive("OTHER");
    other.entitlement = Some("999999".into());
    let b = ui::pick_banner(&s, true, "~/Downloads", &[other], &[false], 10, true).unwrap();
    assert_eq!(b.title, "OTHER is registered to a different SkyView.");
    assert!(ui::pick_banner(&s, true, "~/Downloads", &[drive("DYNON")], &[true], 10, true).is_none());

    let mut bad = sources();
    bad.archive_read("/tmp/evil.zip".into(), Err("contains unsafe file paths".into()));
    let b = ui::pick_banner(&bad, true, "~", &[], &[], 0, true).unwrap();
    assert_eq!(b.title, "evil.zip contains unsafe file paths and will not be used.");
    assert!(b.button.is_none());

    let none = Sources::new();
    let b = ui::pick_banner(&none, true, "", &[], &[], 0, false).unwrap();
    assert_eq!(b.title, "Choose this cycle's files, pick the drive you fly with, then update.");
}

#[test]
fn a_card_says_what_the_drive_needs() {
    let target = Some(Cycle { year: 2026, number: 8 });
    let d = drive("DYNON");
    let c = ui::card_text(&d, 10, target, None, "500 B", "1 kB", "10 B", "500 B");
    assert_eq!(c.cycle, "Cycle 2607 → 2608");
    assert_eq!(c.verdict, "500 B free · fits");
    assert_eq!(c.verdict_classes, Classes { dimmed: true, warning: false, error: false, success: false });

    let mut current = drive("DYNON");
    current.installed_cycle = target;
    current.writable = false;
    let c = ui::card_text(&current, 10, target, Some("013712"), "", "", "", "");
    assert_eq!(c.cycle, "Cycle 2608 installed");
    assert!(c.cycle_classes.success);
    assert_eq!(c.verdict, "Registered to SkyView 013712");
    assert_eq!(c.verdict_classes, Classes { dimmed: false, warning: true, error: true, success: false });

    let c = ui::card_text(&d, 600, target, None, "500 B", "1 kB", "600 B", "500 B");
    assert_eq!(c.verdict, "Needs 600 B, 500 B available");
    assert!(c.verdict_classes.error);
    assert_eq!(ui::projected_used(&d, 600), 1_100);
}

#[test]
fn the_confirmation_spells_out_the_erase() {
    let two = [drive("DYNON"), drive("SPARE")];
    assert_eq!(ui::confirm_heading(true, &two), "Replace Plates on 2 Drives?");
    assert_eq!(ui::confirm_heading(false, &two[..1]), "Update DYNON?");
    assert_eq!(
        ui::confirm_body(true, "DYNON", "US-Plates-2608.zip", "3 minutes"),
        "The plates folder on DYNON will be erased and rebuilt from US-Plates-2608.zip. This takes about 3 minutes and cannot be undone."
    );
    assert_eq!(
        ui::confirm_subtitle(2, true, 23_104, 23_110, false),
        "Not a SkyView drive · Copy 2 databases · erase 23,104 plates · write 23,110 plates"
    );
    assert_eq!(ui::confirm_subtitle(1, false, 0, 0, true), "Copy 1 database");
    assert_eq!(ui::confirm_subtitle(0, true, 0, 5, true), "erase 0 plates · write 5 plates");
    assert_eq!(ui::understand_label(&[]), None);
    assert_eq!(
        ui::understand_label(&["KINGSTON".to_string()]).as_deref(),
        Some("I understand that KINGSTON is not a SkyView drive")
    );
}

fn outcome(name: &str, result: Outcome) -> DriveOutcome {
    DriveOutcome {
        name: name.to_string(),
        path: format!("/run/media/pilot/{name}"),
        kind: TargetKind::Mounted,
        result,
        elapsed_secs: 125,
        plates_written: 23_104,
        cycle: Some(Cycle { year: 2026, number: 8 }),
    }
}

#[test]
fn the_result_page_leads_with_what_matters() {
    let all = [outcome("DYNON", Outcome::Updated)];
    let (icon, title, desc) = ui::result_summary(&all);
    assert_eq!(icon, ResultIcon::Success);
    assert_eq!(title, "DYNON Updated");
    assert_eq!(desc, "Cycle 2608 is installed. Eject the drive before unplugging it.");
    assert_eq!(ui::result_icon_name(icon), "emblem-ok-symbolic");

    let mixed = [
        outcome("DYNON", Outcome::Updated),
        outcome("SPARE", Outcome::Failed("ran out of space".into())),
    ];
    let (icon, title, desc) = ui::result_summary(&mixed);
    assert_eq!(icon, ResultIcon::Warning);
    assert_eq!(title, "1 of 2 Drives Updated");
    assert_eq!(desc, "SPARE was not updated. Check the reason below before you fly.");

    let stopped = [
        outcome("DYNON", Outcome::Updated),
        outcome("SPARE", Outcome::Interrupted),
    ];
    assert_eq!(ui::result_summary(&stopped).1, "Update Stopped");

    let none = [outcome("DYNON", Outcome::Skipped)];
    assert_eq!(ui::result_summary(&none).1, "No Drives Were Updated");

    assert_eq!(
        ui::outcome_subtitle(&all[0]).1,
        "Cycle 2608 · 23,104 plates · 2 min 5 s"
    );
    assert_eq!(ui::outcome_subtitle(&mixed[1]).1, "Ran out of space");
    assert_eq!(ui::ejectable(&mixed), vec![0]);
    assert_eq!(ui::eject_label(&["DYNON".to_string()]).as_deref(), Some("Eject DYNON"));
    assert_eq!(ui::eject_label(&["A".to_string(), "B".to_string()]).as_deref(), Some("Eject Both"));
}

#[test]
fn source_rows_describe_the_choice() {
    let mut s = sources();
    let row = s.database_row(DupKind::Aviation, "~/Downloads", "10 B");
    assert_eq!(row.badge, "Cycle 2608");
    assert_eq!(row.tone, Tone::Accent);
    assert_eq!(row.subtitle, "airmate_av_data_us_2608_013712.dup · 10 B");
    s.skip_database(DupKind::Obstacle);
    let row = s.database_row(DupKind::Obstacle, "~/Downloads", "");
    assert_eq!(row.badge, "Not copying");
    let row = Sources::new().database_row(DupKind::Obstacle, "no folder", "");
    assert_eq!(row.subtitle, "No obstacle database in no folder");
    let row = s.plates_row("");
    assert_eq!(row.badge, "Not replacing");
    assert_eq!(s.chosen_dup(DupKind::Aviation), Some(1));
}

#[test]
fn explanations_name_the_drive_and_the_numbers() {
    let (icon, title, _, help) = ui::empty_drives_text(EmptyReason::SandboxBlocked);
    assert_eq!(icon, "dialog-warning-symbolic");
    assert_eq!(title, "Can't See Your Drives");
    assert!(help);
    assert!(!ui::empty_drives_text(EmptyReason::NothingConnected).3);
    assert_eq!(
        ui::entitlement_details("DYNON", "999999", "013712"),
        "DYNON carries a chart key for SkyView 999999, but this cycle's files are for 013712. If this drive belongs to another aircraft, its charts may not open. Check before you use it."
    );
    assert_eq!(ui::preview_footer(23_084, 1), "…and 23,084 more · 1 junk files skipped");
    let s = sources();
    assert_eq!(s.bytes_needed(Some(300), None), 300);
    assert_eq!(Sources::new().bytes_needed(Some(300), Some(1)), 0);
}

#[test]
fn time_left_is_worded_by_size() {
    assert_eq!(ui::eta_words(59, 1), "Less than a minute left");
    assert_eq!(ui::eta_words(80, 1), "About 1 minute left");
    assert_eq!(ui::eta_words(600, 10), "About 10 minutes left");
    assert_eq!(ui::eta_words(7_500, 125), "About 2 hours 5 minutes left");
}

#[test]
fn log_export_lists_header_rule_and_tagged_lines() {
    let entries = vec![
        (Severity::Info, "10:00:01".to_string(), "Starting".to_string()),
        (Severity::Success, "10:00:09".to_string(), "SKYVIEW updated".to_string()),
        (Severity::Error, "10:00:10".to_string(), "USB failed".to_string()),
    ];
    let text = ui::log_export_text(Some("HEADER\n"), &entries);
    assert_eq!(
        text,
        "HEADER\n---\n10:00:01\t        Starting\n10:00:09\t[ok]    SKYVIEW updated\n10:00:10\t[error] USB failed\n"
    );
    assert_eq!(ui::log_export_text(None, &[]), "---\n");
}

#[test]
fn log_header_names_sources_plates_drives_and_options() {
    let drives = vec![drive("SKYVIEW"), drive("BACKUP")];
    let text = ui::log_header_text(
        "2026-07-01 10:00:00",
        Some("/home/pilot/Downloads"),
        Some(("/home/pilot/Downloads/US_2607_013712.dup", "120 MB")),
        None,
        Some(("plates.zip", 12345, "1.2 GB")),
        &drives,
        true,
        false,
        true,
    );
    assert_eq!(
        text,
        "Dynon USB Updater 1.0 — log started 2026-07-01 10:00:00\n\
         Source folder: /home/pilot/Downloads\n\
         Aviation:  US_2607_013712.dup (Cycle 2607, 120 MB)\n\
         Plates:    plates.zip (12,345 files, 1.2 GB)\n\
         Drives:    SKYVIEW (/run/media/pilot/SKYVIEW), BACKUP (/run/media/pilot/BACKUP)\n\
         Options:   verify=on replace-old=off eject=on\n"
    );
}

#[test]
fn log_header_leaves_out_what_the_run_lacks() {
    let text = ui::log_header_text("t", None, None, Some(("obstacles.dup", "")), None, &[], false, true, false);
    assert_eq!(
        text,
        "Dynon USB Updater 1.0 — log started t\n\
         Obstacle:  obstacles.dup (Cycle , )\n\
         Drives:    \n\
         Options:   verify=off replace-old=on eject=off\n"
    );
}

#[test]
fn home_folder_is_shown_as_tilde() {
    assert_eq!(ui::abbreviate("/home/pilot/Downloads", Some("/home/pilot")), "~/Downloads");
    assert_eq!(ui::abbreviate("/media/usb", Some("/home/pilot")), "/media/usb");
    assert_eq!(ui::abbreviate("/home/pilot", None), "/home/pilot");
}

#[test]
fn run_rows_style_finished_states() {
    assert_eq!(ui::state_style(DriveState::Done), (Some("success"), Some(("emblem-ok-symbolic", "success")), false));
    assert_eq!(ui::state_style(DriveState::Failed), (Some("error"), Some(("dialog-error-symbolic", "error")), true));
    assert_eq!(ui::state_style(DriveState::Stopped), (Some("dimmed"), None, false));
    assert_eq!(ui::state_style(DriveState::CopyingDatabases), (None, None, false));
    assert_eq!(ui::row_label("SKYVIEW", DriveState::CopyingDatabases), "SKYVIEW, copying databases");
    assert_eq!(ui::row_label("SKYVIEW", DriveState::Waiting), "SKYVIEW, waiting");
}

#[test]
fn log_rows_carry_icon_class_and_spoken_prefix() {
    assert_eq!(ui::severity_style(Severity::Info), (None, "", ""));
    assert_eq!(ui::severity_style(Severity::Warning), (Some("dialog-warning-symbolic"), "warning", "Warning. "));
    assert_eq!(ui::severity_style(Severity::Success), (Some("emblem-ok-symbolic"), "success", "Success. "));
}

#[test]
fn the_last_twenty_logs_are_kept() {
    assert_eq!(ui::logs_to_delete(0), 0);
    assert_eq!(ui::logs_to_delete(20), 0);
    assert_eq!(ui::logs_to_delete(23), 3);
}
