use dynon_usb_updater::drive::{Drive, TargetKind};
use dynon_usb_updater::job::{
    self, Cancel, DriveEnd, DriveState, DriveStep, DriveUpdate, FailReason, Outcome, Phase, Plan,
    Report, Severity,
};
use dynon_usb_updater::scan::{self, archive_from_entries, Cycle, DupKind, ZipEntry};

fn fake_drive(name: &str) -> Drive {
    Drive {
        path: format!("/tmp/dynon-job/{name}"),
        name: name.to_string(),
        kind: TargetKind::Folder,
        uuid: None,
        total: 8_000_000_000,
        free: 4_000_000_000,
        writable: true,
        score: 4,
        installed_cycle: Some(Cycle { year: 2026, number: 7 }),
        entitlement: Some("013712".into()),
        reclaimable: Some((1_000, 1)),
        reachable: true,
    }
}

fn archive() -> scan::Archive {
    let names = [
        "ChartData/Plates/US/a.png",
        "ChartData/Plates/US/b.png",
        "ChartData/.DS_Store",
    ];
    let entries: Vec<ZipEntry> = names
        .iter()
        .enumerate()
        .map(|(index, n)| ZipEntry {
            index,
            name: n.to_string(),
            is_dir: false,
            size: 4096,
        })
        .collect();
    archive_from_entries("/tmp/dynon-job/downloads/US-Plates-2608.zip", &entries).unwrap()
}

fn plan(drives: Vec<Drive>) -> Plan {
    Plan {
        drives,
        aviation: Some("/tmp/dynon-job/downloads/airmate_av_data_us_2608_013712.dup".into()),
        obstacle: Some("/tmp/dynon-job/downloads/airmate_obstacle_data_us_2608_013712.dup".into()),
        package: None,
        archive: Some(archive()),
        strip_wrapper: false,
        verify: true,
        replace_old: true,
        cycle: scan::parse_cycle("US-Plates-2608.zip"),
    }
}

/// What a healthy drive answers to each step.
fn all_well(step: DriveStep) -> Report {
    match step {
        DriveStep::MeasurePlates => Report::Measured(4_096),
        DriveStep::Compare(_) => Report::Matched(true),
        DriveStep::CheckPlates => Report::Exists(true),
        DriveStep::Extract(_) => Report::Differs,
        DriveStep::RemoveStale => Report::Found(0),
        _ => Report::Done,
    }
}

/// Runs one drive's update against `answer`, returning the steps taken.
fn run_drive(update: &mut DriveUpdate, mut answer: impl FnMut(DriveStep) -> Report) -> Vec<DriveStep> {
    let mut steps = Vec::new();
    while let Some(step) = update.current() {
        steps.push(step);
        let r = answer(step);
        update.report(r);
        assert!(steps.len() < 1000, "a drive's update must end");
    }
    steps
}

fn ended(update: &DriveUpdate) -> &DriveEnd {
    match &update.phase {
        Phase::Ended(e) => e,
        Phase::Step(_) => panic!("not ended"),
    }
}

#[test]
fn a_full_update_walks_every_step_in_order() {
    let p = plan(vec![fake_drive("FAKEUSB")]);
    let needed = p.bytes_per_drive(Some(300_000), Some(120_000), None);
    assert_eq!(needed, 300_000 + 120_000 + 8_192);
    let mut u = DriveUpdate::new(&p, &p.drives[0], needed);
    let steps = run_drive(&mut u, all_well);
    assert_eq!(
        steps,
        vec![
            DriveStep::MeasurePlates,
            DriveStep::RemoveOld(DupKind::Aviation),
            DriveStep::Copy(DupKind::Aviation),
            DriveStep::Compare(DupKind::Aviation),
            DriveStep::RemoveOld(DupKind::Obstacle),
            DriveStep::Copy(DupKind::Obstacle),
            DriveStep::Compare(DupKind::Obstacle),
            DriveStep::CheckPlates,
            DriveStep::OpenArchive,
            DriveStep::Extract(0),
            DriveStep::Write(0),
            DriveStep::Extract(1),
            DriveStep::Write(1),
            DriveStep::RemoveStale,
            DriveStep::Finish,
        ]
    );
    assert!(matches!(ended(&u), DriveEnd::Updated));
    assert_eq!(u.plates_written, 2);
    assert!(u.erased);
    assert_eq!(u.aviation.as_deref(), Some("airmate_av_data_us_2608_013712.dup"));
    let (outcome, state) = job::settle(ended(&u), u.erased, "", "");
    assert_eq!(outcome, Outcome::Updated);
    assert_eq!(state, DriveState::Done);
    let (severity, line) = job::outcome_log("FAKEUSB", &outcome, u.plates_written, p.cycle);
    assert_eq!(severity, Severity::Success);
    assert_eq!(line, "FAKEUSB: 2 plates written, Cycle 2608 installed");
}

#[test]
fn cancelling_before_the_erase_changes_nothing() {
    let p = plan(vec![fake_drive("cancel-early")]);
    let mut u = DriveUpdate::new(&p, &p.drives[0], 1_000);
    let steps = run_drive(&mut u, |step| match step {
        DriveStep::Copy(_) => Report::Stopped,
        other => all_well(other),
    });
    assert!(!steps.contains(&DriveStep::RemoveStale), "nothing may be erased");
    assert!(!steps.iter().any(|s| matches!(s, DriveStep::Extract(_))), "no plate may be written");
    let (outcome, state) = job::settle(ended(&u), u.erased, "", "");
    assert_eq!(outcome, Outcome::Skipped);
    assert_eq!(state, DriveState::Stopped);
    let (severity, line) = job::outcome_log("cancel-early", &outcome, 0, None);
    assert_eq!(severity, Severity::Warning);
    assert_eq!(line, "cancel-early: stopped before anything was changed");
}

#[test]
fn stopping_after_the_erase_leaves_the_drive_interrupted() {
    let p = plan(vec![fake_drive("late")]);
    let mut u = DriveUpdate::new(&p, &p.drives[0], 1_000);
    run_drive(&mut u, |step| match step {
        DriveStep::Extract(1) => Report::Stopped,
        other => all_well(other),
    });
    let (outcome, state) = job::settle(ended(&u), u.erased, "", "");
    assert_eq!(outcome, Outcome::Interrupted);
    assert_eq!(state, DriveState::Stopped);
    assert_eq!(u.plates_written, 1);
}

#[test]
fn a_databases_only_run_leaves_plates_untouched() {
    let mut p = plan(vec![fake_drive("dbs-only")]);
    p.archive = None;
    let mut u = DriveUpdate::new(&p, &p.drives[0], 420_000);
    let steps = run_drive(&mut u, all_well);
    assert!(steps.iter().all(|s| !matches!(
        s,
        DriveStep::MeasurePlates | DriveStep::CheckPlates | DriveStep::RemoveStale | DriveStep::Extract(_)
    )));
    assert!(matches!(ended(&u), DriveEnd::Updated));
    assert!(!u.erased);
}

#[test]
fn a_drive_that_cannot_fit_fails_before_erasing() {
    let mut p = plan(vec![fake_drive("no-space")]);
    // Claim the drive is nearly full; the check must fire before the erase.
    p.drives[0].free = 1;
    p.drives[0].reclaimable = Some((0, 0));
    let mut u = DriveUpdate::new(&p, &p.drives[0], 428_192);
    let steps = run_drive(&mut u, |step| match step {
        DriveStep::MeasurePlates => Report::Measured(0),
        other => all_well(other),
    });
    assert_eq!(steps, vec![DriveStep::MeasurePlates]);
    match ended(&u) {
        DriveEnd::Failed(FailReason::NoSpace { needed, available }) => {
            assert_eq!(*needed, 428_192);
            assert_eq!(*available, 1);
        }
        other => panic!("expected a space failure, got {other:?}"),
    }
    match job::settle(ended(&u), u.erased, "428.2 kB", "1 byte").0 {
        Outcome::Failed(reason) => {
            assert!(reason.contains("space"), "got: {reason}");
            assert_eq!(reason, "ran out of space — needs 428.2 kB, 1 byte available");
        }
        other => panic!("expected a space failure, got {other:?}"),
    }
    assert!(!u.erased, "nothing erased on a failed pre-flight");
}

#[test]
fn one_failing_drive_does_not_stop_the_others() {
    let mut broken = fake_drive("BROKEN");
    broken.path = "/nonexistent/never".into();
    broken.writable = false;
    let p = plan(vec![broken, fake_drive("isolation")]);
    let mut outcomes = Vec::new();
    for d in &p.drives {
        let mut u = DriveUpdate::new(&p, d, 428_192);
        run_drive(&mut u, all_well);
        outcomes.push(job::settle(ended(&u), u.erased, "", "").0);
    }
    assert!(matches!(outcomes[0], Outcome::Failed(_)));
    assert_eq!(
        outcomes[0],
        Outcome::Failed("the drive stopped accepting writes".into())
    );
    assert_eq!(outcomes[1], Outcome::Updated);
}

#[test]
fn a_databases_only_run_never_reaches_the_point_of_no_return() {
    let mut p = plan(vec![fake_drive("no-return")]);
    p.archive = None;
    let cancel = Cancel::new();
    let mut u = DriveUpdate::new(&p, &p.drives[0], 420_000);
    let steps = run_drive(&mut u, |step| {
        if matches!(step, DriveStep::RemoveStale | DriveStep::Extract(_)) {
            cancel.mark_no_return();
        }
        all_well(step)
    });
    assert!(!steps.iter().any(|s| matches!(s, DriveStep::RemoveStale | DriveStep::Extract(_))));
    assert!(!cancel.past_point_of_no_return());
}

#[test]
fn a_copy_that_does_not_match_fails_the_drive() {
    let p = plan(vec![fake_drive("mismatch")]);
    let mut u = DriveUpdate::new(&p, &p.drives[0], 1_000);
    run_drive(&mut u, |step| match step {
        DriveStep::Compare(DupKind::Obstacle) => Report::Matched(false),
        other => all_well(other),
    });
    assert!(!u.erased);
    assert_eq!(
        job::settle(ended(&u), u.erased, "", "").0,
        Outcome::Failed(
            "the copy of airmate_obstacle_data_us_2608_013712.dup did not match the original. Nothing was left half-written"
                .into()
        )
    );
}

#[test]
fn a_few_unreadable_plates_are_tolerated_but_not_many() {
    let names: Vec<String> = (0..200).map(|i| format!("Plates/US/p{i}.png")).collect();
    let entries: Vec<ZipEntry> = names
        .iter()
        .enumerate()
        .map(|(index, n)| ZipEntry { index, name: n.clone(), is_dir: false, size: 1 })
        .collect();
    let mut p = plan(vec![fake_drive("bad-zip")]);
    p.archive = Some(archive_from_entries("/tmp/x.zip", &entries).unwrap());

    // Two bad members out of 200 is one in a hundred: tolerated.
    let mut u = DriveUpdate::new(&p, &p.drives[0], 1_000);
    run_drive(&mut u, |step| match step {
        DriveStep::Extract(5) | DriveStep::Extract(9) => Report::Failed("bad".into()),
        other => all_well(other),
    });
    assert!(matches!(ended(&u), DriveEnd::Updated));
    assert_eq!(u.plates_written, 198);
    assert_eq!(u.unreadable, 2);
    assert_eq!(
        job::unreadable_note("bad-zip", u.unreadable).as_deref(),
        Some("bad-zip: 2 plates could not be read from the archive")
    );

    // A third is too many.
    let mut u = DriveUpdate::new(&p, &p.drives[0], 1_000);
    let steps = run_drive(&mut u, |step| match step {
        DriveStep::Extract(n) if n < 3 => Report::Failed("bad".into()),
        other => all_well(other),
    });
    assert_eq!(steps.last(), Some(&DriveStep::Extract(2)));
    assert_eq!(
        job::settle(ended(&u), u.erased, "", "").0,
        Outcome::Failed("3 plates could not be read from the archive".into())
    );
}

#[test]
fn plates_folder_failures_are_explained() {
    let p = plan(vec![fake_drive("clear")]);
    let mut u = DriveUpdate::new(&p, &p.drives[0], 1_000);
    run_drive(&mut u, |step| match step {
        DriveStep::Extract(_) => Report::Kept,
        DriveStep::RemoveStale => Report::Found(3),
        DriveStep::Prune => Report::Failed("Permission denied (os error 13)".into()),
        other => all_well(other),
    });
    assert!(u.erased);
    assert_eq!(
        job::settle(ended(&u), u.erased, "", "").0,
        Outcome::Failed("could not clear the plates folder: Permission denied (os error 13)".into())
    );
    let mut u = DriveUpdate::new(&p, &p.drives[0], 1_000);
    run_drive(&mut u, |step| match step {
        DriveStep::OpenArchive => Report::Failed("gone".into()),
        DriveStep::CheckPlates => Report::Exists(false),
        other => all_well(other),
    });
    assert!(!u.erased);
    assert_eq!(
        job::settle(ended(&u), u.erased, "", "").0,
        Outcome::Failed("the plates archive was changed while the update was running".into())
    );
}

#[test]
fn digit_groups_are_separated_by_commas() {
    assert_eq!(job::group(0), "0");
    assert_eq!(job::group(999), "999");
    assert_eq!(job::group(1000), "1,000");
    assert_eq!(job::group(23104), "23,104");
    assert_eq!(job::group(1234567), "1,234,567");
    assert_eq!(job::group(u64::MAX), "18,446,744,073,709,551,615");
}

#[test]
fn extraction_progress_is_noted_every_64_members() {
    assert_eq!(job::progress_note(0, 23104).as_deref(), Some("0 of 23,104 files"));
    assert_eq!(job::progress_note(63, 23104), None);
    assert_eq!(job::progress_note(1024, 23104).as_deref(), Some("1,024 of 23,104 files"));
}

#[test]
fn only_older_databases_of_the_same_kind_are_retired() {
    let keep = "airmate_av_data_us_2608_013712.dup";
    assert!(job::is_superseded_database("airmate_av_data_us_2607_013712.dup", DupKind::Aviation, keep));
    assert!(job::is_superseded_database("AIRMATE_AV_DATA_US_2606.DUP", DupKind::Aviation, keep));
    assert!(!job::is_superseded_database(keep, DupKind::Aviation, keep));
    assert!(!job::is_superseded_database("airmate_obstacle_data_us_2607.dup", DupKind::Aviation, keep));
    assert!(!job::is_superseded_database("pilot-notes.txt", DupKind::Aviation, keep));
    // A newer or equal cycle of the same kind stays.
    assert!(!job::is_superseded_database("airmate_av_data_us_2609_013712.dup", DupKind::Aviation, keep));
    assert!(!job::is_superseded_database("AIRMATE_AV_DATA_US_2608_999999.dup", DupKind::Aviation, keep));
    // A same-kind database without a cycle counts as older.
    assert!(job::is_superseded_database("av_data_old.dup", DupKind::Aviation, keep));
}

#[test]
fn work_totals_count_each_drive_and_each_check() {
    let p = plan(vec![fake_drive("a"), fake_drive("b")]);
    assert_eq!(p.total_work(Some(300_000), Some(120_000), None), (428_192 + 420_000) * 2);
    let mut q = plan(vec![]);
    q.archive = None;
    assert_eq!(q.total_work(Some(1), Some(1), None), 1);
    assert_eq!(q.bytes_per_drive(None, Some(5), None), 5);
}

#[test]
fn cancel_flags_start_clear_and_are_shared_by_clones() {
    let c = Cancel::new();
    let d = c.clone();
    assert!(!c.is_cancelled());
    assert!(!c.past_point_of_no_return());
    d.request();
    d.mark_no_return();
    assert!(c.is_cancelled());
    assert!(c.past_point_of_no_return());
}

#[test]
fn steps_announce_their_drive_state() {
    assert_eq!(job::announced(DriveStep::Compare(DupKind::Aviation)), Some(DriveState::CheckingCopies));
    assert_eq!(job::announced(DriveStep::CheckPlates), Some(DriveState::ErasingPlates));
    assert_eq!(job::announced(DriveStep::OpenArchive), Some(DriveState::ExtractingPlates));
    assert_eq!(job::announced(DriveStep::Finish), Some(DriveState::Finishing));
    assert_eq!(job::announced(DriveStep::Copy(DupKind::Aviation)), None);
}

#[test]
fn copy_and_folder_failures_keep_their_words() {
    let p = plan(vec![fake_drive("words")]);
    let mut u = DriveUpdate::new(&p, &p.drives[0], 1_000);
    run_drive(&mut u, |step| match step {
        DriveStep::Copy(DupKind::Aviation) => Report::Failed("read error: gone".into()),
        other => all_well(other),
    });
    assert_eq!(
        job::settle(ended(&u), u.erased, "", "").0,
        Outcome::Failed("read error: gone".into())
    );
    let mut u = DriveUpdate::new(&p, &p.drives[0], 1_000);
    run_drive(&mut u, |step| match step {
        DriveStep::CheckPlates => Report::Exists(false),
        DriveStep::CreatePlates => Report::Failed("Read-only file system (os error 30)".into()),
        other => all_well(other),
    });
    let (outcome, state) = job::settle(ended(&u), u.erased, "", "");
    assert_eq!(
        outcome,
        Outcome::Failed("could not create the plates folder: Read-only file system (os error 30)".into())
    );
    assert_eq!(state, DriveState::Failed);
    let (severity, line) = job::outcome_log("words", &outcome, 0, None);
    assert_eq!(severity, Severity::Error);
    assert_eq!(line, "words: could not create the plates folder: Read-only file system (os error 30)");
}

#[test]
fn steps_announce_their_headlines() {
    assert_eq!(
        job::step_heading(DriveStep::Copy(DupKind::Obstacle), "SKYVIEW", "OBS_2607.dup"),
        Some(("Copying obstacle database to SKYVIEW".to_string(), "OBS_2607.dup".to_string()))
    );
    assert_eq!(
        job::step_heading(DriveStep::Compare(DupKind::Aviation), "SKYVIEW", "x"),
        Some(("Checking the copy on SKYVIEW".to_string(), "Comparing checksums".to_string()))
    );
    assert_eq!(
        job::step_heading(DriveStep::CheckPlates, "USB", ""),
        Some(("Erasing old plates on USB".to_string(), String::new()))
    );
    assert_eq!(
        job::step_heading(DriveStep::Finish, "USB", ""),
        Some(("Finishing writes to USB".to_string(), "Do not unplug the drive".to_string()))
    );
    assert_eq!(job::step_heading(DriveStep::RemoveStale, "USB", ""), None);
}

#[test]
fn older_databases_stay_and_copies_go_unread_when_not_asked() {
    let mut p = plan(vec![fake_drive("FAKEUSB")]);
    p.replace_old = false;
    p.verify = false;
    let needed = p.bytes_per_drive(Some(300_000), Some(120_000), None);
    let mut u = DriveUpdate::new(&p, &p.drives[0], needed);
    let steps = run_drive(&mut u, all_well);
    assert!(!steps.iter().any(|s| matches!(s, DriveStep::RemoveOld(_) | DriveStep::Compare(_))));
    assert_eq!(&steps[..3], &[DriveStep::MeasurePlates, DriveStep::Copy(DupKind::Aviation), DriveStep::Copy(DupKind::Obstacle)]);
    assert!(matches!(ended(&u), DriveEnd::Updated));
}

#[test]
fn a_copy_matches_only_when_its_digest_does() {
    assert!(job::copy_matches(b"airmate database bytes", b"airmate database bytes"));
    assert!(!job::copy_matches(b"airmate database bytes", b"airmate database byteS"));
    assert!(!job::copy_matches(b"", b"x"));
    assert!(job::copy_matches(b"", b""));
}

#[test]
fn the_sync_rewrites_only_what_changed_and_deletes_what_is_gone() {
    // The drive holds US/a.png identical to the archive's member, US/b.png
    // with other bytes, and US/old.png, which the archive no longer has.
    let p = plan(vec![fake_drive("sync")]);
    let archive_bytes: Vec<(&str, &[u8])> = vec![("US/a.png", b"plate a"), ("US/b.png", b"plate b")];
    let mut drive_files: Vec<(String, Vec<u8>)> = vec![
        ("US/a.png".into(), b"plate a".to_vec()),
        ("US/b.png".into(), b"stale contents".to_vec()),
        ("US/old.png".into(), b"no longer in the archive".to_vec()),
    ];
    let mut rewritten = Vec::new();
    let mut gone: Vec<String> = Vec::new();
    let mut u = DriveUpdate::new(&p, &p.drives[0], 1_000);
    let members = u.members.clone().unwrap();
    while let Some(step) = u.current() {
        let report = match step {
            DriveStep::Extract(n) => {
                let dest = members[n].dest.clone();
                let bytes = archive_bytes.iter().find(|(d, _)| *d == dest).unwrap().1;
                let on_drive = drive_files.iter().find(|(d, _)| *d == dest).map(|(_, b)| b.as_slice());
                if job::plate_unchanged(bytes, on_drive) {
                    Report::Kept
                } else {
                    Report::Differs
                }
            }
            DriveStep::Write(n) => {
                let dest = members[n].dest.clone();
                let bytes = archive_bytes.iter().find(|(d, _)| *d == dest).unwrap().1;
                rewritten.push(dest.clone());
                drive_files.retain(|(d, _)| *d != dest);
                drive_files.push((dest, bytes.to_vec()));
                Report::Done
            }
            DriveStep::RemoveStale => {
                let names: Vec<String> = drive_files.iter().map(|(d, _)| d.clone()).collect();
                let stale = job::stale_plates(&names, &members);
                gone = stale.iter().map(|&k| names[k].clone()).collect();
                Report::Found(gone.len())
            }
            DriveStep::Prune => {
                drive_files.retain(|(d, _)| !gone.contains(d));
                Report::Done
            }
            other => all_well(other),
        };
        u.report(report);
    }
    assert!(matches!(ended(&u), DriveEnd::Updated));
    let (outcome, _) = job::settle(ended(&u), u.erased, "", "");
    assert_eq!(outcome, Outcome::Updated);
    // The identical plate was not rewritten; the differing one was.
    assert_eq!(rewritten, vec!["US/b.png".to_string()]);
    assert_eq!(drive_files.iter().find(|(d, _)| d == "US/b.png").unwrap().1, b"plate b".to_vec());
    // The plate missing from the archive is gone.
    assert!(!drive_files.iter().any(|(d, _)| d == "US/old.png"));
    let summary = job::kept_note("sync", u.plates_kept).expect("no sync summary logged");
    assert!(summary.contains("1 plates unchanged"), "got: {summary}");
    assert_eq!(u.plates_written, 1);
}

#[test]
fn plates_already_there_are_compared_byte_for_byte() {
    assert!(job::plate_unchanged(b"abc", Some(b"abc")));
    assert!(!job::plate_unchanged(b"abc", Some(b"abd")));
    assert!(!job::plate_unchanged(b"abc", Some(b"ab")));
    assert!(!job::plate_unchanged(b"abc", None));
    let members = archive().members_stripped(false);
    let on_drive = vec!["US/old.png".to_string(), "US/a.png".to_string(), "notes.txt".to_string()];
    assert_eq!(job::stale_plates(&on_drive, &members), vec![0, 2]);
    assert_eq!(job::kept_note("USB", 0), None);
}

fn package(name: &str, dups: &[&str]) -> scan::Package {
    let members: Vec<String> = dups.iter().map(|n| n.to_string()).collect();
    scan::package_from_members(name, &members).unwrap()
}

#[test]
fn a_duc_package_is_copied_whole_and_verified() {
    let mut p = plan(vec![fake_drive("FAKEUSB")]);
    p.aviation = None;
    p.obstacle = None;
    p.archive = None;
    p.package = Some("/tmp/dynon-job/downloads/FAA_av2608_ob2604.duc".into());
    p.cycle = package("FAA_av2608_ob2604.duc", &["av_data_FAA_2608.dup", "ob_data_FAA_2604.dup"]).aviation;
    let needed = p.bytes_per_drive(None, None, Some(5_000));
    assert_eq!(needed, 5_000);
    let mut u = DriveUpdate::new(&p, &p.drives[0], needed);
    // The package lands on the drive as-is, under its own name, then is read back.
    assert_eq!(u.package.as_deref(), Some("FAA_av2608_ob2604.duc"));
    let steps = run_drive(&mut u, |step| match step {
        DriveStep::ComparePackage => Report::Matched(job::copy_matches(b"package bytes", b"package bytes")),
        other => all_well(other),
    });
    assert_eq!(steps, vec![DriveStep::RemovePackages, DriveStep::CopyPackage, DriveStep::ComparePackage, DriveStep::Finish]);
    assert_eq!(job::settle(ended(&u), u.erased, "", "").0, Outcome::Updated);
    assert_eq!(
        job::step_heading(DriveStep::CopyPackage, "FAKEUSB", "FAA_av2608_ob2604.duc"),
        Some(("Copying database package to FAKEUSB".to_string(), "FAA_av2608_ob2604.duc".to_string()))
    );

    // A copy that reads back differently fails the drive.
    let mut u = DriveUpdate::new(&p, &p.drives[0], needed);
    run_drive(&mut u, |step| match step {
        DriveStep::ComparePackage => Report::Matched(job::copy_matches(b"package bytes", b"truncated")),
        other => all_well(other),
    });
    assert_eq!(
        job::settle(ended(&u), u.erased, "", "").0,
        Outcome::Failed(
            "the copy of FAA_av2608_ob2604.duc did not match the original. Nothing was left half-written".into()
        )
    );
}

#[test]
fn replacing_older_packages_retires_only_the_same_family() {
    let keep = package("FAA_av2608_ob2604.duc", &["av_data_FAA_2608.dup", "ob_data_FAA_2604.dup"]);
    let older = package("FAA_av2607_ob2604.duc", &["av_data_FAA_2607.dup", "ob_data_FAA_2604.dup"]);
    // An older database package of the same family: must be retired.
    assert!(job::is_superseded_package("FAA_av2607_ob2604.duc", &older, "FAA_av2608_ob2604.duc", &keep));
    // The package being installed, or a newer one, stays.
    assert!(!job::is_superseded_package("FAA_av2608_ob2604.duc", &keep, "FAA_av2608_ob2604.duc", &keep));
    assert!(!job::is_superseded_package("FAA_av2608_ob2604.duc", &keep, "FAA_av2607_ob2604.duc", &older));
    // A firmware package is not a database package, so it is never weighed.
    let members = vec!["firmware.bin".to_string()];
    assert!(scan::package_from_members("SkyView_16.4.4.duc", &members).is_none());
    // Without Replace Older Databases no package is removed.
    let mut p = plan(vec![fake_drive("FAKEUSB")]);
    p.archive = None;
    p.aviation = None;
    p.obstacle = None;
    p.replace_old = false;
    p.verify = false;
    p.package = Some("/d/FAA_av2608_ob2604.duc".into());
    let mut u = DriveUpdate::new(&p, &p.drives[0], 0);
    let steps = run_drive(&mut u, all_well);
    assert_eq!(steps, vec![DriveStep::CopyPackage, DriveStep::Finish]);
}

#[test]
fn drives_are_updated_concurrently_not_one_after_another() {
    let p = plan(vec![fake_drive("A"), fake_drive("B"), fake_drive("C")]);
    let mut run = job::RunProgress::new(&p.drives);
    // Drives start without waiting for the ones before them to finish.
    assert_eq!(run.next(false), job::RunStep::Update(0));
    assert_eq!(run.next(false), job::RunStep::Update(1));
    // Once stopped, a drive not yet started is skipped.
    assert_eq!(run.next(true), job::RunStep::Skip(2));
    run.record(2, job::skipped(&p.drives[2]));
    assert_eq!(run.next(false), job::RunStep::AllStarted);
    assert!(!run.finished());
    // Outcomes arrive in any order and land at their drive's position.
    run.record(1, job::outcome_of(&p.drives[1], Outcome::Updated, 3, 2, None));
    run.record(0, job::outcome_of(&p.drives[0], Outcome::Failed("the drive stopped accepting writes".into()), 1, 0, None));
    assert!(run.finished());
    let outcomes = run.into_outcomes();
    let names: Vec<&str> = outcomes.iter().map(|o| o.name.as_str()).collect();
    assert_eq!(names, vec!["A", "B", "C"]);
    assert_eq!(outcomes[1].result, Outcome::Updated);
    assert_eq!(outcomes[2].result, Outcome::Skipped);
}

#[test]
fn a_stop_before_any_plate_changed_leaves_the_drive_as_it_was() {
    let p = plan(vec![fake_drive("early")]);
    // The folder exists, but the stop comes before the first member.
    let mut u = DriveUpdate::new(&p, &p.drives[0], 1_000);
    run_drive(&mut u, |step| match step {
        DriveStep::Extract(0) => Report::Stopped,
        other => all_well(other),
    });
    assert!(u.folder_existed && !u.erased);
    assert_eq!(job::settle(ended(&u), u.erased, "", "").0, Outcome::Skipped);
    // Every plate so far was already there unchanged.
    let mut u = DriveUpdate::new(&p, &p.drives[0], 1_000);
    run_drive(&mut u, |step| match step {
        DriveStep::Extract(0) => Report::Kept,
        DriveStep::Extract(1) => Report::Stopped,
        other => all_well(other),
    });
    assert_eq!(job::settle(ended(&u), u.erased, "", "").0, Outcome::Skipped);
    // A plate that differs crosses the point of no return before it is written.
    let mut u = DriveUpdate::new(&p, &p.drives[0], 1_000);
    run_drive(&mut u, |step| match step {
        DriveStep::Write(0) => Report::Stopped,
        other => all_well(other),
    });
    assert!(u.erased);
    assert_eq!(job::settle(ended(&u), u.erased, "", "").0, Outcome::Interrupted);
}

#[test]
fn byte_counts_that_overflow_are_caught_first() {
    let p = plan(vec![fake_drive("A"), fake_drive("B")]);
    assert!(p.sizes_fit(Some(300_000), Some(120_000), None));
    assert!(!p.sizes_fit(Some(u64::MAX), Some(1), None));
    assert!(!p.sizes_fit(Some(u64::MAX / 2), None, None));
}

#[test]
fn a_copy_that_does_not_match_is_deleted_before_the_drive_fails() {
    let p = plan(vec![fake_drive("mismatch-delete")]);
    let mut u = DriveUpdate::new(&p, &p.drives[0], 1_000);
    let steps = run_drive(&mut u, |step| match step {
        DriveStep::Compare(DupKind::Aviation) => Report::Matched(false),
        other => all_well(other),
    });
    assert_eq!(steps.last(), Some(&DriveStep::Discard(DupKind::Aviation)));
    assert!(matches!(ended(&u), DriveEnd::Failed(FailReason::Mismatch(_))));
}
