//! What the window decides and says: which drives start selected, why the
//! update button is disabled, which banner shows, how a drive card, the
//! confirmation and the result page read. Widgets, sizes as the toolkit
//! formats them, and anything read off the disk come from the caller.

use crate::drive::{Drive, EmptyReason, TargetKind, available_of, spec_key};
use crate::job::{DriveOutcome, DriveState, Outcome, Severity, group, grouped, label_or_empty};
use crate::scan::{
    Archive, Cycle, DupFile, DupKind, cycle_label, file_name, file_name_chars, name_or_empty,
    is_newest, newest, parse_cycle, parse_cycle_chars, parse_entitlement, path_file_name, spec_parse_cycle,
    spec_parse_entitlement,
};
use crate::text::{
    chars_of, contains, decimal_string, decimal_text, has_infix, has_prefix, joined, lower_seq,
    lowercase, same,
    slice_to_string, starts_with, string_from,
};
use vstd::prelude::*;

verus! {

// ---------------------------------------------------------------------------
// Small texts
// ---------------------------------------------------------------------------

/// A list of drive names as a sentence names them: one name, two joined by
/// "and", or a count.
pub open spec fn names_text(names: Seq<Seq<char>>) -> Seq<char> {
    if names.len() == 0 {
        Seq::empty()
    } else if names.len() == 1 {
        names[0]
    } else if names.len() == 2 {
        names[0] + " and "@ + names[1]
    } else {
        decimal_text(names.len()) + " drives"@
    }
}

fn names_sentence(first: &str, second: &str, n: usize) -> (r: String)
    ensures
        n == 1 ==> r@ == first@,
        n == 2 ==> r@ == first@ + " and "@ + second@,
        n > 2 ==> r@ == decimal_text(n as nat) + " drives"@,
        n == 0 ==> r@ == Seq::<char>::empty(),
{
    if n == 0 {
        String::new()
    } else if n == 1 {
        joined(String::new(), first)
    } else if n == 2 {
        let r = joined(String::new(), first);
        let r = joined(r, " and ");
        joined(r, second)
    } else {
        joined(decimal_string(n as u64), " drives")
    }
}

pub fn drive_names_text(names: &[String]) -> (r: String)
    ensures
        r@ == names_text(names@.map_values(|s: String| s@)),
{
    let n = names.len();
    if n == 0 {
        names_sentence("", "", 0)
    } else if n == 1 {
        names_sentence(names[0].as_str(), "", 1)
    } else {
        names_sentence(names[0].as_str(), names[1].as_str(), n)
    }
}

pub fn drive_list_text(drives: &[Drive]) -> (r: String)
    ensures
        r@ == names_text(drives@.map_values(|d: Drive| d.name@)),
{
    let n = drives.len();
    if n == 0 {
        names_sentence("", "", 0)
    } else if n == 1 {
        names_sentence(drives[0].name.as_str(), "", 1)
    } else {
        names_sentence(drives[0].name.as_str(), drives[1].name.as_str(), n)
    }
}

/// "about {duration}": seconds under a minute (at least 1), whole minutes
/// (rounded) under an hour, else hours and minutes.
pub open spec fn spec_duration_text(s: nat) -> Seq<char> {
    if s < 60 {
        decimal_text(if s == 0 {
            1
        } else {
            s
        }) + " seconds"@
    } else if s < 3600 {
        let m = (s + 30) / 60;
        if m == 1 {
            "1 minute"@
        } else {
            decimal_text(m) + " minutes"@
        }
    } else {
        let h = s / 3600;
        decimal_text(h) + " hour"@ + (if h == 1 {
            ""@
        } else {
            "s"@
        }) + " "@ + decimal_text((s % 3600) / 60) + " minutes"@
    }
}

pub fn duration_text(seconds: u64) -> (r: String)
    ensures
        r@ == spec_duration_text(seconds as nat),
{
    if seconds < 60 {
        let s = if seconds == 0 {
            1
        } else {
            seconds
        };
        joined(decimal_string(s), " seconds")
    } else if seconds < 3600 {
        let m = (seconds + 30) / 60;
        if m == 1 {
            String::from_str("1 minute")
        } else {
            joined(decimal_string(m), " minutes")
        }
    } else {
        let h = seconds / 3600;
        let r = joined(decimal_string(h), " hour");
        let r = if h == 1 {
            joined(r, "")
        } else {
            joined(r, "s")
        };
        let r = joined(r, " ");
        let r = joined(r, decimal_string((seconds % 3600) / 60).as_str());
        joined(r, " minutes")
    }
}

/// "{m} min {s} s" style used on the result page's per-drive rows.
pub open spec fn spec_duration_precise(s: nat) -> Seq<char> {
    if s < 60 {
        decimal_text(s) + " s"@
    } else if s < 3600 {
        decimal_text(s / 60) + " min "@ + decimal_text(s % 60) + " s"@
    } else {
        decimal_text(s / 3600) + " h "@ + decimal_text((s % 3600) / 60) + " min"@
    }
}

pub fn duration_precise(seconds: u64) -> (r: String)
    ensures
        r@ == spec_duration_precise(seconds as nat),
{
    if seconds < 60 {
        joined(decimal_string(seconds), " s")
    } else if seconds < 3600 {
        let r = joined(decimal_string(seconds / 60), " min ");
        let r = joined(r, decimal_string(seconds % 60).as_str());
        joined(r, " s")
    } else {
        let r = joined(decimal_string(seconds / 3600), " h ");
        let r = joined(r, decimal_string((seconds % 3600) / 60).as_str());
        joined(r, " min")
    }
}

pub open spec fn spec_state_text(state: DriveState) -> Seq<char> {
    match state {
        DriveState::Waiting => "Waiting"@,
        DriveState::CopyingDatabases => "Copying databases"@,
        DriveState::CheckingCopies => "Checking copies"@,
        DriveState::ErasingPlates => "Erasing plates"@,
        DriveState::ExtractingPlates => "Extracting plates"@,
        DriveState::Finishing => "Finishing"@,
        DriveState::Done => "Done"@,
        DriveState::Failed => "Failed"@,
        DriveState::Skipped => "Skipped"@,
        DriveState::Stopped => "Stopped"@,
    }
}

pub fn drive_state_text(state: DriveState) -> (r: &'static str)
    ensures
        r@ == spec_state_text(state),
{
    match state {
        DriveState::Waiting => "Waiting",
        DriveState::CopyingDatabases => "Copying databases",
        DriveState::CheckingCopies => "Checking copies",
        DriveState::ErasingPlates => "Erasing plates",
        DriveState::ExtractingPlates => "Extracting plates",
        DriveState::Finishing => "Finishing",
        DriveState::Done => "Done",
        DriveState::Failed => "Failed",
        DriveState::Skipped => "Skipped",
        DriveState::Stopped => "Stopped",
    }
}

/// A drive row shows its spinner and bar while the drive is being worked on.
pub fn state_is_active(state: DriveState) -> (r: bool)
    ensures
        r == (state == DriveState::CopyingDatabases || state == DriveState::CheckingCopies || state
            == DriveState::ErasingPlates || state == DriveState::ExtractingPlates || state
            == DriveState::Finishing),
{
    match state {
        DriveState::CopyingDatabases | DriveState::CheckingCopies | DriveState::ErasingPlates
        | DriveState::ExtractingPlates | DriveState::Finishing => true,
        _ => false,
    }
}

/// How a run row shows a drive's state: the style class of the state label,
/// the icon beside it with the icon's class, and whether the failure reason
/// becomes the row's subtitle.
pub fn state_style(state: DriveState) -> (r: (Option<&'static str>, Option<(&'static str, &'static str)>, bool))
    ensures
        (match state {
            DriveState::Done => {
                &&& r.0 matches Some(c) && c@ == "success"@
                &&& r.1 matches Some((i, k)) && i@ == "emblem-ok-symbolic"@ && k@ == "success"@
                &&& !r.2
            },
            DriveState::Failed => {
                &&& r.0 matches Some(c) && c@ == "error"@
                &&& r.1 matches Some((i, k)) && i@ == "dialog-error-symbolic"@ && k@ == "error"@
                &&& r.2
            },
            DriveState::Skipped | DriveState::Stopped => {
                &&& r.0 matches Some(c) && c@ == "dimmed"@
                &&& r.1 is None
                &&& !r.2
            },
            _ => r.0 is None && r.1 is None && !r.2,
        }),
{
    match state {
        DriveState::Done => (Some("success"), Some(("emblem-ok-symbolic", "success")), false),
        DriveState::Failed => (Some("error"), Some(("dialog-error-symbolic", "error")), true),
        DriveState::Skipped | DriveState::Stopped => (Some("dimmed"), None, false),
        _ => (None, None, false),
    }
}

/// What a screen reader says for a run row: the drive's name and its state
/// in lower case.
pub fn row_label(name: &str, state: DriveState) -> (r: String)
    ensures
        r@ == name@ + ", "@ + lower_seq(spec_state_text(state)),
{
    let words = lowercase(&chars_of(drive_state_text(state)));
    let r = joined(String::new(), name);
    let r = joined(r, ", ");
    joined(r, string_from(words).as_str())
}

/// Whether a step's detail line replaces the one shown: while plates are
/// erased or extracted, while finishing, before any drive state is known,
/// and for the preparing step.
pub fn shows_step_detail(state: Option<DriveState>, step: &str) -> (r: bool)
    ensures
        r == (state is None || state == Some(DriveState::ExtractingPlates) || state == Some(
            DriveState::ErasingPlates,
        ) || state == Some(DriveState::Finishing) || has_prefix(step@, "Preparing"@)),
{
    let showing = match state {
        None => true,
        Some(DriveState::ExtractingPlates) | Some(DriveState::ErasingPlates) | Some(
            DriveState::Finishing,
        ) => true,
        _ => false,
    };
    showing || starts_with(&chars_of(step), &chars_of("Preparing"))
}

pub fn onoff(b: bool) -> (r: &'static str)
    ensures
        r@ == (if b {
            "on"@
        } else {
            "off"@
        }),
{
    if b {
        "on"
    } else {
        "off"
    }
}

/// The tag a log line carries in the exported log.
pub open spec fn spec_severity_tag(s: Severity) -> Seq<char> {
    match s {
        Severity::Success => "[ok]   "@,
        Severity::Warning => "[warn] "@,
        Severity::Error => "[error]"@,
        Severity::Info => "       "@,
    }
}

/// One line of the exported log: time, tab, tag, message.
pub fn log_line(time: &str, severity: Severity, message: &str) -> (r: String)
    ensures
        r@ == time@ + "\t"@ + spec_severity_tag(severity) + " "@ + message@ + "\n"@,
{
    let tag = match severity {
        Severity::Success => "[ok]   ",
        Severity::Warning => "[warn] ",
        Severity::Error => "[error]",
        Severity::Info => "       ",
    };
    let r = joined(String::new(), time);
    let r = joined(r, "\t");
    let r = joined(r, tag);
    let r = joined(r, " ");
    let r = joined(r, message);
    joined(r, "\n")
}

pub open spec fn spec_log_line(time: Seq<char>, severity: Severity, message: Seq<char>) -> Seq<char> {
    time + "\t"@ + spec_severity_tag(severity) + " "@ + message + "\n"@
}

/// The exported lines of a log, in the order they were written.
pub open spec fn log_lines(entries: Seq<(Severity, String, String)>) -> Seq<char>
    decreases entries.len(),
{
    if entries.len() == 0 {
        Seq::empty()
    } else {
        let e = entries.last();
        log_lines(entries.drop_last()) + spec_log_line(e.1@, e.0, e.2@)
    }
}

/// The exported log: the run's header (when a run wrote one), a rule, then
/// one line per entry.
pub fn log_export_text(header: Option<&str>, entries: &[(Severity, String, String)]) -> (r: String)
    ensures
        r@ == (match header {
            Some(h) => h@,
            None => Seq::<char>::empty(),
        }) + "---\n"@ + log_lines(entries@),
{
    let start = match header {
        Some(h) => joined(String::new(), h),
        None => String::new(),
    };
    let mut out = joined(start, "---\n");
    let ghost head = out@;
    let mut i: usize = 0;
    while i < entries.len()
        invariant
            i <= entries@.len(),
            out@ == head + log_lines(entries@.take(i as int)),
        decreases entries@.len() - i,
    {
        let e = &entries[i];
        let line = log_line(e.1.as_str(), e.0, e.2.as_str());
        proof {
            assert(entries@.take(i + 1).drop_last() =~= entries@.take(i as int));
        }
        out = joined(out, line.as_str());
        i += 1;
    }
    assert(entries@.take(entries@.len() as int) =~= entries@);
    out
}

/// How a log row looks: its icon, the style class of icon and message, and
/// the word a screen reader says first.
pub open spec fn spec_severity_style(s: Severity) -> (Option<Seq<char>>, Seq<char>, Seq<char>) {
    match s {
        Severity::Info => (None, ""@, ""@),
        Severity::Success => (Some("emblem-ok-symbolic"@), "success"@, "Success. "@),
        Severity::Warning => (Some("dialog-warning-symbolic"@), "warning"@, "Warning. "@),
        Severity::Error => (Some("dialog-error-symbolic"@), "error"@, "Error. "@),
    }
}

pub fn severity_style(s: Severity) -> (r: (Option<&'static str>, &'static str, &'static str))
    ensures
        (match r.0 {
            Some(icon) => Some(icon@),
            None => None,
        }) == spec_severity_style(s).0,
        r.1@ == spec_severity_style(s).1,
        r.2@ == spec_severity_style(s).2,
{
    match s {
        Severity::Info => (None, "", ""),
        Severity::Success => (Some("emblem-ok-symbolic"), "success", "Success. "),
        Severity::Warning => (Some("dialog-warning-symbolic"), "warning", "Warning. "),
        Severity::Error => (Some("dialog-error-symbolic"), "error", "Error. "),
    }
}

/// The header of a run's log, one line each for the source folder, the
/// databases, the plates archive, the drives and the options.
pub open spec fn spec_source_line(label: Seq<char>, path: Seq<char>, size_text: Seq<char>) -> Seq<char> {
    let name = name_or_empty(path);
    label + name + " (Cycle "@ + label_or_empty(spec_parse_cycle(name)) + ", "@ + size_text
        + ")\n"@
}

pub open spec fn drive_entry(d: Drive) -> Seq<char> {
    d.name@ + " ("@ + d.path@ + ")"@
}

/// The drives as the log header lists them: "name (path)", comma separated.
pub open spec fn drive_entries(ds: Seq<Drive>) -> Seq<char>
    decreases ds.len(),
{
    if ds.len() == 0 {
        Seq::empty()
    } else if ds.len() == 1 {
        drive_entry(ds[0])
    } else {
        drive_entries(ds.drop_last()) + ", "@ + drive_entry(ds.last())
    }
}

pub open spec fn spec_onoff(b: bool) -> Seq<char> {
    if b {
        "on"@
    } else {
        "off"@
    }
}

pub open spec fn header_intro(started: Seq<char>, folder: Option<&str>) -> Seq<char> {
    "Dynon USB Updater 1.0 — log started "@ + started + "\n"@ + (match folder {
        Some(f) => "Source folder: "@ + f@ + "\n"@,
        None => Seq::empty(),
    })
}

pub open spec fn header_source(label: Seq<char>, source: Option<(&str, &str)>) -> Seq<char> {
    match source {
        Some((p, s)) => spec_source_line(label, p@, s@),
        None => Seq::empty(),
    }
}

pub open spec fn header_plates(plates: Option<(&str, u64, &str)>) -> Seq<char> {
    match plates {
        Some((n, c, s)) => "Plates:    "@ + n@ + " ("@ + grouped(c as nat) + " files, "@ + s@
            + ")\n"@,
        None => Seq::empty(),
    }
}

pub open spec fn header_tail(drives: Seq<Drive>, verify: bool, replace_old: bool, eject: bool) -> Seq<
    char,
> {
    "Drives:    "@ + drive_entries(drives) + "\n"@ + "Options:   verify="@ + spec_onoff(verify)
        + " replace-old="@ + spec_onoff(replace_old) + " eject="@ + spec_onoff(eject) + "\n"@
}

pub open spec fn spec_log_header(
    started: Seq<char>,
    folder: Option<&str>,
    aviation: Option<(&str, &str)>,
    obstacle: Option<(&str, &str)>,
    plates: Option<(&str, u64, &str)>,
    drives: Seq<Drive>,
    verify: bool,
    replace_old: bool,
    eject: bool,
) -> Seq<char> {
    header_intro(started, folder) + header_source("Aviation:  "@, aviation) + header_source(
        "Obstacle:  "@,
        obstacle,
    ) + header_plates(plates) + header_tail(drives, verify, replace_old, eject)
}

fn source_line(label: &str, path: &str, size_text: &str) -> (r: String)
    ensures
        r@ == spec_source_line(label@, path@, size_text@),
{
    let name = path_file_name(path);
    let cycle = match parse_cycle(name.as_str()) {
        Some(c) => c.label(),
        None => String::new(),
    };
    let r = joined(String::new(), label);
    let r = joined(r, name.as_str());
    let r = joined(r, " (Cycle ");
    let r = joined(r, cycle.as_str());
    let r = joined(r, ", ");
    let r = joined(r, size_text);
    joined(r, ")\n")
}

fn drives_text(drives: &[Drive]) -> (r: String)
    ensures
        r@ == drive_entries(drives@),
{
    let mut out = String::new();
    let mut i: usize = 0;
    while i < drives.len()
        invariant
            i <= drives@.len(),
            out@ == drive_entries(drives@.take(i as int)),
        decreases drives@.len() - i,
    {
        proof {
            assert(drives@.take(i + 1).drop_last() =~= drives@.take(i as int));
        }
        if i > 0 {
            out = joined(out, ", ");
        }
        out = joined(out, drives[i].name.as_str());
        out = joined(out, " (");
        out = joined(out, drives[i].path.as_str());
        out = joined(out, ")");
        i += 1;
    }
    assert(drives@.take(drives@.len() as int) =~= drives@);
    out
}

fn intro_text(started: &str, folder: Option<&str>) -> (r: String)
    ensures
        r@ == header_intro(started@, folder),
{
    let out = joined(String::new(), "Dynon USB Updater 1.0 — log started ");
    let out = joined(out, started);
    let out = joined(out, "\n");
    match folder {
        Some(f) => {
            let o = joined(out, "Source folder: ");
            let o = joined(o, f);
            joined(o, "\n")
        },
        None => out,
    }
}

fn source_text(label: &str, source: Option<(&str, &str)>) -> (r: String)
    ensures
        r@ == header_source(label@, source),
{
    match source {
        Some((p, s)) => source_line(label, p, s),
        None => String::new(),
    }
}

fn plates_text(plates: Option<(&str, u64, &str)>) -> (r: String)
    ensures
        r@ == header_plates(plates),
{
    match plates {
        Some((n, c, s)) => {
            let o = joined(String::new(), "Plates:    ");
            let o = joined(o, n);
            let o = joined(o, " (");
            let o = joined(o, group(c).as_str());
            let o = joined(o, " files, ");
            let o = joined(o, s);
            joined(o, ")\n")
        },
        None => String::new(),
    }
}

fn tail_text(drives: &[Drive], verify: bool, replace_old: bool, eject: bool) -> (r: String)
    ensures
        r@ == header_tail(drives@, verify, replace_old, eject),
{
    let out = joined(String::new(), "Drives:    ");
    let out = joined(out, drives_text(drives).as_str());
    let out = joined(out, "\n");
    let out = joined(out, "Options:   verify=");
    let out = joined(out, onoff(verify));
    let out = joined(out, " replace-old=");
    let out = joined(out, onoff(replace_old));
    let out = joined(out, " eject=");
    let out = joined(out, onoff(eject));
    joined(out, "\n")
}

pub fn log_header_text(
    started: &str,
    folder: Option<&str>,
    aviation: Option<(&str, &str)>,
    obstacle: Option<(&str, &str)>,
    plates: Option<(&str, u64, &str)>,
    drives: &[Drive],
    verify: bool,
    replace_old: bool,
    eject: bool,
) -> (r: String)
    ensures
        r@ == spec_log_header(
            started@,
            folder,
            aviation,
            obstacle,
            plates,
            drives@,
            verify,
            replace_old,
            eject,
        ),
{
    let out = intro_text(started, folder);
    let out = joined(out, source_text("Aviation:  ", aviation).as_str());
    let out = joined(out, source_text("Obstacle:  ", obstacle).as_str());
    let out = joined(out, plates_text(plates).as_str());
    joined(out, tail_text(drives, verify, replace_old, eject).as_str())
}

/// A path as the window shows it: the home folder, when the path starts with
/// it, written as `~`.
pub fn abbreviate(path: &str, home: Option<&str>) -> (r: String)
    ensures
        r@ == (match home {
            Some(h) => if has_prefix(path@, h@) {
                seq!['~'] + path@.skip(h@.len() as int)
            } else {
                path@
            },
            None => path@,
        }),
{
    let p = chars_of(path);
    match home {
        Some(h) => {
            let hc = chars_of(h);
            if starts_with(&p, &hc) {
                let mut v: Vec<char> = Vec::new();
                v.push('~');
                let mut i = hc.len();
                while i < p.len()
                    invariant
                        hc@.len() <= i <= p@.len(),
                        v@ == seq!['~'] + p@.subrange(hc@.len() as int, i as int),
                    decreases p@.len() - i,
                {
                    v.push(p[i]);
                    i += 1;
                }
                assert(p@.subrange(hc@.len() as int, p@.len() as int) =~= p@.skip(hc@.len() as int));
                string_from(v)
            } else {
                joined(String::new(), path)
            }
        },
        None => joined(String::new(), path),
    }
}

/// How many run logs are kept.
pub const LOGS_KEPT: usize = 20;

/// Of `count` run logs sorted oldest first, how many to delete so that the
/// last `LOGS_KEPT` stay.
pub fn logs_to_delete(count: usize) -> (r: usize)
    ensures
        r == (if count > LOGS_KEPT {
            count - LOGS_KEPT
        } else {
            0
        }),
{
    if count > LOGS_KEPT {
        count - LOGS_KEPT
    } else {
        0
    }
}

/// What `char::to_uppercase` gives for `c`: its Unicode uppercase mapping,
/// one or more characters.
pub uninterp spec fn uppercase_of(c: char) -> Seq<char>;

/// `char::to_uppercase`, collected.
#[verifier::external_body]
fn upper(c: char) -> (r: String)
    ensures
        r@ == uppercase_of(c),
{
    c.to_uppercase().collect::<String>()
}

/// The sentence with its first character in upper case.
pub fn capitalize(s: &str) -> (r: String)
    ensures
        s@.len() == 0 ==> r@ == Seq::<char>::empty(),
        s@.len() > 0 ==> r@ == uppercase_of(s@[0]) + s@.subrange(1, s@.len() as int),
{
    let v = chars_of(s);
    if v.len() == 0 {
        return String::new();
    }
    let head = upper(v[0]);
    let rest = slice_to_string(&v, 1, v.len());
    joined(head, rest.as_str())
}

// ---------------------------------------------------------------------------
// The chosen sources
// ---------------------------------------------------------------------------

/// What the prepare page has chosen to copy.
pub struct Sources {
    pub folder: Option<String>,
    pub dups: Vec<DupFile>,
    pub aviation: Option<String>,
    pub obstacle: Option<String>,
    pub skip_aviation: bool,
    pub skip_obstacle: bool,
    pub archive: Option<Archive>,
    pub archive_error: Option<String>,
    /// The file the failed read attempt was for, so the banner can name it.
    pub archive_error_path: Option<String>,
    /// File name of an archive currently being read.
    pub archive_loading: Option<String>,
    pub strip_wrapper: bool,
}

/// The cycle in a database path's file name.
pub open spec fn path_cycle(p: Option<String>) -> Option<Cycle> {
    match p {
        Some(x) => match file_name(x@) {
            Some(n) => spec_parse_cycle(n),
            None => None,
        },
        None => None,
    }
}

/// The entitlement id in a database path's file name.
pub open spec fn path_entitlement(p: Option<String>) -> Option<Seq<char>> {
    match p {
        Some(x) => match file_name(x@) {
            Some(n) => spec_parse_entitlement(n),
            None => None,
        },
        None => None,
    }
}

pub open spec fn spec_db_cycle(s: Sources) -> Option<Cycle> {
    if path_cycle(s.aviation) is Some {
        path_cycle(s.aviation)
    } else {
        path_cycle(s.obstacle)
    }
}

pub open spec fn spec_sources_cycle(s: Sources) -> Option<Cycle> {
    if spec_db_cycle(s) is Some {
        spec_db_cycle(s)
    } else {
        match s.archive {
            Some(a) => a.cycle,
            None => None,
        }
    }
}

fn cycle_of_path(p: &Option<String>) -> (r: Option<Cycle>)
    ensures
        r == path_cycle(*p),
{
    match p {
        Some(x) => match file_name_chars(x.as_str()) {
            Some(n) => parse_cycle_chars(&n),
            None => None,
        },
        None => None,
    }
}

impl Sources {
    /// The cycle being installed: the databases', else the archive's.
    pub fn cycle(&self) -> (r: Option<Cycle>)
        ensures
            r == spec_sources_cycle(*self),
    {
        let c = self.db_cycle();
        if c.is_some() {
            c
        } else {
            match &self.archive {
                Some(a) => a.cycle,
                None => None,
            }
        }
    }

    /// The cycle from the databases alone (aviation first), ignoring the
    /// archive, so that an archive of another cycle can be pointed out.
    pub fn db_cycle(&self) -> (r: Option<Cycle>)
        ensures
            r == spec_db_cycle(*self),
    {
        let a = cycle_of_path(&self.aviation);
        if a.is_some() {
            a
        } else {
            cycle_of_path(&self.obstacle)
        }
    }

    pub fn anything_to_copy(&self) -> (r: bool)
        ensures
            r == (self.aviation is Some || self.obstacle is Some || self.archive is Some),
    {
        self.aviation.is_some() || self.obstacle.is_some() || self.archive.is_some()
    }

    /// The drive's chart-key id when it names a different SkyView than the
    /// databases do (the aviation database's name, else the obstacle's).
    pub fn entitlement_mismatch(&self, drive: &Drive) -> (r: Option<String>)
        ensures
            ({
                let src = if self.aviation is Some {
                    path_entitlement(self.aviation)
                } else {
                    path_entitlement(self.obstacle)
                };
                match (src, drive.entitlement) {
                    (Some(a), Some(b)) => if a != b@ {
                        r matches Some(x) && x@ == b@
                    } else {
                        r is None
                    },
                    _ => r is None,
                }
            }),
    {
        let path = if self.aviation.is_some() {
            &self.aviation
        } else {
            &self.obstacle
        };
        let source_id = match path {
            Some(p) => match file_name_chars(p.as_str()) {
                Some(n) => {
                    let name = string_from(n);
                    parse_entitlement(name.as_str())
                },
                None => None,
            },
            None => None,
        };
        let source_id = match source_id {
            Some(x) => x,
            None => {
                return None;
            },
        };
        let drive_id = match &drive.entitlement {
            Some(x) => x.clone(),
            None => {
                return None;
            },
        };
        if same(&chars_of(drive_id.as_str()), &chars_of(source_id.as_str())) {
            None
        } else {
            Some(drive_id)
        }
    }
}

// ---------------------------------------------------------------------------
// Which drives start selected
// ---------------------------------------------------------------------------

/// A drive an update can go to as it stands.
pub open spec fn spec_ready(d: Drive, needed: u64) -> bool {
    d.score >= 2 && d.writable && needed <= available_of(d)
}

pub open spec fn contains_key(keys: Seq<String>, k: Seq<char>) -> bool {
    exists|i: int| 0 <= i < keys.len() && keys[i]@ == k
}

fn has_key(keys: &[String], k: &str) -> (r: bool)
    ensures
        r == contains_key(keys@, k@),
{
    let kc = chars_of(k);
    let mut i: usize = 0;
    while i < keys.len()
        invariant
            i <= keys@.len(),
            kc@ == k@,
            forall|j: int| 0 <= j < i ==> keys@[j]@ != k@,
        decreases keys.len() - i,
    {
        if same(&chars_of(keys[i].as_str()), &kc) {
            return true;
        }
        i += 1;
    }
    false
}

/// Whether a drive's card starts selected. With a selection carried over,
/// the drive keeps its place in it. Otherwise only a drive ready for the
/// update starts selected, and one already on the target cycle only when it
/// was selected last time.
pub open spec fn spec_preselected(
    drive: Drive,
    needed: u64,
    target: Option<Cycle>,
    previously_checked: Seq<String>,
    remembered: Seq<String>,
) -> bool {
    let key = spec_key(drive);
    let ready = spec_ready(drive, needed) && drive.reachable;
    let up_to_date = target is Some && drive.installed_cycle == target;
    if previously_checked.len() == 0 {
        ready && (!up_to_date || contains_key(remembered, key))
    } else {
        contains_key(previously_checked, key)
    }
}

pub fn preselected(
    drive: &Drive,
    needed: u64,
    target: Option<Cycle>,
    previously_checked: &[String],
    remembered: &[String],
) -> (r: bool)
    ensures
        r == spec_preselected(*drive, needed, target, previously_checked@, remembered@),
{
    let key = drive.key();
    if previously_checked.len() > 0 {
        return has_key(previously_checked, key.as_str());
    }
    let ready = drive.recognised() && drive.writable && drive.fits(needed) && drive.reachable;
    let up_to_date = target.is_some() && drive.installed_cycle == target;
    ready && (!up_to_date || has_key(remembered, key.as_str()))
}

/// With no selection carried over, a drive starts selected only when it is a
/// recognised SkyView drive, connected, writable and with room for the
/// update; an unrelated stick never does.
pub proof fn law_only_ready_drives_start_selected(
    drive: Drive,
    needed: u64,
    target: Option<Cycle>,
    remembered: Seq<String>,
)
    ensures
        spec_preselected(drive, needed, target, Seq::empty(), remembered) ==> drive.score >= 2
            && drive.reachable && drive.writable && needed <= available_of(drive),
        spec_preselected(drive, needed, target, Seq::empty(), remembered) && target is Some
            && drive.installed_cycle == target ==> contains_key(remembered, spec_key(drive)),
{
}

/// With no selection carried over, every ready drive starts selected: a
/// recognised SkyView drive, connected and writable, whose free space plus
/// what clearing its old plates frees covers the update, and which is not
/// already on the cycle being installed.
pub proof fn law_ready_drives_start_selected(
    drive: Drive,
    needed: u64,
    target: Option<Cycle>,
    remembered: Seq<String>,
)
    requires
        drive.score >= 2,
        drive.reachable,
        drive.writable,
        needed <= drive.free + (match drive.reclaimable {
            Some((bytes, _)) => bytes as int,
            None => 0int,
        }),
        !(target is Some && drive.installed_cycle == target),
    ensures
        spec_preselected(drive, needed, target, Seq::empty(), remembered),
{
}

/// "Select all ready drives" picks a drive that is recognised, writable and
/// has room.
pub fn ready_to_select(drive: &Drive, needed: u64) -> (r: bool)
    ensures
        r == spec_ready(*drive, needed),
{
    drive.recognised() && drive.writable && drive.fits(needed)
}

// ---------------------------------------------------------------------------
// Searching the drive cards
// ---------------------------------------------------------------------------

/// The tests the window puts drive cards to.
#[derive(Debug, Clone, Copy, PartialEq, Eq, Structural)]
pub enum CardTest {
    /// Selected, connected, and not writable.
    SelectedUnwritable,
    /// Selected, connected, writable, and without room for the update.
    SelectedFull,
    /// A folder target that is not connected.
    FolderGone,
    /// Its chart key names a different SkyView than the databases.
    OtherSkyView,
}

/// The databases' entitlement id and the drive's differ.
pub open spec fn spec_mismatch(s: Sources, d: Drive) -> bool {
    let src = if s.aviation is Some {
        path_entitlement(s.aviation)
    } else {
        path_entitlement(s.obstacle)
    };
    match (src, d.entitlement) {
        (Some(a), Some(b)) => a != b@,
        _ => false,
    }
}

pub open spec fn passes(
    t: CardTest,
    s: Sources,
    cards: Seq<Drive>,
    active: Seq<bool>,
    needed: u64,
    k: int,
) -> bool {
    let d = cards[k];
    match t {
        CardTest::SelectedUnwritable => active[k] && d.reachable && !d.writable,
        CardTest::SelectedFull => active[k] && d.reachable && d.writable && !(needed
            <= available_of(d)),
        CardTest::FolderGone => d.kind == TargetKind::Folder && !d.reachable,
        CardTest::OtherSkyView => spec_mismatch(s, d),
    }
}

/// The first card from position `k` on that passes `t`.
pub open spec fn first_card(
    t: CardTest,
    s: Sources,
    cards: Seq<Drive>,
    active: Seq<bool>,
    needed: u64,
    k: int,
) -> Option<int>
    decreases cards.len() - k,
{
    if k < 0 || k >= cards.len() {
        None
    } else if passes(t, s, cards, active, needed, k) {
        Some(k)
    } else {
        first_card(t, s, cards, active, needed, k + 1)
    }
}

pub fn find_card(t: CardTest, s: &Sources, cards: &[Drive], active: &[bool], needed: u64) -> (r:
    Option<usize>)
    requires
        cards@.len() == active@.len(),
    ensures
        r matches Some(k) ==> k < cards@.len() && first_card(t, *s, cards@, active@, needed, 0)
            == Some(k as int),
        r is None ==> first_card(t, *s, cards@, active@, needed, 0) is None,
{
    let mut k: usize = 0;
    while k < cards.len()
        invariant
            k <= cards@.len(),
            cards@.len() == active@.len(),
            first_card(t, *s, cards@, active@, needed, k as int) == first_card(
                t,
                *s,
                cards@,
                active@,
                needed,
                0,
            ),
        decreases cards.len() - k,
    {
        let d = &cards[k];
        let hit = match t {
            CardTest::SelectedUnwritable => active[k] && d.reachable && !d.writable,
            CardTest::SelectedFull => active[k] && d.reachable && d.writable && !d.fits(needed),
            CardTest::FolderGone => d.kind == TargetKind::Folder && !d.reachable,
            CardTest::OtherSkyView => s.entitlement_mismatch(d).is_some(),
        };
        if hit {
            return Some(k);
        }
        k += 1;
    }
    None
}

// ---------------------------------------------------------------------------
// Why the update button is disabled
// ---------------------------------------------------------------------------

pub open spec fn some_active(active: Seq<bool>) -> bool {
    exists|k: int| 0 <= k < active.len() && active[k]
}

/// The reason the update cannot start yet, in the order the user has to
/// deal with them; `None` when it can. `folder_is_dir` tells whether the
/// chosen source folder is still a folder, `folder_label` is how it is shown.
pub open spec fn spec_readiness(
    s: Sources,
    folder_is_dir: bool,
    folder_label: Seq<char>,
    cards: Seq<Drive>,
    active: Seq<bool>,
    needed: u64,
) -> Option<Seq<char>> {
    if s.folder is None || !folder_is_dir {
        Some("Choose a folder that contains this cycle's files"@)
    } else if s.dups@.len() == 0 {
        Some("No aviation or obstacle database found in "@ + folder_label)
    } else if !(s.aviation is Some || s.obstacle is Some || s.archive is Some) {
        Some("Choose at least one database or a plates archive to copy"@)
    } else if s.archive_loading is Some {
        Some("Still reading "@ + s.archive_loading.unwrap()@ + "…"@)
    } else if cards.len() == 0 {
        Some("Plug in a USB drive, or choose a drive folder, to continue"@)
    } else if !some_active(active) {
        Some("Select a drive to continue"@)
    } else {
        match first_card(CardTest::SelectedUnwritable, s, cards, active, needed, 0) {
            Some(k) => Some(cards[k].name@ + " can't be written to — deselect it to continue"@),
            None => match first_card(CardTest::SelectedFull, s, cards, active, needed, 0) {
                Some(k) => Some(
                    cards[k].name@ + " doesn't have room for this update — deselect it to continue"@,
                ),
                None => None,
            },
        }
    }
}

/// The update button is never held back in silence: whenever the update
/// cannot start, the reason shown beneath the button has words in it.
pub proof fn law_a_blocked_update_always_says_why(
    s: Sources,
    folder_is_dir: bool,
    folder_label: Seq<char>,
    cards: Seq<Drive>,
    active: Seq<bool>,
    needed: u64,
)
    ensures
        spec_readiness(s, folder_is_dir, folder_label, cards, active, needed) matches Some(t)
            ==> t.len() > 0,
{
    reveal_strlit("Choose a folder that contains this cycle's files");
    reveal_strlit("No aviation or obstacle database found in ");
    reveal_strlit("Choose at least one database or a plates archive to copy");
    reveal_strlit("Still reading ");
    reveal_strlit("Plug in a USB drive, or choose a drive folder, to continue");
    reveal_strlit("Select a drive to continue");
    reveal_strlit(" can't be written to — deselect it to continue");
    reveal_strlit(" doesn't have room for this update — deselect it to continue");
}

fn any_true(v: &[bool]) -> (r: bool)
    ensures
        r == some_active(v@),
{
    let mut k: usize = 0;
    while k < v.len()
        invariant
            k <= v@.len(),
            forall|j: int| 0 <= j < k ==> !v@[j],
        decreases v.len() - k,
    {
        if v[k] {
            return true;
        }
        k += 1;
    }
    false
}

pub fn readiness_reason(
    s: &Sources,
    folder_is_dir: bool,
    folder_label: &str,
    cards: &[Drive],
    active: &[bool],
    needed: u64,
) -> (r: Option<String>)
    requires
        cards@.len() == active@.len(),
    ensures
        match spec_readiness(*s, folder_is_dir, folder_label@, cards@, active@, needed) {
            Some(t) => r matches Some(x) && x@ == t,
            None => r is None,
        },
{
    if s.folder.is_none() || !folder_is_dir {
        return Some(String::from_str("Choose a folder that contains this cycle's files"));
    }
    if s.dups.len() == 0 {
        return Some(
            joined(String::from_str("No aviation or obstacle database found in "), folder_label),
        );
    }
    if !s.anything_to_copy() {
        return Some(String::from_str("Choose at least one database or a plates archive to copy"));
    }
    match &s.archive_loading {
        Some(name) => {
            let r = joined(String::from_str("Still reading "), name.as_str());
            return Some(joined(r, "…"));
        },
        None => {},
    }
    if cards.len() == 0 {
        return Some(
            String::from_str("Plug in a USB drive, or choose a drive folder, to continue"),
        );
    }
    if !any_true(active) {
        return Some(String::from_str("Select a drive to continue"));
    }
    match find_card(CardTest::SelectedUnwritable, s, cards, active, needed) {
        Some(k) => {
            return Some(
                joined(
                    cards[k].name.clone(),
                    " can't be written to — deselect it to continue",
                ),
            );
        },
        None => {},
    }
    match find_card(CardTest::SelectedFull, s, cards, active, needed) {
        Some(k) => Some(
            joined(
                cards[k].name.clone(),
                " doesn't have room for this update — deselect it to continue",
            ),
        ),
        None => None,
    }
}

/// The update button's label for the selected drives: a lone drive by name
/// when the name is 16 characters or fewer.
pub open spec fn spec_update_label(selected: Seq<Drive>) -> Seq<char> {
    if selected.len() == 0 {
        "Update Drives"@
    } else if selected.len() == 1 {
        if selected[0].name@.len() <= 16 {
            "Update "@ + selected[0].name@
        } else {
            "Update 1 Drive"@
        }
    } else {
        "Update "@ + decimal_text(selected.len()) + " Drives"@
    }
}

pub fn update_label(selected: &[Drive]) -> (r: String)
    ensures
        r@ == spec_update_label(selected@),
{
    let n = selected.len();
    if n == 0 {
        String::from_str("Update Drives")
    } else if n == 1 {
        if chars_of(selected[0].name.as_str()).len() <= 16 {
            joined(String::from_str("Update "), selected[0].name.as_str())
        } else {
            String::from_str("Update 1 Drive")
        }
    } else {
        let r = joined(String::from_str("Update "), decimal_string(n as u64).as_str());
        joined(r, " Drives")
    }
}

pub open spec fn any_installed(ds: Seq<Drive>) -> bool {
    exists|k: int| 0 <= k < ds.len() && ds[k].installed_cycle is Some
}

/// The line under the update button once it can start: what is written
/// where and for about how long, and the options that apply.
pub fn ready_summary(
    needed_text: &str,
    selected: &[Drive],
    duration: &str,
    verify: bool,
    replace_old: bool,
) -> (r: String)
    ensures
        r@ == "Writes "@ + needed_text@ + " to "@ + names_text(
            selected@.map_values(|d: Drive| d.name@),
        ) + " · about "@ + duration@ + (if verify {
            " · copies verified"@
        } else {
            ""@
        }) + (if replace_old && any_installed(selected@) {
            " · old databases replaced"@
        } else {
            ""@
        }),
{
    let r = joined(String::from_str("Writes "), needed_text);
    let r = joined(r, " to ");
    let r = joined(r, drive_list_text(selected).as_str());
    let r = joined(r, " · about ");
    let r = joined(r, duration);
    let r = if verify {
        joined(r, " · copies verified")
    } else {
        joined(r, "")
    };
    let mut installed = false;
    let mut k: usize = 0;
    while k < selected.len()
        invariant
            k <= selected@.len(),
            installed == exists|j: int| 0 <= j < k && selected@[j].installed_cycle is Some,
        decreases selected.len() - k,
    {
        if selected[k].installed_cycle.is_some() {
            installed = true;
        }
        k += 1;
    }
    if replace_old && installed {
        joined(r, " · old databases replaced")
    } else {
        joined(r, "")
    }
}

// ---------------------------------------------------------------------------
// The banner
// ---------------------------------------------------------------------------

/// What a banner's button, if any, does.
#[derive(Debug, Clone)]
pub enum BannerAction {
    ChooseFolder,
    ChooseArchive,
    /// Deselect the drive with this key.
    Deselect(String),
    /// Explain the drive's registration; the drive's key.
    Details(String),
    /// Choose the folder target at this path again.
    ChooseAgain(String),
}

/// The banner at the top of the prepare page, and its button.
pub struct Banner {
    pub title: String,
    pub button: Option<(&'static str, BannerAction)>,
}

#[derive(PartialEq, Eq, Structural)]
pub enum ActionKind {
    ChooseFolder,
    ChooseArchive,
    Deselect,
    Details,
    ChooseAgain,
}

/// A banner as the rules describe it: its title, and its button's label,
/// action and the key or path the action is for.
pub struct BannerSpec {
    pub title: Seq<char>,
    pub button: Option<(Seq<char>, ActionKind, Seq<char>)>,
}

pub open spec fn action_is(a: BannerAction, k: ActionKind, payload: Seq<char>) -> bool {
    match a {
        BannerAction::ChooseFolder => k == ActionKind::ChooseFolder,
        BannerAction::ChooseArchive => k == ActionKind::ChooseArchive,
        BannerAction::Deselect(x) => k == ActionKind::Deselect && x@ == payload,
        BannerAction::Details(x) => k == ActionKind::Details && x@ == payload,
        BannerAction::ChooseAgain(x) => k == ActionKind::ChooseAgain && x@ == payload,
    }
}

pub open spec fn banner_is(b: Banner, e: BannerSpec) -> bool {
    &&& b.title@ == e.title
    &&& match (b.button, e.button) {
        (None, None) => true,
        (Some((l, a)), Some((el, k, p))) => l@ == el && action_is(a, k, p),
        _ => false,
    }
}

pub open spec fn plain(title: Seq<char>) -> Option<BannerSpec> {
    Some(BannerSpec { title, button: None })
}

pub open spec fn with_button(
    title: Seq<char>,
    label: Seq<char>,
    k: ActionKind,
    payload: Seq<char>,
) -> Option<BannerSpec> {
    Some(BannerSpec { title, button: Some((label, k, payload)) })
}

pub open spec fn has_kind(dups: Seq<DupFile>, k: DupKind) -> bool {
    exists|i: int| 0 <= i < dups.len() && dups[i].kind == k
}

pub open spec fn none_recognised(cards: Seq<Drive>) -> bool {
    forall|i: int| 0 <= i < cards.len() ==> cards[i].score < 2
}

/// The banner the prepare page shows, the first of these that applies: an
/// archive with unsafe paths; an unreadable archive; a source folder gone; a
/// selected drive that cannot be written to; one without room; a folder
/// target gone; a folder without databases; a drive registered to another
/// SkyView; an archive of another cycle than the databases; one database kind
/// missing; no SkyView drive among the drives; the first run.
pub open spec fn spec_banner(
    s: Sources,
    folder_is_dir: bool,
    label: Seq<char>,
    cards: Seq<Drive>,
    active: Seq<bool>,
    needed: u64,
    first_run_done: bool,
) -> Option<BannerSpec> {
    let err_name = match s.archive_error_path {
        Some(p) => name_or_empty(p@),
        None => Seq::empty(),
    };
    let bad = first_card(CardTest::SelectedUnwritable, s, cards, active, needed, 0);
    let full = first_card(CardTest::SelectedFull, s, cards, active, needed, 0);
    let gone = first_card(CardTest::FolderGone, s, cards, active, needed, 0);
    let other = first_card(CardTest::OtherSkyView, s, cards, active, needed, 0);
    let has_av = has_kind(s.dups@, DupKind::Aviation);
    let has_ob = has_kind(s.dups@, DupKind::Obstacle);
    if s.archive_error is Some && s.archive_error_path is Some && has_infix(
        s.archive_error.unwrap()@,
        "unsafe file paths"@,
    ) {
        plain(err_name + " contains unsafe file paths and will not be used."@)
    } else if s.archive_error is Some && s.archive_error_path is Some {
        with_button(
            err_name + " could not be read as a plates archive."@,
            "Choose Another…"@,
            ActionKind::ChooseArchive,
            Seq::empty(),
        )
    } else if s.folder is Some && !folder_is_dir {
        with_button(
            "The folder "@ + label + " is no longer available."@,
            "Choose Folder…"@,
            ActionKind::ChooseFolder,
            Seq::empty(),
        )
    } else if bad is Some {
        let d = cards[bad.unwrap()];
        with_button(
            d.name@ + " cannot be written to."@,
            "Deselect"@,
            ActionKind::Deselect,
            spec_key(d),
        )
    } else if full is Some {
        let d = cards[full.unwrap()];
        with_button(
            d.name@ + " does not have room for this update."@,
            "Deselect"@,
            ActionKind::Deselect,
            spec_key(d),
        )
    } else if gone is Some {
        let d = cards[gone.unwrap()];
        with_button(d.name@ + " is not connected."@, "Choose Again…"@, ActionKind::ChooseAgain, d.path@)
    } else if s.folder is Some && folder_is_dir && s.dups@.len() == 0 {
        with_button(
            "No databases found in "@ + label + "."@,
            "Choose Folder…"@,
            ActionKind::ChooseFolder,
            Seq::empty(),
        )
    } else if other is Some {
        let d = cards[other.unwrap()];
        with_button(
            d.name@ + " is registered to a different SkyView."@,
            "Details"@,
            ActionKind::Details,
            spec_key(d),
        )
    } else if s.archive is Some && spec_db_cycle(s) is Some && s.archive.unwrap().cycle is Some
        && s.archive.unwrap().cycle != spec_db_cycle(s) {
        plain(
            "The plates archive is Cycle "@ + cycle_label(s.archive.unwrap().cycle.unwrap())
                + " but the databases are Cycle "@ + cycle_label(spec_db_cycle(s).unwrap()) + "."@,
        )
    } else if has_av != has_ob {
        with_button(
            "Only the "@ + (if has_av {
                "aviation"@
            } else {
                "obstacle"@
            }) + " database was found in "@ + label + "."@,
            "Choose Folder…"@,
            ActionKind::ChooseFolder,
            Seq::empty(),
        )
    } else if cards.len() > 0 && none_recognised(cards) {
        plain("No SkyView drives found. Select a drive to write to it anyway."@)
    } else if !first_run_done {
        plain("Choose this cycle's files, pick the drive you fly with, then update."@)
    } else {
        None
    }
}

fn any_of_kind(dups: &[DupFile], k: DupKind) -> (r: bool)
    ensures
        r == has_kind(dups@, k),
{
    let mut i: usize = 0;
    while i < dups.len()
        invariant
            i <= dups@.len(),
            forall|j: int| 0 <= j < i ==> dups@[j].kind != k,
        decreases dups.len() - i,
    {
        if dups[i].kind == k {
            return true;
        }
        i += 1;
    }
    false
}

fn no_card_recognised(cards: &[Drive]) -> (r: bool)
    ensures
        r == none_recognised(cards@),
{
    let mut i: usize = 0;
    while i < cards.len()
        invariant
            i <= cards@.len(),
            forall|j: int| 0 <= j < i ==> cards@[j].score < 2,
        decreases cards.len() - i,
    {
        if cards[i].recognised() {
            return false;
        }
        i += 1;
    }
    true
}

fn error_file_name(p: &Option<String>) -> (r: String)
    ensures
        r@ == match *p {
            Some(x) => name_or_empty(x@),
            None => Seq::empty(),
        },
{
    match p {
        Some(x) => path_file_name(x.as_str()),
        None => String::new(),
    }
}

fn text2(a: &str, b: &str) -> (r: String)
    ensures
        r@ == a@ + b@,
{
    joined(joined(String::new(), a), b)
}

fn text_with(a: &str, b: &str, c: &str) -> (r: String)
    ensures
        r@ == a@ + b@ + c@,
{
    joined(joined(joined(String::new(), a), b), c)
}

pub fn pick_banner(
    s: &Sources,
    folder_is_dir: bool,
    label: &str,
    cards: &[Drive],
    active: &[bool],
    needed: u64,
    first_run_done: bool,
) -> (r: Option<Banner>)
    requires
        cards@.len() == active@.len(),
    ensures
        match spec_banner(*s, folder_is_dir, label@, cards@, active@, needed, first_run_done) {
            Some(e) => r matches Some(b) && banner_is(b, e),
            None => r is None,
        },
{
    let err_name = error_file_name(&s.archive_error_path);
    if s.archive_error.is_some() && s.archive_error_path.is_some() {
        let unsafe_paths = match &s.archive_error {
            Some(e) => contains(&chars_of(e.as_str()), &chars_of("unsafe file paths")),
            None => false,
        };
        if unsafe_paths {
            let t = joined(err_name, " contains unsafe file paths and will not be used.");
            return Some(Banner { title: t, button: None });
        }
        let t = joined(err_name, " could not be read as a plates archive.");
        return Some(
            Banner { title: t, button: Some(("Choose Another…", BannerAction::ChooseArchive)) },
        );
    }
    if s.folder.is_some() && !folder_is_dir {
        let t = text_with("The folder ", label, " is no longer available.");
        return Some(Banner { title: t, button: Some(("Choose Folder…", BannerAction::ChooseFolder)) });
    }
    match find_card(CardTest::SelectedUnwritable, s, cards, active, needed) {
        Some(k) => {
            let t = joined(cards[k].name.clone(), " cannot be written to.");
            return Some(
                Banner { title: t, button: Some(("Deselect", BannerAction::Deselect(cards[k].key()))) },
            );
        },
        None => {},
    }
    match find_card(CardTest::SelectedFull, s, cards, active, needed) {
        Some(k) => {
            let t = joined(cards[k].name.clone(), " does not have room for this update.");
            return Some(
                Banner { title: t, button: Some(("Deselect", BannerAction::Deselect(cards[k].key()))) },
            );
        },
        None => {},
    }
    match find_card(CardTest::FolderGone, s, cards, active, needed) {
        Some(k) => {
            let t = joined(cards[k].name.clone(), " is not connected.");
            return Some(
                Banner {
                    title: t,
                    button: Some(("Choose Again…", BannerAction::ChooseAgain(cards[k].path.clone()))),
                },
            );
        },
        None => {},
    }
    if s.folder.is_some() && folder_is_dir && s.dups.len() == 0 {
        let t = text_with("No databases found in ", label, ".");
        return Some(Banner { title: t, button: Some(("Choose Folder…", BannerAction::ChooseFolder)) });
    }
    match find_card(CardTest::OtherSkyView, s, cards, active, needed) {
        Some(k) => {
            let t = joined(cards[k].name.clone(), " is registered to a different SkyView.");
            return Some(
                Banner { title: t, button: Some(("Details", BannerAction::Details(cards[k].key()))) },
            );
        },
        None => {},
    }
    let db = s.db_cycle();
    match (&s.archive, db) {
        (Some(a), Some(dbc)) => match a.cycle {
            Some(ac) => {
                if ac != dbc {
                    let t = text_with("The plates archive is Cycle ", ac.label().as_str(), " but the databases are Cycle ");
                    let t = joined(t, dbc.label().as_str());
                    let t = joined(t, ".");
                    return Some(Banner { title: t, button: None });
                }
            },
            None => {},
        },
        _ => {},
    }
    let has_av = any_of_kind(&s.dups, DupKind::Aviation);
    let has_ob = any_of_kind(&s.dups, DupKind::Obstacle);
    if has_av != has_ob {
        let which = if has_av {
            "aviation"
        } else {
            "obstacle"
        };
        let t = text_with("Only the ", which, " database was found in ");
        let t = joined(t, label);
        let t = joined(t, ".");
        return Some(Banner { title: t, button: Some(("Choose Folder…", BannerAction::ChooseFolder)) });
    }
    if cards.len() > 0 && no_card_recognised(cards) {
        return Some(
            Banner {
                title: String::from_str("No SkyView drives found. Select a drive to write to it anyway."),
                button: None,
            },
        );
    }
    if !first_run_done {
        return Some(
            Banner {
                title: String::from_str(
                    "Choose this cycle's files, pick the drive you fly with, then update.",
                ),
                button: None,
            },
        );
    }
    None
}

// ---------------------------------------------------------------------------
// A drive's card
// ---------------------------------------------------------------------------

/// The style classes a label carries.
#[derive(Debug, Clone, Copy, PartialEq, Eq, Structural)]
pub struct Classes {
    pub dimmed: bool,
    pub warning: bool,
    pub error: bool,
    pub success: bool,
}

pub open spec fn no_classes() -> Classes {
    Classes { dimmed: false, warning: false, error: false, success: false }
}

pub open spec fn only_dimmed() -> Classes {
    Classes { dimmed: true, ..no_classes() }
}

/// What a drive's card says: the cycle line and the verdict line.
pub struct CardText {
    pub cycle: String,
    pub cycle_classes: Classes,
    pub verdict: String,
    pub verdict_classes: Classes,
}

/// The card as the rules describe it.
pub struct CardSpec {
    pub cycle: Seq<char>,
    pub cycle_classes: Classes,
    pub verdict: Seq<char>,
    pub verdict_classes: Classes,
}

/// The cycle line of a recognised, connected drive, before the verdict.
pub open spec fn cycle_line(d: Drive, target: Option<Cycle>) -> (Seq<char>, Classes, Seq<char>, Classes) {
    match (d.installed_cycle, target) {
        (Some(i), Some(t)) => if i == t {
            (
                "Cycle "@ + cycle_label(t) + " installed"@,
                Classes { success: true, ..no_classes() },
                "Already up to date"@,
                only_dimmed(),
            )
        } else {
            ("Cycle "@ + cycle_label(i) + " → "@ + cycle_label(t), no_classes(), Seq::empty(), no_classes())
        },
        (Some(i), None) => ("Cycle "@ + cycle_label(i), no_classes(), Seq::empty(), no_classes()),
        (None, _) => ("No databases installed"@, only_dimmed(), Seq::empty(), no_classes()),
    }
}

/// Everything a card says about a drive. `free_text`, `total_text`,
/// `needed_text` and `available_text` are the sizes as shown; `other_skyview`
/// is the drive's chart-key id when it names a different SkyView.
pub open spec fn spec_card(
    d: Drive,
    needed: u64,
    target: Option<Cycle>,
    other_skyview: Option<Seq<char>>,
    free_text: Seq<char>,
    total_text: Seq<char>,
    needed_text: Seq<char>,
    available_text: Seq<char>,
) -> CardSpec {
    let base = if !d.reachable {
        CardSpec {
            cycle: "Not connected"@,
            cycle_classes: only_dimmed(),
            verdict: "Choose this folder again to use it"@,
            verdict_classes: only_dimmed(),
        }
    } else if d.kind == TargetKind::Folder {
        CardSpec {
            cycle: "Folder on this computer"@,
            cycle_classes: only_dimmed(),
            verdict: free_text + " free · fits"@,
            verdict_classes: only_dimmed(),
        }
    } else if d.score < 2 {
        CardSpec {
            cycle: "Not a SkyView drive"@,
            cycle_classes: Classes { warning: true, ..no_classes() },
            verdict: free_text + " free · "@ + total_text + " total"@,
            verdict_classes: only_dimmed(),
        }
    } else {
        let (c, cc, v, vc) = cycle_line(d, target);
        if !d.writable {
            CardSpec {
                cycle: c,
                cycle_classes: cc,
                verdict: "Read-only — can't be written to"@,
                verdict_classes: Classes { error: true, ..vc },
            }
        } else if !(needed <= available_of(d)) {
            CardSpec {
                cycle: c,
                cycle_classes: cc,
                verdict: "Needs "@ + needed_text + ", "@ + available_text + " available"@,
                verdict_classes: Classes { error: true, ..vc },
            }
        } else if v.len() == 0 {
            CardSpec {
                cycle: c,
                cycle_classes: cc,
                verdict: free_text + " free · fits"@,
                verdict_classes: Classes { dimmed: true, ..vc },
            }
        } else {
            CardSpec { cycle: c, cycle_classes: cc, verdict: v, verdict_classes: vc }
        }
    };
    match other_skyview {
        Some(id) => CardSpec {
            verdict: "Registered to SkyView "@ + id,
            verdict_classes: Classes { dimmed: false, warning: true, ..base.verdict_classes },
            ..base
        },
        None => base,
    }
}

pub open spec fn card_is(c: CardText, e: CardSpec) -> bool {
    &&& c.cycle@ == e.cycle
    &&& c.cycle_classes == e.cycle_classes
    &&& c.verdict@ == e.verdict
    &&& c.verdict_classes == e.verdict_classes
}

pub fn card_text(
    d: &Drive,
    needed: u64,
    target: Option<Cycle>,
    other_skyview: Option<&str>,
    free_text: &str,
    total_text: &str,
    needed_text: &str,
    available_text: &str,
) -> (r: CardText)
    ensures
        card_is(
            r,
            spec_card(
                *d,
                needed,
                target,
                match other_skyview {
                    Some(x) => Some(x@),
                    None => None,
                },
                free_text@,
                total_text@,
                needed_text@,
                available_text@,
            ),
        ),
{
    let none = Classes { dimmed: false, warning: false, error: false, success: false };
    let dimmed = Classes { dimmed: true, warning: false, error: false, success: false };
    let mut out = if !d.reachable {
        CardText {
            cycle: String::from_str("Not connected"),
            cycle_classes: dimmed,
            verdict: String::from_str("Choose this folder again to use it"),
            verdict_classes: dimmed,
        }
    } else if d.kind == TargetKind::Folder {
        CardText {
            cycle: String::from_str("Folder on this computer"),
            cycle_classes: dimmed,
            verdict: text2(free_text, " free · fits"),
            verdict_classes: dimmed,
        }
    } else if !d.recognised() {
        let v = text2(free_text, " free · ");
        CardText {
            cycle: String::from_str("Not a SkyView drive"),
            cycle_classes: Classes { warning: true, ..none },
            verdict: text_with(v.as_str(), total_text, " total"),
            verdict_classes: dimmed,
        }
    } else {
        let (c, cc, v, vc) = match (d.installed_cycle, target) {
            (Some(i), Some(t)) => {
                if i == t {
                    (
                        text_with("Cycle ", t.label().as_str(), " installed"),
                        Classes { success: true, ..none },
                        String::from_str("Already up to date"),
                        dimmed,
                    )
                } else {
                    let c = text_with("Cycle ", i.label().as_str(), " → ");
                    (joined(c, t.label().as_str()), none, String::new(), none)
                }
            },
            (Some(i), None) => (joined(String::from_str("Cycle "), i.label().as_str()), none, String::new(), none),
            (None, _) => (String::from_str("No databases installed"), dimmed, String::new(), none),
        };
        if !d.writable {
            CardText {
                cycle: c,
                cycle_classes: cc,
                verdict: String::from_str("Read-only — can't be written to"),
                verdict_classes: Classes { error: true, ..vc },
            }
        } else if !d.fits(needed) {
            let v = text_with("Needs ", needed_text, ", ");
            CardText {
                cycle: c,
                cycle_classes: cc,
                verdict: text_with(v.as_str(), available_text, " available"),
                verdict_classes: Classes { error: true, ..vc },
            }
        } else if chars_of(v.as_str()).len() == 0 {
            CardText {
                cycle: c,
                cycle_classes: cc,
                verdict: text2(free_text, " free · fits"),
                verdict_classes: Classes { dimmed: true, ..vc },
            }
        } else {
            CardText { cycle: c, cycle_classes: cc, verdict: v, verdict_classes: vc }
        }
    };
    match other_skyview {
        Some(id) => {
            out.verdict = joined(String::from_str("Registered to SkyView "), id);
            out.verdict_classes = Classes { dimmed: false, warning: true, ..out.verdict_classes };
        },
        None => {},
    }
    out
}

/// How full the drive will be after the update, in bytes: what is used once
/// the old plates are gone, plus what the update writes (saturating).
pub fn projected_used(d: &Drive, needed: u64) -> (r: u64)
    ensures
        r == ({
            let used = if d.total >= available_of(*d) {
                (d.total - available_of(*d)) as nat
            } else {
                0
            };
            if used + needed > u64::MAX {
                u64::MAX as nat
            } else {
                (used + needed) as nat
            }
        }),
{
    let reclaim = match d.reclaimable {
        Some((b, _)) => b,
        None => 0,
    };
    let available = d.free.saturating_add(reclaim);
    d.total.saturating_sub(available).saturating_add(needed)
}

// ---------------------------------------------------------------------------
// The confirmation
// ---------------------------------------------------------------------------

/// The confirmation's heading: replacing plates when there is an archive,
/// else updating; one drive by name, more by count.
pub open spec fn spec_confirm_heading(has_archive: bool, selected: Seq<Drive>) -> Seq<char> {
    let who = if selected.len() == 1 {
        selected[0].name@
    } else {
        decimal_text(selected.len()) + " Drives"@
    };
    if has_archive {
        "Replace Plates on "@ + who + "?"@
    } else {
        "Update "@ + who + "?"@
    }
}

pub fn confirm_heading(has_archive: bool, selected: &[Drive]) -> (r: String)
    ensures
        r@ == spec_confirm_heading(has_archive, selected@),
{
    let who = if selected.len() == 1 {
        selected[0].name.clone()
    } else {
        joined(decimal_string(selected.len() as u64), " Drives")
    };
    if has_archive {
        text_with("Replace Plates on ", who.as_str(), "?")
    } else {
        text_with("Update ", who.as_str(), "?")
    }
}

/// The confirmation's body. `drive_list` names the drives, `duration` is the
/// time the update is expected to take.
pub fn confirm_body(has_archive: bool, drive_list: &str, archive_name: &str, duration: &str) -> (r:
    String)
    ensures
        r@ == if has_archive {
            "The plates folder on "@ + drive_list@ + " will be erased and rebuilt from "@
                + archive_name@ + ". This takes about "@ + duration@ + " and cannot be undone."@
        } else {
            "The aviation and obstacle databases on "@ + drive_list@
                + " will be replaced. Plates are left as they are."@
        },
{
    if has_archive {
        let r = text_with("The plates folder on ", drive_list, " will be erased and rebuilt from ");
        let r = joined(r, archive_name);
        let r = joined(r, ". This takes about ");
        let r = joined(r, duration);
        joined(r, " and cannot be undone.")
    } else {
        text_with(
            "The aviation and obstacle databases on ",
            drive_list,
            " will be replaced. Plates are left as they are.",
        )
    }
}

/// The parts of a drive's line in the confirmation, in order.
pub open spec fn confirm_parts(
    db_count: nat,
    has_archive: bool,
    existing: nat,
    writing: nat,
) -> Seq<Seq<char>> {
    (if db_count > 0 {
        seq![
            "Copy "@ + decimal_text(db_count) + " database"@ + (if db_count == 1 {
                ""@
            } else {
                "s"@
            }),
        ]
    } else {
        Seq::empty()
    }) + (if has_archive {
        seq![
            "erase "@ + crate::job::grouped(existing) + " plates"@,
            "write "@ + crate::job::grouped(writing) + " plates"@,
        ]
    } else {
        Seq::empty()
    })
}

/// The parts joined with ` · `.
pub open spec fn dotted(parts: Seq<Seq<char>>) -> Seq<char>
    decreases parts.len(),
{
    if parts.len() == 0 {
        Seq::empty()
    } else if parts.len() == 1 {
        parts[0]
    } else {
        dotted(parts.drop_last()) + " · "@ + parts.last()
    }
}

/// A drive's line in the confirmation: the databases copied, the plates
/// erased and written, and a warning first for a drive that is not a
/// SkyView drive.
pub fn confirm_subtitle(
    db_count: usize,
    has_archive: bool,
    existing_plates: usize,
    archive_count: usize,
    recognised: bool,
) -> (r: String)
    ensures
        r@ == (if recognised {
            ""@
        } else {
            "Not a SkyView drive · "@
        }) + dotted(
            confirm_parts(db_count as nat, has_archive, existing_plates as nat, archive_count as nat),
        ),
{
    let ghost parts = confirm_parts(
        db_count as nat,
        has_archive,
        existing_plates as nat,
        archive_count as nat,
    );
    let mut out = if recognised {
        String::from_str("")
    } else {
        String::from_str("Not a SkyView drive · ")
    };
    let ghost head = out@;
    let mut n: usize = 0;
    if db_count > 0 {
        let part = joined(
            joined(String::from_str("Copy "), decimal_string(db_count as u64).as_str()),
            " database",
        );
        let part = if db_count == 1 {
            joined(part, "")
        } else {
            joined(part, "s")
        };
        out = joined(out, part.as_str());
        n = 1;
        assert(parts.take(1) =~= seq![part@]);
        assert(out@ == head + dotted(parts.take(1)));
    }
    assert(n == 0 ==> parts.take(0) =~= Seq::<Seq<char>>::empty());
    assert(out@ == head + dotted(parts.take(n as int))) by {
        if n == 0 {
            assert(head + Seq::<char>::empty() =~= head);
        }
    }
    if has_archive {
        let e = joined(joined(String::from_str("erase "), crate::job::group(existing_plates as u64).as_str()), " plates");
        let w = joined(joined(String::from_str("write "), crate::job::group(archive_count as u64).as_str()), " plates");
        if n > 0 {
            out = joined(out, " · ");
        }
        out = joined(out, e.as_str());
        let ghost n1 = n + 1;
        assert(parts.take(n1 as int).drop_last() =~= parts.take(n as int));
        assert(parts.take(n1 as int).last() == e@);
        assert(out@ =~= head + dotted(parts.take(n1 as int)));
        out = joined(out, " · ");
        out = joined(out, w.as_str());
        assert(parts.take(n1 + 1) =~= parts);
        assert(parts.drop_last() =~= parts.take(n1 as int));
        assert(out@ =~= head + dotted(parts));
    } else {
        assert(parts.take(n as int) =~= parts);
    }
    out
}

/// The box to tick before updating drives that are not SkyView drives.
pub fn understand_label(unrecognised: &[String]) -> (r: Option<String>)
    ensures
        unrecognised@.len() == 0 <==> r is None,
        unrecognised@.len() == 1 ==> (r matches Some(t) && t@ == "I understand that "@
            + unrecognised@[0]@ + " is not a SkyView drive"@),
        unrecognised@.len() > 1 ==> (r matches Some(t) && t@ == "I understand that "@
            + decimal_text(unrecognised@.len()) + " of these are not SkyView drives"@),
{
    let n = unrecognised.len();
    if n == 0 {
        None
    } else if n == 1 {
        Some(text_with("I understand that ", unrecognised[0].as_str(), " is not a SkyView drive"))
    } else {
        Some(
            text_with(
                "I understand that ",
                decimal_string(n as u64).as_str(),
                " of these are not SkyView drives",
            ),
        )
    }
}

// ---------------------------------------------------------------------------
// The result page
// ---------------------------------------------------------------------------

#[derive(Debug, Clone, Copy, PartialEq, Eq, Structural)]
pub enum ResultIcon {
    Success,
    Warning,
    Error,
}

pub open spec fn updated_count(os: Seq<DriveOutcome>) -> nat
    decreases os.len(),
{
    if os.len() == 0 {
        0
    } else {
        updated_count(os.drop_last()) + (if os.last().result is Updated {
            1nat
        } else {
            0
        })
    }
}

pub open spec fn failed_names(os: Seq<DriveOutcome>) -> Seq<Seq<char>>
    decreases os.len(),
{
    if os.len() == 0 {
        Seq::empty()
    } else {
        failed_names(os.drop_last()) + (if os.last().result is Failed {
            seq![os.last().name@]
        } else {
            Seq::empty()
        })
    }
}

pub open spec fn first_interrupted(os: Seq<DriveOutcome>) -> Option<int>
    decreases os.len(),
{
    if os.len() == 0 {
        None
    } else {
        match first_interrupted(os.drop_last()) {
            Some(i) => Some(i),
            None => if os.last().result is Interrupted {
                Some(os.len() - 1)
            } else {
                None
            },
        }
    }
}

pub open spec fn first_cycle(os: Seq<DriveOutcome>) -> Option<Cycle>
    decreases os.len(),
{
    if os.len() == 0 {
        None
    } else {
        match first_cycle(os.drop_last()) {
            Some(c) => Some(c),
            None => os.last().cycle,
        }
    }
}

/// The result page's headline: a stop that left plates incomplete comes
/// first; then all drives updated; none updated; or some.
pub open spec fn spec_result(os: Seq<DriveOutcome>) -> (ResultIcon, Seq<char>, Seq<char>) {
    let total = os.len();
    let up = updated_count(os);
    match first_interrupted(os) {
        Some(i) => (
            ResultIcon::Warning,
            "Update Stopped"@,
            os[i].name@
                + "'s plates were being replaced when you stopped. Its plates folder is incomplete — run the update again before you fly with it."@,
        ),
        None => if up > 0 && up == total {
            let ct = crate::job::label_or_empty(first_cycle(os));
            if total == 1 {
                (
                    ResultIcon::Success,
                    os[0].name@ + " Updated"@,
                    "Cycle "@ + ct + " is installed. Eject the drive before unplugging it."@,
                )
            } else {
                (
                    ResultIcon::Success,
                    decimal_text(total) + " Drives Updated"@,
                    "Cycle "@ + ct + " is installed. Eject the drives before unplugging them."@,
                )
            }
        } else if up == 0 {
            (
                ResultIcon::Error,
                "No Drives Were Updated"@,
                "Nothing was written. Check the reason below."@,
            )
        } else {
            (
                ResultIcon::Warning,
                decimal_text(up) + " of "@ + decimal_text(total) + " Drives Updated"@,
                names_text(failed_names(os)) + " was not updated. Check the reason below before you fly."@,
            )
        },
    }
}

pub fn result_summary(os: &[DriveOutcome]) -> (r: (ResultIcon, String, String))
    ensures
        r.0 == spec_result(os@).0,
        r.1@ == spec_result(os@).1,
        r.2@ == spec_result(os@).2,
{
    let mut up: usize = 0;
    let mut interrupted: Option<usize> = None;
    let mut cycle: Option<Cycle> = None;
    let mut failed: Vec<String> = Vec::new();
    let mut k: usize = 0;
    while k < os.len()
        invariant
            k <= os@.len(),
            up == updated_count(os@.take(k as int)),
            up <= k,
            match first_interrupted(os@.take(k as int)) {
                Some(i) => interrupted == Some(i as usize),
                None => interrupted is None,
            },
            cycle == first_cycle(os@.take(k as int)),
            failed@.map_values(|x: String| x@) == failed_names(os@.take(k as int)),
        decreases os.len() - k,
    {
        let ghost pre = os@.take(k as int);
        assert(os@.take(k + 1).drop_last() =~= pre);
        assert(os@.take(k + 1).last() == os@[k as int]);
        match os[k].result {
            Outcome::Updated => {
                up = up + 1;
            },
            Outcome::Failed(_) => {
                failed.push(os[k].name.clone());
                assert(failed@.map_values(|x: String| x@) =~= failed_names(pre) + seq![os@[k as int].name@]);
            },
            Outcome::Interrupted => {
                if interrupted.is_none() {
                    interrupted = Some(k);
                }
            },
            Outcome::Skipped => {},
        }
        if cycle.is_none() {
            cycle = os[k].cycle;
        }
        k += 1;
    }
    assert(os@.take(os@.len() as int) =~= os@);
    let total = os.len();
    match interrupted {
        Some(i) => {
            proof {
                lemma_first_interrupted_bound(os@);
            }
            return (
                ResultIcon::Warning,
                String::from_str("Update Stopped"),
                joined(
                    os[i].name.clone(),
                    "'s plates were being replaced when you stopped. Its plates folder is incomplete — run the update again before you fly with it.",
                ),
            );
        },
        None => {},
    }
    if up > 0 && up == total {
        let ct = match cycle {
            Some(c) => c.label(),
            None => String::new(),
        };
        if total == 1 {
            (
                ResultIcon::Success,
                joined(os[0].name.clone(), " Updated"),
                text_with("Cycle ", ct.as_str(), " is installed. Eject the drive before unplugging it."),
            )
        } else {
            (
                ResultIcon::Success,
                joined(decimal_string(total as u64), " Drives Updated"),
                text_with(
                    "Cycle ",
                    ct.as_str(),
                    " is installed. Eject the drives before unplugging them.",
                ),
            )
        }
    } else if up == 0 {
        (
            ResultIcon::Error,
            String::from_str("No Drives Were Updated"),
            String::from_str("Nothing was written. Check the reason below."),
        )
    } else {
        let t = text_with(decimal_string(up as u64).as_str(), " of ", decimal_string(total as u64).as_str());
        let names = drive_names_text(&failed);
        (
            ResultIcon::Warning,
            joined(t, " Drives Updated"),
            joined(names, " was not updated. Check the reason below before you fly."),
        )
    }
}

pub proof fn lemma_first_interrupted_bound(os: Seq<DriveOutcome>)
    ensures
        first_interrupted(os) matches Some(i) ==> 0 <= i < os.len() && os[i].result is Interrupted,
    decreases os.len(),
{
    if os.len() > 0 {
        lemma_first_interrupted_bound(os.drop_last());
    }
}

/// The icon each result page headline shows.
pub fn result_icon_name(icon: ResultIcon) -> (r: &'static str)
    ensures
        r@ == match icon {
            ResultIcon::Success => "emblem-ok-symbolic"@,
            ResultIcon::Warning => "dialog-warning-symbolic"@,
            ResultIcon::Error => "dialog-error-symbolic"@,
        },
{
    match icon {
        ResultIcon::Success => "emblem-ok-symbolic",
        ResultIcon::Warning => "dialog-warning-symbolic",
        ResultIcon::Error => "dialog-error-symbolic",
    }
}

/// The parts of an updated drive's line on the result page.
pub open spec fn updated_parts(o: DriveOutcome) -> Seq<Seq<char>> {
    (match o.cycle {
        Some(c) => seq!["Cycle "@ + cycle_label(c)],
        None => Seq::empty(),
    }) + (if o.plates_written > 0 {
        seq![crate::job::grouped(o.plates_written as nat) + " plates"@]
    } else {
        Seq::empty()
    }) + seq![spec_duration_precise(o.elapsed_secs as nat)]
}

/// A drive's line on the result page, and the icon it carries.
pub fn outcome_subtitle(o: &DriveOutcome) -> (r: (ResultIcon, String))
    ensures
        match o.result {
            Outcome::Updated => r.0 == ResultIcon::Success && r.1@ == dotted(updated_parts(*o)),
            Outcome::Failed(m) => r.0 == ResultIcon::Error && r.1@ == (if m@.len() == 0 {
                Seq::<char>::empty()
            } else {
                uppercase_of(m@[0]) + m@.subrange(1, m@.len() as int)
            }),
            Outcome::Skipped => r.0 == ResultIcon::Warning && r.1@ == "Not started"@,
            Outcome::Interrupted => r.0 == ResultIcon::Warning && r.1@
                == "Interrupted — plates folder is incomplete"@,
        },
{
    match &o.result {
        Outcome::Updated => {
            let ghost parts = updated_parts(*o);
            let mut out = String::new();
            let mut n: usize = 0;
            match o.cycle {
                Some(c) => {
                    out = joined(String::from_str("Cycle "), c.label().as_str());
                    n = 1;
                },
                None => {},
            }
            assert(parts.take(n as int) =~= (match o.cycle {
                Some(c) => seq!["Cycle "@ + cycle_label(c)],
                None => Seq::<Seq<char>>::empty(),
            }));
            assert(out@ == dotted(parts.take(n as int)));
            if o.plates_written > 0 {
                let p = joined(crate::job::group(o.plates_written as u64), " plates");
                if n > 0 {
                    out = joined(out, " · ");
                }
                out = joined(out, p.as_str());
                assert(parts.take(n + 1).drop_last() =~= parts.take(n as int));
                assert(out@ =~= dotted(parts.take(n + 1)));
                n = n + 1;
            }
            let d = duration_precise(o.elapsed_secs);
            if n > 0 {
                out = joined(out, " · ");
            }
            out = joined(out, d.as_str());
            assert(parts.take(n + 1) =~= parts);
            assert(parts.drop_last() =~= parts.take(n as int));
            assert(out@ =~= dotted(parts));
            (ResultIcon::Success, out)
        },
        Outcome::Failed(m) => (ResultIcon::Error, capitalize(m.as_str())),
        Outcome::Skipped => (ResultIcon::Warning, String::from_str("Not started")),
        Outcome::Interrupted => (
            ResultIcon::Warning,
            String::from_str("Interrupted — plates folder is incomplete"),
        ),
    }
}

/// The drives that can be ejected afterwards: updated mounted volumes.
pub fn ejectable(os: &[DriveOutcome]) -> (r: Vec<usize>)
    ensures
        forall|i: int| 0 <= i < r@.len() ==> (r@[i] < os@.len() && os@[r@[i] as int].result is Updated
            && os@[r@[i] as int].kind == TargetKind::Mounted),
        forall|j: int|
            0 <= j < os@.len() && os@[j].result is Updated && os@[j].kind == TargetKind::Mounted
                ==> exists|i: int| 0 <= i < r@.len() && r@[i] == j,
        forall|i: int, l: int| 0 <= i < l < r@.len() ==> r@[i] < r@[l],
{
    let mut r: Vec<usize> = Vec::new();
    let mut k: usize = 0;
    while k < os.len()
        invariant
            k <= os@.len(),
            forall|i: int| 0 <= i < r@.len() ==> (r@[i] < k && os@[r@[i] as int].result is Updated
                && os@[r@[i] as int].kind == TargetKind::Mounted),
            forall|j: int|
                0 <= j < k && os@[j].result is Updated && os@[j].kind == TargetKind::Mounted
                    ==> exists|i: int| 0 <= i < r@.len() && r@[i] == j,
            forall|i: int, l: int| 0 <= i < l < r@.len() ==> r@[i] < r@[l],
        decreases os.len() - k,
    {
        let up = match os[k].result {
            Outcome::Updated => true,
            _ => false,
        };
        let ghost before = r@;
        if up && os[k].kind == TargetKind::Mounted {
            r.push(k);
            assert(r@[r@.len() - 1] == k);
        }
        assert forall|j: int|
            0 <= j < k + 1 && os@[j].result is Updated && os@[j].kind == TargetKind::Mounted
                implies exists|i: int| 0 <= i < r@.len() && r@[i] == j by {
            if j < k {
                let i = choose|i: int| 0 <= i < before.len() && before[i] == j;
                assert(r@[i] == before[i]);
            } else {
                assert(r@[r@.len() - 1] == j);
            }
        }
        k += 1;
    }
    r
}

/// The eject button's label for the drives that can be ejected.
pub fn eject_label(names: &[String]) -> (r: Option<String>)
    ensures
        names@.len() == 0 <==> r is None,
        names@.len() == 1 ==> (r matches Some(t) && t@ == "Eject "@ + names@[0]@),
        names@.len() == 2 ==> (r matches Some(t) && t@ == "Eject Both"@),
        names@.len() > 2 ==> (r matches Some(t) && t@ == "Eject All"@),
{
    let n = names.len();
    if n == 0 {
        None
    } else if n == 1 {
        Some(joined(String::from_str("Eject "), names[0].as_str()))
    } else if n == 2 {
        Some(String::from_str("Eject Both"))
    } else {
        Some(String::from_str("Eject All"))
    }
}

// ---------------------------------------------------------------------------
// Changing the sources
// ---------------------------------------------------------------------------

/// `p` is the path of the newest file of `kind` among `dups`, or `None` when
/// there is none of that kind.
pub open spec fn newest_path(dups: Seq<DupFile>, kind: DupKind, p: Option<String>) -> bool {
    match p {
        Some(x) => exists|i: int| is_newest(dups, kind, i) && dups[i].path@ == x@,
        None => forall|j: int| 0 <= j < dups.len() ==> dups[j].kind != kind,
    }
}

fn newest_of(dups: &Vec<DupFile>, kind: DupKind) -> (r: Option<String>)
    ensures
        newest_path(dups@, kind, r),
{
    match newest(dups.as_slice(), kind) {
        Some(f) => Some(f.path.clone()),
        None => None,
    }
}

impl Sources {
    /// Nothing chosen yet.
    pub fn new() -> (r: Sources)
        ensures
            r.folder is None,
            r.dups@.len() == 0,
            r.aviation is None,
            r.obstacle is None,
            !r.skip_aviation,
            !r.skip_obstacle,
            r.archive is None,
            r.archive_error is None,
            r.archive_error_path is None,
            r.archive_loading is None,
            !r.strip_wrapper,
    {
        Sources {
            folder: None,
            dups: Vec::new(),
            aviation: None,
            obstacle: None,
            skip_aviation: false,
            skip_obstacle: false,
            archive: None,
            archive_error: None,
            archive_error_path: None,
            archive_loading: None,
            strip_wrapper: false,
        }
    }

    /// A source folder was chosen and `dups` found in it: the newest database
    /// of each kind is picked, and nothing is skipped any more.
    pub fn load_folder(&mut self, folder: String, dups: Vec<DupFile>)
        ensures
            newest_path(dups@, DupKind::Aviation, final(self).aviation),
            newest_path(dups@, DupKind::Obstacle, final(self).obstacle),
            *final(self) == (Sources {
                folder: Some(folder),
                dups,
                aviation: final(self).aviation,
                obstacle: final(self).obstacle,
                skip_aviation: false,
                skip_obstacle: false,
                ..*old(self)
            }),
    {
        self.aviation = newest_of(&dups, DupKind::Aviation);
        self.obstacle = newest_of(&dups, DupKind::Obstacle);
        self.skip_aviation = false;
        self.skip_obstacle = false;
        self.dups = dups;
        self.folder = Some(folder);
    }

    /// The user chose not to copy the database of `kind` (anything but
    /// aviation counts as obstacle).
    pub fn skip_database(&mut self, kind: DupKind)
        ensures
            kind == DupKind::Aviation ==> *final(self) == (Sources {
                skip_aviation: true,
                aviation: None,
                ..*old(self)
            }),
            kind != DupKind::Aviation ==> *final(self) == (Sources {
                skip_obstacle: true,
                obstacle: None,
                ..*old(self)
            }),
    {
        if kind == DupKind::Aviation {
            self.skip_aviation = true;
            self.aviation = None;
        } else {
            self.skip_obstacle = true;
            self.obstacle = None;
        }
    }

    /// An archive is being read; `file_name` names it meanwhile.
    pub fn archive_loading_started(&mut self, file_name: String)
        ensures
            *final(self) == (Sources { archive_loading: Some(file_name), ..*old(self) }),
    {
        self.archive_loading = Some(file_name);
    }

    /// The archive at `path` has been read: kept, with its wrapper folder
    /// left in place to begin with; or its error kept, to be explained.
    pub fn archive_read(&mut self, path: String, result: Result<Archive, String>)
        ensures
            match result {
                Ok(a) => *final(self) == (Sources {
                    archive_loading: None,
                    strip_wrapper: false,
                    archive: Some(a),
                    archive_error: None,
                    archive_error_path: None,
                    ..*old(self)
                }),
                Err(m) => *final(self) == (Sources {
                    archive_loading: None,
                    archive: None,
                    archive_error: Some(m),
                    archive_error_path: Some(path),
                    ..*old(self)
                }),
            },
    {
        self.archive_loading = None;
        match result {
            Ok(a) => {
                self.strip_wrapper = false;
                self.archive = Some(a);
                self.archive_error = None;
                self.archive_error_path = None;
            },
            Err(m) => {
                self.archive = None;
                self.archive_error = Some(m);
                self.archive_error_path = Some(path);
            },
        }
    }

    /// Plates will not be replaced.
    pub fn clear_archive(&mut self)
        ensures
            *final(self) == (Sources { archive: None, archive_error: None, ..*old(self) }),
    {
        self.archive = None;
        self.archive_error = None;
    }

    /// The found file a chosen database path belongs to: the first with
    /// that path.
    pub fn chosen_dup(&self, kind: DupKind) -> (r: Option<usize>)
        ensures
            match chosen_path(*self, kind) {
                Some(p) => (r matches Some(i) ==> i < self.dups@.len() && first_with_path(
                    self.dups@,
                    p@,
                    0,
                ) == Some(i as int)) && (r is None ==> first_with_path(self.dups@, p@, 0) is None),
                None => r is None,
            },
    {
        let chosen = if kind == DupKind::Aviation {
            &self.aviation
        } else {
            &self.obstacle
        };
        let p = match chosen {
            Some(p) => chars_of(p.as_str()),
            None => {
                return None;
            },
        };
        let mut i: usize = 0;
        while i < self.dups.len()
            invariant
                i <= self.dups@.len(),
                chosen_path(*self, kind) matches Some(c) && p@ == c@,
                first_with_path(self.dups@, p@, i as int) == first_with_path(self.dups@, p@, 0),
            decreases self.dups.len() - i,
        {
            if same(&chars_of(self.dups[i].path.as_str()), &p) {
                return Some(i);
            }
            i += 1;
        }
        None
    }

    /// The badge and line of a database's row: its cycle (or "Found") when
    /// chosen, "Not copying" when skipped, else "Not found". `folder_name`
    /// names the source folder, `size_text` the chosen file's size.
    pub fn database_row(&self, kind: DupKind, folder_name: &str, size_text: &str) -> (r: RowText)
        ensures
            row_is(r, spec_database_row(*self, kind, folder_name@, size_text@)),
    {
        let skipped = if kind == DupKind::Aviation {
            self.skip_aviation
        } else {
            self.skip_obstacle
        };
        let label = if kind == DupKind::Aviation {
            "aviation"
        } else {
            "obstacle"
        };
        let chosen = if kind == DupKind::Aviation {
            &self.aviation
        } else {
            &self.obstacle
        };
        match chosen {
            Some(path) => {
                let cycle = match self.chosen_dup(kind) {
                    Some(i) => self.dups[i].cycle,
                    None => None,
                };
                let badge = match cycle {
                    Some(c) => joined(String::from_str("Cycle "), c.label().as_str()),
                    None => String::from_str("Found"),
                };
                let sub = text_with(path_file_name(path.as_str()).as_str(), " · ", size_text);
                RowText { badge, tone: Tone::Accent, subtitle: sub }
            },
            None => {
                if skipped {
                    RowText {
                        badge: String::from_str("Not copying"),
                        tone: Tone::Dimmed,
                        subtitle: String::from_str("This database will be left as it is on the drive"),
                    }
                } else {
                    let sub = text_with("No ", label, " database in ");
                    RowText {
                        badge: String::from_str("Not found"),
                        tone: Tone::Dimmed,
                        subtitle: joined(sub, folder_name),
                    }
                }
            },
        }
    }

    /// The badge and line of the plates row. `size_text` is the archive's
    /// size as shown.
    pub fn plates_row(&self, size_text: &str) -> (r: RowText)
        ensures
            row_is(r, spec_plates_row(*self, size_text@)),
    {
        match &self.archive {
            Some(a) => {
                let badge = match a.cycle {
                    Some(c) => joined(String::from_str("Cycle "), c.label().as_str()),
                    None => String::new(),
                };
                let sub = text_with(a.name().as_str(), " · ", crate::job::group(a.members.len() as u64).as_str());
                let sub = joined(sub, " files · ");
                let sub = joined(sub, size_text);
                let sub = match &a.wrapper {
                    Some(w) => {
                        let tail = text2(" · in a folder named ", w.as_str());
                        joined(sub, tail.as_str())
                    },
                    None => {
                        assert(sub@ + Seq::<char>::empty() =~= sub@);
                        sub
                    },
                };
                RowText { badge, tone: Tone::Accent, subtitle: sub }
            },
            None => {
                if self.archive_error.is_some() {
                    RowText {
                        badge: String::from_str("Can't read"),
                        tone: Tone::Error,
                        subtitle: String::from_str("This file is not a readable plates archive"),
                    }
                } else {
                    RowText {
                        badge: String::from_str("Not replacing"),
                        tone: Tone::Dimmed,
                        subtitle: String::from_str("Plates already on the drives will be left as they are"),
                    }
                }
            },
        }
    }
}

pub open spec fn chosen_path(s: Sources, kind: DupKind) -> Option<String> {
    if kind == DupKind::Aviation {
        s.aviation
    } else {
        s.obstacle
    }
}

pub open spec fn first_with_path(dups: Seq<DupFile>, p: Seq<char>, k: int) -> Option<int>
    decreases dups.len() - k,
{
    if k < 0 || k >= dups.len() {
        None
    } else if dups[k].path@ == p {
        Some(k)
    } else {
        first_with_path(dups, p, k + 1)
    }
}

/// A badge's colour.
#[derive(Debug, Clone, Copy, PartialEq, Eq, Structural)]
pub enum Tone {
    Accent,
    Dimmed,
    Error,
}

/// A source row: its badge and the line under its title.
pub struct RowText {
    pub badge: String,
    pub tone: Tone,
    pub subtitle: String,
}

pub open spec fn row_is(r: RowText, e: (Seq<char>, Tone, Seq<char>)) -> bool {
    r.badge@ == e.0 && r.tone == e.1 && r.subtitle@ == e.2
}

pub open spec fn spec_database_row(
    s: Sources,
    kind: DupKind,
    folder_name: Seq<char>,
    size_text: Seq<char>,
) -> (Seq<char>, Tone, Seq<char>) {
    let skipped = if kind == DupKind::Aviation {
        s.skip_aviation
    } else {
        s.skip_obstacle
    };
    match chosen_path(s, kind) {
        Some(p) => {
            let cycle = match first_with_path(s.dups@, p@, 0) {
                Some(i) => s.dups@[i].cycle,
                None => None,
            };
            (
                match cycle {
                    Some(c) => "Cycle "@ + cycle_label(c),
                    None => "Found"@,
                },
                Tone::Accent,
                name_or_empty(p@) + " · "@ + size_text,
            )
        },
        None => if skipped {
            ("Not copying"@, Tone::Dimmed, "This database will be left as it is on the drive"@)
        } else {
            (
                "Not found"@,
                Tone::Dimmed,
                "No "@ + (if kind == DupKind::Aviation {
                    "aviation"@
                } else {
                    "obstacle"@
                }) + " database in "@ + folder_name,
            )
        },
    }
}

pub open spec fn spec_plates_row(s: Sources, size_text: Seq<char>) -> (Seq<char>, Tone, Seq<char>) {
    match s.archive {
        Some(a) => (
            match a.cycle {
                Some(c) => "Cycle "@ + cycle_label(c),
                None => Seq::empty(),
            },
            Tone::Accent,
            name_or_empty(a.path@) + " · "@ + crate::job::grouped(a.members@.len()) + " files · "@
                + size_text + match a.wrapper {
                Some(w) => " · in a folder named "@ + w@,
                None => Seq::empty(),
            },
        ),
        None => if s.archive_error is Some {
            ("Can't read"@, Tone::Error, "This file is not a readable plates archive"@)
        } else {
            ("Not replacing"@, Tone::Dimmed, "Plates already on the drives will be left as they are"@)
        },
    }
}

/// What an update of the chosen sources writes to each drive: the chosen
/// databases whose sizes could be read, and the archive's members.
pub open spec fn spec_bytes_needed(s: Sources, aviation: Option<u64>, obstacle: Option<u64>) -> nat {
    crate::job::counted(s.aviation, aviation) + crate::job::counted(s.obstacle, obstacle) + match s.archive {
        Some(a) => a.total_bytes as nat,
        None => 0,
    }
}

impl Sources {
    /// `aviation_bytes` and `obstacle_bytes` are the chosen files' sizes on
    /// disk, `None` where they could not be read.
    pub fn bytes_needed(&self, aviation_bytes: Option<u64>, obstacle_bytes: Option<u64>) -> (r: u64)
        requires
            spec_bytes_needed(*self, aviation_bytes, obstacle_bytes) <= u64::MAX,
        ensures
            r == spec_bytes_needed(*self, aviation_bytes, obstacle_bytes),
    {
        let a: u64 = match (&self.aviation, aviation_bytes) {
            (Some(_), Some(b)) => b,
            _ => 0,
        };
        let o: u64 = match (&self.obstacle, obstacle_bytes) {
            (Some(_), Some(b)) => b,
            _ => 0,
        };
        let z: u64 = match &self.archive {
            Some(x) => x.total_bytes,
            None => 0,
        };
        a + o + z
    }
}

// ---------------------------------------------------------------------------
// Explanations
// ---------------------------------------------------------------------------

/// What the empty drive list says: an icon, a title, a description, and
/// whether to offer help with the sandbox's permission.
pub fn empty_drives_text(reason: EmptyReason) -> (r: (&'static str, &'static str, &'static str, bool))
    ensures
        match reason {
            EmptyReason::SandboxBlocked => r.0@ == "dialog-warning-symbolic"@ && r.1@ == "Can't See Your Drives"@
                && r.2@
                == "A USB drive is connected, but this app has not been given permission to read it. Choose the drive's folder to continue, or grant permission once and it will appear on its own."@
                && r.3,
            EmptyReason::NotMounted => r.0@ == "drive-removable-media-symbolic"@ && r.1@ == "Drive Not Ready"@
                && r.2@
                == "A USB drive is connected but has not been mounted yet. Open it once in Files, or choose its folder here."@
                && !r.3,
            EmptyReason::NothingConnected => r.0@ == "drive-removable-media-symbolic"@ && r.1@
                == "No Drives Connected"@ && r.2@
                == "Plug in the USB drive you use with your SkyView. It will appear here automatically."@
                && !r.3,
        },
{
    match reason {
        EmptyReason::SandboxBlocked => (
            "dialog-warning-symbolic",
            "Can't See Your Drives",
            "A USB drive is connected, but this app has not been given permission to read it. Choose the drive's folder to continue, or grant permission once and it will appear on its own.",
            true,
        ),
        EmptyReason::NotMounted => (
            "drive-removable-media-symbolic",
            "Drive Not Ready",
            "A USB drive is connected but has not been mounted yet. Open it once in Files, or choose its folder here.",
            false,
        ),
        EmptyReason::NothingConnected => (
            "drive-removable-media-symbolic",
            "No Drives Connected",
            "Plug in the USB drive you use with your SkyView. It will appear here automatically.",
            false,
        ),
    }
}

/// Why a drive registered to another SkyView deserves a second look.
pub fn entitlement_details(name: &str, drive_serial: &str, source_id: &str) -> (r: String)
    ensures
        r@ == name@ + " carries a chart key for SkyView "@ + drive_serial@
            + ", but this cycle's files are for "@ + source_id@
            + ". If this drive belongs to another aircraft, its charts may not open. Check before you use it."@,
{
    let r = text_with(name, " carries a chart key for SkyView ", drive_serial);
    let r = joined(r, ", but this cycle's files are for ");
    let r = joined(r, source_id);
    joined(
        r,
        ". If this drive belongs to another aircraft, its charts may not open. Check before you use it.",
    )
}

/// Under the archive preview: the members not shown and the litter skipped.
pub fn preview_footer(not_shown: usize, junk_skipped: usize) -> (r: String)
    ensures
        r@ == "…and "@ + crate::job::grouped(not_shown as nat) + " more · "@ + crate::job::grouped(
            junk_skipped as nat,
        ) + " junk files skipped"@,
{
    let r = text_with("…and ", crate::job::group(not_shown as u64).as_str(), " more · ");
    let r = joined(r, crate::job::group(junk_skipped as u64).as_str());
    joined(r, " junk files skipped")
}

/// The time-left line on the running page, from the whole seconds left and
/// the same time in whole (rounded) minutes.
pub open spec fn spec_eta_words(secs: nat, minutes: nat) -> Seq<char> {
    if secs < 60 {
        "Less than a minute left"@
    } else if minutes <= 1 {
        "About 1 minute left"@
    } else if minutes < 60 {
        "About "@ + decimal_text(minutes) + " minutes left"@
    } else {
        "About "@ + decimal_text(minutes / 60) + " hours "@ + decimal_text(minutes % 60)
            + " minutes left"@
    }
}

pub fn eta_words(secs: u64, minutes: u64) -> (r: String)
    ensures
        r@ == spec_eta_words(secs as nat, minutes as nat),
{
    if secs < 60 {
        String::from_str("Less than a minute left")
    } else if minutes <= 1 {
        String::from_str("About 1 minute left")
    } else if minutes < 60 {
        text_with("About ", decimal_string(minutes).as_str(), " minutes left")
    } else {
        let r = text_with("About ", decimal_string(minutes / 60).as_str(), " hours ");
        let r = joined(r, decimal_string(minutes % 60).as_str());
        joined(r, " minutes left")
    }
}

} // verus!
