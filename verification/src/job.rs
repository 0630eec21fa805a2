//! The update engine's decisions. Copying, checking, erasing and extracting
//! are done by the caller; this module decides, step by step, what comes
//! next for each drive and what the run's outcome is, so that every failure
//! stays with the drive it happened on and nothing is erased that the plan
//! does not call for.

use crate::drive::{Drive, TargetKind};
use crate::scan::{
    classify_chars, cycle_label, name_or_empty, opt_cycle_less, opt_cycle_lt, parse_cycle,
    spec_parse_cycle, path_file_name, spec_classify, package_lt, Package,
    without_first_component, Archive, Cycle, DupKind, Member,
};
use crate::text::{
    chars_of, decimal_string, decimal_text, ends_with, is_ascii_digit, has_suffix, joined, lower_seq, lowercase,
    push_decimal, same, string_from,
};
use sha2::{Digest, Sha256};
use std::sync::atomic::{AtomicBool, Ordering};
use std::sync::Arc;
use vstd::prelude::*;

verus! {

#[derive(Debug, Clone, Copy, PartialEq, Eq, Structural)]
pub enum Severity {
    Info,
    Success,
    Warning,
    Error,
}

#[derive(Debug, Clone, Copy, PartialEq, Eq, Structural)]
pub enum DriveState {
    Waiting,
    CopyingDatabases,
    CheckingCopies,
    ErasingPlates,
    ExtractingPlates,
    Finishing,
    Done,
    Failed,
    Skipped,
    Stopped,
}

#[derive(Debug, Clone, PartialEq, Eq)]
pub enum Outcome {
    Updated,
    /// A plain-language sentence, ready to show.
    Failed(String),
    /// Never started, because the run was stopped first.
    Skipped,
    /// Stopped after the plates folder was already erased.
    Interrupted,
}

/// How one drive's update went, for the result page.
#[derive(Debug, Clone)]
pub struct DriveOutcome {
    pub name: String,
    pub path: String,
    pub kind: TargetKind,
    pub result: Outcome,
    /// Whole seconds the drive took.
    pub elapsed_secs: u64,
    pub plates_written: usize,
    pub cycle: Option<Cycle>,
}

// ---------------------------------------------------------------------------
// Cancellation
// ---------------------------------------------------------------------------

/// Cancellation shared with the UI. `past_no_return` tells the window whether
/// stopping still costs the user anything. Both flags are set by one thread
/// and read by another, so what a read gives back is not stated.
#[derive(Clone)]
pub struct Cancel {
    flag: Arc<AtomicBool>,
    past_no_return: Arc<AtomicBool>,
}

impl Cancel {
    pub fn new() -> Cancel {
        Cancel {
            flag: Arc::new(AtomicBool::new(false)),
            past_no_return: Arc::new(AtomicBool::new(false)),
        }
    }

    pub fn request(&self) {
        self.flag.store(true, Ordering::SeqCst);
    }

    pub fn is_cancelled(&self) -> bool {
        self.flag.load(Ordering::SeqCst)
    }

    pub fn past_point_of_no_return(&self) -> bool {
        self.past_no_return.load(Ordering::SeqCst)
    }

    /// Called just before the first plate is deleted.
    pub fn mark_no_return(&self) {
        self.past_no_return.store(true, Ordering::SeqCst);
    }
}

// ---------------------------------------------------------------------------
// Digit grouping
// ---------------------------------------------------------------------------

/// The first `k` digits of `d`, with a `,` before every digit that starts a
/// group of three counted from the right.
pub open spec fn grouped_upto(d: Seq<char>, k: int) -> Seq<char>
    decreases k,
{
    if k <= 0 || k > d.len() {
        Seq::empty()
    } else {
        let i = k - 1;
        grouped_upto(d, i) + (if i > 0 && (d.len() - i) % 3 == 0 {
            seq![',']
        } else {
            Seq::empty()
        }) + seq![d[i]]
    }
}

/// `n` in decimal with thousands separated by commas: `1,234,567`.
pub open spec fn grouped(n: nat) -> Seq<char> {
    grouped_upto(decimal_text(n), decimal_text(n).len() as int)
}

pub fn group(n: u64) -> (r: String)
    ensures
        r@ == grouped(n as nat),
{
    let mut digits: Vec<char> = Vec::new();
    push_decimal(&mut digits, n);
    assert(digits@ =~= decimal_text(n as nat));
    let len = digits.len();
    let mut out: Vec<char> = Vec::new();
    let mut i: usize = 0;
    while i < len
        invariant
            i <= len,
            len == digits@.len(),
            digits@ == decimal_text(n as nat),
            out@ == grouped_upto(digits@, i as int),
        decreases len - i,
    {
        if i > 0 && (len - i) % 3 == 0 {
            out.push(',');
        }
        out.push(digits[i]);
        i += 1;
    }
    string_from(out)
}

/// Digits from the left, then `,` and three digits as often as they fill:
/// `1,234,567`.
pub open spec fn commas_every_three(d: Seq<char>) -> Seq<char>
    decreases d.len(),
{
    if d.len() <= 3 {
        d
    } else {
        commas_every_three(d.subrange(0, d.len() - 3)) + seq![','] + d.subrange(
            d.len() - 3,
            d.len() as int,
        )
    }
}

/// `s` without its commas.
pub open spec fn without_commas(s: Seq<char>) -> Seq<char> {
    s.filter(|c: char| c != ',')
}

proof fn lemma_grouped_prefix(d: Seq<char>, k: int)
    requires
        d.len() > 3,
        0 <= k <= d.len() - 3,
    ensures
        grouped_upto(d, k) == grouped_upto(d.subrange(0, d.len() - 3), k),
    decreases k,
{
    if k > 0 {
        lemma_grouped_prefix(d, k - 1);
    }
}

proof fn lemma_grouped_short(d: Seq<char>, k: int)
    requires
        d.len() <= 3,
        0 <= k <= d.len(),
    ensures
        grouped_upto(d, k) == d.subrange(0, k),
    decreases k,
{
    if k > 0 {
        lemma_grouped_short(d, k - 1);
        assert(d.subrange(0, k) =~= d.subrange(0, k - 1) + seq![d[k - 1]]);
    }
}

proof fn lemma_grouped_every_three(d: Seq<char>)
    ensures
        grouped_upto(d, d.len() as int) == commas_every_three(d),
    decreases d.len(),
{
    if d.len() <= 3 {
        lemma_grouped_short(d, d.len() as int);
        assert(d.subrange(0, d.len() as int) =~= d);
    } else {
        let e = d.subrange(0, d.len() - 3);
        let n = d.len() as int;
        lemma_grouped_every_three(e);
        lemma_grouped_prefix(d, n - 3);
        assert(grouped_upto(d, n - 2) =~= grouped_upto(d, n - 3) + seq![','] + seq![d[n - 3]]);
        assert((d.len() - (n - 2)) % 3 == 2);
        assert(grouped_upto(d, n - 1) =~= grouped_upto(d, n - 2) + seq![d[n - 2]]);
        assert((d.len() - (n - 1)) % 3 == 1);
        assert(grouped_upto(d, n) =~= grouped_upto(d, n - 1) + seq![d[n - 1]]);
        assert(d.subrange(n - 3, n) =~= seq![d[n - 3], d[n - 2], d[n - 1]]);
        assert(grouped_upto(d, n) =~= commas_every_three(d));
    }
}

proof fn lemma_no_commas_kept(d: Seq<char>)
    requires
        forall|k: int| 0 <= k < d.len() ==> is_ascii_digit(#[trigger] d[k]),
    ensures
        without_commas(d) == d,
    decreases d.len(),
{
    reveal(Seq::filter);
    if d.len() > 0 {
        lemma_no_commas_kept(d.drop_last());
        assert(d.drop_last().push(d.last()) =~= d);
    }
}

proof fn lemma_commas_removed(d: Seq<char>)
    requires
        forall|k: int| 0 <= k < d.len() ==> is_ascii_digit(#[trigger] d[k]),
    ensures
        without_commas(commas_every_three(d)) == d,
    decreases d.len(),
{
    if d.len() <= 3 {
        lemma_no_commas_kept(d);
    } else {
        let e = d.subrange(0, d.len() - 3);
        let t = d.subrange(d.len() - 3, d.len() as int);
        lemma_commas_removed(e);
        lemma_no_commas_kept(t);
        let pred = |c: char| c != ',';
        Seq::filter_distributes_over_add(commas_every_three(e) + seq![','], t, pred);
        Seq::filter_distributes_over_add(commas_every_three(e), seq![','], pred);
        reveal_with_fuel(Seq::filter, 2);
        assert(seq![','].filter(pred) =~= Seq::<char>::empty());
        assert(e + t =~= d);
    }
}

proof fn lemma_decimal_digits(n: nat)
    ensures
        decimal_text(n).len() > 0,
        forall|k: int| 0 <= k < decimal_text(n).len() ==> is_ascii_digit(#[trigger] decimal_text(n)[k]),
    decreases n,
{
    if n >= 10 {
        lemma_decimal_digits(n / 10);
    }
}

/// A grouped number is its decimal text with a comma before every group of
/// three digits counted from the right: one to three digits first, then
/// three at a time; taking the commas out gives the decimal text back.
pub proof fn law_grouping_only_adds_commas(n: nat)
    ensures
        grouped(n) == commas_every_three(decimal_text(n)),
        without_commas(grouped(n)) == decimal_text(n),
{
    lemma_decimal_digits(n);
    lemma_grouped_every_three(decimal_text(n));
    lemma_commas_removed(decimal_text(n));
}

// ---------------------------------------------------------------------------
// The plan
// ---------------------------------------------------------------------------

/// What the user asked for: the drives, the database files and plates
/// archive to write, and how.
pub struct Plan {
    pub drives: Vec<Drive>,
    pub aviation: Option<String>,
    pub obstacle: Option<String>,
    /// A `.duc` database package, copied to the drive whole.
    pub package: Option<String>,
    pub archive: Option<Archive>,
    pub strip_wrapper: bool,
    pub verify: bool,
    pub replace_old: bool,
    pub cycle: Option<Cycle>,
}

/// A database's size counts when it is in the plan and its size could be
/// read.
pub open spec fn counted(path: Option<String>, size: Option<u64>) -> nat {
    match (path, size) {
        (Some(_), Some(b)) => b as nat,
        _ => 0,
    }
}

pub open spec fn database_bytes(
    plan: Plan,
    aviation: Option<u64>,
    obstacle: Option<u64>,
    package: Option<u64>,
) -> nat {
    counted(plan.aviation, aviation) + counted(plan.obstacle, obstacle) + counted(
        plan.package,
        package,
    )
}

pub open spec fn archive_bytes(plan: Plan) -> nat {
    match plan.archive {
        Some(a) => a.total_bytes as nat,
        None => 0,
    }
}

pub open spec fn spec_bytes_per_drive(
    plan: Plan,
    aviation: Option<u64>,
    obstacle: Option<u64>,
    package: Option<u64>,
) -> nat {
    database_bytes(plan, aviation, obstacle, package) + archive_bytes(plan)
}

/// All the bytes the run moves: each drive's writes, plus each database read
/// back once more when copies are checked.
pub open spec fn work_bytes(
    plan: Plan,
    aviation: Option<u64>,
    obstacle: Option<u64>,
    package: Option<u64>,
) -> nat {
    (spec_bytes_per_drive(plan, aviation, obstacle, package) + (if plan.verify {
        database_bytes(plan, aviation, obstacle, package)
    } else {
        0
    })) * plan.drives@.len()
}

impl Plan {
    /// Bytes written to a single drive, which is what the space check needs.
    /// `aviation_bytes`, `obstacle_bytes` and `package_bytes` are the sizes
    /// on disk, `None` where they could not be read.
    pub fn bytes_per_drive(
        &self,
        aviation_bytes: Option<u64>,
        obstacle_bytes: Option<u64>,
        package_bytes: Option<u64>,
    ) -> (r: u64)
        requires
            spec_bytes_per_drive(*self, aviation_bytes, obstacle_bytes, package_bytes) <= u64::MAX,
        ensures
            r == spec_bytes_per_drive(*self, aviation_bytes, obstacle_bytes, package_bytes),
    {
        let a: u64 = match (&self.aviation, aviation_bytes) {
            (Some(_), Some(b)) => b,
            _ => 0,
        };
        let o: u64 = match (&self.obstacle, obstacle_bytes) {
            (Some(_), Some(b)) => b,
            _ => 0,
        };
        let k: u64 = match (&self.package, package_bytes) {
            (Some(_), Some(b)) => b,
            _ => 0,
        };
        let z: u64 = match &self.archive {
            Some(x) => x.total_bytes,
            None => 0,
        };
        a + o + k + z
    }

    /// Whether the byte counts of a run fit the counters: one drive's
    /// writes, and the whole run's work. Callers test this before asking
    /// for either.
    pub fn sizes_fit(
        &self,
        aviation_bytes: Option<u64>,
        obstacle_bytes: Option<u64>,
        package_bytes: Option<u64>,
    ) -> (r: bool)
        ensures
            r == (spec_bytes_per_drive(*self, aviation_bytes, obstacle_bytes, package_bytes)
                <= u64::MAX && work_bytes(*self, aviation_bytes, obstacle_bytes, package_bytes)
                <= u64::MAX),
    {
        let a: u128 = match (&self.aviation, aviation_bytes) {
            (Some(_), Some(b)) => b as u128,
            _ => 0,
        };
        let o: u128 = match (&self.obstacle, obstacle_bytes) {
            (Some(_), Some(b)) => b as u128,
            _ => 0,
        };
        let k: u128 = match (&self.package, package_bytes) {
            (Some(_), Some(b)) => b as u128,
            _ => 0,
        };
        let z: u128 = match &self.archive {
            Some(x) => x.total_bytes as u128,
            None => 0,
        };
        let dbs = a + o + k;
        let per = dbs + z;
        if per > u64::MAX as u128 {
            return false;
        }
        let extra: u128 = if self.verify {
            dbs
        } else {
            0
        };
        let each = per + extra;
        let n = self.drives.len() as u128;
        if n == 0 {
            assert(work_bytes(*self, aviation_bytes, obstacle_bytes, package_bytes) == 0) by (
            nonlinear_arith)
                requires
                    n == 0,
                    self.drives@.len() == n,
                    work_bytes(*self, aviation_bytes, obstacle_bytes, package_bytes) == each
                        * self.drives@.len(),
            ;
            return true;
        }
        if each > u64::MAX as u128 {
            assert(each * n >= each) by (nonlinear_arith)
                requires
                    n >= 1,
            ;
            return false;
        }
        assert(each * n <= 0xffff_ffff_ffff_ffff * 0xffff_ffff_ffff_ffff) by (nonlinear_arith)
            requires
                each <= 0xffff_ffff_ffff_ffff,
                n <= 0xffff_ffff_ffff_ffff,
        ;
        each * n <= u64::MAX as u128
    }

    /// The progress bar's full length, never 0.
    pub fn total_work(
        &self,
        aviation_bytes: Option<u64>,
        obstacle_bytes: Option<u64>,
        package_bytes: Option<u64>,
    ) -> (r: u64)
        requires
            work_bytes(*self, aviation_bytes, obstacle_bytes, package_bytes) <= u64::MAX,
        ensures
            r == (if work_bytes(*self, aviation_bytes, obstacle_bytes, package_bytes) == 0 {
                1
            } else {
                work_bytes(*self, aviation_bytes, obstacle_bytes, package_bytes)
            }),
    {
        let per_db: u64 = match (&self.aviation, aviation_bytes) {
            (Some(_), Some(b)) => b,
            _ => 0,
        };
        let ob: u64 = match (&self.obstacle, obstacle_bytes) {
            (Some(_), Some(b)) => b,
            _ => 0,
        };
        let pk: u64 = match (&self.package, package_bytes) {
            (Some(_), Some(b)) => b,
            _ => 0,
        };
        let z: u64 = match &self.archive {
            Some(x) => x.total_bytes,
            None => 0,
        };
        let ghost per_drive = spec_bytes_per_drive(*self, aviation_bytes, obstacle_bytes, package_bytes);
        let ghost extra = if self.verify {
            database_bytes(*self, aviation_bytes, obstacle_bytes, package_bytes)
        } else {
            0
        };
        let count = self.drives.len() as u64;
        if count == 0 {
            assert(self.drives@.len() == 0);
            assert((per_drive + extra) * self.drives@.len() == 0) by (nonlinear_arith)
                requires
                    self.drives@.len() == 0,
            ;
            return 1;
        }
        assert((per_drive + extra) * count >= per_drive + extra) by (nonlinear_arith)
            requires
                count >= 1,
                per_drive + extra >= 0,
        ;
        let dbs = per_db + ob + pk;
        let verify_extra: u64 = if self.verify {
            dbs
        } else {
            0
        };
        let sum = dbs + z + verify_extra;
        let total = sum * count;
        if total == 0 {
            1
        } else {
            total
        }
    }
}

// ---------------------------------------------------------------------------
// One drive's update, step by step
// ---------------------------------------------------------------------------

/// What the caller is to do next for a drive.
#[derive(Debug, Clone, Copy, PartialEq, Eq, Structural)]
pub enum DriveStep {
    /// Measure what clearing the old plates would free.
    MeasurePlates,
    /// Remove older databases of this kind from the drive's root.
    RemoveOld(DupKind),
    /// Copy the database of this kind through a `.part` file.
    Copy(DupKind),
    /// Compare the checksums of the copy and its source.
    Compare(DupKind),
    /// Delete the copy of this kind, whose checksum did not match.
    Discard(DupKind),
    /// Remove the older database packages from the drive's root.
    RemovePackages,
    /// Copy the database package, whole, through a `.part` file.
    CopyPackage,
    /// Compare the checksums of the package's copy and its source.
    ComparePackage,
    /// Delete the package's copy, whose checksum did not match.
    DiscardPackage,
    /// Find out whether the plates folder exists.
    CheckPlates,
    /// Find, in a plates folder that was there before, the plates the
    /// archive no longer has.
    RemoveStale,
    /// Remove the plates found stale.
    Prune,
    /// Create the plates folder.
    CreatePlates,
    /// Open the plates archive.
    OpenArchive,
    /// Compare the archive member at this position of the member list with
    /// the plate the drive holds under its name.
    Extract(usize),
    /// Write the member at this position: the drive did not hold its bytes.
    Write(usize),
    /// Flush the drive's directory metadata.
    Finish,
}

/// What the caller saw when it did a step.
#[derive(Debug, Clone)]
pub enum Report {
    Done,
    /// The plate on the drive already held the member's bytes and was left
    /// alone.
    Kept,
    /// The drive does not hold the member's bytes: the plate is to be
    /// written.
    Differs,
    /// This many plates on the drive are no longer in the archive.
    Found(usize),
    /// The bytes under the plates folder.
    Measured(u64),
    /// Whether the plates folder exists.
    Exists(bool),
    /// Whether the checksums agree.
    Matched(bool),
    /// The user stopped the run.
    Stopped,
    /// The step failed; for copying and checking this is the sentence to
    /// show, for the plates folder the system's own words.
    Failed(String),
}

/// Why a drive was not updated.
#[derive(Debug, Clone)]
pub enum FailReason {
    NotWritable,
    NoSpace { needed: u64, available: u64 },
    /// A copy or checksum step failed, in these words.
    Io(String),
    /// The copy of this file differs from its source.
    Mismatch(String),
    ClearFailed(String),
    CreateFailed(String),
    ArchiveChanged,
    /// This many plates could not be read, more than one in a hundred.
    Unreadable(usize),
}

#[derive(Debug, Clone)]
pub enum DriveEnd {
    Updated,
    Stopped,
    Failed(FailReason),
}

#[derive(Debug, Clone)]
pub enum Phase {
    Step(DriveStep),
    Ended(DriveEnd),
}

/// One drive's update in progress.
pub struct DriveUpdate {
    /// File names of the databases to copy.
    pub aviation: Option<String>,
    pub obstacle: Option<String>,
    /// File name of the database package to copy.
    pub package: Option<String>,
    pub verify: bool,
    pub replace_old: bool,
    /// The archive members to extract, wrapper stripped as planned; `None`
    /// when the plan has no archive.
    pub members: Option<Vec<Member>>,
    /// Bytes the update writes to the drive.
    pub needed: u64,
    pub free: u64,
    pub writable: bool,
    /// What clearing the old plates frees.
    pub reclaim: u64,
    pub phase: Phase,
    /// The plates folder was there before the update.
    pub folder_existed: bool,
    /// Past the point of no return: a plate of a folder that was there
    /// before is being replaced or removed, so a stop leaves the folder
    /// part old, part new.
    pub erased: bool,
    pub plates_written: usize,
    /// Plates the drive already held unchanged.
    pub plates_kept: usize,
    pub unreadable: usize,
}

pub open spec fn member_count(s: DriveUpdate) -> nat {
    match s.members {
        Some(m) => m@.len(),
        None => 0,
    }
}

pub open spec fn saturating_sum(a: u64, b: u64) -> nat {
    if a + b > u64::MAX {
        u64::MAX as nat
    } else {
        (a + b) as nat
    }
}

pub open spec fn db_entry(s: DriveUpdate, k: DupKind) -> DriveStep {
    if s.replace_old {
        DriveStep::RemoveOld(k)
    } else {
        DriveStep::Copy(k)
    }
}

/// Slot of a database kind in the order of work: aviation, then obstacle.
pub open spec fn slot_of(k: DupKind) -> int {
    if k == DupKind::Aviation {
        0
    } else {
        1
    }
}

/// The first step from database slot `slot` on: the databases still to copy
/// (aviation, obstacle, then the package), then the plates, then finishing.
pub open spec fn steps_from(s: DriveUpdate, slot: int) -> DriveStep {
    if slot <= 0 && s.aviation is Some {
        db_entry(s, DupKind::Aviation)
    } else if slot <= 1 && s.obstacle is Some {
        db_entry(s, DupKind::Obstacle)
    } else if slot <= 2 && s.package is Some {
        if s.replace_old {
            DriveStep::RemovePackages
        } else {
            DriveStep::CopyPackage
        }
    } else if s.members is Some {
        DriveStep::CheckPlates
    } else {
        DriveStep::Finish
    }
}

/// The space check: a drive that takes no writes, or has too little room
/// even once the old plates are gone, fails before anything is touched.
pub open spec fn preflight(s: DriveUpdate, reclaim: u64) -> Phase {
    if !s.writable {
        Phase::Ended(DriveEnd::Failed(FailReason::NotWritable))
    } else if s.needed > saturating_sum(s.free, reclaim) {
        Phase::Ended(
            DriveEnd::Failed(
                FailReason::NoSpace { needed: s.needed, available: (s.free + reclaim) as u64 },
            ),
        )
    } else {
        Phase::Step(steps_from(s, 0))
    }
}

/// Where a new drive update begins: measuring the plates when there is an
/// archive, else straight at the space check.
pub open spec fn start_phase(s: DriveUpdate) -> Phase {
    if s.members is Some {
        Phase::Step(DriveStep::MeasurePlates)
    } else {
        preflight(s, 0)
    }
}

pub open spec fn file_of(s: DriveUpdate, k: DupKind) -> String {
    if k == DupKind::Aviation {
        s.aviation.unwrap()
    } else {
        s.obstacle.unwrap()
    }
}

/// Once every member is on the drive: removing what the archive no longer
/// has from a folder that was there before, else finishing.
pub open spec fn after_members(s: DriveUpdate) -> DriveStep {
    if s.folder_existed {
        DriveStep::RemoveStale
    } else {
        DriveStep::Finish
    }
}

/// After the member at `n`: the next member, or what follows the members.
pub open spec fn after_member(s: DriveUpdate, n: int) -> DriveStep {
    if n + 1 < member_count(s) {
        DriveStep::Extract((n + 1) as usize)
    } else {
        after_members(s)
    }
}

/// After the member at `n` could not be brought onto the drive: one more
/// unreadable plate, which ends the update once more than one in a hundred
/// are.
pub open spec fn after_unreadable(s: DriveUpdate, n: int) -> DriveUpdate {
    let u = s.unreadable + 1;
    if u * 100 > member_count(s) {
        DriveUpdate {
            unreadable: u as usize,
            phase: Phase::Ended(DriveEnd::Failed(FailReason::Unreadable(u as usize))),
            ..s
        }
    } else {
        DriveUpdate { unreadable: u as usize, phase: Phase::Step(after_member(s, n)), ..s }
    }
}

/// The reports a step can give.
pub open spec fn report_fits(step: DriveStep, r: Report) -> bool {
    match step {
        DriveStep::MeasurePlates => r is Measured,
        DriveStep::RemoveOld(_) => r is Done,
        DriveStep::Copy(_) => r is Done || r is Stopped || r is Failed,
        DriveStep::Compare(_) => r is Matched || r is Stopped || r is Failed,
        DriveStep::RemovePackages => r is Done,
        DriveStep::CopyPackage => r is Done || r is Stopped || r is Failed,
        DriveStep::ComparePackage => r is Matched || r is Stopped || r is Failed,
        DriveStep::Discard(_) => r is Done,
        DriveStep::DiscardPackage => r is Done,
        DriveStep::CheckPlates => r is Exists,
        DriveStep::RemoveStale => r is Found,
        DriveStep::Prune => r is Done || r is Failed,
        DriveStep::CreatePlates => r is Done || r is Failed,
        DriveStep::OpenArchive => r is Done || r is Failed,
        DriveStep::Extract(_) => r is Differs || r is Kept || r is Stopped || r is Failed,
        DriveStep::Write(_) => r is Done || r is Stopped || r is Failed,
        DriveStep::Finish => r is Done,
    }
}

pub open spec fn with_phase(s: DriveUpdate, p: Phase) -> DriveUpdate {
    DriveUpdate { phase: p, ..s }
}

/// The update after `step` gave `r`.
pub open spec fn after_step(s: DriveUpdate, step: DriveStep, r: Report) -> DriveUpdate {
    match step {
        DriveStep::MeasurePlates => match r {
            Report::Measured(b) => DriveUpdate { reclaim: b, phase: preflight(s, b), ..s },
            _ => s,
        },
        DriveStep::RemoveOld(k) => with_phase(s, Phase::Step(DriveStep::Copy(k))),
        DriveStep::Copy(k) => match r {
            Report::Done => with_phase(
                s,
                Phase::Step(
                    if s.verify {
                        DriveStep::Compare(k)
                    } else {
                        steps_from(s, slot_of(k) + 1)
                    },
                ),
            ),
            Report::Stopped => with_phase(s, Phase::Ended(DriveEnd::Stopped)),
            Report::Failed(m) => with_phase(s, Phase::Ended(DriveEnd::Failed(FailReason::Io(m)))),
            _ => s,
        },
        DriveStep::Compare(k) => match r {
            Report::Matched(true) => with_phase(s, Phase::Step(steps_from(s, slot_of(k) + 1))),
            Report::Matched(false) => with_phase(s, Phase::Step(DriveStep::Discard(k))),
            Report::Stopped => with_phase(s, Phase::Ended(DriveEnd::Stopped)),
            Report::Failed(m) => with_phase(s, Phase::Ended(DriveEnd::Failed(FailReason::Io(m)))),
            _ => s,
        },
        DriveStep::Discard(k) => with_phase(
            s,
            Phase::Ended(DriveEnd::Failed(FailReason::Mismatch(file_of(s, k)))),
        ),
        DriveStep::DiscardPackage => with_phase(
            s,
            Phase::Ended(DriveEnd::Failed(FailReason::Mismatch(s.package.unwrap()))),
        ),
        DriveStep::RemovePackages => with_phase(s, Phase::Step(DriveStep::CopyPackage)),
        DriveStep::CopyPackage => match r {
            Report::Done => with_phase(
                s,
                Phase::Step(
                    if s.verify {
                        DriveStep::ComparePackage
                    } else {
                        steps_from(s, 3)
                    },
                ),
            ),
            Report::Stopped => with_phase(s, Phase::Ended(DriveEnd::Stopped)),
            Report::Failed(m) => with_phase(s, Phase::Ended(DriveEnd::Failed(FailReason::Io(m)))),
            _ => s,
        },
        DriveStep::ComparePackage => match r {
            Report::Matched(true) => with_phase(s, Phase::Step(steps_from(s, 3))),
            Report::Matched(false) => with_phase(s, Phase::Step(DriveStep::DiscardPackage)),
            Report::Stopped => with_phase(s, Phase::Ended(DriveEnd::Stopped)),
            Report::Failed(m) => with_phase(s, Phase::Ended(DriveEnd::Failed(FailReason::Io(m)))),
            _ => s,
        },
        DriveStep::CheckPlates => match r {
            Report::Exists(true) => DriveUpdate {
                folder_existed: true,
                phase: Phase::Step(DriveStep::OpenArchive),
                ..s
            },
            Report::Exists(false) => with_phase(s, Phase::Step(DriveStep::CreatePlates)),
            _ => s,
        },
        DriveStep::RemoveStale => match r {
            Report::Found(n) => if n == 0 {
                with_phase(s, Phase::Step(DriveStep::Finish))
            } else {
                DriveUpdate { erased: true, phase: Phase::Step(DriveStep::Prune), ..s }
            },
            _ => s,
        },
        DriveStep::Prune => match r {
            Report::Done => with_phase(s, Phase::Step(DriveStep::Finish)),
            Report::Failed(d) => with_phase(
                s,
                Phase::Ended(DriveEnd::Failed(FailReason::ClearFailed(d))),
            ),
            _ => s,
        },
        DriveStep::CreatePlates => match r {
            Report::Done => with_phase(s, Phase::Step(DriveStep::OpenArchive)),
            Report::Failed(d) => with_phase(
                s,
                Phase::Ended(DriveEnd::Failed(FailReason::CreateFailed(d))),
            ),
            _ => s,
        },
        DriveStep::OpenArchive => match r {
            Report::Done => with_phase(
                s,
                Phase::Step(
                    if member_count(s) > 0 {
                        DriveStep::Extract(0)
                    } else {
                        after_members(s)
                    },
                ),
            ),
            Report::Failed(_) => with_phase(
                s,
                Phase::Ended(DriveEnd::Failed(FailReason::ArchiveChanged)),
            ),
            _ => s,
        },
        DriveStep::Extract(n) => match r {
            Report::Differs => DriveUpdate {
                erased: s.erased || s.folder_existed,
                phase: Phase::Step(DriveStep::Write(n)),
                ..s
            },
            Report::Kept => DriveUpdate {
                plates_kept: (s.plates_kept + 1) as usize,
                phase: Phase::Step(after_member(s, n as int)),
                ..s
            },
            Report::Stopped => with_phase(s, Phase::Ended(DriveEnd::Stopped)),
            Report::Failed(_) => after_unreadable(s, n as int),
            _ => s,
        },
        DriveStep::Write(n) => match r {
            Report::Done => DriveUpdate {
                plates_written: (s.plates_written + 1) as usize,
                phase: Phase::Step(after_member(s, n as int)),
                ..s
            },
            Report::Stopped => with_phase(s, Phase::Ended(DriveEnd::Stopped)),
            Report::Failed(_) => after_unreadable(s, n as int),
            _ => s,
        },
        DriveStep::Finish => with_phase(s, Phase::Ended(DriveEnd::Updated)),
    }
}

/// A database step names a database the plan has, and comes only when the
/// plan asks for it.
pub open spec fn db_step_ok(s: DriveUpdate, k: DupKind) -> bool {
    &&& (k == DupKind::Aviation && s.aviation is Some) || (k == DupKind::Obstacle
        && s.obstacle is Some)
}

/// The space check passed: the drive takes writes and has room.
pub open spec fn cleared_to_write(s: DriveUpdate) -> bool {
    s.writable && s.needed <= saturating_sum(s.free, s.reclaim)
}

pub open spec fn plates_step(step: DriveStep) -> bool {
    step is CheckPlates || step is RemoveStale || step is Prune || step is CreatePlates
        || step is OpenArchive || step is Extract || step is Write
}

pub open spec fn ended_unreadable(p: Phase) -> bool {
    match p {
        Phase::Ended(DriveEnd::Failed(FailReason::Unreadable(_))) => true,
        _ => false,
    }
}

impl DriveUpdate {
    /// What holds of every drive update as it goes.
    pub open spec fn wf(self) -> bool {
        &&& member_count(self) <= usize::MAX
        &&& self.plates_written + self.plates_kept + self.unreadable <= member_count(self)
        &&& self.unreadable * 100 <= member_count(self) || ended_unreadable(self.phase)
        &&& self.erased ==> self.folder_existed
        &&& self.folder_existed ==> self.members is Some
        &&& match self.phase {
            Phase::Step(step) => {
                &&& step !is MeasurePlates ==> cleared_to_write(self)
                &&& step is MeasurePlates ==> self.members is Some && !self.folder_existed
                &&& step matches DriveStep::RemoveOld(k) ==> self.replace_old && db_step_ok(
                    self,
                    k,
                )
                &&& step matches DriveStep::Copy(k) ==> db_step_ok(self, k)
                &&& step matches DriveStep::Compare(k) ==> self.verify && db_step_ok(self, k)
                &&& step is RemovePackages ==> self.replace_old && self.package is Some
                &&& step is CopyPackage ==> self.package is Some
                &&& step is ComparePackage ==> self.verify && self.package is Some
                &&& step matches DriveStep::Discard(k) ==> self.verify && db_step_ok(self, k)
                &&& step is DiscardPackage ==> self.verify && self.package is Some
                &&& plates_step(step) ==> self.members is Some
                &&& (step is RemoveStale || step is Prune) ==> self.folder_existed
                    && self.plates_written + self.plates_kept + self.unreadable == member_count(self)
                    && self.unreadable * 100 <= member_count(self)
                &&& step is Prune ==> self.erased
                &&& !(step is Extract || step is Write || step is Finish || step is RemoveStale
                    || step is Prune) ==> self.plates_written == 0 && self.plates_kept == 0
                    && self.unreadable == 0
                &&& (step is RemoveOld || step is Copy || step is Compare || step is Discard
                    || step is RemovePackages || step is CopyPackage || step is ComparePackage
                    || step is DiscardPackage || step is CheckPlates) ==> !self.folder_existed
                &&& (step is CreatePlates || step is OpenArchive) ==> !self.erased
                &&& step is Finish ==> self.plates_written + self.plates_kept + self.unreadable
                    == member_count(self)
                &&& step matches DriveStep::Extract(n) ==> {
                    &&& n < member_count(self)
                    &&& self.plates_written + self.plates_kept + self.unreadable == n
                    &&& self.unreadable * 100 <= member_count(self)
                }
                &&& step matches DriveStep::Write(n) ==> {
                    &&& n < member_count(self)
                    &&& self.plates_written + self.plates_kept + self.unreadable == n
                    &&& self.unreadable * 100 <= member_count(self)
                }
            },
            Phase::Ended(DriveEnd::Updated) => {
                &&& self.plates_written + self.plates_kept + self.unreadable == member_count(self)
                &&& self.unreadable * 100 <= member_count(self)
            },
            Phase::Ended(_) => true,
        }
    }
}

/// `ms` are the members of `a`, each moved out of the wrapper folder when
/// `strip` asks for it and the archive has one.
pub open spec fn stripped_as(a: Archive, strip: bool, ms: Seq<Member>) -> bool {
    &&& ms.len() == a.members@.len()
    &&& forall|k: int|
        0 <= k < ms.len() ==> {
            let m = #[trigger] ms[k];
            let o = a.members@[k];
            &&& m.index == o.index
            &&& m.size == o.size
            &&& m.dest@ == (if strip && a.wrapper is Some {
                without_first_component(o.dest@)
            } else {
                o.dest@
            })
        }
}

/// The file name a database is copied under.
pub open spec fn copied_name(path: Option<String>, name: Option<String>) -> bool {
    match path {
        Some(p) => name matches Some(n) && n@ == name_or_empty(p@),
        None => name is None,
    }
}

impl DriveUpdate {
    /// The update of `drive` under `plan`, where the update writes `needed`
    /// bytes to the drive.
    pub fn new(plan: &Plan, drive: &Drive, needed: u64) -> (r: DriveUpdate)
        ensures
            copied_name(plan.aviation, r.aviation),
            copied_name(plan.obstacle, r.obstacle),
            copied_name(plan.package, r.package),
            r.verify == plan.verify,
            r.replace_old == plan.replace_old,
            match plan.archive {
                Some(a) => r.members matches Some(m) && stripped_as(a, plan.strip_wrapper, m@),
                None => r.members is None,
            },
            r.needed == needed,
            r.free == drive.free,
            r.writable == drive.writable,
            r.reclaim == 0,
            !r.erased,
            !r.folder_existed,
            r.plates_written == 0,
            r.plates_kept == 0,
            r.unreadable == 0,
            r.phase == start_phase(r),
            r.wf(),
    {
        let aviation = match &plan.aviation {
            Some(p) => Some(path_file_name(p.as_str())),
            None => None,
        };
        let obstacle = match &plan.obstacle {
            Some(p) => Some(path_file_name(p.as_str())),
            None => None,
        };
        let package = match &plan.package {
            Some(p) => Some(path_file_name(p.as_str())),
            None => None,
        };
        let members = match &plan.archive {
            Some(a) => Some(a.members_stripped(plan.strip_wrapper)),
            None => None,
        };
        let mut r = DriveUpdate {
            aviation,
            obstacle,
            package,
            verify: plan.verify,
            replace_old: plan.replace_old,
            members,
            needed,
            free: drive.free,
            writable: drive.writable,
            reclaim: 0,
            phase: Phase::Step(DriveStep::MeasurePlates),
            folder_existed: false,
            erased: false,
            plates_written: 0,
            plates_kept: 0,
            unreadable: 0,
        };
        let _ = r.member_len();
        if r.members.is_none() {
            r.phase = r.preflight_phase(0);
        }
        r
    }

    fn member_len(&self) -> (r: usize)
        ensures
            r == member_count(*self),
    {
        match &self.members {
            Some(m) => m.len(),
            None => 0,
        }
    }

    fn step_from(&self, slot: u8) -> (r: DriveStep)
        ensures
            r == steps_from(*self, slot as int),
    {
        if slot == 0 && self.aviation.is_some() {
            if self.replace_old {
                DriveStep::RemoveOld(DupKind::Aviation)
            } else {
                DriveStep::Copy(DupKind::Aviation)
            }
        } else if slot <= 1 && self.obstacle.is_some() {
            if self.replace_old {
                DriveStep::RemoveOld(DupKind::Obstacle)
            } else {
                DriveStep::Copy(DupKind::Obstacle)
            }
        } else if slot <= 2 && self.package.is_some() {
            if self.replace_old {
                DriveStep::RemovePackages
            } else {
                DriveStep::CopyPackage
            }
        } else if self.members.is_some() {
            DriveStep::CheckPlates
        } else {
            DriveStep::Finish
        }
    }

    fn preflight_phase(&self, reclaim: u64) -> (r: Phase)
        ensures
            r == preflight(*self, reclaim),
    {
        if !self.writable {
            Phase::Ended(DriveEnd::Failed(FailReason::NotWritable))
        } else if self.needed > self.free.saturating_add(reclaim) {
            Phase::Ended(
                DriveEnd::Failed(
                    FailReason::NoSpace { needed: self.needed, available: self.free + reclaim },
                ),
            )
        } else {
            Phase::Step(self.step_from(0))
        }
    }

    fn after_member_step(&self, n: usize) -> (r: DriveStep)
        requires
            n < member_count(*self),
        ensures
            r == after_member(*self, n as int),
    {
        let count = self.member_len();
        if n + 1 < count {
            DriveStep::Extract(n + 1)
        } else {
            self.after_members_step()
        }
    }

    fn count_unreadable(&mut self, n: usize)
        requires
            n < member_count(*old(self)),
            old(self).plates_written + old(self).plates_kept + old(self).unreadable == n,
        ensures
            *final(self) == after_unreadable(*old(self), n as int),
    {
        let count = self.member_len();
        let u = self.unreadable + 1;
        if (u as u128) * 100 > count as u128 {
            self.unreadable = u;
            self.phase = Phase::Ended(DriveEnd::Failed(FailReason::Unreadable(u)));
        } else {
            let next = self.after_member_step(n);
            self.unreadable = u;
            self.phase = Phase::Step(next);
        }
    }

    fn after_members_step(&self) -> (r: DriveStep)
        ensures
            r == after_members(*self),
    {
        if self.folder_existed {
            DriveStep::RemoveStale
        } else {
            DriveStep::Finish
        }
    }

    fn file_name_of(&self, k: DupKind) -> (r: String)
        requires
            db_step_ok(*self, k),
        ensures
            r == file_of(*self, k),
    {
        if k == DupKind::Aviation {
            match &self.aviation {
                Some(a) => a.clone(),
                None => String::new(),
            }
        } else {
            match &self.obstacle {
                Some(o) => o.clone(),
                None => String::new(),
            }
        }
    }

    /// The step to do now, or `None` once the drive's update has ended.
    pub fn current(&self) -> (r: Option<DriveStep>)
        ensures
            match self.phase {
                Phase::Step(step) => r == Some(step),
                Phase::Ended(_) => r is None,
            },
    {
        match &self.phase {
            Phase::Step(step) => Some(*step),
            Phase::Ended(_) => None,
        }
    }

    /// Take in what the current step gave.
    pub fn report(&mut self, r: Report)
        requires
            old(self).wf(),
            old(self).phase matches Phase::Step(step) && report_fits(step, r),
        ensures
            match old(self).phase {
                Phase::Step(step) => *final(self) == after_step(*old(self), step, r),
                Phase::Ended(_) => *final(self) == *old(self),
            },
            final(self).wf(),
    {
        let step = match &self.phase {
            Phase::Step(st) => *st,
            Phase::Ended(_) => {
                return ;
            },
        };
        match step {
            DriveStep::MeasurePlates => {
                match r {
                    Report::Measured(b) => {
                        let p = self.preflight_phase(b);
                        self.reclaim = b;
                        self.phase = p;
                    },
                    _ => {},
                }
            },
            DriveStep::RemoveOld(k) => {
                self.phase = Phase::Step(DriveStep::Copy(k));
            },
            DriveStep::Copy(k) => {
                match r {
                    Report::Done => {
                        let next = if self.verify {
                            DriveStep::Compare(k)
                        } else if k == DupKind::Aviation {
                            self.step_from(1)
                        } else {
                            self.step_from(2)
                        };
                        self.phase = Phase::Step(next);
                    },
                    Report::Stopped => {
                        self.phase = Phase::Ended(DriveEnd::Stopped);
                    },
                    Report::Failed(m) => {
                        self.phase = Phase::Ended(DriveEnd::Failed(FailReason::Io(m)));
                    },
                    _ => {},
                }
            },
            DriveStep::Compare(k) => {
                match r {
                    Report::Matched(same_sum) => {
                        if same_sum {
                            let next = if k == DupKind::Aviation {
                                self.step_from(1)
                            } else {
                                self.step_from(2)
                            };
                            self.phase = Phase::Step(next);
                        } else {
                            self.phase = Phase::Step(DriveStep::Discard(k));
                        }
                    },
                    Report::Stopped => {
                        self.phase = Phase::Ended(DriveEnd::Stopped);
                    },
                    Report::Failed(m) => {
                        self.phase = Phase::Ended(DriveEnd::Failed(FailReason::Io(m)));
                    },
                    _ => {},
                }
            },
            DriveStep::Discard(k) => {
                let f = self.file_name_of(k);
                self.phase = Phase::Ended(DriveEnd::Failed(FailReason::Mismatch(f)));
            },
            DriveStep::DiscardPackage => {
                let f = match &self.package {
                    Some(p) => p.clone(),
                    None => String::new(),
                };
                self.phase = Phase::Ended(DriveEnd::Failed(FailReason::Mismatch(f)));
            },
            DriveStep::RemovePackages => {
                self.phase = Phase::Step(DriveStep::CopyPackage);
            },
            DriveStep::CopyPackage => {
                match r {
                    Report::Done => {
                        let next = if self.verify {
                            DriveStep::ComparePackage
                        } else {
                            self.step_from(3)
                        };
                        self.phase = Phase::Step(next);
                    },
                    Report::Stopped => {
                        self.phase = Phase::Ended(DriveEnd::Stopped);
                    },
                    Report::Failed(m) => {
                        self.phase = Phase::Ended(DriveEnd::Failed(FailReason::Io(m)));
                    },
                    _ => {},
                }
            },
            DriveStep::ComparePackage => {
                match r {
                    Report::Matched(same_sum) => {
                        if same_sum {
                            let next = self.step_from(3);
                            self.phase = Phase::Step(next);
                        } else {
                            self.phase = Phase::Step(DriveStep::DiscardPackage);
                        }
                    },
                    Report::Stopped => {
                        self.phase = Phase::Ended(DriveEnd::Stopped);
                    },
                    Report::Failed(m) => {
                        self.phase = Phase::Ended(DriveEnd::Failed(FailReason::Io(m)));
                    },
                    _ => {},
                }
            },
            DriveStep::CheckPlates => {
                match r {
                    Report::Exists(there) => {
                        if there {
                            self.folder_existed = true;
                            self.phase = Phase::Step(DriveStep::OpenArchive);
                        } else {
                            self.phase = Phase::Step(DriveStep::CreatePlates);
                        }
                    },
                    _ => {},
                }
            },
            DriveStep::RemoveStale => {
                match r {
                    Report::Found(n) => {
                        if n == 0 {
                            self.phase = Phase::Step(DriveStep::Finish);
                        } else {
                            self.erased = true;
                            self.phase = Phase::Step(DriveStep::Prune);
                        }
                    },
                    _ => {},
                }
            },
            DriveStep::Prune => {
                match r {
                    Report::Done => {
                        self.phase = Phase::Step(DriveStep::Finish);
                    },
                    Report::Failed(d) => {
                        self.phase = Phase::Ended(DriveEnd::Failed(FailReason::ClearFailed(d)));
                    },
                    _ => {},
                }
            },
            DriveStep::CreatePlates => {
                match r {
                    Report::Done => {
                        self.phase = Phase::Step(DriveStep::OpenArchive);
                    },
                    Report::Failed(d) => {
                        self.phase = Phase::Ended(DriveEnd::Failed(FailReason::CreateFailed(d)));
                    },
                    _ => {},
                }
            },
            DriveStep::OpenArchive => {
                match r {
                    Report::Done => {
                        let next = if self.member_len() > 0 {
                            DriveStep::Extract(0)
                        } else {
                            self.after_members_step()
                        };
                        self.phase = Phase::Step(next);
                    },
                    Report::Failed(_) => {
                        self.phase = Phase::Ended(DriveEnd::Failed(FailReason::ArchiveChanged));
                    },
                    _ => {},
                }
            },
            DriveStep::Extract(n) => {
                match r {
                    Report::Differs => {
                        if self.folder_existed {
                            self.erased = true;
                        }
                        self.phase = Phase::Step(DriveStep::Write(n));
                    },
                    Report::Kept => {
                        let next = self.after_member_step(n);
                        self.plates_kept = self.plates_kept + 1;
                        self.phase = Phase::Step(next);
                    },
                    Report::Stopped => {
                        self.phase = Phase::Ended(DriveEnd::Stopped);
                    },
                    Report::Failed(_) => {
                        self.count_unreadable(n);
                    },
                    _ => {},
                }
            },
            DriveStep::Write(n) => {
                match r {
                    Report::Done => {
                        let next = self.after_member_step(n);
                        self.plates_written = self.plates_written + 1;
                        self.phase = Phase::Step(next);
                    },
                    Report::Stopped => {
                        self.phase = Phase::Ended(DriveEnd::Stopped);
                    },
                    Report::Failed(_) => {
                        self.count_unreadable(n);
                    },
                    _ => {},
                }
            },
            DriveStep::Finish => {
                self.phase = Phase::Ended(DriveEnd::Updated);
            },
        }
    }
}

// ---------------------------------------------------------------------------
// The run over all drives
// ---------------------------------------------------------------------------

/// What the run does next.
#[derive(Debug, Clone, Copy, PartialEq, Eq, Structural)]
pub enum RunStep {
    /// Start updating the drive at this position of the plan.
    Update(usize),
    /// Record the drive at this position as skipped: the run was stopped.
    Skip(usize),
    /// Every drive has been started or skipped; what is left is waiting for
    /// their outcomes.
    AllStarted,
}

/// A run over the plan's drives. Each drive is started as soon as the run
/// gets to it, without waiting for the drives before it to finish, and its
/// outcome is recorded at its own position, so the outcomes come in the
/// plan's order whatever order the drives finish in.
pub struct RunProgress {
    pub names: Vec<String>,
    pub paths: Vec<String>,
    pub started: Vec<bool>,
    pub outcomes: Vec<Option<DriveOutcome>>,
}

/// The first drive at or after `i` that has not been started.
pub open spec fn first_unstarted(started: Seq<bool>, i: int) -> Option<int>
    decreases started.len() - i,
{
    if i < 0 || i >= started.len() {
        None
    } else if !started[i] {
        Some(i)
    } else {
        first_unstarted(started, i + 1)
    }
}

/// The next thing a run does: start the first drive not yet started, or
/// skip it once the run has been stopped. It depends on which drives were
/// started, never on whether their updates have finished.
pub open spec fn spec_run_next(started: Seq<bool>, cancelled: bool) -> RunStep {
    match first_unstarted(started, 0) {
        None => RunStep::AllStarted,
        Some(i) => if cancelled {
            RunStep::Skip(i as usize)
        } else {
            RunStep::Update(i as usize)
        },
    }
}

/// The outcome recorded for a drive carries that drive's name and path.
pub open spec fn outcome_for(o: DriveOutcome, name: String, path: String) -> bool {
    o.name@ == name@ && o.path@ == path@
}

impl RunProgress {
    pub open spec fn wf(self) -> bool {
        &&& self.paths@.len() == self.names@.len()
        &&& self.started@.len() == self.names@.len()
        &&& self.outcomes@.len() == self.names@.len()
        &&& forall|i: int|
            0 <= i < self.outcomes@.len() && #[trigger] self.outcomes@[i] is Some ==> self.started@[i]
                && outcome_for(self.outcomes@[i].unwrap(), self.names@[i], self.paths@[i])
    }

    /// A run over `drives`, nothing started yet.
    pub fn new(drives: &[Drive]) -> (r: RunProgress)
        ensures
            r.wf(),
            r.names@.len() == drives@.len(),
            forall|i: int|
                0 <= i < drives@.len() ==> r.names@[i]@ == (#[trigger] drives@[i]).name@
                    && r.paths@[i]@ == drives@[i].path@ && !r.started@[i] && r.outcomes@[i] is None,
    {
        let mut names: Vec<String> = Vec::new();
        let mut paths: Vec<String> = Vec::new();
        let mut started: Vec<bool> = Vec::new();
        let mut outcomes: Vec<Option<DriveOutcome>> = Vec::new();
        let mut k: usize = 0;
        while k < drives.len()
            invariant
                k <= drives@.len(),
                names@.len() == k,
                paths@.len() == k,
                started@.len() == k,
                outcomes@.len() == k,
                forall|i: int|
                    0 <= i < k ==> names@[i]@ == (#[trigger] drives@[i]).name@ && paths@[i]@
                        == drives@[i].path@ && !started@[i] && outcomes@[i] is None,
                forall|i: int| 0 <= i < k ==> #[trigger] outcomes@[i] is None,
            decreases drives@.len() - k,
        {
            names.push(joined(String::new(), drives[k].name.as_str()));
            paths.push(joined(String::new(), drives[k].path.as_str()));
            started.push(false);
            outcomes.push(None);
            k += 1;
        }
        RunProgress { names, paths, started, outcomes }
    }

    /// What to do next; a drive offered is marked started.
    pub fn next(&mut self, cancelled: bool) -> (r: RunStep)
        requires
            old(self).wf(),
        ensures
            final(self).wf(),
            final(self).names == old(self).names,
            final(self).paths == old(self).paths,
            final(self).outcomes == old(self).outcomes,
            r == spec_run_next(old(self).started@, cancelled),
            match r {
                RunStep::Update(i) | RunStep::Skip(i) => final(self).started@ == old(
                    self,
                ).started@.update(i as int, true),
                RunStep::AllStarted => final(self).started == old(self).started,
            },
    {
        let mut i: usize = 0;
        while i < self.started.len()
            invariant
                *self == *old(self),
                old(self).wf(),
                i <= self.started@.len(),
                first_unstarted(self.started@, 0) == first_unstarted(self.started@, i as int),
            decreases self.started@.len() - i,
        {
            if !self.started[i] {
                self.started.set(i, true);
                return if cancelled {
                    RunStep::Skip(i)
                } else {
                    RunStep::Update(i)
                };
            }
            i += 1;
        }
        RunStep::AllStarted
    }

    /// The drive at `i`, started, ended with `outcome`.
    pub fn record(&mut self, i: usize, outcome: DriveOutcome)
        requires
            old(self).wf(),
            i < old(self).names@.len(),
            old(self).started@[i as int],
            old(self).outcomes@[i as int] is None,
            outcome_for(outcome, old(self).names@[i as int], old(self).paths@[i as int]),
        ensures
            final(self).wf(),
            final(self).names == old(self).names,
            final(self).paths == old(self).paths,
            final(self).started == old(self).started,
            final(self).outcomes@ == old(self).outcomes@.update(i as int, Some(outcome)),
    {
        self.outcomes.set(i, Some(outcome));
    }

    /// Every drive has its outcome.
    pub fn finished(&self) -> (r: bool)
        ensures
            r == forall|i: int| 0 <= i < self.outcomes@.len() ==> #[trigger] self.outcomes@[i] is Some,
    {
        let mut i: usize = 0;
        while i < self.outcomes.len()
            invariant
                i <= self.outcomes@.len(),
                forall|j: int| 0 <= j < i ==> #[trigger] self.outcomes@[j] is Some,
            decreases self.outcomes@.len() - i,
        {
            if self.outcomes[i].is_none() {
                return false;
            }
            i += 1;
        }
        true
    }

    /// The outcomes, in the plan's order.
    pub fn into_outcomes(self) -> (r: Vec<DriveOutcome>)
        requires
            self.wf(),
            forall|i: int| 0 <= i < self.outcomes@.len() ==> #[trigger] self.outcomes@[i] is Some,
        ensures
            r@.len() == self.names@.len(),
            forall|i: int| 0 <= i < r@.len() ==> Some(#[trigger] r@[i]) == self.outcomes@[i],
            forall|i: int|
                0 <= i < r@.len() ==> outcome_for(#[trigger] r@[i], self.names@[i], self.paths@[i]),
    {
        let ghost all = self.outcomes@;
        let mut rest = self.outcomes;
        let mut r: Vec<DriveOutcome> = Vec::new();
        while rest.len() > 0
            invariant
                r@.len() + rest@.len() == all.len(),
                rest@ == all.subrange(r@.len() as int, all.len() as int),
                forall|i: int| 0 <= i < r@.len() ==> Some(#[trigger] r@[i]) == all[i],
                forall|i: int| 0 <= i < all.len() ==> #[trigger] all[i] is Some,
            decreases rest@.len(),
        {
            let ghost k = r@.len() as int;
            let o = rest.remove(0);
            assert(o == all[k]);
            match o {
                Some(x) => {
                    r.push(x);
                },
                None => {
                    assert(false);
                },
            }
        }
        r
    }
}

/// The outcome of a drive the run never started.
pub fn skipped(drive: &Drive) -> (r: DriveOutcome)
    ensures
        r.name@ == drive.name@,
        r.path@ == drive.path@,
        r.kind == drive.kind,
        r.result == Outcome::Skipped,
        r.elapsed_secs == 0,
        r.plates_written == 0,
        r.cycle is None,
{
    outcome_of(drive, Outcome::Skipped, 0, 0, None)
}

/// The outcome of a drive's update, under the drive's own name and path.
pub fn outcome_of(
    drive: &Drive,
    result: Outcome,
    elapsed_secs: u64,
    plates_written: usize,
    cycle: Option<Cycle>,
) -> (r: DriveOutcome)
    ensures
        r.name@ == drive.name@,
        r.path@ == drive.path@,
        r.kind == drive.kind,
        r.result == result,
        r.elapsed_secs == elapsed_secs,
        r.plates_written == plates_written,
        r.cycle == cycle,
{
    DriveOutcome {
        name: joined(String::new(), drive.name.as_str()),
        path: joined(String::new(), drive.path.as_str()),
        kind: drive.kind,
        result,
        elapsed_secs,
        plates_written,
        cycle,
    }
}

/// No drive waits for another: the run starts the first drive not yet
/// started whatever became of the drives before it (one drive's failure
/// never stops the others), skips it instead once the run was stopped, and
/// is done starting only when every drive was started or skipped.
pub proof fn law_drives_start_without_waiting(started: Seq<bool>, cancelled: bool)
    ensures
        first_unstarted(started, 0) matches Some(i) ==> 0 <= i < started.len() && !started[i]
            && forall|j: int| 0 <= j < i ==> started[j],
        spec_run_next(started, cancelled) is AllStarted <==> forall|j: int|
            0 <= j < started.len() ==> started[j],
{
    lemma_first_unstarted(started, 0);
}

proof fn lemma_first_unstarted(started: Seq<bool>, k: int)
    requires
        0 <= k,
    ensures
        first_unstarted(started, k) matches Some(i) ==> k <= i < started.len() && !started[i]
            && forall|j: int| k <= j < i ==> started[j],
        first_unstarted(started, k) is None <==> forall|j: int| k <= j < started.len() ==> started[j],
    decreases started.len() - k,
{
    if k < started.len() {
        lemma_first_unstarted(started, k + 1);
    }
}

// ---------------------------------------------------------------------------
// Outcomes and what is said about them
// ---------------------------------------------------------------------------

/// The sentence shown for a failed drive. Sizes are shown as the caller
/// formats them: `needed_text` and `available_text` stand in the sentence
/// about space.
pub open spec fn reason_sentence(
    f: FailReason,
    needed_text: Seq<char>,
    available_text: Seq<char>,
) -> Seq<char> {
    match f {
        FailReason::NotWritable => "the drive stopped accepting writes"@,
        FailReason::NoSpace { .. } => "ran out of space — needs "@ + needed_text + ", "@
            + available_text + " available"@,
        FailReason::Io(m) => m@,
        FailReason::Mismatch(file) => "the copy of "@ + file@
            + " did not match the original. Nothing was left half-written"@,
        FailReason::ClearFailed(d) => "could not clear the plates folder: "@ + d@,
        FailReason::CreateFailed(d) => "could not create the plates folder: "@ + d@,
        FailReason::ArchiveChanged => "the plates archive was changed while the update was running"@,
        FailReason::Unreadable(u) => decimal_text(u as nat)
            + " plates could not be read from the archive"@,
    }
}

impl FailReason {
    pub fn sentence(&self, needed_text: &str, available_text: &str) -> (r: String)
        ensures
            r@ == reason_sentence(*self, needed_text@, available_text@),
    {
        match self {
            FailReason::NotWritable => String::from_str("the drive stopped accepting writes"),
            FailReason::NoSpace { .. } => {
                let r = String::from_str("ran out of space — needs ");
                let r = joined(r, needed_text);
                let r = joined(r, ", ");
                let r = joined(r, available_text);
                joined(r, " available")
            },
            FailReason::Io(m) => m.clone(),
            FailReason::Mismatch(file) => {
                let r = String::from_str("the copy of ");
                let r = joined(r, file.as_str());
                joined(r, " did not match the original. Nothing was left half-written")
            },
            FailReason::ClearFailed(d) => {
                let r = String::from_str("could not clear the plates folder: ");
                joined(r, d.as_str())
            },
            FailReason::CreateFailed(d) => {
                let r = String::from_str("could not create the plates folder: ");
                joined(r, d.as_str())
            },
            FailReason::ArchiveChanged => String::from_str(
                "the plates archive was changed while the update was running",
            ),
            FailReason::Unreadable(u) => {
                let r = decimal_string(*u as u64);
                joined(r, " plates could not be read from the archive")
            },
        }
    }
}

/// A drive's outcome and final state: a stop after the plates folder was
/// touched leaves the drive incomplete (`Interrupted`), a stop before it
/// changed nothing (`Skipped`).
pub fn settle(end: &DriveEnd, erased: bool, needed_text: &str, available_text: &str) -> (r: (
    Outcome,
    DriveState,
))
    ensures
        match *end {
            DriveEnd::Updated => r.0 is Updated && r.1 == DriveState::Done,
            DriveEnd::Stopped => r.1 == DriveState::Stopped && (if erased {
                r.0 is Interrupted
            } else {
                r.0 is Skipped
            }),
            DriveEnd::Failed(f) => r.1 == DriveState::Failed && (r.0 matches Outcome::Failed(m)
                && m@ == reason_sentence(f, needed_text@, available_text@)),
        },
{
    match end {
        DriveEnd::Updated => (Outcome::Updated, DriveState::Done),
        DriveEnd::Stopped => {
            if erased {
                (Outcome::Interrupted, DriveState::Stopped)
            } else {
                (Outcome::Skipped, DriveState::Stopped)
            }
        },
        DriveEnd::Failed(f) => (
            Outcome::Failed(f.sentence(needed_text, available_text)),
            DriveState::Failed,
        ),
    }
}

pub open spec fn label_or_empty(c: Option<Cycle>) -> Seq<char> {
    match c {
        Some(x) => cycle_label(x),
        None => Seq::empty(),
    }
}

/// The log line for a drive that was worked on.
pub open spec fn outcome_line(
    name: Seq<char>,
    o: Outcome,
    written: nat,
    cycle: Option<Cycle>,
) -> (Severity, Seq<char>) {
    match o {
        Outcome::Updated => (
            Severity::Success,
            name + ": "@ + decimal_text(written) + " plates written, Cycle "@ + label_or_empty(
                cycle,
            ) + " installed"@,
        ),
        Outcome::Interrupted => (Severity::Error, name + ": stopped — plates folder is incomplete"@),
        Outcome::Skipped => (Severity::Warning, name + ": stopped before anything was changed"@),
        Outcome::Failed(m) => (Severity::Error, name + ": "@ + m@),
    }
}

pub fn outcome_log(name: &str, outcome: &Outcome, plates_written: usize, cycle: Option<Cycle>) -> (r:
    (Severity, String))
    ensures
        r.0 == outcome_line(name@, *outcome, plates_written as nat, cycle).0,
        r.1@ == outcome_line(name@, *outcome, plates_written as nat, cycle).1,
{
    let head = joined(String::new(), name);
    match outcome {
        Outcome::Updated => {
            let r = joined(head, ": ");
            let w = decimal_string(plates_written as u64);
            let r = joined(r, w.as_str());
            let r = joined(r, " plates written, Cycle ");
            let l = match cycle {
                Some(c) => c.label(),
                None => String::new(),
            };
            let r = joined(r, l.as_str());
            (Severity::Success, joined(r, " installed"))
        },
        Outcome::Interrupted => (
            Severity::Error,
            joined(head, ": stopped — plates folder is incomplete"),
        ),
        Outcome::Skipped => (Severity::Warning, joined(head, ": stopped before anything was changed")),
        Outcome::Failed(m) => {
            let r = joined(head, ": ");
            (Severity::Error, joined(r, m.as_str()))
        },
    }
}

/// Every 64th member, the running count of extracted files:
/// `1,024 of 23,000 files`.
pub fn progress_note(n: usize, total: usize) -> (r: Option<String>)
    ensures
        n % 64 == 0 <==> r is Some,
        r matches Some(t) ==> t@ == grouped(n as nat) + " of "@ + grouped(total as nat)
            + " files"@,
{
    if n % 64 == 0 {
        let r = group(n as u64);
        let r = joined(r, " of ");
        let t = group(total as u64);
        let r = joined(r, t.as_str());
        Some(joined(r, " files"))
    } else {
        None
    }
}

/// The warning for plates that could not be read, when there were any.
pub fn unreadable_note(name: &str, unreadable: usize) -> (r: Option<String>)
    ensures
        unreadable > 0 <==> r is Some,
        r matches Some(t) ==> t@ == name@ + ": "@ + decimal_text(unreadable as nat)
            + " plates could not be read from the archive"@,
{
    if unreadable > 0 {
        let r = joined(String::new(), name);
        let r = joined(r, ": ");
        let d = decimal_string(unreadable as u64);
        let r = joined(r, d.as_str());
        Some(joined(r, " plates could not be read from the archive"))
    } else {
        None
    }
}

/// An older database the update replaces: a `.dup` file (any case) of the
/// same kind as the one being copied, other than the file being copied, and
/// of an earlier cycle than it (a name without a cycle counts as earliest).
pub fn is_superseded_database(name: &str, kind: DupKind, keep: &str) -> (r: bool)
    ensures
        r == (has_suffix(lower_seq(name@), ".dup"@) && name@ != keep@ && spec_classify(name@)
            == kind && opt_cycle_lt(spec_parse_cycle(name@), spec_parse_cycle(keep@))),
{
    let n = chars_of(name);
    let lower = lowercase(&n);
    let ext = chars_of(".dup");
    if !ends_with(&lower, &ext) {
        return false;
    }
    let k = chars_of(keep);
    if same(&n, &k) {
        return false;
    }
    classify_chars(&n) == kind && opt_cycle_less(parse_cycle(name), parse_cycle(keep))
}

// ---------------------------------------------------------------------------
// Bringing a plates folder in line with the archive
// ---------------------------------------------------------------------------

/// A plate is left alone when the drive already holds exactly the member's
/// bytes under its name.
pub fn plate_unchanged(member: &[u8], on_drive: Option<&[u8]>) -> (r: bool)
    ensures
        r == (on_drive matches Some(b) && b@ == member@),
{
    match on_drive {
        None => false,
        Some(b) => {
            if b.len() != member.len() {
                return false;
            }
            let mut i: usize = 0;
            while i < b.len()
                invariant
                    on_drive == Some(b),
                    b@.len() == member@.len(),
                    i <= b@.len(),
                    forall|k: int| 0 <= k < i ==> b@[k] == member@[k],
                decreases b@.len() - i,
            {
                if b[i] != member[i] {
                    assert(b@[i as int] != member@[i as int]);
                    return false;
                }
                i += 1;
            }
            assert(b@ =~= member@);
            true
        },
    }
}

/// Some member of the archive goes to `path` (relative to the plates folder).
pub open spec fn in_archive(members: Seq<Member>, path: Seq<char>) -> bool {
    exists|j: int| 0 <= j < members.len() && (#[trigger] members[j]).dest@ == path
}

fn dest_listed(members: &[Member], path: &str) -> (r: bool)
    ensures
        r == in_archive(members@, path@),
{
    let p = chars_of(path);
    let mut j: usize = 0;
    while j < members.len()
        invariant
            j <= members@.len(),
            p@ == path@,
            forall|k: int| 0 <= k < j ==> (#[trigger] members@[k]).dest@ != path@,
        decreases members@.len() - j,
    {
        let d = chars_of(members[j].dest.as_str());
        if same(&d, &p) {
            assert(members@[j as int].dest@ == path@);
            return true;
        }
        j += 1;
    }
    false
}

/// The plates on the drive (paths relative to the plates folder) that the
/// archive no longer has, by their position in `on_drive`, in order.
pub fn stale_plates(on_drive: &[String], members: &[Member]) -> (r: Vec<usize>)
    ensures
        forall|i: int| 0 <= i < r@.len() ==> r@[i] < on_drive@.len() && !in_archive(
            members@,
            on_drive@[r@[i] as int]@,
        ),
        forall|k: int|
            0 <= k < on_drive@.len() && !in_archive(members@, on_drive@[k]@) ==> exists|i: int|
                0 <= i < r@.len() && r@[i] == k,
        forall|i: int, l: int| 0 <= i < l < r@.len() ==> r@[i] < r@[l],
{
    let mut r: Vec<usize> = Vec::new();
    let mut k: usize = 0;
    while k < on_drive.len()
        invariant
            k <= on_drive@.len(),
            forall|i: int| 0 <= i < r@.len() ==> r@[i] < k && !in_archive(
                members@,
                on_drive@[r@[i] as int]@,
            ),
            forall|m: int|
                0 <= m < k && !in_archive(members@, on_drive@[m]@) ==> exists|i: int|
                    0 <= i < r@.len() && r@[i] == m,
            forall|i: int, l: int| 0 <= i < l < r@.len() ==> r@[i] < r@[l],
        decreases on_drive@.len() - k,
    {
        let ghost old_r = r@;
        let listed = dest_listed(members, on_drive[k].as_str());
        if !listed {
            r.push(k);
            assert(r@[r@.len() - 1] == k);
        }
        proof {
            assert forall|m: int|
                0 <= m < k + 1 && !in_archive(members@, on_drive@[m]@) implies exists|i: int|
                0 <= i < r@.len() && r@[i] == m by {
                if m < k {
                    let i = choose|i: int| 0 <= i < old_r.len() && old_r[i] == m;
                    assert(r@[i] == m);
                } else {
                    assert(r@[r@.len() - 1] == m);
                }
            }
        }
        k += 1;
    }
    r
}

/// The note for plates the drive already held, when there were any.
pub fn kept_note(name: &str, kept: usize) -> (r: Option<String>)
    ensures
        kept > 0 <==> r is Some,
        r matches Some(t) ==> t@ == name@ + ": "@ + decimal_text(kept as nat)
            + " plates unchanged"@,
{
    if kept > 0 {
        let r = joined(String::new(), name);
        let r = joined(r, ": ");
        let d = decimal_string(kept as u64);
        let r = joined(r, d.as_str());
        Some(joined(r, " plates unchanged"))
    } else {
        None
    }
}

// ---------------------------------------------------------------------------
// Checking a copy
// ---------------------------------------------------------------------------

/// What SHA-256 makes of `bytes`: their 32-byte digest.
pub uninterp spec fn sha256_of(bytes: Seq<u8>) -> Seq<u8>;

/// `sha2::Sha256::digest`: the SHA-256 digest of `bytes`, which depends on
/// the bytes alone.
#[verifier::external_body]
fn sha256(bytes: &[u8]) -> (r: [u8; 32])
    ensures
        r@ == sha256_of(bytes@),
{
    Sha256::digest(bytes).into()
}

/// Whether a database copy holds what its source holds, as "Verify Copies"
/// decides it: their SHA-256 digests are equal.
pub fn copy_matches(source: &[u8], copy: &[u8]) -> (r: bool)
    ensures
        r == (sha256_of(source@) == sha256_of(copy@)),
{
    let want = sha256(source);
    let got = sha256(copy);
    let mut i: usize = 0;
    while i < 32
        invariant
            want@ == sha256_of(source@),
            got@ == sha256_of(copy@),
            want@.len() == 32,
            got@.len() == 32,
            i <= 32,
            forall|k: int| 0 <= k < i ==> want@[k] == got@[k],
        decreases 32 - i,
    {
        if want[i] != got[i] {
            assert(want@[i as int] != got@[i as int]);
            return false;
        }
        i += 1;
    }
    assert(want@ =~= got@);
    true
}

/// A database package on the drive that the one being copied replaces: a
/// different file, of an earlier aviation cycle, or the same aviation cycle
/// and an earlier obstacle one. Only database packages are ever weighed, so
/// a firmware package is never replaced.
pub fn is_superseded_package(found_name: &str, found: &Package, keep_name: &str, keep: &Package) -> (r:
    bool)
    ensures
        r == (found_name@ != keep_name@ && package_lt(*found, *keep)),
{
    let a = chars_of(found_name);
    let b = chars_of(keep_name);
    !same(&a, &b) && (opt_cycle_less(found.aviation, keep.aviation) || (found.aviation
        == keep.aviation && opt_cycle_less(found.obstacle, keep.obstacle)))
}

/// The drive state a step is announced with, if any.
pub open spec fn spec_announced(step: DriveStep) -> Option<DriveState> {
    match step {
        DriveStep::Compare(_) | DriveStep::ComparePackage => Some(DriveState::CheckingCopies),
        DriveStep::CheckPlates => Some(DriveState::ErasingPlates),
        DriveStep::OpenArchive => Some(DriveState::ExtractingPlates),
        DriveStep::Finish => Some(DriveState::Finishing),
        _ => None,
    }
}

pub fn announced(step: DriveStep) -> (r: Option<DriveState>)
    ensures
        r == spec_announced(step),
{
    match step {
        DriveStep::Compare(_) | DriveStep::ComparePackage => Some(DriveState::CheckingCopies),
        DriveStep::CheckPlates => Some(DriveState::ErasingPlates),
        DriveStep::OpenArchive => Some(DriveState::ExtractingPlates),
        DriveStep::Finish => Some(DriveState::Finishing),
        _ => None,
    }
}

/// The headline and detail line the running page shows when a step starts,
/// for the steps that change them. `file_name` is the database being copied.
pub open spec fn spec_step_heading(step: DriveStep, drive: Seq<char>, file_name: Seq<char>) -> Option<
    (Seq<char>, Seq<char>),
> {
    match step {
        DriveStep::Copy(kind) => Some(
            (
                "Copying "@ + (if kind == DupKind::Aviation {
                    "aviation"@
                } else {
                    "obstacle"@
                }) + " database to "@ + drive,
                file_name,
            ),
        ),
        DriveStep::CopyPackage => Some(("Copying database package to "@ + drive, file_name)),
        DriveStep::Compare(_) | DriveStep::ComparePackage => Some(
            ("Checking the copy on "@ + drive, "Comparing checksums"@),
        ),
        DriveStep::CheckPlates => Some(("Erasing old plates on "@ + drive, ""@)),
        DriveStep::Finish => Some(("Finishing writes to "@ + drive, "Do not unplug the drive"@)),
        _ => None,
    }
}

pub fn step_heading(step: DriveStep, drive: &str, file_name: &str) -> (r: Option<(String, String)>)
    ensures
        (match r {
            Some((h, d)) => Some((h@, d@)),
            None => None,
        }) == spec_step_heading(step, drive@, file_name@),
{
    let (head, detail) = match step {
        DriveStep::Copy(kind) => {
            let h = joined(String::new(), "Copying ");
            let h = if kind == DupKind::Aviation {
                joined(h, "aviation")
            } else {
                joined(h, "obstacle")
            };
            (joined(h, " database to "), file_name)
        },
        DriveStep::CopyPackage => (joined(String::new(), "Copying database package to "), file_name),
        DriveStep::Compare(_) | DriveStep::ComparePackage => (
            joined(String::new(), "Checking the copy on "),
            "Comparing checksums",
        ),
        DriveStep::CheckPlates => (joined(String::new(), "Erasing old plates on "), ""),
        DriveStep::Finish => (joined(String::new(), "Finishing writes to "), "Do not unplug the drive"),
        _ => {
            return None;
        },
    };
    Some((joined(head, drive), joined(String::new(), detail)))
}

// ---------------------------------------------------------------------------
// What holds of every drive update
// ---------------------------------------------------------------------------

/// How many reports a drive update can still take, at most.
pub open spec fn steps_left(s: DriveUpdate) -> nat {
    let c = member_count(s);
    match s.phase {
        Phase::Ended(_) => 0,
        Phase::Step(step) => match step {
            DriveStep::Finish => 1,
            DriveStep::Discard(_) => 1,
            DriveStep::DiscardPackage => 1,
            DriveStep::Prune => 2,
            DriveStep::RemoveStale => 3,
            DriveStep::Write(n) => (2 + 2 * (c - n)) as nat,
            DriveStep::Extract(n) => (3 + 2 * (c - n)) as nat,
            DriveStep::OpenArchive => 2 * c + 4,
            DriveStep::CreatePlates => 2 * c + 5,
            DriveStep::CheckPlates => 2 * c + 6,
            DriveStep::ComparePackage => 2 * c + 7,
            DriveStep::CopyPackage => 2 * c + 8,
            DriveStep::RemovePackages => 2 * c + 9,
            DriveStep::Compare(k) => 2 * c + 10 + 3 * (1 - slot_of(k)) as nat,
            DriveStep::Copy(k) => 2 * c + 11 + 3 * (1 - slot_of(k)) as nat,
            DriveStep::RemoveOld(k) => 2 * c + 12 + 3 * (1 - slot_of(k)) as nat,
            DriveStep::MeasurePlates => 2 * c + 16,
        },
    }
}

/// Every report moves a drive's update on: no step comes back, and the
/// update ends after at most `steps_left` reports.
pub proof fn law_each_report_moves_on(s: DriveUpdate, r: Report)
    requires
        s.wf(),
        s.phase matches Phase::Step(step) && report_fits(step, r),
    ensures
        match s.phase {
            Phase::Step(step) => steps_left(after_step(s, step, r)) < steps_left(s),
            Phase::Ended(_) => true,
        },
{
}

/// Nothing is written to a drive before the space check passed: every step
/// after measuring the plates comes on a writable drive with room enough.
pub proof fn law_writes_follow_the_space_check(s: DriveUpdate)
    requires
        s.wf(),
        s.phase matches Phase::Step(step) && step !is MeasurePlates,
    ensures
        s.writable,
        s.needed <= saturating_sum(s.free, s.reclaim),
{
}

/// The plates folder is only ever touched when the plan has an archive, and
/// only after every database was copied (and checked, when asked).
pub proof fn law_plates_touched_only_with_an_archive(s: DriveUpdate)
    requires
        s.wf(),
    ensures
        s.erased ==> s.members is Some,
        s.phase matches Phase::Step(step) && plates_step(step) ==> s.members is Some,
        s.phase matches Phase::Step(step) && (step is RemoveOld || step is Copy || step is Compare)
            ==> !s.erased,
{
}

/// Older databases are removed only when the plan asks for it, and a copy
/// is read back only when the plan asks for that.
pub proof fn law_old_databases_go_only_when_asked(s: DriveUpdate)
    requires
        s.wf(),
    ensures
        s.phase matches Phase::Step(step) && (step is RemoveOld || step is RemovePackages)
            ==> s.replace_old,
        s.phase matches Phase::Step(step) && (step is Compare || step is ComparePackage) ==> s.verify,
{
}

/// A copy whose checksum does not match is deleted and fails its drive,
/// before any plate was touched.
pub proof fn law_mismatch_fails_the_drive(s: DriveUpdate, k: DupKind)
    requires
        s.wf(),
        s.phase == Phase::Step(DriveStep::Compare(k)),
    ensures
        ({
            let t = after_step(s, DriveStep::Compare(k), Report::Matched(false));
            &&& t.phase == Phase::Step(DriveStep::Discard(k))
            &&& !t.erased
            &&& after_step(t, DriveStep::Discard(k), Report::Done).phase matches Phase::Ended(
                DriveEnd::Failed(FailReason::Mismatch(_)),
            )
        }),
{
}

/// The point of no return comes with a change, never before: a drive's
/// update passes it only when a plate of a plates folder that was there
/// before is about to be replaced (its member was found to differ) or stale
/// plates were found to remove, and once passed it stays passed. A stop
/// before it leaves the drive as it was.
pub proof fn law_no_return_only_with_a_change(s: DriveUpdate, r: Report)
    requires
        s.wf(),
        s.phase matches Phase::Step(step) && report_fits(step, r),
    ensures
        match s.phase {
            Phase::Step(step) => {
                let t = after_step(s, step, r);
                &&& s.erased ==> t.erased
                &&& (t.erased && !s.erased) ==> s.folder_existed && ((step is Extract && r is Differs)
                    || (step is RemoveStale && (r matches Report::Found(n) && n > 0)))
            },
            Phase::Ended(_) => true,
        },
{
}

/// A drive reported updated has every archive member written, found
/// already there unchanged, or counted unreadable, and no more than one in a
/// hundred unreadable.
pub proof fn law_updated_drive_has_every_plate(s: DriveUpdate)
    requires
        s.wf(),
        s.phase matches Phase::Ended(DriveEnd::Updated),
    ensures
        s.plates_written + s.plates_kept + s.unreadable == member_count(s),
        s.unreadable * 100 <= member_count(s),
{
}

} // verus!
