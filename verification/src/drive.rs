//! Update targets: what a drive is, how a SkyView drive is recognised from
//! what its root holds, whether an update fits, and why a drive list can be
//! empty.

use crate::scan::{
    Cycle, DupKind, classify_chars, opt_cycle_less, opt_cycle_lt, parse_cycle_chars,
    spec_classify, spec_parse_cycle, spec_parse_key_entitlement,
};
use crate::text::{
    chars_of, ends_with, has_infix, has_suffix, lower_seq, lowercase, contains, same, string_from,
    has_prefix, starts_with, copy_range, next_char, lemma_next_char, next_char_from, trim, trimmed_equals,
};
use vstd::prelude::*;

verus! {

#[derive(Debug, Clone, Copy, PartialEq, Eq, Structural)]
pub enum TargetKind {
    /// A volume the system mounted for us.
    Mounted,
    /// A folder the user picked, which also covers the portal fallback.
    Folder,
}

/// An update target. `path` is the drive's root, a `/`-separated path.
#[derive(Debug, Clone)]
pub struct Drive {
    pub path: String,
    pub name: String,
    pub kind: TargetKind,
    pub uuid: Option<String>,
    pub total: u64,
    pub free: u64,
    pub writable: bool,
    /// SkyView recognition score; recognised at >= 2.
    pub score: u8,
    pub installed_cycle: Option<Cycle>,
    /// Entitlement id from `CHARTS-nnnnnn.key`.
    pub entitlement: Option<String>,
    /// Bytes and file count under ChartData/Plates, filled in asynchronously.
    pub reclaimable: Option<(u64, usize)>,
    pub reachable: bool,
}

/// `base` with `part` appended as one more path component, as `Path::join`
/// does for a relative `part`.
pub open spec fn join_path(base: Seq<char>, part: Seq<char>) -> Seq<char> {
    if base.len() == 0 || base.last() == '/' {
        base + part
    } else {
        base + seq!['/'] + part
    }
}

pub open spec fn plates_suffix() -> Seq<char> {
    "ChartData/Plates"@
}

/// The bytes clearing the old plates frees, as far as they are known.
pub open spec fn reclaim_of(d: Drive) -> nat {
    match d.reclaimable {
        Some((b, _)) => b as nat,
        None => 0,
    }
}

/// `free + reclaim`, saturating at `u64::MAX`.
pub open spec fn available_of(d: Drive) -> nat {
    if d.free + reclaim_of(d) > u64::MAX {
        u64::MAX as nat
    } else {
        (d.free + reclaim_of(d)) as nat
    }
}

pub open spec fn spec_key(d: Drive) -> Seq<char> {
    match d.uuid {
        Some(u) => u@ + seq!['|'] + d.name@,
        None => seq!['|'] + d.name@,
    }
}

impl Drive {
    pub fn recognised(&self) -> (r: bool)
        ensures
            r == (self.score >= 2),
    {
        self.score >= 2
    }

    /// `ChartData/Plates` under the drive's root.
    pub fn plates_dir(&self) -> (r: String)
        ensures
            r@ == join_path(self.path@, plates_suffix()),
    {
        let p = chars_of(self.path.as_str());
        let suffix = chars_of("ChartData/Plates");
        let mut v = copy_range(&p, 0, p.len());
        assert(v@ =~= self.path@);
        if p.len() > 0 && p[p.len() - 1] != '/' {
            v.push('/');
        }
        let ghost before = v@;
        let mut i: usize = 0;
        while i < suffix.len()
            invariant
                i <= suffix@.len(),
                v@ == before + suffix@.take(i as int),
            decreases suffix.len() - i,
        {
            v.push(suffix[i]);
            i += 1;
            assert(v@ =~= before + suffix@.take(i as int));
        }
        assert(suffix@.take(suffix@.len() as int) =~= suffix@);
        string_from(v)
    }

    /// Bytes this update needs, against what the drive can offer: the free
    /// space plus what clearing the old plates frees.
    pub fn fits(&self, needed: u64) -> (r: bool)
        ensures
            r == (needed <= available_of(*self)),
    {
        let reclaim = match self.reclaimable {
            Some((b, _)) => b,
            None => 0,
        };
        needed <= self.free.saturating_add(reclaim)
    }

    /// The identity a drive is remembered by: `uuid|name`, or `|name`.
    pub fn key(&self) -> (r: String)
        ensures
            r@ == spec_key(*self),
    {
        let mut v: Vec<char> = Vec::new();
        let ghost mut want: Seq<char> = Seq::empty();
        match &self.uuid {
            Some(u) => {
                let uc = chars_of(u.as_str());
                v = copy_range(&uc, 0, uc.len());
                assert(v@ =~= u@);
            },
            None => {},
        }
        v.push('|');
        let n = chars_of(self.name.as_str());
        let ghost before = v@;
        let mut i: usize = 0;
        while i < n.len()
            invariant
                i <= n@.len(),
                v@ == before + n@.take(i as int),
            decreases n.len() - i,
        {
            v.push(n[i]);
            i += 1;
            assert(v@ =~= before + n@.take(i as int));
        }
        assert(n@.take(n@.len() as int) =~= n@);
        string_from(v)
    }
}

// ---------------------------------------------------------------------------
// Recognising a SkyView drive
// ---------------------------------------------------------------------------

/// One entry of a drive's root folder.
#[derive(Debug, Clone)]
pub struct RootEntry {
    pub name: String,
    pub is_dir: bool,
}

/// What the root's entries up to some point have shown.
pub struct RootEvidence {
    pub has_dup: bool,
    pub has_key: bool,
    pub has_duc: bool,
    pub has_support_dir: bool,
    pub cycle: Option<Cycle>,
    pub entitlement: Option<Seq<char>>,
}

pub open spec fn no_evidence() -> RootEvidence {
    RootEvidence {
        has_dup: false,
        has_key: false,
        has_duc: false,
        has_support_dir: false,
        cycle: None,
        entitlement: None,
    }
}

pub open spec fn is_support_dir(name: Seq<char>) -> bool {
    name == "FACTORY"@ || name == "User Settings"@ || name == "settings_archive"@
}

/// One more root entry taken into account: support folders; `.dup` files,
/// whose aviation cycles are kept at their highest; `.duc` packages; and a
/// `CHARTS-nnnnnn.key`, the last such name giving the entitlement.
pub open spec fn add_evidence(ev: RootEvidence, e: RootEntry) -> RootEvidence {
    let name = e.name@;
    let lower = lower_seq(name);
    if e.is_dir {
        RootEvidence { has_support_dir: ev.has_support_dir || is_support_dir(name), ..ev }
    } else if has_suffix(lower, ".dup"@) {
        let c = if spec_classify(name) == DupKind::Aviation && opt_cycle_lt(
            ev.cycle,
            spec_parse_cycle(name),
        ) {
            spec_parse_cycle(name)
        } else {
            ev.cycle
        };
        RootEvidence { has_dup: true, cycle: c, ..ev }
    } else if has_suffix(lower, ".duc"@) {
        RootEvidence { has_duc: true, ..ev }
    } else if spec_parse_key_entitlement(name) is Some {
        RootEvidence { has_key: true, entitlement: spec_parse_key_entitlement(name), ..ev }
    } else {
        ev
    }
}

pub open spec fn evidence_upto(entries: Seq<RootEntry>, k: int) -> RootEvidence
    decreases k,
{
    if k <= 0 || k > entries.len() {
        no_evidence()
    } else {
        add_evidence(evidence_upto(entries, k - 1), entries[k - 1])
    }
}

/// The recognition score: `ChartData` 2, `.dup` files 2, a chart key 2, a
/// support folder 1, a `.duc` package 1, a label naming Dynon or SkyView 1.
pub open spec fn spec_score(has_chart_data: bool, ev: RootEvidence, label: Seq<char>) -> nat {
    let l = lower_seq(label);
    (if has_chart_data { 2nat } else { 0 }) + (if ev.has_dup { 2nat } else { 0 }) + (if ev.has_key {
        2nat
    } else {
        0
    }) + (if ev.has_support_dir { 1nat } else { 0 }) + (if ev.has_duc { 1nat } else { 0 }) + (
    if has_infix(l, "dynon"@) || has_infix(l, "skyview"@) {
        1nat
    } else {
        0
    })
}

fn equals_literal(v: &[char], lit: &str) -> (r: bool)
    ensures
        r == (v@ == lit@),
{
    let l = chars_of(lit);
    same(v, &l)
}

/// An aviation database file at the drive's root, with a cycle in its name.
pub open spec fn aviation_at_root(e: RootEntry) -> bool {
    &&& !e.is_dir
    &&& has_suffix(lower_seq(e.name@), ".dup"@)
    &&& spec_classify(e.name@) == DupKind::Aviation
    &&& spec_parse_cycle(e.name@) is Some
}

proof fn lemma_installed_cycle(entries: Seq<RootEntry>, k: int)
    requires
        0 <= k <= entries.len(),
    ensures
        forall|i: int|
            0 <= i < k && aviation_at_root(#[trigger] entries[i]) ==> !opt_cycle_lt(
                evidence_upto(entries, k).cycle,
                spec_parse_cycle(entries[i].name@),
            ),
        evidence_upto(entries, k).cycle matches Some(c) ==> exists|i: int|
            0 <= i < k && aviation_at_root(#[trigger] entries[i]) && spec_parse_cycle(
                entries[i].name@,
            ) == Some(c),
    decreases k,
{
    if k > 0 {
        lemma_installed_cycle(entries, k - 1);
        let prev = evidence_upto(entries, k - 1).cycle;
        let e = entries[k - 1];
        assert(evidence_upto(entries, k) == add_evidence(evidence_upto(entries, k - 1), e));
        if evidence_upto(entries, k).cycle != prev {
            assert(aviation_at_root(e));
        }
        assert forall|i: int|
            0 <= i < k && aviation_at_root(#[trigger] entries[i]) implies !opt_cycle_lt(
            evidence_upto(entries, k).cycle,
            spec_parse_cycle(entries[i].name@),
        ) by {
            if i < k - 1 {
                assert(!opt_cycle_lt(prev, spec_parse_cycle(entries[i].name@)));
            }
        }
        if evidence_upto(entries, k).cycle != prev {
            assert(aviation_at_root(entries[k - 1]));
        }
    }
}

/// The installed cycle is the highest aviation cycle on the drive's root,
/// whatever order the root lists its files in: no aviation database there
/// has a later cycle, and the cycle given is one of theirs (none when the
/// root holds no aviation database with a cycle).
pub proof fn law_installed_cycle_is_the_highest(entries: Seq<RootEntry>)
    ensures
        forall|i: int|
            0 <= i < entries.len() && aviation_at_root(#[trigger] entries[i]) ==> !opt_cycle_lt(
                evidence_upto(entries, entries.len() as int).cycle,
                spec_parse_cycle(entries[i].name@),
            ),
        evidence_upto(entries, entries.len() as int).cycle matches Some(c) ==> exists|i: int|
            0 <= i < entries.len() && aviation_at_root(#[trigger] entries[i]) && spec_parse_cycle(
                entries[i].name@,
            ) == Some(c),
        (forall|i: int| 0 <= i < entries.len() ==> !aviation_at_root(#[trigger] entries[i]))
            ==> evidence_upto(entries, entries.len() as int).cycle is None,
{
    lemma_installed_cycle(entries, entries.len() as int);
}

proof fn lemma_evidence_from_entries(entries: Seq<RootEntry>, k: int)
    requires
        0 <= k <= entries.len(),
    ensures
        evidence_upto(entries, k).has_dup <==> exists|i: int|
            0 <= i < k && !(#[trigger] entries[i]).is_dir && has_suffix(
                lower_seq(entries[i].name@),
                ".dup"@,
            ),
        evidence_upto(entries, k).has_support_dir <==> exists|i: int|
            0 <= i < k && (#[trigger] entries[i]).is_dir && is_support_dir(entries[i].name@),
        evidence_upto(entries, k).entitlement matches Some(id) ==> exists|i: int|
            0 <= i < k && !(#[trigger] entries[i]).is_dir && spec_parse_key_entitlement(
                entries[i].name@,
            ) == Some(id),
        evidence_upto(entries, k).has_key ==> evidence_upto(entries, k).entitlement is Some,
    decreases k,
{
    if k > 0 {
        lemma_evidence_from_entries(entries, k - 1);
        assert(evidence_upto(entries, k) == add_evidence(evidence_upto(entries, k - 1), entries[k - 1]));
        let ev = evidence_upto(entries, k);
        let pv = evidence_upto(entries, k - 1);
        if ev.has_dup && !pv.has_dup {
            assert(!entries[k - 1].is_dir);
        }
        if pv.has_dup {
            let i = choose|i: int|
                0 <= i < k - 1 && !(#[trigger] entries[i]).is_dir && has_suffix(
                    lower_seq(entries[i].name@),
                    ".dup"@,
                );
            assert(0 <= i < k);
        }
        if pv.has_support_dir {
            let i = choose|i: int|
                0 <= i < k - 1 && (#[trigger] entries[i]).is_dir && is_support_dir(entries[i].name@);
            assert(0 <= i < k);
        }
        if ev.entitlement != pv.entitlement {
            assert(!entries[k - 1].is_dir);
        } else if pv.entitlement is Some {
            let id = pv.entitlement.unwrap();
            let i = choose|i: int|
                0 <= i < k - 1 && !(#[trigger] entries[i]).is_dir && spec_parse_key_entitlement(
                    entries[i].name@,
                ) == Some(id);
            assert(0 <= i < k);
        }
    }
}

/// What the score counts is found among the root's entries: `.dup` files
/// are counted exactly when the root holds one, a support folder exactly
/// when it holds one, and the entitlement id given is the one a
/// `CHARTS-…key` file at the root carries.
pub proof fn law_recognition_reads_the_root(entries: Seq<RootEntry>)
    ensures
        evidence_upto(entries, entries.len() as int).has_dup <==> exists|i: int|
            0 <= i < entries.len() && !(#[trigger] entries[i]).is_dir && has_suffix(
                lower_seq(entries[i].name@),
                ".dup"@,
            ),
        evidence_upto(entries, entries.len() as int).has_support_dir <==> exists|i: int|
            0 <= i < entries.len() && (#[trigger] entries[i]).is_dir && is_support_dir(
                entries[i].name@,
            ),
        evidence_upto(entries, entries.len() as int).entitlement matches Some(id) ==> exists|i: int|
            0 <= i < entries.len() && !(#[trigger] entries[i]).is_dir && spec_parse_key_entitlement(
                entries[i].name@,
            ) == Some(id),
{
    lemma_evidence_from_entries(entries, entries.len() as int);
}

/// Score a drive root against the signals a real SkyView stick carries:
/// `has_chart_data` tells whether `ChartData` is a folder there, `entries`
/// are the root's entries and `label` the volume label. Gives the score, the
/// highest aviation cycle installed, and the chart key's entitlement id.
pub fn recognise(has_chart_data: bool, entries: &[RootEntry], label: &str) -> (r: (
    u8,
    Option<Cycle>,
    Option<String>,
))
    ensures
        ({
            let ev = evidence_upto(entries@, entries@.len() as int);
            &&& r.0 as nat == spec_score(has_chart_data, ev, label@)
            &&& r.1 == ev.cycle
            &&& match ev.entitlement {
                Some(id) => r.2 matches Some(x) && x@ == id,
                None => r.2 is None,
            }
        }),
{
    let mut has_dup = false;
    let mut has_key = false;
    let mut has_duc = false;
    let mut has_support_dir = false;
    let mut cycle: Option<Cycle> = None;
    let mut entitlement: Option<String> = None;
    let mut k: usize = 0;
    while k < entries.len()
        invariant
            k <= entries@.len(),
            ({
                let ev = evidence_upto(entries@, k as int);
                &&& ev.has_dup == has_dup
                &&& ev.has_key == has_key
                &&& ev.has_duc == has_duc
                &&& ev.has_support_dir == has_support_dir
                &&& ev.cycle == cycle
                &&& match ev.entitlement {
                    Some(id) => entitlement matches Some(x) && x@ == id,
                    None => entitlement is None,
                }
            }),
        decreases entries.len() - k,
    {
        let e = &entries[k];
        let name = chars_of(e.name.as_str());
        let lower = lowercase(&name);
        if e.is_dir {
            if equals_literal(&name, "FACTORY") || equals_literal(&name, "User Settings")
                || equals_literal(&name, "settings_archive") {
                has_support_dir = true;
            }
        } else if ends_with(&lower, &chars_of(".dup")) {
            has_dup = true;
            if classify_chars(&name) == DupKind::Aviation {
                let c = parse_cycle_chars(&name);
                if opt_cycle_less(cycle, c) {
                    cycle = c;
                }
            }
        } else if ends_with(&lower, &chars_of(".duc")) {
            has_duc = true;
        } else {
            match crate::scan::parse_key_entitlement(e.name.as_str()) {
                Some(id) => {
                    has_key = true;
                    entitlement = Some(id);
                },
                None => {},
            }
        }
        k += 1;
    }
    let l = lowercase(&chars_of(label));
    let mut score: u8 = 0;
    if has_chart_data {
        score += 2;
    }
    if has_dup {
        score += 2;
    }
    if has_key {
        score += 2;
    }
    if has_support_dir {
        score += 1;
    }
    if has_duc {
        score += 1;
    }
    if contains(&l, &chars_of("dynon")) || contains(&l, &chars_of("skyview")) {
        score += 1;
    }
    (score, cycle, entitlement)
}

// ---------------------------------------------------------------------------
// Why is the drive list empty?
// ---------------------------------------------------------------------------

#[derive(Debug, Clone, Copy, PartialEq, Eq, Structural)]
pub enum EmptyReason {
    /// Nothing is plugged in.
    NothingConnected,
    /// Sandboxed and not allowed to see the mounts.
    SandboxBlocked,
    /// Hardware is attached but nothing mounted it.
    NotMounted,
}

/// What the sandbox check found.
pub struct Sandbox {
    pub sandboxed: bool,
    pub grants_media: bool,
    pub media_roots_visible: bool,
    pub hardware_present: bool,
}

impl Sandbox {
    /// Inside a sandbox that hides the media folders, or that hides drives
    /// known to be attached, the sandbox is to blame; otherwise attached but
    /// unmounted hardware; otherwise nothing is connected.
    pub fn classify(&self) -> (r: EmptyReason)
        ensures
            r == (if self.sandboxed && (!self.grants_media || !self.media_roots_visible
                || self.hardware_present) {
                EmptyReason::SandboxBlocked
            } else if self.hardware_present {
                EmptyReason::NotMounted
            } else {
                EmptyReason::NothingConnected
            }),
    {
        if self.sandboxed && (!self.grants_media || !self.media_roots_visible
            || self.hardware_present) {
            EmptyReason::SandboxBlocked
        } else if self.hardware_present {
            EmptyReason::NotMounted
        } else {
            EmptyReason::NothingConnected
        }
    }
}

// ---------------------------------------------------------------------------
// Reading the sandbox's grants
// ---------------------------------------------------------------------------

/// The line of `t` that starts at offset `i`, without its line ending (`\n`
/// or `\r\n`), as `str::lines` yields it.
pub open spec fn line_at(t: Seq<char>, i: int) -> Seq<char> {
    let e = next_char(t, i, '\n');
    if i < e < t.len() && t[e - 1] == '\r' {
        t.subrange(i, e - 1)
    } else {
        t.subrange(i, e)
    }
}

pub open spec fn filesystems_key() -> Seq<char> {
    "filesystems="@
}

/// The first line at or after offset `i` that starts with `filesystems=`.
pub open spec fn filesystems_line(t: Seq<char>, i: int) -> Option<Seq<char>>
    decreases t.len() - i,
{
    if i < 0 || i >= t.len() {
        None
    } else if has_prefix(line_at(t, i), filesystems_key()) {
        Some(line_at(t, i))
    } else if next_char(t, i, '\n') < t.len() {
        proof {
            lemma_next_char(t, i, '\n');
        }
        filesystems_line(t, next_char(t, i, '\n') + 1)
    } else {
        None
    }
}

/// What follows `filesystems=` up to the next `=`: the second piece of the
/// line split at `=`.
pub open spec fn filesystems_value(line: Seq<char>) -> Seq<char> {
    line.subrange(12, next_char(line, 12, '='))
}

/// A filesystem grant that exposes the mounted media.
pub open spec fn grants_media_entry(f: Seq<char>) -> bool {
    f == "/run/media"@ || f == "host"@ || f == "host-os"@
}

/// Whether one of the `;`-separated entries of `v` from offset `i` on is a
/// grant that exposes the mounted media.
pub open spec fn grants_from(v: Seq<char>, i: int) -> bool
    decreases v.len() - i,
{
    if i < 0 || i > v.len() {
        false
    } else if grants_media_entry(v.subrange(i, next_char(v, i, ';'))) {
        true
    } else if next_char(v, i, ';') < v.len() {
        proof {
            lemma_next_char(v, i, ';');
        }
        grants_from(v, next_char(v, i, ';') + 1)
    } else {
        false
    }
}

/// Whether the sandbox lets us see the mounted media, from the text of its
/// info file (`None` outside a sandbox, where nothing is withheld).
pub open spec fn spec_grants_media(info: Option<Seq<char>>) -> bool {
    match info {
        None => true,
        Some(t) => match filesystems_line(t, 0) {
            Some(line) => grants_from(filesystems_value(line), 0),
            None => false,
        },
    }
}

fn grants_in(v: &Vec<char>) -> (r: bool)
    ensures
        r == grants_from(v@, 0),
{
    let mut j: usize = 0;
    loop
        invariant
            j <= v@.len(),
            grants_from(v@, j as int) == grants_from(v@, 0),
        decreases v@.len() - j,
    {
        let e = next_char_from(v, j, ';');
        let seg = copy_range(v, j, e);
        if equals_literal(&seg, "/run/media") || equals_literal(&seg, "host") || equals_literal(
            &seg,
            "host-os",
        ) {
            return true;
        }
        if e < v.len() {
            proof {
                lemma_next_char(v@, j as int, ';');
            }
            j = e + 1;
        } else {
            return false;
        }
    }
}

/// Reads the sandbox's info file: the first line that starts with
/// `filesystems=` lists the granted filesystems, `;`-separated, and one of
/// `/run/media`, `host` or `host-os` exposes the mounted media. Without an
/// info file (`None`) there is no sandbox to withhold anything.
pub fn sandbox_grants_media(info: Option<&str>) -> (r: bool)
    ensures
        r == spec_grants_media(
            match info {
                Some(t) => Some(t@),
                None => None,
            },
        ),
{
    let text = match info {
        None => {
            return true;
        },
        Some(t) => t,
    };
    let t = chars_of(text);
    let key = chars_of("filesystems=");
    let mut i: usize = 0;
    loop
        invariant
            i <= t@.len(),
            t@ == text@,
            key@ == filesystems_key(),
            info matches Some(x) && x@ == t@,
            filesystems_line(t@, i as int) == filesystems_line(t@, 0),
        decreases t@.len() - i,
    {
        if i >= t.len() {
            return false;
        }
        let e = next_char_from(&t, i, '\n');
        let hi = if i < e && e < t.len() && t[e - 1] == '\r' {
            e - 1
        } else {
            e
        };
        let line = copy_range(&t, i, hi);
        assert(line@ == line_at(t@, i as int));
        if starts_with(&line, &key) {
            proof {
                reveal_strlit("filesystems=");
            }
            let stop = next_char_from(&line, 12, '=');
            let value = copy_range(&line, 12, stop);
            return grants_in(&value);
        }
        if e < t.len() {
            proof {
                lemma_next_char(t@, i as int, '\n');
            }
            i = e + 1;
        } else {
            return false;
        }
    }
}

/// A block device's `removable` attribute, as the kernel reports it, marks
/// a removable device when it reads `1`.
pub fn removable_flag(attribute: &str) -> (r: bool)
    ensures
        r == (trim(attribute@) == "1"@),
{
    trimmed_equals(attribute, "1")
}

/// A partition's `size` attribute shows a medium when it is anything but `0`,
/// so that empty card readers do not pass for an attached drive.
pub fn partition_has_size(attribute: &str) -> (r: bool)
    ensures
        r == (trim(attribute@) != "0"@),
{
    !trimmed_equals(attribute, "0")
}

} // verus!
