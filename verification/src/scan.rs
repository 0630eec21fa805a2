//! Source scanning: AIRAC cycle parsing, database discovery and ranking,
//! and working out where each member of a plates archive belongs.
//!
//! Dynon names its files by cycle — `airmate_av_data_us_2608_013712.dup` is
//! cycle 2608 for chart entitlement 013712 — so a cycle, not a date, is the
//! primary version key.

use crate::text::{
    same, all_ascii_digits, ascii_digit, chars_of, contains, digit_value, ends_with, has_infix, has_prefix,
    has_suffix, is_ascii_digit, lower_seq, lowercase, push_two_digits, slice_to_string, starts_with,
    string_from, two_digits, digit_char, decimal_text, lower, joined,
};
use vstd::prelude::*;

verus! {

// ---------------------------------------------------------------------------
// Cycles
// ---------------------------------------------------------------------------

/// An AIRAC-style cycle: two-digit year plus a cycle number 01–13.
#[derive(Debug, Clone, Copy, PartialEq, Eq, Structural, PartialOrd, Ord, Hash)]
pub struct Cycle {
    pub year: u16,
    pub number: u8,
}

/// The order the derived `Ord` gives: by year, then by number.
pub open spec fn cycle_lt(a: Cycle, b: Cycle) -> bool {
    a.year < b.year || (a.year == b.year && a.number < b.number)
}

/// The order of `Option<Cycle>`: no cycle sorts before every cycle.
pub open spec fn opt_cycle_lt(a: Option<Cycle>, b: Option<Cycle>) -> bool {
    match (a, b) {
        (None, Some(_)) => true,
        (Some(x), Some(y)) => cycle_lt(x, y),
        _ => false,
    }
}

pub fn opt_cycle_less(a: Option<Cycle>, b: Option<Cycle>) -> (r: bool)
    ensures
        r == opt_cycle_lt(a, b),
{
    match (a, b) {
        (None, Some(_)) => true,
        (Some(x), Some(y)) => x.year < y.year || (x.year == y.year && x.number < y.number),
        _ => false,
    }
}

/// "2608": the year's last two digits, then the number, each zero-padded to two.
pub open spec fn cycle_label(c: Cycle) -> Seq<char> {
    two_digits((c.year % 100) as nat) + two_digits(c.number as nat)
}

impl Cycle {
    pub fn label(&self) -> (r: String)
        ensures
            r@ == cycle_label(*self),
    {
        let mut v: Vec<char> = Vec::new();
        push_two_digits(&mut v, (self.year % 100) as u64);
        push_two_digits(&mut v, self.number as u64);
        string_from(v)
    }
}

/// The four characters at `d` read as a cycle: two ASCII digits of year, then
/// `0[1-9]` or `1[0-3]`, with no ASCII digit directly before or after.
pub open spec fn cycle_at(s: Seq<char>, d: int) -> bool {
    &&& 0 <= d
    &&& d + 4 <= s.len()
    &&& d == 0 || !is_ascii_digit(s[d - 1])
    &&& is_ascii_digit(s[d])
    &&& is_ascii_digit(s[d + 1])
    &&& ((s[d + 2] == '0' && '1' <= s[d + 3] <= '9') || (s[d + 2] == '1' && '0' <= s[d + 3] <= '3'))
    &&& d + 4 == s.len() || !is_ascii_digit(s[d + 4])
}

/// The leftmost position at or after `d` where a cycle can be read.
pub open spec fn first_cycle_from(s: Seq<char>, d: int) -> Option<int>
    decreases s.len() - d,
{
    if d < 0 || d + 4 > s.len() {
        None
    } else if cycle_at(s, d) {
        Some(d)
    } else {
        first_cycle_from(s, d + 1)
    }
}

pub open spec fn two_digit_value(s: Seq<char>, d: int) -> nat {
    digit_value(s[d]) * 10 + digit_value(s[d + 1])
}

/// The first cycle in a file name: `2608` in `airmate_av_data_us_2608_013712.dup`.
/// Digits that are part of a longer run of digits are never read as a cycle.
pub open spec fn spec_parse_cycle(s: Seq<char>) -> Option<Cycle> {
    match first_cycle_from(s, 0) {
        Some(d) => Some(
            Cycle {
                year: (2000 + two_digit_value(s, d)) as u16,
                number: two_digit_value(s, d + 2) as u8,
            },
        ),
        None => None,
    }
}

fn cycle_at_exec(s: &[char], d: usize) -> (r: bool)
    ensures
        r == cycle_at(s@, d as int),
{
    if d > s.len() || s.len() - d < 4 {
        return false;
    }
    if d > 0 && ascii_digit(s[d - 1]) {
        return false;
    }
    if !ascii_digit(s[d]) || !ascii_digit(s[d + 1]) {
        return false;
    }
    let a = s[d + 2];
    let b = s[d + 3];
    let ok = (a == '0' && '1' <= b && b <= '9') || (a == '1' && '0' <= b && b <= '3');
    if !ok {
        return false;
    }
    d + 4 == s.len() || !ascii_digit(s[d + 4])
}

fn two_digit_at(s: &[char], d: usize) -> (r: u8)
    requires
        d + 2 <= s@.len(),
        is_ascii_digit(s@[d as int]),
        is_ascii_digit(s@[d + 1]),
    ensures
        r as nat == two_digit_value(s@, d as int),
{
    let a = (s[d] as u32 - '0' as u32) as u8;
    let b = (s[d + 1] as u32 - '0' as u32) as u8;
    a * 10 + b
}

pub fn parse_cycle_chars(s: &[char]) -> (r: Option<Cycle>)
    ensures
        r == spec_parse_cycle(s@),
{
    let mut d: usize = 0;
    while d < s.len()
        invariant
            first_cycle_from(s@, d as int) == first_cycle_from(s@, 0),
        decreases s.len() - d,
    {
        if s.len() - d < 4 {
            return None;
        }
        if cycle_at_exec(s, d) {
            let year = two_digit_at(s, d);
            let number = two_digit_at(s, d + 2);
            return Some(Cycle { year: 2000 + year as u16, number });
        }
        d += 1;
    }
    None
}

pub fn parse_cycle(name: &str) -> (r: Option<Cycle>)
    ensures
        r == spec_parse_cycle(name@),
{
    let v = chars_of(name);
    parse_cycle_chars(&v)
}

// ---------------------------------------------------------------------------
// Entitlement ids
// ---------------------------------------------------------------------------

/// The start of the run of ASCII digits that ends at `e`.
pub open spec fn digits_back(s: Seq<char>, e: int) -> int
    decreases e,
{
    if 0 < e <= s.len() && is_ascii_digit(s[e - 1]) {
        digits_back(s, e - 1)
    } else {
        e
    }
}

proof fn lemma_digits_back(s: Seq<char>, e: int)
    requires
        0 <= e <= s.len(),
    ensures
        0 <= digits_back(s, e) <= e,
        forall|k: int| digits_back(s, e) <= k < e ==> is_ascii_digit(#[trigger] s[k]),
        digits_back(s, e) > 0 ==> !is_ascii_digit(s[digits_back(s, e) - 1]),
    decreases e,
{
    if 0 < e && is_ascii_digit(s[e - 1]) {
        lemma_digits_back(s, e - 1);
    }
}

/// The chart entitlement id trailing a database file name: `_` then at least
/// five ASCII digits then `.dup`, at the very end of the name.
pub open spec fn spec_parse_entitlement(s: Seq<char>) -> Option<Seq<char>> {
    if !has_suffix(s, seq!['.', 'd', 'u', 'p']) {
        None
    } else {
        let e = s.len() - 4;
        let k = digits_back(s, e);
        if k >= 1 && s[k - 1] == '_' && e - k >= 5 {
            Some(s.subrange(k, e))
        } else {
            None
        }
    }
}

/// The id carried by a `CHARTS-nnnnnn.key` file name: the whole name is
/// `CHARTS-`, at least one ASCII digit, then `.key`.
pub open spec fn spec_parse_key_entitlement(s: Seq<char>) -> Option<Seq<char>> {
    if s.len() >= 12 && has_prefix(s, seq!['C', 'H', 'A', 'R', 'T', 'S', '-']) && has_suffix(
        s,
        seq!['.', 'k', 'e', 'y'],
    ) && all_ascii_digits(s.subrange(7, s.len() - 4)) {
        Some(s.subrange(7, s.len() - 4))
    } else {
        None
    }
}

pub fn parse_entitlement(name: &str) -> (r: Option<String>)
    ensures
        r matches Some(id) ==> spec_parse_entitlement(name@) == Some(id@),
        r is None ==> spec_parse_entitlement(name@) is None,
{
    let s = chars_of(name);
    let suffix = ['.', 'd', 'u', 'p'];
    assert(suffix@ =~= seq!['.', 'd', 'u', 'p']);
    if !ends_with(&s, &suffix) {
        return None;
    }
    let e = s.len() - 4;
    let mut k = e;
    proof {
        lemma_digits_back(s@, e as int);
    }
    while k > 0 && ascii_digit(s[k - 1])
        invariant
            k <= e <= s@.len(),
            digits_back(s@, k as int) == digits_back(s@, e as int),
        decreases k,
    {
        k -= 1;
    }
    if k >= 1 && s[k - 1] == '_' && e - k >= 5 {
        Some(slice_to_string(&s, k, e))
    } else {
        None
    }
}

pub fn parse_key_entitlement(name: &str) -> (r: Option<String>)
    ensures
        r matches Some(id) ==> spec_parse_key_entitlement(name@) == Some(id@),
        r is None ==> spec_parse_key_entitlement(name@) is None,
{
    let s = chars_of(name);
    let prefix = ['C', 'H', 'A', 'R', 'T', 'S', '-'];
    let suffix = ['.', 'k', 'e', 'y'];
    assert(prefix@ =~= seq!['C', 'H', 'A', 'R', 'T', 'S', '-']);
    assert(suffix@ =~= seq!['.', 'k', 'e', 'y']);
    if s.len() < 12 || !starts_with(&s, &prefix) || !ends_with(&s, &suffix) {
        return None;
    }
    let e = s.len() - 4;
    let mut i: usize = 7;
    while i < e
        invariant
            7 <= i <= e,
            e == s@.len() - 4,
            s@ == name@,
            all_ascii_digits(s@.subrange(7, i as int)),
        decreases e - i,
    {
        if !ascii_digit(s[i]) {
            assert(s@.subrange(7, e as int)[i - 7] == s@[i as int]);
            assert(!all_ascii_digits(s@.subrange(7, s@.len() - 4)));
            return None;
        }
        i += 1;
        assert(s@.subrange(7, i as int).drop_last() =~= s@.subrange(7, i - 1 as int));
    }
    Some(slice_to_string(&s, 7, e))
}

// ---------------------------------------------------------------------------
// Database kinds
// ---------------------------------------------------------------------------

#[derive(Debug, Clone, Copy, PartialEq, Eq, Structural)]
pub enum DupKind {
    Aviation,
    Obstacle,
    Other,
}

/// Obstacle databases mention "obst" or, in the FAA packages, "ob_data";
/// aviation ones "av_data", "avdata", "av-data", "aviation" or "navdata";
/// case is ignored.
pub open spec fn spec_classify(name: Seq<char>) -> DupKind {
    let lower = lower_seq(name);
    if has_infix(lower, seq!['o', 'b', 's', 't']) || has_infix(
        lower,
        seq!['o', 'b', '_', 'd', 'a', 't', 'a'],
    ) {
        DupKind::Obstacle
    } else if has_infix(lower, seq!['a', 'v', '_', 'd', 'a', 't', 'a']) || has_infix(
        lower,
        seq!['a', 'v', 'd', 'a', 't', 'a'],
    ) || has_infix(lower, seq!['a', 'v', '-', 'd', 'a', 't', 'a']) || has_infix(
        lower,
        seq!['a', 'v', 'i', 'a', 't', 'i', 'o', 'n'],
    ) || has_infix(lower, seq!['n', 'a', 'v', 'd', 'a', 't', 'a']) {
        DupKind::Aviation
    } else {
        DupKind::Other
    }
}

pub fn classify_chars(name: &[char]) -> (r: DupKind)
    ensures
        r == spec_classify(name@),
{
    let lower = lowercase(name);
    let obst = ['o', 'b', 's', 't'];
    let ob = ['o', 'b', '_', 'd', 'a', 't', 'a'];
    let a1 = ['a', 'v', '_', 'd', 'a', 't', 'a'];
    let a2 = ['a', 'v', 'd', 'a', 't', 'a'];
    let a3 = ['a', 'v', '-', 'd', 'a', 't', 'a'];
    let a4 = ['a', 'v', 'i', 'a', 't', 'i', 'o', 'n'];
    let a5 = ['n', 'a', 'v', 'd', 'a', 't', 'a'];
    assert(obst@ =~= seq!['o', 'b', 's', 't']);
    assert(ob@ =~= seq!['o', 'b', '_', 'd', 'a', 't', 'a']);
    assert(a1@ =~= seq!['a', 'v', '_', 'd', 'a', 't', 'a']);
    assert(a2@ =~= seq!['a', 'v', 'd', 'a', 't', 'a']);
    assert(a3@ =~= seq!['a', 'v', '-', 'd', 'a', 't', 'a']);
    assert(a4@ =~= seq!['a', 'v', 'i', 'a', 't', 'i', 'o', 'n']);
    assert(a5@ =~= seq!['n', 'a', 'v', 'd', 'a', 't', 'a']);
    if contains(&lower, &obst) || contains(&lower, &ob) {
        DupKind::Obstacle
    } else if contains(&lower, &a1) || contains(&lower, &a2) || contains(&lower, &a3) || contains(
        &lower,
        &a4,
    ) || contains(&lower, &a5) {
        DupKind::Aviation
    } else {
        DupKind::Other
    }
}

pub fn classify(name: &str) -> (r: DupKind)
    ensures
        r == spec_classify(name@),
{
    let v = chars_of(name);
    classify_chars(&v)
}

// ---------------------------------------------------------------------------
// Paths
// ---------------------------------------------------------------------------

/// The start of the `/`-separated segment that ends at `e`.
pub open spec fn segment_start(p: Seq<char>, e: int) -> int
    decreases e,
{
    if 0 < e <= p.len() && p[e - 1] != '/' {
        segment_start(p, e - 1)
    } else {
        e
    }
}

/// The end of `p[..e]` once trailing `/` are dropped.
pub open spec fn slashes_back(p: Seq<char>, e: int) -> int
    decreases e,
{
    if 0 < e <= p.len() && p[e - 1] == '/' {
        slashes_back(p, e - 1)
    } else {
        e
    }
}

/// The last component of `p[..e]`, as `Path::file_name` reads it: `.`
/// segments and empty segments are skipped, and a path ending in `..` has none.
pub open spec fn last_name(p: Seq<char>, e: int) -> Option<Seq<char>>
    decreases e,
{
    if e <= 0 || e > p.len() {
        None
    } else {
        let b = slashes_back(p, e);
        if b <= 0 {
            None
        } else {
            let a = segment_start(p, b);
            let seg = p.subrange(a, b);
            if seg == seq!['.'] {
                if 0 <= a < e {
                    last_name(p, a)
                } else {
                    None
                }
            } else if seg == seq!['.', '.'] {
                None
            } else {
                Some(seg)
            }
        }
    }
}

pub open spec fn file_name(p: Seq<char>) -> Option<Seq<char>> {
    last_name(p, p.len() as int)
}

proof fn lemma_slashes_back(p: Seq<char>, e: int)
    requires
        0 <= e <= p.len(),
    ensures
        0 <= slashes_back(p, e) <= e,
        slashes_back(p, e) > 0 ==> p[slashes_back(p, e) - 1] != '/',
    decreases e,
{
    if 0 < e && p[e - 1] == '/' {
        lemma_slashes_back(p, e - 1);
    }
}

proof fn lemma_segment_start(p: Seq<char>, e: int)
    requires
        0 <= e <= p.len(),
    ensures
        0 <= segment_start(p, e) <= e,
        forall|k: int| segment_start(p, e) <= k < e ==> p[k] != '/',
        segment_start(p, e) > 0 ==> p[segment_start(p, e) - 1] == '/',
    decreases e,
{
    if 0 < e && p[e - 1] != '/' {
        lemma_segment_start(p, e - 1);
    }
}

/// Bounds of the file name of `p[..e]` inside `p`, when it has one.
fn last_name_bounds(p: &[char], e: usize) -> (r: Option<(usize, usize)>)
    requires
        e <= p@.len(),
    ensures
        r matches Some((a, b)) ==> a <= b <= e && last_name(p@, e as int) == Some(
            p@.subrange(a as int, b as int),
        ),
        r is None ==> last_name(p@, e as int) is None,
    decreases e,
{
    if e == 0 {
        return None;
    }
    let mut b = e;
    proof {
        lemma_slashes_back(p@, e as int);
    }
    while b > 0 && p[b - 1] == '/'
        invariant
            b <= e <= p@.len(),
            slashes_back(p@, b as int) == slashes_back(p@, e as int),
        decreases b,
    {
        b -= 1;
    }
    if b == 0 {
        return None;
    }
    let mut a = b;
    proof {
        lemma_segment_start(p@, b as int);
    }
    while a > 0 && p[a - 1] != '/'
        invariant
            a <= b <= p@.len(),
            segment_start(p@, a as int) == segment_start(p@, b as int),
        decreases a,
    {
        a -= 1;
    }
    let ghost seg = p@.subrange(a as int, b as int);
    if b - a == 1 && p[a] == '.' {
        assert(seg =~= seq!['.']);
        assert(a < e);
        return last_name_bounds(p, a);
    }
    if b - a == 2 && p[a] == '.' && p[a + 1] == '.' {
        assert(seg =~= seq!['.', '.']);
        return None;
    }
    assert(seg != seq!['.']) by {
        if seg.len() == 1 {
            assert(seg[0] == p@[a as int]);
        }
    }
    assert(seg != seq!['.', '.']) by {
        if seg.len() == 2 {
            assert(seg[0] == p@[a as int]);
            assert(seg[1] == p@[a + 1]);
        }
    }
    Some((a, b))
}

/// The file name of a path, or an empty text when it has none.
pub open spec fn name_or_empty(p: Seq<char>) -> Seq<char> {
    match file_name(p) {
        Some(n) => n,
        None => Seq::empty(),
    }
}

pub fn path_file_name(path: &str) -> (r: String)
    ensures
        r@ == name_or_empty(path@),
{
    let p = chars_of(path);
    match last_name_bounds(&p, p.len()) {
        Some((a, b)) => slice_to_string(&p, a, b),
        None => string_from(Vec::new()),
    }
}

pub fn file_name_chars(path: &str) -> (r: Option<Vec<char>>)
    ensures
        r matches Some(n) ==> file_name(path@) == Some(n@),
        r is None ==> file_name(path@) is None,
{
    let p = chars_of(path);
    match last_name_bounds(&p, p.len()) {
        Some((a, b)) => {
            let mut v: Vec<char> = Vec::new();
            let mut i = a;
            while i < b
                invariant
                    a <= i <= b <= p@.len(),
                    v@ == p@.subrange(a as int, i as int),
                decreases b - i,
            {
                v.push(p[i]);
                i += 1;
                assert(v@ =~= p@.subrange(a as int, i as int));
            }
            Some(v)
        },
        None => None,
    }
}

// ---------------------------------------------------------------------------
// Database files and their ranking
// ---------------------------------------------------------------------------

/// A `.dup` file found in a source folder. `modified` is the file's
/// modification time in nanoseconds from the Unix epoch (negative before it).
#[derive(Debug, Clone)]
pub struct DupFile {
    pub path: String,
    pub kind: DupKind,
    pub cycle: Option<Cycle>,
    pub entitlement: Option<String>,
    pub size: u64,
    pub modified: i128,
}

// ---------------------------------------------------------------------------
// Dates in file names
// ---------------------------------------------------------------------------

/// The number two ASCII digits at `i` spell.
pub open spec fn two_at(s: Seq<char>, i: int) -> nat {
    digit_value(s[i]) * 10 + digit_value(s[i + 1])
}

/// A `YYYY-MM-DD` date starts at `i`, with a month from 01 to 12 and a day
/// from 01 to 31.
pub open spec fn date_at(s: Seq<char>, i: int) -> bool {
    &&& 0 <= i && i + 10 <= s.len()
    &&& is_ascii_digit(s[i]) && is_ascii_digit(s[i + 1]) && is_ascii_digit(s[i + 2])
        && is_ascii_digit(s[i + 3])
    &&& s[i + 4] == '-' && s[i + 7] == '-'
    &&& is_ascii_digit(s[i + 5]) && is_ascii_digit(s[i + 6])
    &&& is_ascii_digit(s[i + 8]) && is_ascii_digit(s[i + 9])
    &&& 1 <= two_at(s, i + 5) <= 12
    &&& 1 <= two_at(s, i + 8) <= 31
}

/// The date at `i` as one number, `YYYYMMDD`, which orders dates as the
/// calendar does.
pub open spec fn date_value(s: Seq<char>, i: int) -> nat {
    (two_at(s, i) * 100 + two_at(s, i + 2)) * 10000 + two_at(s, i + 5) * 100 + two_at(s, i + 8)
}

/// Where the first date in `s` at or after `i` starts.
pub open spec fn first_date_from(s: Seq<char>, i: int) -> Option<int>
    decreases s.len() - i,
{
    if i < 0 || i + 10 > s.len() {
        None
    } else if date_at(s, i) {
        Some(i)
    } else {
        first_date_from(s, i + 1)
    }
}

/// The first `YYYY-MM-DD` date a file name carries, as `YYYYMMDD`; 0 when
/// it carries none.
#[verifier::opaque]
pub open spec fn spec_name_date(name: Seq<char>) -> nat {
    match first_date_from(name, 0) {
        Some(i) => date_value(name, i),
        None => 0,
    }
}

fn two_digits_at(s: &[char], i: usize) -> (r: u32)
    requires
        i + 1 < s@.len(),
        is_ascii_digit(s@[i as int]),
        is_ascii_digit(s@[i + 1]),
    ensures
        r == two_at(s@, i as int),
        r <= 99,
{
    let a = (s[i] as u32) - ('0' as u32);
    let b = (s[i + 1] as u32) - ('0' as u32);
    a * 10 + b
}

fn date_at_exec(s: &[char], i: usize) -> (r: Option<u32>)
    requires
        i + 10 <= s@.len(),
    ensures
        r is Some <==> date_at(s@, i as int),
        r matches Some(v) ==> v == date_value(s@, i as int),
{
    if !(ascii_digit(s[i]) && ascii_digit(s[i + 1]) && ascii_digit(s[i + 2]) && ascii_digit(
        s[i + 3],
    ) && s[i + 4] == '-' && s[i + 7] == '-' && ascii_digit(s[i + 5]) && ascii_digit(s[i + 6])
        && ascii_digit(s[i + 8]) && ascii_digit(s[i + 9])) {
        return None;
    }
    let month = two_digits_at(s, i + 5);
    let day = two_digits_at(s, i + 8);
    if month < 1 || month > 12 || day < 1 || day > 31 {
        return None;
    }
    let year = two_digits_at(s, i) * 100 + two_digits_at(s, i + 2);
    Some(year * 10000 + month * 100 + day)
}

/// The first `YYYY-MM-DD` date in a file name, as `YYYYMMDD`, or 0.
pub fn name_date(name: &str) -> (r: u32)
    ensures
        r == spec_name_date(name@),
{
    proof {
        reveal(spec_name_date);
    }
    let s = chars_of(name);
    if s.len() < 10 {
        return 0;
    }
    let last = s.len() - 10;
    let mut i: usize = 0;
    while i <= last
        invariant
            s@ == name@,
            last + 10 == s@.len(),
            last < usize::MAX,
            i <= last + 1,
            first_date_from(s@, 0) == first_date_from(s@, i as int),
        decreases last + 1 - i,
    {
        match date_at_exec(&s, i) {
            Some(v) => {
                proof {
                    reveal(spec_name_date);
                }
                return v;
            },
            None => {},
        }
        i += 1;
    }
    proof {
        reveal(spec_name_date);
    }
    0
}

/// Ranking key: a parsed cycle beats no cycle, a later cycle beats an
/// earlier one; then the date the file name carries; then the mtime.
pub struct Rank {
    pub has_cycle: u8,
    pub year: u16,
    pub number: u8,
    pub name_date: u32,
    pub modified: i128,
}

pub open spec fn spec_rank(f: DupFile) -> Rank {
    let d = spec_name_date(name_or_empty(f.path@)) as u32;
    match f.cycle {
        Some(c) => Rank { has_cycle: 1, year: c.year, number: c.number, name_date: d, modified: f.modified },
        None => Rank { has_cycle: 0, year: 0, number: 0, name_date: d, modified: f.modified },
    }
}

/// The lexicographic order of ranking keys.
pub open spec fn rank_lt(a: Rank, b: Rank) -> bool {
    ||| a.has_cycle < b.has_cycle
    ||| a.has_cycle == b.has_cycle && a.year < b.year
    ||| a.has_cycle == b.has_cycle && a.year == b.year && a.number < b.number
    ||| a.has_cycle == b.has_cycle && a.year == b.year && a.number == b.number && a.name_date
        < b.name_date
    ||| a.has_cycle == b.has_cycle && a.year == b.year && a.number == b.number && a.name_date
        == b.name_date && a.modified < b.modified
}

pub open spec fn rank_le(a: Rank, b: Rank) -> bool {
    rank_lt(a, b) || a == b
}

impl DupFile {
    pub fn name(&self) -> (r: String)
        ensures
            r@ == name_or_empty(self.path@),
    {
        path_file_name(&self.path)
    }

    pub fn rank(&self) -> (r: Rank)
        ensures
            r == spec_rank(*self),
    {
        let d = name_date(self.name().as_str());
        match self.cycle {
            Some(c) => Rank { has_cycle: 1, year: c.year, number: c.number, name_date: d, modified: self.modified },
            None => Rank { has_cycle: 0, year: 0, number: 0, name_date: d, modified: self.modified },
        }
    }
}

fn rank_less(a: &Rank, b: &Rank) -> (r: bool)
    ensures
        r == rank_lt(*a, *b),
{
    if a.has_cycle != b.has_cycle {
        return a.has_cycle < b.has_cycle;
    }
    if a.year != b.year {
        return a.year < b.year;
    }
    if a.number != b.number {
        return a.number < b.number;
    }
    if a.name_date != b.name_date {
        return a.name_date < b.name_date;
    }
    a.modified < b.modified
}

/// Everything `newest` returns: a file of the kind with the highest rank,
/// and, among equally ranked ones, the last.
pub open spec fn is_newest(files: Seq<DupFile>, kind: DupKind, i: int) -> bool {
    &&& 0 <= i < files.len()
    &&& files[i].kind == kind
    &&& forall|j: int|
        0 <= j < files.len() && files[j].kind == kind ==> rank_le(
            spec_rank(#[trigger] files[j]),
            spec_rank(files[i]),
        )
    &&& forall|j: int|
        i < j < files.len() && files[j].kind == kind ==> rank_lt(
            spec_rank(#[trigger] files[j]),
            spec_rank(files[i]),
        )
}

/// The newest file of a kind: highest cycle, then latest modification; the
/// last one listed among equals.
pub fn newest(files: &[DupFile], kind: DupKind) -> (r: Option<&DupFile>)
    ensures
        r matches Some(f) ==> exists|i: int| is_newest(files@, kind, i) && *f == files@[i],
        r is None <==> forall|j: int| 0 <= j < files@.len() ==> files@[j].kind != kind,
{
    let mut best: Option<usize> = None;
    let mut i: usize = 0;
    while i < files.len()
        invariant
            i <= files@.len(),
            best matches Some(b) ==> b < i && files@[b as int].kind == kind && (forall|j: int|
                0 <= j < i && files@[j].kind == kind ==> rank_le(
                    spec_rank(#[trigger] files@[j]),
                    spec_rank(files@[b as int]),
                )) && (forall|j: int|
                b < j < i && files@[j].kind == kind ==> rank_lt(
                    spec_rank(#[trigger] files@[j]),
                    spec_rank(files@[b as int]),
                )),
            best is None ==> forall|j: int| 0 <= j < i ==> files@[j].kind != kind,
        decreases files.len() - i,
    {
        if files[i].kind == kind {
            match best {
                None => {
                    best = Some(i);
                },
                Some(b) => {
                    let rb = files[b].rank();
                    let ri = files[i].rank();
                    if !rank_less(&ri, &rb) {
                        best = Some(i);
                    }
                },
            }
        }
        i += 1;
    }
    match best {
        Some(b) => {
            assert(is_newest(files@, kind, b as int));
            Some(&files[b])
        },
        None => None,
    }
}

/// `a` comes before `b` in a newest-first listing.
pub open spec fn ranked_before(a: DupFile, b: DupFile) -> bool {
    rank_le(spec_rank(b), spec_rank(a))
}

/// `order` lists every index of `files` once.
pub open spec fn is_permutation(order: Seq<int>, n: int) -> bool {
    &&& order.len() == n
    &&& forall|k: int| 0 <= k < n ==> 0 <= #[trigger] order[k] < n
    &&& forall|k: int, l: int| 0 <= k < l < n ==> order[k] != order[l]
}

/// `sorted` is `files` ordered newest first, equal ranks keeping their order.
pub open spec fn is_newest_first_of(sorted: Seq<DupFile>, files: Seq<DupFile>) -> bool {
    &&& sorted.len() == files.len()
    &&& exists|order: Seq<int>|
        {
            &&& is_permutation(order, files.len() as int)
            &&& forall|k: int| 0 <= k < sorted.len() ==> #[trigger] sorted[k] == files[order[k]]
            &&& forall|k: int, l: int|
                0 <= k < l < sorted.len() ==> ranked_before(#[trigger] sorted[k], #[trigger] sorted[l])
            &&& forall|k: int, l: int|
                0 <= k < l < sorted.len() && spec_rank(sorted[k]) == spec_rank(sorted[l]) ==> order[k]
                    < order[l]
        }
}

/// Stable sort, highest rank first: the ordering of a folder scan.
#[verifier::rlimit(50)]
pub fn sort_newest_first(files: Vec<DupFile>) -> (r: Vec<DupFile>)
    ensures
        is_newest_first_of(r@, files@),
{
    let ghost input = files@;
    let n = files.len();
    let mut out: Vec<DupFile> = Vec::new();
    let ghost mut order: Seq<int> = Seq::empty();
    let mut rest = files;
    while rest.len() > 0
        invariant
            n == input.len(),
            out@.len() + rest@.len() == n,
            rest@ == input.subrange(out@.len() as int, n as int),
            order.len() == out@.len(),
            forall|k: int| 0 <= k < out@.len() ==> 0 <= #[trigger] order[k] < out@.len(),
            forall|k: int, l: int| 0 <= k < l < out@.len() ==> order[k] != order[l],
            forall|k: int| 0 <= k < out@.len() ==> #[trigger] out@[k] == input[order[k]],
            forall|k: int, l: int|
                0 <= k < l < out@.len() ==> ranked_before(#[trigger] out@[k], #[trigger] out@[l]),
            forall|k: int, l: int|
                0 <= k < l < out@.len() && spec_rank(out@[k]) == spec_rank(out@[l]) ==> order[k]
                    < order[l],
        decreases rest.len(),
    {
        let ghost taken = out@.len() as int;
        let f = rest.remove(0);
        assert(f == input[taken]);
        let rf = f.rank();
        let mut pos: usize = 0;
        while pos < out.len() && !rank_less(&out[pos].rank(), &rf)
            invariant
                pos <= out@.len(),
                rf == spec_rank(f),
                forall|k: int| 0 <= k < pos ==> ranked_before(#[trigger] out@[k], f),
            decreases out.len() - pos,
        {
            pos += 1;
        }
        assert forall|l: int| pos <= l < out@.len() implies rank_lt(spec_rank(#[trigger] out@[l]), rf) by {
            assert(rank_lt(spec_rank(out@[pos as int]), rf));
            if l > pos {
                assert(ranked_before(out@[pos as int], out@[l]));
            }
        }
        let ghost old_out = out@;
        let ghost old_order = order;
        out.insert(pos, f);
        proof {
            order = old_order.insert(pos as int, taken);
            assert forall|k: int| 0 <= k < out@.len() implies #[trigger] out@[k] == input[order[k]] by {
                if k < pos {
                    assert(out@[k] == old_out[k]);
                } else if k > pos {
                    assert(out@[k] == old_out[k - 1]);
                }
            }
            assert forall|k: int, l: int| 0 <= k < l < out@.len() implies ranked_before(
                #[trigger] out@[k],
                #[trigger] out@[l],
            ) by {
                if l < pos {
                } else if l == pos {
                    assert(ranked_before(old_out[k], f));
                } else if k < pos {
                    assert(ranked_before(old_out[k], old_out[l - 1]));
                } else if k == pos {
                    assert(rank_lt(spec_rank(old_out[l - 1]), rf));
                } else {
                    assert(ranked_before(old_out[k - 1], old_out[l - 1]));
                }
            }
            assert forall|k: int, l: int|
                0 <= k < l < out@.len() && spec_rank(out@[k]) == spec_rank(out@[l]) implies order[k]
                < order[l] by {
                if l < pos {
                } else if l == pos {
                    assert(old_order[k] < taken);
                } else if k < pos {
                    assert(out@[l] == old_out[l - 1]);
                } else if k == pos {
                    assert(rank_lt(spec_rank(old_out[l - 1]), rf));
                    assert(out@[l] == old_out[l - 1]);
                } else {
                    assert(out@[l] == old_out[l - 1]);
                    assert(out@[k] == old_out[k - 1]);
                }
            }
            assert forall|k: int| 0 <= k < out@.len() implies 0 <= #[trigger] order[k] < out@.len() by {
                if k < pos {
                    assert(order[k] == old_order[k]);
                } else if k > pos {
                    assert(order[k] == old_order[k - 1]);
                }
            }
            assert forall|k: int, l: int| 0 <= k < l < out@.len() implies order[k] != order[l] by {
                if k < pos && l > pos {
                    assert(order[l] == old_order[l - 1]);
                } else if k > pos {
                    assert(order[l] == old_order[l - 1]);
                    assert(order[k] == old_order[k - 1]);
                } else if k == pos {
                    assert(order[l] == old_order[l - 1]);
                } else if l == pos {
                    assert(old_order[k] < taken);
                }
            }
            assert(rest@ =~= input.subrange(out@.len() as int, n as int));
        }
    }
    assert(is_permutation(order, input.len() as int));
    out
}

// ---------------------------------------------------------------------------
// Plates archive
// ---------------------------------------------------------------------------

/// One file of a plates archive, placed relative to `ChartData/Plates`.
#[derive(Debug, Clone)]
pub struct Member {
    /// Index into the zip's central directory.
    pub index: usize,
    /// Destination relative to `ChartData/Plates`, segments joined by `/`.
    pub dest: String,
    pub size: u64,
}

/// A plates archive, read and placed.
#[derive(Debug, Clone)]
pub struct Archive {
    pub path: String,
    pub members: Vec<Member>,
    pub total_bytes: u64,
    pub cycle: Option<Cycle>,
    /// A single folder wrapping every entry, once `ChartData`/`Plates` are gone.
    pub wrapper: Option<String>,
    /// Entries skipped as archive litter.
    pub junk_skipped: usize,
}

/// One entry of a zip's central directory, as read off the archive.
#[derive(Debug, Clone)]
pub struct ZipEntry {
    pub index: usize,
    pub name: String,
    pub is_dir: bool,
    pub size: u64,
}

/// Why an archive cannot be used.
#[derive(Debug, Clone, Copy, PartialEq, Eq, Structural)]
pub enum ArchiveError {
    /// An entry has an absolute path or a `..` segment.
    UnsafePaths,
    /// Nothing but folders and litter.
    NoPlates,
}

impl ArchiveError {
    pub fn message(&self) -> (r: String)
        ensures
            r@ == spec_archive_error_message(*self),
    {
        match self {
            ArchiveError::UnsafePaths => {
                let r = String::from_str("contains unsafe file paths");
                proof {
                    reveal_strlit("contains unsafe file paths");
                }
                r
            },
            ArchiveError::NoPlates => {
                let r = String::from_str("this archive contains no plate files");
                proof {
                    reveal_strlit("this archive contains no plate files");
                }
                r
            },
        }
    }
}

pub open spec fn spec_archive_error_message(e: ArchiveError) -> Seq<char> {
    match e {
        ArchiveError::UnsafePaths => "contains unsafe file paths"@,
        ArchiveError::NoPlates => "this archive contains no plate files"@,
    }
}

/// A zip entry name with `\` read as `/`.
pub open spec fn slashed(name: Seq<char>) -> Seq<char> {
    name.map_values(|c: char| if c == '\\' { '/' } else { c })
}

/// The next `/` at or after `i`, or the end.
pub open spec fn next_slash(s: Seq<char>, i: int) -> int
    decreases s.len() - i,
{
    if 0 <= i < s.len() && s[i] != '/' {
        next_slash(s, i + 1)
    } else {
        i
    }
}

/// The segments of `s[i..]` split at `/`, empty and `.` segments dropped;
/// `None` when a segment is `..`.
pub open spec fn parts_from(s: Seq<char>, i: int) -> Option<Seq<Seq<char>>>
    decreases s.len() - i,
{
    if i < 0 || i > s.len() {
        Some(Seq::empty())
    } else {
        let j = next_slash(s, i);
        let seg = s.subrange(i, j);
        let rest = if i <= j < s.len() {
            parts_from(s, j + 1)
        } else {
            Some(Seq::empty())
        };
        if seg == seq!['.', '.'] {
            None
        } else if seg.len() == 0 || seg == seq!['.'] {
            rest
        } else {
            match rest {
                Some(r) => Some(seq![seg] + r),
                None => None,
            }
        }
    }
}

/// The path segments of a zip entry name, or `None` when it is unsafe:
/// absolute, or climbing out with `..`.
pub open spec fn entry_parts(name: Seq<char>) -> Option<Seq<Seq<char>>> {
    let s = slashed(name);
    if s.len() > 0 && s[0] == '/' {
        None
    } else {
        parts_from(s, 0)
    }
}

/// Archive litter: anything under `__MACOSX`, and `.DS_Store`, `Thumbs.db`,
/// `desktop.ini` (in any case) or `._` files.
pub open spec fn spec_is_junk(parts: Seq<Seq<char>>) -> bool {
    if parts.len() == 0 {
        true
    } else {
        let last = parts.last();
        ||| exists|k: int| 0 <= k < parts.len() && parts[k] == "__MACOSX"@
        ||| lower_seq(last) == ".ds_store"@
        ||| lower_seq(last) == "thumbs.db"@
        ||| lower_seq(last) == "desktop.ini"@
        ||| has_prefix(last, seq!['.', '_'])
    }
}

/// A kept archive file on its way to becoming a member.
pub struct Placed {
    pub index: usize,
    pub parts: Seq<Seq<char>>,
    pub size: u64,
}

/// How the entries before `k` were sorted out: the kept files and the count of
/// litter, or `None` once an unsafe entry was met.
pub open spec fn placed_upto(entries: Seq<ZipEntry>, k: int) -> Option<(Seq<Placed>, nat)>
    decreases k,
{
    if k <= 0 || k > entries.len() {
        Some((Seq::empty(), 0))
    } else {
        match placed_upto(entries, k - 1) {
            None => None,
            Some((kept, junk)) => {
                let e = entries[k - 1];
                if e.is_dir {
                    Some((kept, junk))
                } else {
                    match entry_parts(e.name@) {
                        None => None,
                        Some(parts) => if parts.len() == 0 {
                            Some((kept, junk))
                        } else if spec_is_junk(parts) {
                            Some((kept, junk + 1))
                        } else {
                            Some((kept.push(Placed { index: e.index, parts, size: e.size }), junk))
                        },
                    }
                }
            },
        }
    }
}

pub open spec fn spec_placed(entries: Seq<ZipEntry>) -> Option<(Seq<Placed>, nat)> {
    placed_upto(entries, entries.len() as int)
}

/// The first kept file, at or after `k`, that sits in a folder.
pub open spec fn first_nested(kept: Seq<Placed>, k: int) -> Option<int>
    decreases kept.len() - k,
{
    if k < 0 || k >= kept.len() {
        None
    } else if kept[k].parts.len() > 1 {
        Some(k)
    } else {
        first_nested(kept, k + 1)
    }
}

/// The first segment shared by every file that sits in a folder, if they all
/// share one.
pub open spec fn common_head(kept: Seq<Placed>) -> Option<Seq<char>> {
    match first_nested(kept, 0) {
        None => None,
        Some(f) => if forall|k: int|
            0 <= k < kept.len() && #[trigger] kept[k].parts.len() > 1 ==> kept[k].parts[0]
                == kept[f].parts[0] {
            Some(kept[f].parts[0])
        } else {
            None
        },
    }
}

pub open spec fn no_loose_file(kept: Seq<Placed>) -> bool {
    forall|k: int| 0 <= k < kept.len() ==> #[trigger] kept[k].parts.len() >= 2
}

pub open spec fn is_layout_folder(h: Seq<char>) -> bool {
    lower_seq(h) == "chartdata"@ || lower_seq(h) == "plates"@
}

pub open spec fn drop_head(kept: Seq<Placed>) -> Seq<Placed> {
    kept.map_values(|p: Placed| Placed { index: p.index, parts: p.parts.drop_first(), size: p.size })
}

/// Strip a wrapping `ChartData/` and/or `Plates/`, one level at a time, while
/// every file sits under the same such folder.
pub open spec fn strip_layout(kept: Seq<Placed>) -> Seq<Placed>
    decreases (if kept.len() > 0 { kept[0].parts.len() } else { 0 }),
{
    if kept.len() > 0 && no_loose_file(kept) && (common_head(kept) matches Some(h)
        && is_layout_folder(h)) {
        strip_layout(drop_head(kept))
    } else {
        kept
    }
}

pub open spec fn spec_wrapper(kept: Seq<Placed>) -> Option<Seq<char>> {
    if no_loose_file(kept) {
        common_head(kept)
    } else {
        None
    }
}

pub open spec fn join_parts(parts: Seq<Seq<char>>) -> Seq<char>
    decreases parts.len(),
{
    if parts.len() == 0 {
        Seq::empty()
    } else if parts.len() == 1 {
        parts[0]
    } else {
        join_parts(parts.drop_last()) + seq!['/'] + parts.last()
    }
}

pub open spec fn total_size(kept: Seq<Placed>) -> nat
    decreases kept.len(),
{
    if kept.len() == 0 {
        0
    } else {
        total_size(kept.drop_last()) + kept.last().size as nat
    }
}

pub open spec fn member_is(m: Member, p: Placed) -> bool {
    m.index == p.index && m.dest@ == join_parts(p.parts) && m.size == p.size
}

/// What reading an archive's directory comes to.
pub open spec fn archive_outcome(path: Seq<char>, entries: Seq<ZipEntry>, a: Result<Archive, ArchiveError>) -> bool {
    match spec_placed(entries) {
        None => a == Err::<Archive, ArchiveError>(ArchiveError::UnsafePaths),
        Some((kept, junk)) => if kept.len() == 0 {
            a == Err::<Archive, ArchiveError>(ArchiveError::NoPlates)
        } else {
            let placed = strip_layout(kept);
            a matches Ok(arch) && {
                &&& arch.path@ == path
                &&& arch.members@.len() == placed.len()
                &&& forall|k: int| 0 <= k < placed.len() ==> member_is(#[trigger] arch.members@[k], placed[k])
                &&& arch.total_bytes == total_size(placed)
                &&& arch.cycle == (match file_name(path) {
                    Some(n) => spec_parse_cycle(n),
                    None => None,
                })
                &&& (match spec_wrapper(placed) {
                    Some(w) => arch.wrapper matches Some(x) && x@ == w,
                    None => arch.wrapper is None,
                })
                &&& arch.junk_skipped == junk
            }
        },
    }
}

pub open spec fn parts_view(v: Seq<Vec<char>>) -> Seq<Seq<char>> {
    v.map_values(|x: Vec<char>| x@)
}

pub open spec fn prepend_parts(acc: Seq<Seq<char>>, rest: Option<Seq<Seq<char>>>) -> Option<Seq<Seq<char>>> {
    match rest {
        Some(r) => Some(acc + r),
        None => None,
    }
}

proof fn lemma_next_slash(s: Seq<char>, i: int)
    requires
        0 <= i <= s.len(),
    ensures
        i <= next_slash(s, i) <= s.len(),
        forall|k: int| i <= k < next_slash(s, i) ==> s[k] != '/',
        next_slash(s, i) < s.len() ==> s[next_slash(s, i)] == '/',
    decreases s.len() - i,
{
    if i < s.len() && s[i] != '/' {
        lemma_next_slash(s, i + 1);
    }
}

fn chars_between(s: &Vec<char>, lo: usize, hi: usize) -> (r: Vec<char>)
    requires
        lo <= hi <= s@.len(),
    ensures
        r@ == s@.subrange(lo as int, hi as int),
{
    let mut v: Vec<char> = Vec::new();
    let mut i = lo;
    while i < hi
        invariant
            lo <= i <= hi <= s@.len(),
            v@ == s@.subrange(lo as int, i as int),
        decreases hi - i,
    {
        v.push(s[i]);
        i += 1;
        assert(v@ =~= s@.subrange(lo as int, i as int));
    }
    v
}

/// The segments of a zip entry name, or `None` when the name is unsafe.
fn split_entry_name(name: &str) -> (r: Option<Vec<Vec<char>>>)
    ensures
        r matches Some(v) ==> entry_parts(name@) == Some(parts_view(v@)),
        r is None ==> entry_parts(name@) is None,
{
    let raw = chars_of(name);
    let mut s: Vec<char> = Vec::new();
    let mut i: usize = 0;
    while i < raw.len()
        invariant
            i <= raw@.len(),
            s@ == slashed(raw@.take(i as int)),
        decreases raw.len() - i,
    {
        let c = raw[i];
        if c == '\\' {
            s.push('/');
        } else {
            s.push(c);
        }
        i += 1;
        assert(s@ =~= slashed(raw@.take(i as int)));
    }
    assert(raw@.take(raw@.len() as int) =~= raw@);
    if s.len() > 0 && s[0] == '/' {
        return None;
    }
    let ghost sv = s@;
    let mut acc: Vec<Vec<char>> = Vec::new();
    let mut i: usize = 0;
    loop
        invariant
            sv == s@,
            sv == slashed(name@),
            !(sv.len() > 0 && sv[0] == '/'),
            i <= s@.len(),
            parts_from(sv, 0) == prepend_parts(parts_view(acc@), parts_from(sv, i as int)),
        decreases s@.len() - i,
    {
        let mut j = i;
        proof {
            lemma_next_slash(sv, i as int);
        }
        while j < s.len() && s[j] != '/'
            invariant
                i <= j <= s@.len(),
                sv == s@,
                next_slash(sv, j as int) == next_slash(sv, i as int),
            decreases s.len() - j,
        {
            j += 1;
        }
        let seg = chars_between(&s, i, j);
        let ghost rest = if i <= j < sv.len() {
            parts_from(sv, j + 1)
        } else {
            Some(Seq::<Seq<char>>::empty())
        };
        assert(parts_from(sv, i as int) == (if seg@ == seq!['.', '.'] {
            None
        } else if seg@.len() == 0 || seg@ == seq!['.'] {
            rest
        } else {
            match rest {
                Some(r) => Some(seq![seg@] + r),
                None => None,
            }
        }));
        let is_dotdot = seg.len() == 2 && seg[0] == '.' && seg[1] == '.';
        let is_dot = seg.len() == 1 && seg[0] == '.';
        assert(is_dotdot == (seg@ == seq!['.', '.'])) by {
            if seg@ == seq!['.', '.'] {
                assert(seg@[0] == '.' && seg@[1] == '.');
            }
            if is_dotdot {
                assert(seg@ =~= seq!['.', '.']);
            }
        }
        assert(is_dot == (seg@ == seq!['.'])) by {
            if seg@ == seq!['.'] {
                assert(seg@[0] == '.');
            }
            if is_dot {
                assert(seg@ =~= seq!['.']);
            }
        }
        if is_dotdot {
            return None;
        }
        if !(seg.len() == 0 || is_dot) {
            let ghost before = parts_view(acc@);
            acc.push(seg);
            assert(parts_view(acc@) =~= before.push(seg@));
            proof {
                match rest {
                    Some(r) => {
                        assert(before + (seq![seg@] + r) =~= before.push(seg@) + r);
                    },
                    None => {},
                }
            }
        }
        if j >= s.len() {
            assert(parts_view(acc@) + Seq::<Seq<char>>::empty() =~= parts_view(acc@));
            return Some(acc);
        }
        i = j + 1;
    }
}

fn equals_literal(v: &[char], lit: &str) -> (r: bool)
    ensures
        r == (v@ == lit@),
{
    let l = chars_of(lit);
    same(v, &l)
}

fn is_junk(parts: &Vec<Vec<char>>) -> (r: bool)
    ensures
        r == spec_is_junk(parts_view(parts@)),
{
    let ghost pv = parts_view(parts@);
    if parts.len() == 0 {
        return true;
    }
    let mut k: usize = 0;
    while k < parts.len()
        invariant
            k <= parts@.len(),
            pv == parts_view(parts@),
            forall|j: int| 0 <= j < k ==> pv[j] != "__MACOSX"@,
        decreases parts.len() - k,
    {
        if equals_literal(&parts[k], "__MACOSX") {
            assert(pv[k as int] == parts@[k as int]@);
            return true;
        }
        k += 1;
    }
    let last = &parts[parts.len() - 1];
    assert(pv.last() == last@);
    let lower = lowercase(last);
    let dot_ = ['.', '_'];
    assert(dot_@ =~= seq!['.', '_']);
    equals_literal(&lower, ".ds_store") || equals_literal(&lower, "thumbs.db") || equals_literal(
        &lower,
        "desktop.ini",
    ) || starts_with(last, &dot_)
}

struct PlacedFile {
    index: usize,
    parts: Vec<Vec<char>>,
    size: u64,
}

spec fn placed_view(p: PlacedFile) -> Placed {
    Placed { index: p.index, parts: parts_view(p.parts@), size: p.size }
}

spec fn placed_seq(v: Seq<PlacedFile>) -> Seq<Placed> {
    v.map_values(|p: PlacedFile| placed_view(p))
}

/// Sort the entries of an archive directory into kept files and litter.
fn place_entries(entries: &[ZipEntry]) -> (r: Result<(Vec<PlacedFile>, usize), ArchiveError>)
    ensures
        match spec_placed(entries@) {
            None => r == Err::<(Vec<PlacedFile>, usize), ArchiveError>(ArchiveError::UnsafePaths),
            Some((kept, junk)) => r matches Ok((v, j)) && placed_seq(v@) == kept && j == junk,
        },
{
    let mut kept: Vec<PlacedFile> = Vec::new();
    let mut junk: usize = 0;
    let mut k: usize = 0;
    while k < entries.len()
        invariant
            k <= entries@.len(),
            placed_upto(entries@, k as int) == Some((placed_seq(kept@), junk as nat)),
            junk <= k,
        decreases entries.len() - k,
    {
        let e = &entries[k];
        if !e.is_dir {
            match split_entry_name(&e.name) {
                None => {
                    assert(placed_upto(entries@, k + 1) is None);
                    assert forall|m: int| k + 1 <= m <= entries@.len() implies placed_upto(entries@, m) is None by {
                        lemma_placed_stays_none(entries@, k + 1, m);
                    }
                    return Err(ArchiveError::UnsafePaths);
                },
                Some(parts) => {
                    if parts.len() == 0 {
                    } else if is_junk(&parts) {
                        junk += 1;
                    } else {
                        let ghost before = placed_seq(kept@);
                        let p = PlacedFile { index: e.index, parts, size: e.size };
                        kept.push(p);
                        assert(placed_seq(kept@) =~= before.push(placed_view(p)));
                    }
                },
            }
        }
        k += 1;
    }
    Ok((kept, junk))
}

proof fn lemma_placed_stays_none(entries: Seq<ZipEntry>, k: int, m: int)
    requires
        0 < k <= m <= entries.len(),
        placed_upto(entries, k) is None,
    ensures
        placed_upto(entries, m) is None,
    decreases m - k,
{
    if m > k {
        lemma_placed_stays_none(entries, k, m - 1);
    }
}

fn all_in_folders(kept: &Vec<PlacedFile>) -> (r: bool)
    ensures
        r == no_loose_file(placed_seq(kept@)),
{
    let mut k: usize = 0;
    while k < kept.len()
        invariant
            k <= kept@.len(),
            forall|j: int| 0 <= j < k ==> placed_seq(kept@)[j].parts.len() >= 2,
        decreases kept.len() - k,
    {
        if kept[k].parts.len() < 2 {
            assert(placed_seq(kept@)[k as int].parts.len() < 2);
            return false;
        }
        k += 1;
    }
    true
}

/// Index of the file whose first segment every nested file shares.
fn common_head_index(kept: &Vec<PlacedFile>) -> (r: Option<usize>)
    ensures
        r matches Some(f) ==> f < kept@.len() && placed_seq(kept@)[f as int].parts.len() > 1
            && common_head(placed_seq(kept@)) == Some(placed_seq(kept@)[f as int].parts[0]),
        r is None ==> common_head(placed_seq(kept@)) is None,
{
    let ghost ks = placed_seq(kept@);
    let mut f: usize = 0;
    while f < kept.len() && kept[f].parts.len() <= 1
        invariant
            f <= kept@.len(),
            ks == placed_seq(kept@),
            first_nested(ks, f as int) == first_nested(ks, 0),
        decreases kept.len() - f,
    {
        f += 1;
    }
    if f == kept.len() {
        return None;
    }
    assert(first_nested(ks, 0) == Some(f as int));
    let head = &kept[f].parts[0];
    assert(ks[f as int].parts[0] == head@);
    let mut k: usize = 0;
    while k < kept.len()
        invariant
            k <= kept@.len(),
            f < kept@.len(),
            ks == placed_seq(kept@),
            first_nested(ks, 0) == Some(f as int),
            head@ == ks[f as int].parts[0],
            forall|j: int| 0 <= j < k && #[trigger] ks[j].parts.len() > 1 ==> ks[j].parts[0] == head@,
        decreases kept.len() - k,
    {
        if kept[k].parts.len() > 1 {
            assert(ks[k as int].parts[0] == kept@[k as int].parts@[0]@);
            if !same(&kept[k].parts[0], head) {
                assert(ks[k as int].parts.len() > 1);
                return None;
            }
        }
        k += 1;
    }
    Some(f)
}

fn is_layout_name(h: &Vec<char>) -> (r: bool)
    ensures
        r == is_layout_folder(h@),
{
    let lower = lowercase(h);
    equals_literal(&lower, "chartdata") || equals_literal(&lower, "plates")
}

/// Remove a wrapping `ChartData/` and/or `Plates/` level by level.
fn strip_layout_folders(kept: Vec<PlacedFile>) -> (r: Vec<PlacedFile>)
    requires
        kept@.len() > 0,
    ensures
        placed_seq(r@) == strip_layout(placed_seq(kept@)),
{
    let ghost target = strip_layout(placed_seq(kept@));
    let mut cur = kept;
    loop
        invariant
            cur@.len() > 0,
            strip_layout(placed_seq(cur@)) == target,
            target == strip_layout(placed_seq(kept@)),
        decreases cur@[0].parts@.len(),
    {
        let ghost cs = placed_seq(cur@);
        if !all_in_folders(&cur) {
            assert(strip_layout(cs) == cs);
            return cur;
        }
        let f = match common_head_index(&cur) {
            None => {
                assert(strip_layout(cs) == cs);
                return cur;
            },
            Some(f) => f,
        };
        if !is_layout_name(&cur[f].parts[0]) {
            assert(strip_layout(cs) == cs);
            return cur;
        }
        assert(strip_layout(cs) == strip_layout(drop_head(cs)));
        let ghost first_len = cur@[0].parts@.len();
        let n = cur.len();
        let mut next: Vec<PlacedFile> = Vec::new();
        while cur.len() > 0
            invariant
                cs.len() == n,
                next@.len() + cur@.len() == n,
                no_loose_file(cs),
                forall|j: int| 0 <= j < next@.len() ==> #[trigger] placed_seq(next@)[j] == drop_head(cs)[j],
                forall|j: int| 0 <= j < cur@.len() ==> #[trigger] placed_seq(cur@)[j] == cs[j + next@.len()],
            decreases cur.len(),
        {
            let ghost done = next@.len() as int;
            let ghost old_cur = cur@;
            let ghost old_next = next@;
            assert(placed_seq(cur@)[0] == cs[done]);
            let mut p = cur.remove(0);
            assert(placed_view(p) == cs[done]);
            assert(p.parts@.len() >= 2) by {
                assert(cs[done].parts.len() >= 2);
            }
            let ghost old_parts = parts_view(p.parts@);
            p.parts.remove(0);
            assert(parts_view(p.parts@) =~= old_parts.drop_first());
            assert(placed_view(p) == drop_head(cs)[done]);
            next.push(p);
            assert forall|j: int| 0 <= j < next@.len() implies #[trigger] placed_seq(next@)[j] == drop_head(cs)[j] by {
                if j < done {
                    assert(next@[j] == old_next[j]);
                    assert(placed_seq(old_next)[j] == drop_head(cs)[j]);
                }
            }
            assert forall|j: int| 0 <= j < cur@.len() implies #[trigger] placed_seq(cur@)[j] == cs[j + next@.len()] by {
                assert(cur@[j] == old_cur[j + 1]);
                assert(placed_seq(old_cur)[j + 1] == cs[j + 1 + done]);
            }
        }
        assert(placed_seq(next@) =~= drop_head(cs));
        assert(next@[0].parts@.len() < first_len);
        cur = next;
    }
}

fn join_segments(parts: &Vec<Vec<char>>) -> (r: String)
    ensures
        r@ == join_parts(parts_view(parts@)),
{
    let ghost pv = parts_view(parts@);
    let mut v: Vec<char> = Vec::new();
    let mut k: usize = 0;
    while k < parts.len()
        invariant
            k <= parts@.len(),
            pv == parts_view(parts@),
            v@ == join_parts(pv.take(k as int)),
        decreases parts.len() - k,
    {
        let ghost before = v@;
        if k > 0 {
            v.push('/');
        }
        let seg = &parts[k];
        let mut i: usize = 0;
        let ghost mid = v@;
        while i < seg.len()
            invariant
                i <= seg@.len(),
                v@ == mid + seg@.take(i as int),
            decreases seg.len() - i,
        {
            v.push(seg[i]);
            i += 1;
            assert(v@ =~= mid + seg@.take(i as int));
        }
        assert(seg@.take(seg@.len() as int) =~= seg@);
        assert(pv[k as int] == seg@);
        proof {
            let t = pv.take(k + 1);
            assert(t.drop_last() =~= pv.take(k as int));
            if k == 0 {
                assert(before.len() == 0);
                assert(v@ =~= seg@);
            } else {
                assert(v@ =~= before + seq!['/'] + seg@);
            }
        }
        k += 1;
    }
    assert(pv.take(parts@.len() as int) =~= pv);
    string_from(v)
}

fn head_string(kept: &Vec<PlacedFile>, f: usize) -> (r: String)
    requires
        f < kept@.len(),
        kept@[f as int].parts@.len() > 0,
    ensures
        r@ == placed_seq(kept@)[f as int].parts[0],
{
    let h = &kept[f].parts[0];
    slice_to_string(h, 0, h.len())
}

/// Whether the files kept from an archive directory have a total size that
/// fits in 64 bits, so that the archive's size can be summed.
pub open spec fn archive_sizes_fit(entries: Seq<ZipEntry>) -> bool {
    spec_placed(entries) matches Some((kept, _)) ==> total_size(strip_layout(kept)) <= u64::MAX
}

proof fn lemma_total_size_prefix(kept: Seq<Placed>, k: int)
    requires
        0 <= k <= kept.len(),
    ensures
        total_size(kept.take(k)) <= total_size(kept),
    decreases kept.len() - k,
{
    if k < kept.len() {
        lemma_total_size_prefix(kept, k + 1);
        assert(kept.take(k + 1).drop_last() =~= kept.take(k));
    } else {
        assert(kept.take(k) =~= kept);
    }
}

/// Work out where each file of a plates archive belongs, from the archive's
/// directory: reject absolute or `..` entries outright, drop archive litter,
/// strip a wrapping `ChartData/` and/or `Plates/`, and report a remaining
/// single wrapping folder without removing it.
pub fn archive_from_entries(path: &str, entries: &[ZipEntry]) -> (r: Result<Archive, ArchiveError>)
    requires
        archive_sizes_fit(entries@),
    ensures
        archive_outcome(path@, entries@, r),
{
    let (kept, junk) = match place_entries(entries) {
        Err(e) => {
            return Err(e);
        },
        Ok(x) => x,
    };
    if kept.len() == 0 {
        return Err(ArchiveError::NoPlates);
    }
    let ghost ks = placed_seq(kept@);
    let placed = strip_layout_folders(kept);
    let ghost ps = placed_seq(placed@);
    let wrapper = if all_in_folders(&placed) {
        match common_head_index(&placed) {
            Some(f) => Some(head_string(&placed, f)),
            None => None,
        }
    } else {
        None
    };
    let mut members: Vec<Member> = Vec::new();
    let mut total: u64 = 0;
    let mut k: usize = 0;
    while k < placed.len()
        invariant
            k <= placed@.len(),
            ps == placed_seq(placed@),
            total_size(ps) <= u64::MAX,
            members@.len() == k,
            total == total_size(ps.take(k as int)),
            forall|j: int| 0 <= j < k ==> member_is(#[trigger] members@[j], ps[j]),
        decreases placed.len() - k,
    {
        let p = &placed[k];
        let dest = join_segments(&p.parts);
        proof {
            assert(ps.take(k + 1).drop_last() =~= ps.take(k as int));
            lemma_total_size_prefix(ps, k + 1);
        }
        total = total + p.size;
        members.push(Member { index: p.index, dest, size: p.size });
        k += 1;
    }
    assert(ps.take(placed@.len() as int) =~= ps);
    let cycle = match file_name_chars(path) {
        Some(n) => parse_cycle_chars(&n),
        None => None,
    };
    let pc = chars_of(path);
    let p = slice_to_string(&pc, 0, pc.len());
    assert(pc@.subrange(0, pc@.len() as int) =~= path@);
    let arch = Archive { path: p, members, total_bytes: total, cycle, wrapper, junk_skipped: junk };
    Ok(arch)
}

/// Checks, ahead of `archive_from_entries`, that the kept files' sizes add up
/// within 64 bits.
pub fn archive_sizes_fit_in(entries: &[ZipEntry]) -> (r: bool)
    ensures
        r == archive_sizes_fit(entries@),
{
    let (kept, _junk) = match place_entries(entries) {
        Err(_) => {
            return true;
        },
        Ok(x) => x,
    };
    if kept.len() == 0 {
        assert(strip_layout(placed_seq(kept@)) =~= placed_seq(kept@));
        assert(total_size(placed_seq(kept@)) == 0);
        return true;
    }
    let placed = strip_layout_folders(kept);
    let ghost ps = placed_seq(placed@);
    let mut total: u64 = 0;
    let mut k: usize = 0;
    while k < placed.len()
        invariant
            k <= placed@.len(),
            ps == placed_seq(placed@),
            spec_placed(entries@) matches Some((kk, _)) && ps == strip_layout(kk),
            total == total_size(ps.take(k as int)),
        decreases placed.len() - k,
    {
        proof {
            assert(ps.take(k + 1).drop_last() =~= ps.take(k as int));
        }
        match total.checked_add(placed[k].size) {
            Some(t) => {
                total = t;
            },
            None => {
                proof {
                    lemma_total_size_prefix(ps, k + 1);
                }
                return false;
            },
        }
        k += 1;
    }
    assert(ps.take(placed@.len() as int) =~= ps);
    true
}

/// The front of `p[i..]` once separators and `.` segments are skipped.
pub open spec fn trim_front(p: Seq<char>, i: int) -> int
    decreases p.len() - i,
{
    if 0 <= i < p.len() && (p[i] == '/' || (p[i] == '.' && (i + 1 == p.len() || p[i + 1] == '/'))) {
        trim_front(p, i + 1)
    } else {
        i
    }
}

/// The end of `p[lo..j]` once trailing separators and `.` segments are dropped.
pub open spec fn trim_back(p: Seq<char>, lo: int, j: int) -> int
    decreases j - lo,
{
    if lo < j <= p.len() && (p[j - 1] == '/' || (p[j - 1] == '.' && (j - 1 == lo || p[j - 2]
        == '/'))) {
        trim_back(p, lo, j - 1)
    } else {
        j
    }
}

/// A destination with its first component removed, as
/// `Path::components` followed by `as_path` leaves it.
pub open spec fn without_first_component(d: Seq<char>) -> Seq<char> {
    let a = trim_front(d, next_slash(d, 0));
    d.subrange(a, trim_back(d, a, d.len() as int))
}

proof fn lemma_trim_front(p: Seq<char>, i: int)
    requires
        0 <= i <= p.len(),
    ensures
        i <= trim_front(p, i) <= p.len(),
    decreases p.len() - i,
{
    if i < p.len() && (p[i] == '/' || (p[i] == '.' && (i + 1 == p.len() || p[i + 1] == '/'))) {
        lemma_trim_front(p, i + 1);
    }
}

proof fn lemma_trim_back(p: Seq<char>, lo: int, j: int)
    requires
        0 <= lo <= j <= p.len(),
    ensures
        lo <= trim_back(p, lo, j) <= j,
    decreases j - lo,
{
    if lo < j && (p[j - 1] == '/' || (p[j - 1] == '.' && (j - 1 == lo || p[j - 2] == '/'))) {
        lemma_trim_back(p, lo, j - 1);
    }
}

fn strip_first_component(dest: &String) -> (r: String)
    ensures
        r@ == without_first_component(dest@),
{
    let d = chars_of(dest.as_str());
    let mut k: usize = 0;
    proof {
        lemma_next_slash(d@, 0);
    }
    while k < d.len() && d[k] != '/'
        invariant
            k <= d@.len(),
            next_slash(d@, k as int) == next_slash(d@, 0),
        decreases d.len() - k,
    {
        k += 1;
    }
    let mut a = k;
    proof {
        lemma_trim_front(d@, k as int);
    }
    while a < d.len() && (d[a] == '/' || (d[a] == '.' && (a + 1 == d.len() || d[a + 1] == '/')))
        invariant
            k <= a <= d@.len(),
            trim_front(d@, a as int) == trim_front(d@, k as int),
        decreases d.len() - a,
    {
        a += 1;
    }
    let mut b = d.len();
    proof {
        lemma_trim_back(d@, a as int, b as int);
    }
    while a < b && (d[b - 1] == '/' || (d[b - 1] == '.' && (b - 1 == a || d[b - 2] == '/')))
        invariant
            a <= b <= d@.len(),
            trim_back(d@, a as int, b as int) == trim_back(d@, a as int, d@.len() as int),
        decreases b - a,
    {
        b -= 1;
    }
    slice_to_string(&d, a, b)
}

impl Member {
    pub fn duplicate(&self) -> (r: Member)
        ensures
            r == *self,
    {
        Member { index: self.index, dest: self.dest.clone(), size: self.size }
    }
}

impl Archive {
    pub fn name(&self) -> (r: String)
        ensures
            r@ == name_or_empty(self.path@),
    {
        path_file_name(&self.path)
    }

    /// Members with the wrapping folder removed, when asked for and there is one.
    pub fn members_stripped(&self, strip_wrapper: bool) -> (r: Vec<Member>)
        ensures
            r@.len() == self.members@.len(),
            forall|k: int|
                0 <= k < r@.len() ==> {
                    let m = #[trigger] r@[k];
                    let o = self.members@[k];
                    &&& m.index == o.index
                    &&& m.size == o.size
                    &&& m.dest@ == (if strip_wrapper && self.wrapper is Some {
                        without_first_component(o.dest@)
                    } else {
                        o.dest@
                    })
                },
    {
        let strip = strip_wrapper && self.wrapper.is_some();
        let mut out: Vec<Member> = Vec::new();
        let mut k: usize = 0;
        while k < self.members.len()
            invariant
                k <= self.members@.len(),
                strip == (strip_wrapper && self.wrapper is Some),
                out@.len() == k,
                forall|j: int|
                    0 <= j < k ==> {
                        let m = #[trigger] out@[j];
                        let o = self.members@[j];
                        &&& m.index == o.index
                        &&& m.size == o.size
                        &&& m.dest@ == (if strip {
                            without_first_component(o.dest@)
                        } else {
                            o.dest@
                        })
                    },
            decreases self.members.len() - k,
        {
            let m = &self.members[k];
            let dest = if strip {
                strip_first_component(&m.dest)
            } else {
                m.dest.clone()
            };
            out.push(Member { index: m.index, dest, size: m.size });
            k += 1;
        }
        out
    }
}

// ---------------------------------------------------------------------------
// Looking for databases in a folder tree
// ---------------------------------------------------------------------------

/// One entry of a folder, as read off the disk.
#[derive(Debug, Clone)]
pub struct WalkEntry {
    pub path: String,
    pub is_dir: bool,
    pub size: u64,
    /// Modification time, nanoseconds from the Unix epoch.
    pub modified: i128,
}

/// A folder being looked through: its entries, the next one to look at, and
/// how many levels the walk may still go down from it.
pub struct Frame {
    pub entries: Vec<WalkEntry>,
    pub next: usize,
    pub depth_left: usize,
}

/// A walk through a folder tree for `.dup` files, depth first, each folder's
/// entries in the order they were read. The caller reads the folders the
/// walk asks for.
pub struct DupScan {
    pub frames: Vec<Frame>,
    pub found: Vec<DupFile>,
}

/// What the walk wants next.
pub enum ScanStep {
    /// Read this folder, and `enter` its entries with this depth budget.
    Read(String, usize),
    /// Nothing to read; ask again.
    Continue,
    /// The walk is over.
    Done,
}

pub open spec fn hidden(name: Seq<char>) -> bool {
    name.len() > 0 && name[0] == '.'
}

/// `f` describes the database file `e`, from its name.
pub open spec fn dup_file_of(f: DupFile, e: WalkEntry) -> bool {
    let name = name_or_empty(e.path@);
    &&& f.path@ == e.path@
    &&& f.kind == spec_classify(name)
    &&& f.cycle == spec_parse_cycle(name)
    &&& match spec_parse_entitlement(name) {
        Some(id) => f.entitlement matches Some(x) && x@ == id,
        None => f.entitlement is None,
    }
    &&& f.size == e.size
    &&& f.modified == e.modified
}

/// A file worth reporting: visible, and named `.dup` in any case.
pub open spec fn is_dup_entry(e: WalkEntry) -> bool {
    let name = name_or_empty(e.path@);
    !e.is_dir && !hidden(name) && has_suffix(lower_seq(name), ".dup"@)
}

/// `f` describes a visible `.dup` file, from its own name.
pub open spec fn describes_dup_file(f: DupFile) -> bool {
    exists|e: WalkEntry| #[trigger] dup_file_of(f, e) && is_dup_entry(e)
}

/// Every file found is a visible `.dup` file, described by its own name.
pub open spec fn found_ok(found: Seq<DupFile>) -> bool {
    forall|i: int| 0 <= i < found.len() ==> #[trigger] describes_dup_file(found[i])
}

impl DupScan {
    pub open spec fn wf(self) -> bool {
        &&& found_ok(self.found@)
        &&& forall|i: int|
            0 <= i < self.frames@.len() ==> #[trigger] self.frames@[i].next
                <= self.frames@[i].entries@.len()
    }

    pub fn new() -> (r: DupScan)
        ensures
            r.frames@.len() == 0,
            r.found@.len() == 0,
            r.wf(),
    {
        DupScan { frames: Vec::new(), found: Vec::new() }
    }

    /// The entries of the folder last asked for (or of the starting folder)
    /// have been read.
    pub fn enter(&mut self, entries: Vec<WalkEntry>, depth_left: usize)
        requires
            old(self).wf(),
        ensures
            final(self).found == old(self).found,
            final(self).frames@ == old(self).frames@.push(
                Frame { entries, next: 0, depth_left },
            ),
            final(self).wf(),
    {
        self.frames.push(Frame { entries, next: 0, depth_left });
        assert(self.frames@.last().next == 0);
    }

    /// Look at one more entry. A hidden entry is passed over; a folder is to
    /// be read when the walk may go one level further down from here; a
    /// `.dup` file is recorded; a folder whose entries are used up is left.
    pub fn next(&mut self) -> (r: ScanStep)
        requires
            old(self).wf(),
        ensures
            final(self).wf(),
            ({
                let fs = old(self).frames@;
                if fs.len() == 0 {
                    r is Done && *final(self) == *old(self)
                } else {
                    let top = fs.last();
                    if top.next >= top.entries@.len() {
                        r is Continue && final(self).frames@ == fs.drop_last() && final(self).found
                            == old(self).found
                    } else {
                        let e = top.entries@[top.next as int];
                        let name = name_or_empty(e.path@);
                        &&& final(self).frames@ == fs.drop_last().push(
                            Frame { next: (top.next + 1) as usize, ..top },
                        )
                        &&& if is_dup_entry(e) {
                            &&& r is Continue
                            &&& final(self).found@.len() == old(self).found@.len() + 1
                            &&& final(self).found@.drop_last() == old(self).found@
                            &&& dup_file_of(final(self).found@.last(), e)
                        } else {
                            &&& final(self).found == old(self).found
                            &&& if e.is_dir && !hidden(name) && top.depth_left > 1 {
                                r matches ScanStep::Read(p, d) && p@ == e.path@ && d
                                    == top.depth_left - 1
                            } else {
                                r is Continue
                            }
                        }
                    }
                }
            }),
    {
        if self.frames.len() == 0 {
            return ScanStep::Done;
        }
        let mut top = self.frames.pop().unwrap();
        assert forall|i: int| 0 <= i < self.frames@.len() implies #[trigger] self.frames@[i].next
            <= self.frames@[i].entries@.len() by {
            assert(self.frames@[i] == old(self).frames@[i]);
        }
        if top.next >= top.entries.len() {
            return ScanStep::Continue;
        }
        let k = top.next;
        top.next = k + 1;
        let path = top.entries[k].path.clone();
        let is_dir = top.entries[k].is_dir;
        let size = top.entries[k].size;
        let modified = top.entries[k].modified;
        let depth_left = top.depth_left;
        let ghost e = top.entries@[k as int];
        self.frames.push(top);
        assert forall|i: int| 0 <= i < self.frames@.len() implies #[trigger] self.frames@[i].next
            <= self.frames@[i].entries@.len() by {
            if i < self.frames@.len() - 1 {
                assert(self.frames@[i] == old(self).frames@[i]);
            }
        }
        let name_v = match file_name_chars(path.as_str()) {
            Some(v) => v,
            None => Vec::new(),
        };
        assert(name_v@ == name_or_empty(e.path@));
        if name_v.len() > 0 && name_v[0] == '.' {
            return ScanStep::Continue;
        }
        if is_dir {
            if depth_left > 1 {
                return ScanStep::Read(path, depth_left - 1);
            }
            return ScanStep::Continue;
        }
        let lower = lowercase(&name_v);
        if !ends_with(&lower, &['.', 'd', 'u', 'p']) {
            assert(".dup"@ =~= seq!['.', 'd', 'u', 'p']) by {
                reveal_strlit(".dup");
            }
            return ScanStep::Continue;
        }
        proof {
            reveal_strlit(".dup");
            assert(".dup"@ =~= seq!['.', 'd', 'u', 'p']);
        }
        let name = string_from(name_v);
        let f = DupFile {
            path,
            kind: classify(name.as_str()),
            cycle: parse_cycle(name.as_str()),
            entitlement: parse_entitlement(name.as_str()),
            size,
            modified,
        };
        assert(dup_file_of(f, e));
        self.found.push(f);
        assert(self.found@.drop_last() =~= old(self).found@);
        assert(describes_dup_file(f));
        assert forall|i: int| 0 <= i < self.found@.len() implies #[trigger] describes_dup_file(
            self.found@[i],
        ) by {
            if i < old(self).found@.len() {
                assert(self.found@[i] == old(self).found@[i]);
            }
        }
        ScanStep::Continue
    }

    /// The files found, newest first.
    pub fn finish(self) -> (r: Vec<DupFile>)
        requires
            self.wf(),
        ensures
            is_newest_first_of(r@, self.found@),
            found_ok(r@),
    {
        let ghost found = self.found@;
        let r = sort_newest_first(self.found);
        proof {
            lemma_newest_first_members(r@, found);
            assert forall|i: int| 0 <= i < r@.len() implies #[trigger] describes_dup_file(r@[i]) by {
                assert(in_seq(found, r@[i]));
                let j = choose|j: int| 0 <= j < found.len() && found[j] == r@[i];
                assert(describes_dup_file(found[j]));
            }
        }
        r
    }
}

/// Everything a newest-first ordering holds comes from what it orders.
pub proof fn lemma_newest_first_members(sorted: Seq<DupFile>, files: Seq<DupFile>)
    requires
        is_newest_first_of(sorted, files),
    ensures
        forall|k: int| 0 <= k < sorted.len() ==> #[trigger] in_seq(files, sorted[k]),
{
    let order = choose|order: Seq<int>|
        {
            &&& is_permutation(order, files.len() as int)
            &&& forall|k: int| 0 <= k < sorted.len() ==> #[trigger] sorted[k] == files[order[k]]
            &&& forall|k: int, l: int|
                0 <= k < l < sorted.len() ==> ranked_before(#[trigger] sorted[k], #[trigger] sorted[l])
            &&& forall|k: int, l: int|
                0 <= k < l < sorted.len() && spec_rank(sorted[k]) == spec_rank(sorted[l]) ==> order[k]
                    < order[l]
        };
    assert forall|k: int| 0 <= k < sorted.len() implies #[trigger] in_seq(files, sorted[k]) by {
        let j = order[k];
        assert(sorted[k] == files[j]);
        assert(0 <= j < files.len());
    }
}

/// `x` is one of the elements of `s`.
pub open spec fn in_seq(s: Seq<DupFile>, x: DupFile) -> bool {
    exists|j: int| 0 <= j < s.len() && s[j] == x
}

/// A file entry with an absolute path or a `..` segment.
pub open spec fn unsafe_entry(e: ZipEntry) -> bool {
    !e.is_dir && entry_parts(e.name@) is None
}

proof fn lemma_placed_unsafe(entries: Seq<ZipEntry>, k: int)
    requires
        0 <= k <= entries.len(),
    ensures
        placed_upto(entries, k) is None <==> exists|j: int| 0 <= j < k && unsafe_entry(#[trigger] entries[j]),
    decreases k,
{
    if k > 0 {
        lemma_placed_unsafe(entries, k - 1);
        if unsafe_entry(entries[k - 1]) {
            assert(exists|j: int| 0 <= j < k && unsafe_entry(#[trigger] entries[j]));
        } else if placed_upto(entries, k) is None {
            assert(placed_upto(entries, k - 1) is None);
            let j = choose|j: int| 0 <= j < k - 1 && unsafe_entry(#[trigger] entries[j]);
            assert(0 <= j < k && unsafe_entry(entries[j]));
        } else {
            assert forall|j: int| 0 <= j < k implies !unsafe_entry(#[trigger] entries[j]) by {
                if j < k - 1 {
                    assert(placed_upto(entries, k - 1) is Some);
                }
            }
        }
    }
}

// ---------------------------------------------------------------------------
// Choosing a plates archive in a folder
// ---------------------------------------------------------------------------

/// A zip that can be a plates archive: its name, in any case, ends in
/// `.zip` and mentions "plate". An unrelated zip never is.
pub open spec fn is_plates_zip(name: Seq<char>) -> bool {
    has_suffix(lower_seq(name), seq!['.', 'z', 'i', 'p']) && has_infix(
        lower_seq(name),
        seq!['p', 'l', 'a', 't', 'e'],
    )
}

/// How an archive ranks: one of the databases' cycle first, then the
/// later cycle in its name.
pub open spec fn archive_key_lt(name_a: Seq<char>, name_b: Seq<char>, target: Option<Cycle>) -> bool {
    let ca = spec_parse_cycle(name_a);
    let cb = spec_parse_cycle(name_b);
    let ma = target is Some && ca == target;
    let mb = target is Some && cb == target;
    (!ma && mb) || (ma == mb && opt_cycle_lt(ca, cb))
}

fn archive_less(a: &str, b: &str, target: Option<Cycle>) -> (r: bool)
    ensures
        r == archive_key_lt(a@, b@, target),
{
    let ca = parse_cycle(a);
    let cb = parse_cycle(b);
    let ma = target.is_some() && ca == target;
    let mb = target.is_some() && cb == target;
    (!ma && mb) || (ma == mb && opt_cycle_less(ca, cb))
}

fn plates_zip(name: &str) -> (r: bool)
    ensures
        r == is_plates_zip(name@),
{
    let lower = lowercase(&chars_of(name));
    let ext = ['.', 'z', 'i', 'p'];
    let word = ['p', 'l', 'a', 't', 'e'];
    assert(ext@ =~= seq!['.', 'z', 'i', 'p']);
    assert(word@ =~= seq!['p', 'l', 'a', 't', 'e']);
    ends_with(&lower, &ext) && contains(&lower, &word)
}

/// The plates archives among the file names of a folder, best first: the
/// one of the databases' cycle, then later cycles before earlier ones, names
/// that rank alike in the order they were listed. Positions in `names`.
pub fn rank_plate_archives(names: &[String], target: Option<Cycle>) -> (r: Vec<usize>)
    ensures
        forall|i: int| 0 <= i < r@.len() ==> r@[i] < names@.len() && is_plates_zip(
            names@[r@[i] as int]@,
        ),
        forall|k: int|
            0 <= k < names@.len() && is_plates_zip(names@[k]@) ==> exists|i: int|
                0 <= i < r@.len() && r@[i] == k,
        forall|i: int, l: int| 0 <= i < l < r@.len() ==> r@[i] != r@[l],
        forall|i: int, l: int|
            0 <= i < l < r@.len() ==> !archive_key_lt(
                names@[r@[i] as int]@,
                names@[r@[l] as int]@,
                target,
            ),
{
    let mut out: Vec<usize> = Vec::new();
    let mut k: usize = 0;
    while k < names.len()
        invariant
            k <= names@.len(),
            forall|i: int| 0 <= i < out@.len() ==> out@[i] < k && is_plates_zip(
                names@[out@[i] as int]@,
            ),
            forall|m: int|
                0 <= m < k && is_plates_zip(names@[m]@) ==> exists|i: int|
                    0 <= i < out@.len() && out@[i] == m,
            forall|i: int, l: int| 0 <= i < l < out@.len() ==> out@[i] != out@[l],
            forall|i: int, l: int|
                0 <= i < l < out@.len() ==> !archive_key_lt(
                    names@[out@[i] as int]@,
                    names@[out@[l] as int]@,
                    target,
                ),
        decreases names@.len() - k,
    {
        if plates_zip(names[k].as_str()) {
            let mut pos: usize = 0;
            while pos < out.len() && !archive_less(names[out[pos]].as_str(), names[k].as_str(), target)
                invariant
                    pos <= out@.len(),
                    k < names@.len(),
                    forall|i: int| 0 <= i < out@.len() ==> out@[i] < k,
                    forall|i: int|
                        0 <= i < pos ==> !archive_key_lt(
                            names@[out@[i] as int]@,
                            names@[k as int]@,
                            target,
                        ),
                decreases out@.len() - pos,
            {
                pos += 1;
            }
            let ghost old_out = out@;
            out.insert(pos, k);
            proof {
                assert forall|i: int| 0 <= i < out@.len() implies out@[i] < k + 1 && is_plates_zip(
                    names@[out@[i] as int]@,
                ) by {
                    if i < pos {
                        assert(out@[i] == old_out[i]);
                    } else if i > pos {
                        assert(out@[i] == old_out[i - 1]);
                    }
                }
                assert forall|m: int|
                    0 <= m < k + 1 && is_plates_zip(names@[m]@) implies exists|i: int|
                    0 <= i < out@.len() && out@[i] == m by {
                    if m < k {
                        let i = choose|i: int| 0 <= i < old_out.len() && old_out[i] == m;
                        if i < pos {
                            assert(out@[i] == m);
                        } else {
                            assert(out@[i + 1] == m);
                        }
                    } else {
                        assert(out@[pos as int] == m);
                    }
                }
                assert forall|i: int, l: int| 0 <= i < l < out@.len() implies out@[i] != out@[l] by {
                    if i < pos && l < pos {
                    } else if i < pos && l == pos {
                        assert(old_out[i] < k);
                    } else if i < pos {
                        assert(out@[l] == old_out[l - 1]);
                    } else if i == pos {
                        assert(out@[l] == old_out[l - 1]);
                        assert(old_out[l - 1] < k);
                    } else {
                        assert(out@[l] == old_out[l - 1]);
                        assert(out@[i] == old_out[i - 1]);
                    }
                }
                assert forall|i: int, l: int| 0 <= i < l < out@.len() implies !archive_key_lt(
                    names@[out@[i] as int]@,
                    names@[out@[l] as int]@,
                    target,
                ) by {
                    if l < pos {
                    } else if l == pos {
                    } else if i < pos {
                        assert(out@[l] == old_out[l - 1]);
                        assert(out@[i] == old_out[i]);
                        if (l - 1) == pos as int {
                        } else {
                            assert(!archive_key_lt(
                                names@[old_out[i] as int]@,
                                names@[old_out[l - 1] as int]@,
                                target,
                            ));
                        }
                    } else if i == pos {
                        assert(out@[l] == old_out[l - 1]);
                        assert(archive_key_lt(
                            names@[old_out[pos as int] as int]@,
                            names@[k as int]@,
                            target,
                        ));
                        if l - 1 > pos {
                            assert(!archive_key_lt(
                                names@[old_out[pos as int] as int]@,
                                names@[old_out[l - 1] as int]@,
                                target,
                            ));
                        }
                    } else {
                        assert(out@[l] == old_out[l - 1]);
                        assert(out@[i] == old_out[i - 1]);
                    }
                }
            }
        }
        k += 1;
    }
    out
}

// ---------------------------------------------------------------------------
// Database packages
// ---------------------------------------------------------------------------

/// A `.duc` package that holds databases, with the cycle of each kind it
/// holds. Dynon's packages carry the two cycles separately.
#[derive(Debug, Clone)]
pub struct Package {
    pub path: String,
    pub aviation: Option<Cycle>,
    pub obstacle: Option<Cycle>,
}

/// A member of a package that is a database of `kind`.
pub open spec fn is_db_member(name: Seq<char>, kind: DupKind) -> bool {
    has_suffix(lower_seq(name), seq!['.', 'd', 'u', 'p']) && spec_classify(name) == kind
}

/// The first member at or after `i` that is a database of `kind`.
pub open spec fn first_db(names: Seq<String>, kind: DupKind, i: int) -> Option<int>
    decreases names.len() - i,
{
    if i < 0 || i >= names.len() {
        None
    } else if is_db_member(names[i]@, kind) {
        Some(i)
    } else {
        first_db(names, kind, i + 1)
    }
}

/// The cycle of the first database of `kind` in the package.
pub open spec fn db_cycle(names: Seq<String>, kind: DupKind) -> Option<Cycle> {
    match first_db(names, kind, 0) {
        Some(i) => spec_parse_cycle(names[i]@),
        None => None,
    }
}

/// A package is a database package when it holds an aviation or an
/// obstacle database; any other `.duc` (firmware, say) is not.
pub open spec fn is_db_package(names: Seq<String>) -> bool {
    first_db(names, DupKind::Aviation, 0) is Some || first_db(names, DupKind::Obstacle, 0) is Some
}

fn db_member(name: &str, kind: DupKind) -> (r: bool)
    ensures
        r == is_db_member(name@, kind),
{
    let n = chars_of(name);
    let lower = lowercase(&n);
    let ext = ['.', 'd', 'u', 'p'];
    assert(ext@ =~= seq!['.', 'd', 'u', 'p']);
    ends_with(&lower, &ext) && classify_chars(&n) == kind
}

fn find_db(names: &[String], kind: DupKind) -> (r: Option<usize>)
    ensures
        r matches Some(i) ==> first_db(names@, kind, 0) == Some(i as int) && i < names@.len(),
        r is None ==> first_db(names@, kind, 0) is None,
{
    let mut i: usize = 0;
    while i < names.len()
        invariant
            i <= names@.len(),
            first_db(names@, kind, 0) == first_db(names@, kind, i as int),
        decreases names@.len() - i,
    {
        if db_member(names[i].as_str(), kind) {
            return Some(i);
        }
        i += 1;
    }
    None
}

/// The package at `path` from the names of its members, when it is a
/// database package.
pub fn package_from_members(path: &str, members: &[String]) -> (r: Option<Package>)
    ensures
        is_db_package(members@) <==> r is Some,
        r matches Some(p) ==> p.path@ == path@,
        r matches Some(p) ==> p.aviation == db_cycle(members@, DupKind::Aviation),
        r matches Some(p) ==> p.obstacle == db_cycle(members@, DupKind::Obstacle),
{
    let a = find_db(members, DupKind::Aviation);
    let o = find_db(members, DupKind::Obstacle);
    if a.is_none() && o.is_none() {
        return None;
    }
    let aviation = match a {
        Some(i) => parse_cycle(members[i].as_str()),
        None => None,
    };
    let obstacle = match o {
        Some(i) => parse_cycle(members[i].as_str()),
        None => None,
    };
    Some(Package { path: joined(String::new(), path), aviation, obstacle })
}

/// "Aviation 2608 · Obstacles 2604": each cycle the package carries, named.
pub open spec fn spec_version(aviation: Option<Cycle>, obstacle: Option<Cycle>) -> Seq<char> {
    match (aviation, obstacle) {
        (Some(a), Some(o)) => "Aviation "@ + cycle_label(a) + " · Obstacles "@ + cycle_label(o),
        (Some(a), None) => "Aviation "@ + cycle_label(a),
        (None, Some(o)) => "Obstacles "@ + cycle_label(o),
        (None, None) => Seq::empty(),
    }
}

impl Package {
    pub fn version(&self) -> (r: String)
        ensures
            r@ == spec_version(self.aviation, self.obstacle),
    {
        match (self.aviation, self.obstacle) {
            (Some(a), Some(o)) => {
                let r = joined(String::new(), "Aviation ");
                let r = joined(r, a.label().as_str());
                let r = joined(r, " · Obstacles ");
                joined(r, o.label().as_str())
            },
            (Some(a), None) => joined(joined(String::new(), "Aviation "), a.label().as_str()),
            (None, Some(o)) => joined(joined(String::new(), "Obstacles "), o.label().as_str()),
            (None, None) => String::new(),
        }
    }
}

/// Position `k` is among the positions `r` lists.
pub open spec fn holds_index(r: Seq<usize>, k: int) -> bool {
    exists|i: int| 0 <= i < r.len() && r[i] == k
}

/// One package ranks below another: an earlier aviation cycle, or the same
/// one with an earlier obstacle cycle.
pub open spec fn package_lt(a: Package, b: Package) -> bool {
    opt_cycle_lt(a.aviation, b.aviation) || (a.aviation == b.aviation && opt_cycle_lt(
        a.obstacle,
        b.obstacle,
    ))
}

fn package_less(a: &Package, b: &Package) -> (r: bool)
    ensures
        r == package_lt(*a, *b),
{
    opt_cycle_less(a.aviation, b.aviation) || (a.aviation == b.aviation && opt_cycle_less(
        a.obstacle,
        b.obstacle,
    ))
}

/// The packages newest first, as positions in `packages`; packages that rank
/// alike keep their order.
pub fn packages_newest_first(packages: &[Package]) -> (r: Vec<usize>)
    ensures
        r@.len() == packages@.len(),
        forall|i: int| 0 <= i < r@.len() ==> r@[i] < packages@.len(),
        forall|k: int| 0 <= k < packages@.len() ==> #[trigger] holds_index(r@, k),
        forall|i: int, l: int| 0 <= i < l < r@.len() ==> r@[i] != r@[l],
        forall|i: int, l: int|
            0 <= i < l < r@.len() ==> !package_lt(packages@[r@[i] as int], packages@[r@[l] as int]),
{
    let mut out: Vec<usize> = Vec::new();
    let mut k: usize = 0;
    while k < packages.len()
        invariant
            k <= packages@.len(),
            out@.len() == k,
            forall|i: int| 0 <= i < out@.len() ==> out@[i] < k,
            forall|m: int| 0 <= m < k ==> #[trigger] holds_index(out@, m),
            forall|i: int, l: int| 0 <= i < l < out@.len() ==> out@[i] != out@[l],
            forall|i: int, l: int|
                0 <= i < l < out@.len() ==> !package_lt(
                    packages@[out@[i] as int],
                    packages@[out@[l] as int],
                ),
        decreases packages@.len() - k,
    {
        let mut pos: usize = 0;
        while pos < out.len() && !package_less(&packages[out[pos]], &packages[k])
            invariant
                pos <= out@.len(),
                k < packages@.len(),
                forall|i: int| 0 <= i < out@.len() ==> out@[i] < k,
                forall|i: int|
                    0 <= i < pos ==> !package_lt(packages@[out@[i] as int], packages@[k as int]),
            decreases out@.len() - pos,
        {
            pos += 1;
        }
        let ghost old_out = out@;
        out.insert(pos, k);
        proof {
            assert forall|i: int| 0 <= i < out@.len() implies out@[i] < k + 1 by {
                if i < pos {
                    assert(out@[i] == old_out[i]);
                } else if i > pos {
                    assert(out@[i] == old_out[i - 1]);
                }
            }
            assert forall|m: int| 0 <= m < k + 1 implies #[trigger] holds_index(out@, m) by {
                if m < k {
                    assert(holds_index(old_out, m));
                    let i = choose|i: int| 0 <= i < old_out.len() && old_out[i] == m;
                    if i < pos {
                        assert(out@[i] == m);
                    } else {
                        assert(out@[i + 1] == m);
                    }
                } else {
                    assert(out@[pos as int] == m);
                }
            }
            assert forall|i: int, l: int| 0 <= i < l < out@.len() implies out@[i] != out@[l] by {
                if i < pos && l < pos {
                } else if i < pos && l == pos {
                    assert(old_out[i] < k);
                } else if i < pos {
                    assert(out@[l] == old_out[l - 1]);
                } else if i == pos {
                    assert(out@[l] == old_out[l - 1]);
                    assert(old_out[l - 1] < k);
                } else {
                    assert(out@[l] == old_out[l - 1]);
                    assert(out@[i] == old_out[i - 1]);
                }
            }
            assert forall|i: int, l: int| 0 <= i < l < out@.len() implies !package_lt(
                packages@[out@[i] as int],
                packages@[out@[l] as int],
            ) by {
                if l < pos {
                } else if l == pos {
                } else if i < pos {
                    assert(out@[l] == old_out[l - 1]);
                    assert(out@[i] == old_out[i]);
                } else if i == pos {
                    assert(out@[l] == old_out[l - 1]);
                    assert(package_lt(packages@[old_out[pos as int] as int], packages@[k as int]));
                    if l - 1 > pos {
                        assert(!package_lt(
                            packages@[old_out[pos as int] as int],
                            packages@[old_out[l - 1] as int],
                        ));
                    }
                } else {
                    assert(out@[l] == old_out[l - 1]);
                    assert(out@[i] == old_out[i - 1]);
                }
            }
        }
        k += 1;
    }
    out
}

proof fn lemma_first_date_is_a_date(s: Seq<char>, k: int)
    requires
        0 <= k,
    ensures
        first_date_from(s, k) matches Some(i) ==> date_at(s, i),
    decreases s.len() - k,
{
    if k + 10 <= s.len() && !date_at(s, k) {
        lemma_first_date_is_a_date(s, k + 1);
    }
}

proof fn lemma_name_date_bound(name: Seq<char>)
    ensures
        spec_name_date(name) <= 99999999,
{
    reveal(spec_name_date);
    lemma_first_date_is_a_date(name, 0);
    match first_date_from(name, 0) {
        Some(i) => {
            assert(two_at(name, i) <= 99);
            assert(two_at(name, i + 2) <= 99);
            assert(two_at(name, i + 5) <= 12);
            assert(two_at(name, i + 8) <= 31);
        },
        None => {},
    }
}

/// The date a database file's name carries, as `YYYYMMDD` (0 for none).
pub open spec fn dup_name_date(f: DupFile) -> nat {
    spec_name_date(name_or_empty(f.path@))
}

/// `a` ranks at least as high as `b` exactly as files are compared: no
/// later cycle in `b`; with the same cycle, no later date in `b`'s name;
/// with both the same, no later modification time.
proof fn lemma_ranked_at_least(a: DupFile, b: DupFile)
    requires
        rank_le(spec_rank(b), spec_rank(a)),
    ensures
        !opt_cycle_lt(a.cycle, b.cycle),
        b.cycle == a.cycle ==> dup_name_date(b) <= dup_name_date(a),
        b.cycle == a.cycle && dup_name_date(b) == dup_name_date(a) ==> b.modified <= a.modified,
{
    lemma_name_date_bound(name_or_empty(a.path@));
    lemma_name_date_bound(name_or_empty(b.path@));
}

/// The newest file of a kind is the latest of its kind: no file of the kind
/// has a later cycle; of those with its cycle, none a later date in its
/// name; of those with both the same, none a later modification time.
pub proof fn law_newest_is_the_latest(files: Seq<DupFile>, kind: DupKind, i: int)
    requires
        is_newest(files, kind, i),
    ensures
        forall|j: int|
            0 <= j < files.len() && (#[trigger] files[j]).kind == kind ==> {
                &&& !opt_cycle_lt(files[i].cycle, files[j].cycle)
                &&& files[j].cycle == files[i].cycle ==> dup_name_date(files[j]) <= dup_name_date(
                    files[i],
                )
                &&& files[j].cycle == files[i].cycle && dup_name_date(files[j]) == dup_name_date(
                    files[i],
                ) ==> files[j].modified <= files[i].modified
            },
{
    assert forall|j: int| 0 <= j < files.len() && (#[trigger] files[j]).kind == kind implies {
        &&& !opt_cycle_lt(files[i].cycle, files[j].cycle)
        &&& files[j].cycle == files[i].cycle ==> dup_name_date(files[j]) <= dup_name_date(files[i])
        &&& files[j].cycle == files[i].cycle && dup_name_date(files[j]) == dup_name_date(files[i])
            ==> files[j].modified <= files[i].modified
    } by {
        lemma_ranked_at_least(files[i], files[j]);
    }
}

/// A newest-first listing never puts a file after a later one: no later
/// cycle, no later name date with the same cycle, no later modification
/// time with both the same.
pub proof fn law_newest_first_lists_the_latest_first(sorted: Seq<DupFile>, files: Seq<DupFile>)
    requires
        is_newest_first_of(sorted, files),
    ensures
        forall|k: int, l: int|
            0 <= k < l < sorted.len() ==> {
                &&& !opt_cycle_lt(#[trigger] sorted[k].cycle, #[trigger] sorted[l].cycle)
                &&& sorted[l].cycle == sorted[k].cycle ==> dup_name_date(sorted[l])
                    <= dup_name_date(sorted[k])
                &&& sorted[l].cycle == sorted[k].cycle && dup_name_date(sorted[l]) == dup_name_date(
                    sorted[k],
                ) ==> sorted[l].modified <= sorted[k].modified
            },
{
    assert forall|k: int, l: int| 0 <= k < l < sorted.len() implies {
        &&& !opt_cycle_lt(#[trigger] sorted[k].cycle, #[trigger] sorted[l].cycle)
        &&& sorted[l].cycle == sorted[k].cycle ==> dup_name_date(sorted[l]) <= dup_name_date(sorted[k])
        &&& sorted[l].cycle == sorted[k].cycle && dup_name_date(sorted[l]) == dup_name_date(sorted[k])
            ==> sorted[l].modified <= sorted[k].modified
    } by {
        assert(ranked_before(sorted[k], sorted[l]));
        lemma_ranked_at_least(sorted[k], sorted[l]);
    }
}

// ---------------------------------------------------------------------------
// Laws of names
// ---------------------------------------------------------------------------

/// No character of `s` is an ASCII digit.
pub open spec fn no_digits(s: Seq<char>) -> bool {
    forall|k: int| 0 <= k < s.len() ==> !is_ascii_digit(#[trigger] s[k])
}

proof fn lemma_first_cycle_skips(s: Seq<char>, d: int, e: int)
    requires
        0 <= d <= e,
        forall|k: int| d <= k < e && k < s.len() ==> !is_ascii_digit(#[trigger] s[k]),
    ensures
        first_cycle_from(s, d) == first_cycle_from(s, e) || (d + 4 > s.len() && first_cycle_from(
            s,
            d,
        ) is None && first_cycle_from(s, e) is None),
    decreases e - d,
{
    if d < e {
        if d + 4 <= s.len() {
            assert(!is_ascii_digit(s[d]));
            assert(!cycle_at(s, d));
        }
        lemma_first_cycle_skips(s, d + 1, e);
    }
}

proof fn lemma_two_digits(n: nat)
    requires
        n < 100,
    ensures
        two_digits(n).len() == 2,
        two_digits(n)[0] == digit_char(n / 10),
        two_digits(n)[1] == digit_char(n % 10),
{
    reveal_with_fuel(decimal_text, 2);
    if n >= 10 {
        assert(decimal_text(n / 10) == seq![digit_char(n / 10)]);
    }
}

proof fn lemma_digit_char(d: nat)
    requires
        d < 10,
    ensures
        is_ascii_digit(digit_char(d)),
        digit_value(digit_char(d)) == d,
{
}

/// A cycle's label reads back as that cycle, alone or inside a file name
/// whose characters before it are no digits and whose next character after
/// it is none either: `airmate_av_data_us_2608_013712.dup` is cycle 2608.
pub proof fn law_a_label_reads_back(c: Cycle, before: Seq<char>, after: Seq<char>)
    requires
        2000 <= c.year <= 2099,
        1 <= c.number <= 13,
        no_digits(before),
        after.len() == 0 || !is_ascii_digit(after[0]),
    ensures
        spec_parse_cycle(cycle_label(c)) == Some(c),
        spec_parse_cycle(before + cycle_label(c) + after) == Some(c),
{
    let yy = (c.year % 100) as nat;
    let nn = c.number as nat;
    lemma_two_digits(yy);
    lemma_two_digits(nn);
    lemma_digit_char(yy / 10);
    lemma_digit_char(yy % 10);
    lemma_digit_char(nn / 10);
    lemma_digit_char(nn % 10);
    let l = cycle_label(c);
    assert(l.len() == 4);
    assert(l[0] == digit_char(yy / 10) && l[1] == digit_char(yy % 10));
    assert(l[2] == digit_char(nn / 10) && l[3] == digit_char(nn % 10));
    assert(cycle_at(l, 0));
    assert(first_cycle_from(l, 0) == Some(0int));
    assert(two_digit_value(l, 0) == yy);
    assert(two_digit_value(l, 2) == nn);
    let s = before + l + after;
    let b = before.len() as int;
    assert forall|k: int| 0 <= k < b && k < s.len() implies !is_ascii_digit(#[trigger] s[k]) by {
        assert(s[k] == before[k]);
    }
    lemma_first_cycle_skips(s, 0, b);
    assert(s[b] == l[0] && s[b + 1] == l[1] && s[b + 2] == l[2] && s[b + 3] == l[3]);
    if b > 0 {
        assert(s[b - 1] == before[b - 1]);
    }
    if after.len() > 0 {
        assert(s[b + 4] == after[0]);
    }
    assert(cycle_at(s, b));
    assert(first_cycle_from(s, b) == Some(b));
    assert(two_digit_value(s, b) == yy);
    assert(two_digit_value(s, b + 2) == nn);
}

/// A `CHARTS-…key` name gives back the digits it was made with, and a name
/// that gives an id is exactly `CHARTS-`, the id, `.key`.
pub proof fn law_key_names_round_trip(id: Seq<char>, name: Seq<char>)
    requires
        id.len() > 0,
        all_ascii_digits(id),
    ensures
        spec_parse_key_entitlement(seq!['C', 'H', 'A', 'R', 'T', 'S', '-'] + id + seq![
            '.',
            'k',
            'e',
            'y',
        ]) == Some(id),
        spec_parse_key_entitlement(name) matches Some(x) ==> name == seq![
            'C',
            'H',
            'A',
            'R',
            'T',
            'S',
            '-',
        ] + x + seq!['.', 'k', 'e', 'y'],
{
    let p = seq!['C', 'H', 'A', 'R', 'T', 'S', '-'];
    let q = seq!['.', 'k', 'e', 'y'];
    let s = p + id + q;
    assert(s.subrange(0, 7) =~= p);
    assert(s.subrange(s.len() - 4, s.len() as int) =~= q);
    assert(s.subrange(7, s.len() - 4) =~= id);
    if spec_parse_key_entitlement(name) is Some {
        let x = name.subrange(7, name.len() - 4);
        assert(name =~= name.subrange(0, 7) + x + name.subrange(name.len() - 4, name.len() as int));
        assert(name.subrange(0, 7) =~= p);
        assert(name.subrange(name.len() - 4, name.len() as int) =~= q);
    }
}

/// What `char::to_ascii_uppercase` does.
pub open spec fn upper(c: char) -> char {
    if 'a' <= c && c <= 'z' {
        ((c as u32) - 32) as char
    } else {
        c
    }
}

/// What `str::to_ascii_uppercase` does to a text.
pub open spec fn upper_seq(s: Seq<char>) -> Seq<char> {
    s.map_values(|c: char| upper(c))
}

/// Case does not decide a database's kind, and a name that mentions "obst"
/// in any case is an obstacle database whatever else it mentions.
pub proof fn law_kinds_ignore_case(name: Seq<char>)
    ensures
        spec_classify(lower_seq(name)) == spec_classify(name),
        spec_classify(upper_seq(name)) == spec_classify(name),
        has_infix(lower_seq(name), seq!['o', 'b', 's', 't']) ==> spec_classify(name)
            == DupKind::Obstacle,
{
    assert(lower_seq(lower_seq(name)) =~= lower_seq(name));
    assert forall|k: int| 0 <= k < name.len() implies #[trigger] lower(upper(name[k])) == lower(
        name[k],
    ) by {
        let c = name[k];
        if 'a' <= c && c <= 'z' {
            assert((((c as u32) - 32) as char) as u32 == (c as u32) - 32);
        }
    }
    assert(lower_seq(upper_seq(name)) =~= lower_seq(name));
}

/// An archive is turned down as unsafe exactly when one of its files has an
/// absolute path or a `..` segment; folders and litter never save it.
pub proof fn law_archive_rejected_iff_an_entry_is_unsafe(path: Seq<char>, entries: Seq<ZipEntry>, a: Result<Archive, ArchiveError>)
    requires
        archive_outcome(path, entries, a),
    ensures
        a == Err::<Archive, ArchiveError>(ArchiveError::UnsafePaths) <==> exists|j: int|
            0 <= j < entries.len() && unsafe_entry(#[trigger] entries[j]),
{
    lemma_placed_unsafe(entries, entries.len() as int);
}

/// A path segment a member may have: not empty, neither `.` nor `..`, and
/// without a `/`.
pub open spec fn plain_segment(seg: Seq<char>) -> bool {
    &&& seg.len() > 0
    &&& seg != seq!['.']
    &&& seg != seq!['.', '.']
    &&& forall|i: int| 0 <= i < seg.len() ==> seg[i] != '/'
}

/// A relative path of one or more plain segments.
pub open spec fn plain_parts(parts: Seq<Seq<char>>) -> bool {
    parts.len() > 0 && forall|i: int| 0 <= i < parts.len() ==> plain_segment(#[trigger] parts[i])
}

proof fn lemma_parts_from_plain(s: Seq<char>, i: int)
    requires
        0 <= i <= s.len(),
    ensures
        parts_from(s, i) matches Some(ps) ==> forall|j: int|
            0 <= j < ps.len() ==> plain_segment(#[trigger] ps[j]),
    decreases s.len() - i,
{
    lemma_next_slash(s, i);
    let j = next_slash(s, i);
    let seg = s.subrange(i, j);
    if i <= j < s.len() {
        lemma_parts_from_plain(s, j + 1);
    }
    if !(seg =~= seq!['.', '.']) && !(seg.len() == 0 || seg =~= seq!['.']) {
        assert forall|k: int| 0 <= k < seg.len() implies seg[k] != '/' by {
            assert(seg[k] == s[i + k]);
        }
        assert(plain_segment(seg));
        match parts_from(s, i) {
            Some(ps) => {
                assert forall|k: int| 0 <= k < ps.len() implies plain_segment(#[trigger] ps[k]) by {
                    if k > 0 {
                        let rest = if i <= j < s.len() {
                            parts_from(s, j + 1)
                        } else {
                            Some(Seq::<Seq<char>>::empty())
                        };
                        assert(ps == seq![seg] + rest.unwrap());
                        assert(ps[k] == rest.unwrap()[k - 1]);
                    }
                }
            },
            None => {},
        }
    }
}

proof fn lemma_placed_plain(entries: Seq<ZipEntry>, k: int)
    requires
        0 <= k <= entries.len(),
    ensures
        placed_upto(entries, k) matches Some((kept, _)) ==> forall|j: int|
            0 <= j < kept.len() ==> plain_parts(#[trigger] kept[j].parts),
    decreases k,
{
    if k > 0 {
        lemma_placed_plain(entries, k - 1);
        let e = entries[k - 1];
        if !e.is_dir {
            let s = slashed(e.name@);
            if !(s.len() > 0 && s[0] == '/') {
                lemma_parts_from_plain(s, 0);
            }
        }
        match placed_upto(entries, k) {
            Some((kept, _)) => {
                let (prev, _) = placed_upto(entries, k - 1).unwrap();
                assert forall|j: int| 0 <= j < kept.len() implies plain_parts(#[trigger] kept[j].parts) by {
                    if j < prev.len() {
                        assert(kept[j] == prev[j]);
                    }
                }
            },
            None => {},
        }
    }
}

proof fn lemma_strip_plain(kept: Seq<Placed>)
    requires
        forall|j: int| 0 <= j < kept.len() ==> plain_parts(#[trigger] kept[j].parts),
    ensures
        strip_layout(kept).len() == kept.len(),
        forall|j: int|
            0 <= j < strip_layout(kept).len() ==> plain_parts(#[trigger] strip_layout(kept)[j].parts),
    decreases (if kept.len() > 0 {
        kept[0].parts.len()
    } else {
        0
    }),
{
    if kept.len() > 0 && no_loose_file(kept) && (common_head(kept) matches Some(h)
        && is_layout_folder(h)) {
        let next = drop_head(kept);
        assert forall|j: int| 0 <= j < next.len() implies plain_parts(#[trigger] next[j].parts) by {
            assert(kept[j].parts.len() >= 2);
            assert(next[j].parts == kept[j].parts.drop_first());
            assert forall|i: int| 0 <= i < next[j].parts.len() implies plain_segment(
                #[trigger] next[j].parts[i],
            ) by {
                assert(next[j].parts[i] == kept[j].parts[i + 1]);
            }
        }
        assert(kept[0].parts.len() >= 2);
        lemma_strip_plain(next);
    }
}

/// Every plate an accepted archive holds is written to a relative path of
/// plain segments under the plates folder: none is absolute, none climbs out
/// with `..`.
pub proof fn law_members_stay_inside_the_plates_folder(
    path: Seq<char>,
    entries: Seq<ZipEntry>,
    a: Result<Archive, ArchiveError>,
)
    requires
        archive_outcome(path, entries, a),
        a is Ok,
    ensures
        forall|k: int|
            0 <= k < a->Ok_0.members@.len() ==> exists|parts: Seq<Seq<char>>|
                plain_parts(parts) && #[trigger] a->Ok_0.members@[k].dest@ == join_parts(parts),
{
    lemma_placed_plain(entries, entries.len() as int);
    let (kept, _) = spec_placed(entries).unwrap();
    lemma_strip_plain(kept);
    let placed = strip_layout(kept);
    let arch = a->Ok_0;
    assert forall|k: int| 0 <= k < arch.members@.len() implies exists|parts: Seq<Seq<char>>|
        plain_parts(parts) && #[trigger] arch.members@[k].dest@ == join_parts(parts) by {
        assert(member_is(arch.members@[k], placed[k]));
        assert(plain_parts(placed[k].parts));
    }
}


/// The files of the first `k` entries that name a place in the archive: not
/// folders, not unsafe, not empty paths.
pub open spec fn archive_files_upto(entries: Seq<ZipEntry>, k: int) -> nat
    decreases k,
{
    if k <= 0 || k > entries.len() {
        0
    } else {
        let e = entries[k - 1];
        archive_files_upto(entries, k - 1) + (if !e.is_dir && (entry_parts(e.name@) matches Some(
            ps,
        ) && ps.len() > 0) {
            1nat
        } else {
            0nat
        })
    }
}

/// A plate's path as litter never ends: not an AppleDouble `._` file, not
/// a `.DS_Store`, `Thumbs.db` or `desktop.ini` in any case, and nowhere under
/// `__MACOSX`.
pub open spec fn plate_path(parts: Seq<Seq<char>>) -> bool {
    &&& parts.len() > 0
    &&& !has_prefix(parts.last(), seq!['.', '_'])
    &&& lower_seq(parts.last()) != ".ds_store"@
    &&& lower_seq(parts.last()) != "thumbs.db"@
    &&& lower_seq(parts.last()) != "desktop.ini"@
    &&& forall|i: int| 0 <= i < parts.len() ==> #[trigger] parts[i] != "__MACOSX"@
}

proof fn lemma_placed_no_apple_double(entries: Seq<ZipEntry>, k: int)
    requires
        0 <= k <= entries.len(),
    ensures
        placed_upto(entries, k) matches Some((kept, junk)) ==> {
            &&& kept.len() + junk == archive_files_upto(entries, k)
            &&& forall|j: int| 0 <= j < kept.len() ==> plate_path((#[trigger] kept[j]).parts)
        },
    decreases k,
{
    if k > 0 {
        lemma_placed_no_apple_double(entries, k - 1);
        match placed_upto(entries, k) {
            Some((kept, junk)) => {
                let (prev, _) = placed_upto(entries, k - 1).unwrap();
                assert forall|j: int| 0 <= j < kept.len() implies plate_path((#[trigger] kept[j]).parts) by {
                    if j < prev.len() {
                        assert(kept[j] == prev[j]);
                    }
                }
            },
            None => {},
        }
    }
}

proof fn lemma_strip_keeps_file_names(kept: Seq<Placed>)
    requires
        forall|j: int| 0 <= j < kept.len() ==> plate_path((#[trigger] kept[j]).parts),
    ensures
        strip_layout(kept).len() == kept.len(),
        forall|j: int|
            0 <= j < kept.len() ==> plate_path((#[trigger] strip_layout(kept)[j]).parts),
    decreases (if kept.len() > 0 {
        kept[0].parts.len()
    } else {
        0
    }),
{
    if kept.len() > 0 && no_loose_file(kept) && (common_head(kept) matches Some(h)
        && is_layout_folder(h)) {
        let next = drop_head(kept);
        assert forall|j: int| 0 <= j < next.len() implies plate_path((#[trigger] next[j]).parts) by {
            assert(kept[j].parts.len() >= 2);
            assert(next[j].parts == kept[j].parts.drop_first());
            assert(plate_path(kept[j].parts));
            assert forall|i: int| 0 <= i < next[j].parts.len() implies #[trigger] next[j].parts[i]
                != "__MACOSX"@ by {
                assert(next[j].parts[i] == kept[j].parts[i + 1]);
            }
        }
        assert(kept[0].parts.len() >= 2);
        lemma_strip_keeps_file_names(next);
    }
}

/// Archive litter never becomes a plate: no member of an accepted archive
/// is an AppleDouble `._` file, a `.DS_Store`, `Thumbs.db` or `desktop.ini`,
/// or anything under `__MACOSX` (its path is plain segments that end in no
/// such name), and every file of the archive is either a member or counted
/// as skipped litter.
pub proof fn law_apple_double_files_are_litter(
    path: Seq<char>,
    entries: Seq<ZipEntry>,
    a: Result<Archive, ArchiveError>,
)
    requires
        archive_outcome(path, entries, a),
        a is Ok,
    ensures
        forall|k: int|
            0 <= k < a->Ok_0.members@.len() ==> exists|parts: Seq<Seq<char>>|
                plain_parts(parts) && #[trigger] a->Ok_0.members@[k].dest@ == join_parts(parts)
                    && plate_path(parts),
        a->Ok_0.members@.len() + a->Ok_0.junk_skipped == archive_files_upto(
            entries,
            entries.len() as int,
        ),
{
    lemma_placed_plain(entries, entries.len() as int);
    lemma_placed_no_apple_double(entries, entries.len() as int);
    let (kept, _) = spec_placed(entries).unwrap();
    lemma_strip_plain(kept);
    lemma_strip_keeps_file_names(kept);
    let placed = strip_layout(kept);
    let arch = a->Ok_0;
    assert forall|k: int| 0 <= k < arch.members@.len() implies exists|parts: Seq<Seq<char>>|
        plain_parts(parts) && #[trigger] arch.members@[k].dest@ == join_parts(parts) && plate_path(
            parts,
        ) by {
        assert(member_is(arch.members@[k], placed[k]));
        assert(plain_parts(placed[k].parts));
        assert(plate_path(placed[k].parts));
    }
}

} // verus!
