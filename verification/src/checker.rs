//! The update checker: reading Dynon's own download pages into listings,
//! deciding which listing is current on a given day, and what the server's
//! replies to a page or package request mean. The requests themselves are
//! made by the caller.
//!
//! The pages are read with two patterns — a `href="….duc"` download link,
//! and a `Valid: <dates> (Cycle: <digits>)` line — written out here as
//! functions on characters, each proved against a statement of the
//! leftmost, non-overlapping matches the pattern has in the page.

use crate::scan::{Cycle, upper, upper_seq};
use crate::text::{
    chars_of, digit_value, is_ascii_digit, is_decimal, lower, lower_seq, lowercase, is_white,
    all_ascii_digits, digits_value,
    occurs_at, parse_unsigned, parse_unsigned_in, same, skip_white, skip_word, slice_to_string,
    trim, trim_bounds, decimal, lemma_skip_white, skip_white_from,
    skip_word_from, ascii_digit, matches_at, copy_range, string_from, decimal_text, push_decimal,
};
use vstd::prelude::*;
use vstd::string::StrSliceExecFns;

verus! {

pub const EXPERIMENTAL_PAGE_URL: &'static str = "https://dynonavionics.com/us-aviation-obstacle-data.php";

pub const CERTIFIED_PAGE_URL: &'static str = "https://www.dynoncertified.com/us-aviation-obstacle-data.php";

/// Which page to check, decided by `system-type` alone: `certified` picks the
/// Dynon Certified page, anything else the Experimental/LSA one.
pub fn page_url(system_type: &str) -> (r: &'static str)
    ensures
        r@ == (if system_type@ == "certified"@ {
            CERTIFIED_PAGE_URL@
        } else {
            EXPERIMENTAL_PAGE_URL@
        }),
{
    let s = chars_of(system_type);
    let c = chars_of("certified");
    if same(&s, &c) {
        CERTIFIED_PAGE_URL
    } else {
        EXPERIMENTAL_PAGE_URL
    }
}

// ---------------------------------------------------------------------------
// Dates and validity windows
// ---------------------------------------------------------------------------

/// A plain calendar date, good enough for comparing AIRAC validity windows.
#[derive(Debug, Clone, Copy, PartialEq, Eq, Structural, PartialOrd, Ord)]
pub struct SimpleDate {
    pub year: i32,
    pub month: u8,
    pub day: u8,
}

/// The order the derived `Ord` gives: by year, then month, then day.
pub open spec fn date_lt(a: SimpleDate, b: SimpleDate) -> bool {
    ||| a.year < b.year
    ||| a.year == b.year && a.month < b.month
    ||| a.year == b.year && a.month == b.month && a.day < b.day
}

pub open spec fn date_le(a: SimpleDate, b: SimpleDate) -> bool {
    date_lt(a, b) || a == b
}

pub fn date_less(a: SimpleDate, b: SimpleDate) -> (r: bool)
    ensures
        r == date_lt(a, b),
{
    a.year < b.year || (a.year == b.year && a.month < b.month) || (a.year == b.year && a.month
        == b.month && a.day < b.day)
}

pub fn date_at_most(a: SimpleDate, b: SimpleDate) -> (r: bool)
    ensures
        r == date_le(a, b),
{
    date_less(a, b) || (a.year == b.year && a.month == b.month && a.day == b.day)
}

/// `d` padded on the left with zeros to `w` characters.
pub open spec fn zero_padded(d: Seq<char>, w: nat) -> Seq<char> {
    if d.len() >= w {
        d
    } else {
        Seq::new((w - d.len()) as nat, |i: int| '0') + d
    }
}

/// A date written `YYYY-MM-DD`, each field zero-padded to its width, a
/// negative year keeping its sign in front of the padding.
pub open spec fn date_text(d: SimpleDate) -> Seq<char> {
    let year = if d.year >= 0 {
        zero_padded(decimal_text(d.year as nat), 4)
    } else {
        seq!['-'] + zero_padded(decimal_text((-d.year) as nat), 3)
    };
    year + seq!['-'] + zero_padded(decimal_text(d.month as nat), 2) + seq!['-'] + zero_padded(
        decimal_text(d.day as nat),
        2,
    )
}

fn push_padded(v: &mut Vec<char>, n: u64, w: usize)
    ensures
        final(v)@ == old(v)@ + zero_padded(decimal_text(n as nat), w as nat),
{
    let mut digits: Vec<char> = Vec::new();
    push_decimal(&mut digits, n);
    assert(digits@ =~= decimal_text(n as nat));
    let ghost start = v@;
    let mut k: usize = digits.len();
    while k < w
        invariant
            digits.len() <= k <= w || (k == digits.len() && k >= w),
            v@ == start + Seq::new((k - digits@.len()) as nat, |i: int| '0'),
            digits@ == decimal_text(n as nat),
        decreases w - k,
    {
        v.push('0');
        k += 1;
        assert(v@ =~= start + Seq::new((k - digits@.len()) as nat, |i: int| '0'));
    }
    let ghost mid = v@;
    let mut i: usize = 0;
    while i < digits.len()
        invariant
            i <= digits@.len(),
            v@ == mid + digits@.take(i as int),
        decreases digits.len() - i,
    {
        v.push(digits[i]);
        i += 1;
        assert(v@ =~= mid + digits@.take(i as int));
    }
    assert(digits@.take(digits@.len() as int) =~= digits@);
    if digits.len() >= w {
        assert(Seq::new(0nat, |i: int| '0') =~= Seq::<char>::empty());
        assert(v@ =~= start + decimal_text(n as nat));
    } else {
        assert(v@ =~= start + (Seq::new((w - digits@.len()) as nat, |i: int| '0') + decimal_text(n as nat)));
    }
}

impl SimpleDate {
    /// The date as `YYYY-MM-DD`.
    pub fn text(&self) -> (r: String)
        ensures
            r@ == date_text(*self),
    {
        let mut v: Vec<char> = Vec::new();
        if self.year >= 0 {
            push_padded(&mut v, self.year as u64, 4);
        } else {
            v.push('-');
            let magnitude: u64 = (0i64 - self.year as i64) as u64;
            push_padded(&mut v, magnitude, 3);
        }
        v.push('-');
        push_padded(&mut v, self.month as u64, 2);
        v.push('-');
        push_padded(&mut v, self.day as u64, 2);
        string_from(v)
    }
}

/// A validity window as printed on the page ("Valid: August 6 - September
/// 2"), plus its parsed bounds.
#[derive(Debug, Clone, PartialEq, Eq)]
pub struct Validity {
    pub start: SimpleDate,
    pub end: SimpleDate,
    pub text: String,
}

impl Validity {
    /// The window covers `day`, both ends included.
    pub fn contains(&self, day: SimpleDate) -> (r: bool)
        ensures
            r == (date_le(self.start, day) && date_le(day, self.end)),
    {
        date_at_most(self.start, day) && date_at_most(day, self.end)
    }

    pub fn duplicate(&self) -> (r: Validity)
        ensures
            r == *self,
    {
        Validity { start: self.start, end: self.end, text: self.text.clone() }
    }
}

fn duplicate_validity(v: &Option<Validity>) -> (r: Option<Validity>)
    ensures
        r == *v,
{
    match v {
        Some(x) => Some(x.duplicate()),
        None => None,
    }
}

/// One download link on a provider page, with whatever validity data was
/// found next to it.
#[derive(Debug, Clone, PartialEq, Eq)]
pub struct Listing {
    /// The `href` exactly as printed.
    pub href: String,
    pub aviation_cycle: Option<Cycle>,
    pub obstacle_cycle: Option<Cycle>,
    pub aviation_valid: Option<Validity>,
    pub obstacle_valid: Option<Validity>,
}

/// Where the last `/` of `s` is, if anywhere.
pub open spec fn last_slash(s: Seq<char>, e: int) -> int
    decreases e,
{
    if 0 < e <= s.len() && s[e - 1] != '/' {
        last_slash(s, e - 1)
    } else {
        e
    }
}

/// What follows the last `/` of an href (all of it when there is none).
pub open spec fn href_file_name(h: Seq<char>) -> Seq<char> {
    h.subrange(last_slash(h, h.len() as int), h.len() as int)
}

proof fn lemma_last_slash(s: Seq<char>, e: int)
    requires
        0 <= e <= s.len(),
    ensures
        0 <= last_slash(s, e) <= e,
    decreases e,
{
    if 0 < e && s[e - 1] != '/' {
        lemma_last_slash(s, e - 1);
    }
}

impl Listing {
    /// The file the link downloads.
    pub fn filename(&self) -> (r: &str)
        ensures
            r@ == href_file_name(self.href@),
    {
        let h = chars_of(self.href.as_str());
        let mut k = h.len();
        proof {
            lemma_last_slash(h@, k as int);
        }
        while k > 0 && h[k - 1] != '/'
            invariant
                k <= h@.len(),
                last_slash(h@, k as int) == last_slash(h@, h@.len() as int),
            decreases k,
        {
            k -= 1;
        }
        self.href.as_str().substring_char(k, h.len())
    }

    pub fn duplicate(&self) -> (r: Listing)
        ensures
            r == *self,
    {
        Listing {
            href: self.href.clone(),
            aviation_cycle: self.aviation_cycle,
            obstacle_cycle: self.obstacle_cycle,
            aviation_valid: duplicate_validity(&self.aviation_valid),
            obstacle_valid: duplicate_validity(&self.obstacle_valid),
        }
    }
}

// ---------------------------------------------------------------------------
// Choosing the current listing
// ---------------------------------------------------------------------------

/// Which listing to treat as current, and — if none of several covers today
/// — the earliest one that will.
#[derive(Debug, Clone, PartialEq, Eq)]
pub enum Selection {
    Current(Listing),
    /// Surfaced without ever being installed or downloaded automatically.
    UpcomingOnly(Listing),
}

/// The listing's aviation window covers `today`.
pub open spec fn covers(l: Listing, today: SimpleDate) -> bool {
    l.aviation_valid matches Some(v) && date_le(v.start, today) && date_le(today, v.end)
}

/// The listing's aviation window starts after `today`.
pub open spec fn starts_after(l: Listing, today: SimpleDate) -> bool {
    l.aviation_valid matches Some(v) && date_lt(today, v.start)
}

pub open spec fn valid_start(l: Listing) -> SimpleDate {
    l.aviation_valid->Some_0.start
}

/// `i` is the first listing covering `today`.
pub open spec fn first_covering(ls: Seq<Listing>, today: SimpleDate, i: int) -> bool {
    &&& 0 <= i < ls.len()
    &&& covers(ls[i], today)
    &&& forall|j: int| 0 <= j < i ==> !covers(#[trigger] ls[j], today)
}

/// `i` is, of the listings whose window is still ahead, the first with the
/// earliest start.
pub open spec fn earliest_upcoming(ls: Seq<Listing>, today: SimpleDate, i: int) -> bool {
    &&& 0 <= i < ls.len()
    &&& starts_after(ls[i], today)
    &&& forall|j: int|
        0 <= j < ls.len() && starts_after(#[trigger] ls[j], today) ==> date_le(
            valid_start(ls[i]),
            valid_start(ls[j]),
        )
    &&& forall|j: int|
        0 <= j < i && starts_after(#[trigger] ls[j], today) ==> date_lt(
            valid_start(ls[i]),
            valid_start(ls[j]),
        )
}

/// What `select` answers: nothing for no listings; a lone listing is always
/// current; otherwise the first listing whose aviation window covers `today`,
/// else the earliest one still to come, surfaced as upcoming only.
pub open spec fn select_outcome(ls: Seq<Listing>, today: SimpleDate, r: Option<Selection>) -> bool {
    if ls.len() == 0 {
        r is None
    } else if ls.len() == 1 {
        r == Some(Selection::Current(ls[0]))
    } else if exists|i: int| #[trigger] first_covering(ls, today, i) {
        exists|i: int| #[trigger] first_covering(ls, today, i) && r == Some(Selection::Current(ls[i]))
    } else if exists|i: int| 0 <= i < ls.len() && starts_after(#[trigger] ls[i], today) {
        exists|i: int|
            #[trigger] earliest_upcoming(ls, today, i) && r == Some(Selection::UpcomingOnly(ls[i]))
    } else {
        r is None
    }
}

/// Decide which listing is current as of `today`, by the validity windows
/// parsed off the page, never by the page's own labels.
pub fn select(listings: &[Listing], today: SimpleDate) -> (r: Option<Selection>)
    ensures
        select_outcome(listings@, today, r),
{
    let ls = listings;
    if ls.len() == 0 {
        return None;
    }
    if ls.len() == 1 {
        return Some(Selection::Current(ls[0].duplicate()));
    }
    let mut i: usize = 0;
    while i < ls.len()
        invariant
            i <= ls@.len(),
            ls@ == listings@,
            ls@.len() >= 2,
            forall|j: int| 0 <= j < i ==> !covers(#[trigger] ls@[j], today),
        decreases ls.len() - i,
    {
        let hit = match &ls[i].aviation_valid {
            Some(v) => v.contains(today),
            None => false,
        };
        if hit {
            assert(first_covering(ls@, today, i as int));
            return Some(Selection::Current(ls[i].duplicate()));
        }
        i += 1;
    }
    assert(!exists|i: int| first_covering(ls@, today, i)) by {
        assert forall|k: int| !first_covering(ls@, today, k) by {}
    }
    let mut best: Option<usize> = None;
    let mut i: usize = 0;
    while i < ls.len()
        invariant
            i <= ls@.len(),
            ls@ == listings@,
            best matches Some(b) ==> b < i && earliest_upcoming(ls@.take(i as int), today, b as int),
            best is None ==> forall|j: int| 0 <= j < i ==> !starts_after(#[trigger] ls@[j], today),
        decreases ls.len() - i,
    {
        let ghost prev = ls@.take(i as int);
        assert(ls@.take(i + 1) =~= prev.push(ls@[i as int]));
        if let Some(v) = &ls[i].aviation_valid {
            if date_less(today, v.start) {
                match best {
                    None => {
                        best = Some(i);
                    },
                    Some(b) => {
                        let bs = match &ls[b].aviation_valid {
                            Some(bv) => bv.start,
                            None => v.start,
                        };
                        if date_less(v.start, bs) {
                            best = Some(i);
                        }
                    },
                }
            }
        }
        proof {
            let cur = ls@.take(i + 1);
            match best {
                Some(b) => {
                    assert forall|j: int|
                        0 <= j < cur.len() && starts_after(#[trigger] cur[j], today) implies date_le(
                        valid_start(cur[b as int]),
                        valid_start(cur[j]),
                    ) by {
                        if j < i {
                            assert(cur[j] == prev[j]);
                        }
                    }
                    assert forall|j: int| 0 <= j < b && starts_after(#[trigger] cur[j], today) implies date_lt(
                        valid_start(cur[b as int]),
                        valid_start(cur[j]),
                    ) by {
                        assert(cur[j] == prev[j]);
                    }
                },
                None => {},
            }
        }
        i += 1;
    }
    assert(ls@.take(ls@.len() as int) =~= ls@);
    match best {
        Some(b) => Some(Selection::UpcomingOnly(ls[b].duplicate())),
        None => None,
    }
}

// ---------------------------------------------------------------------------
// Comments
// ---------------------------------------------------------------------------

/// The first occurrence of `t` in `s` at or after `i`.
pub open spec fn first_at(s: Seq<char>, t: Seq<char>, i: int) -> Option<int>
    decreases s.len() - i,
{
    if i < 0 || i >= s.len() || i + t.len() > s.len() {
        None
    } else if occurs_at(s, t, i) {
        Some(i)
    } else {
        first_at(s, t, i + 1)
    }
}

pub proof fn lemma_first_at(s: Seq<char>, t: Seq<char>, i: int)
    requires
        0 <= i,
    ensures
        first_at(s, t, i) matches Some(j) ==> i <= j && j + t.len() <= s.len() && occurs_at(s, t, j),
        first_at(s, t, i) matches Some(j) ==> forall|k: int| i <= k < j ==> !occurs_at(s, t, k),
        t.len() > 0 && first_at(s, t, i) is None ==> forall|k: int| i <= k ==> !occurs_at(s, t, k),
    decreases s.len() - i,
{
    if i >= s.len() || i + t.len() > s.len() {
    } else if occurs_at(s, t, i) {
    } else {
        lemma_first_at(s, t, i + 1);
    }
}

pub open spec fn comment_open() -> Seq<char> {
    seq!['<', '!', '-', '-']
}

pub open spec fn comment_close() -> Seq<char> {
    seq!['-', '-', '>']
}

/// `s[i..]` with every `<!-- ... -->` removed; an unclosed comment runs to the end.
pub open spec fn strip_comments_from(s: Seq<char>, i: int) -> Seq<char>
    decreases s.len() - i,
{
    if i < 0 || i > s.len() {
        Seq::empty()
    } else {
        match first_at(s, comment_open(), i) {
            None => s.subrange(i, s.len() as int),
            Some(a) => match first_at(s, comment_close(), a) {
                None => s.subrange(i, a),
                Some(b) => {
                    proof {
                        lemma_first_at(s, comment_open(), i);
                        lemma_first_at(s, comment_close(), a);
                    }
                    s.subrange(i, a) + strip_comments_from(s, b + 3)
                },
            },
        }
    }
}

/// The page with its HTML comments removed.
pub open spec fn strip_comments(s: Seq<char>) -> Seq<char> {
    strip_comments_from(s, 0)
}

fn find_from(s: &Vec<char>, t: &[char], i: usize) -> (r: Option<usize>)
    requires
        i <= s@.len(),
        s@.len() < usize::MAX,
    ensures
        r matches Some(j) ==> first_at(s@, t@, i as int) == Some(j as int),
        r is None ==> first_at(s@, t@, i as int) is None,
{
    let mut k = i;
    while k <= s.len()
        invariant
            i <= k,
            k <= s@.len() + 1,
            s@.len() < usize::MAX,
            first_at(s@, t@, k as int) == first_at(s@, t@, i as int),
        decreases s.len() + 1 - k,
    {
        if k >= s.len() || t.len() > s.len() - k {
            return None;
        }
        if matches_at(s, t, k) {
            return Some(k);
        }
        k += 1;
    }
    None
}

fn strip_html_comments(s: &Vec<char>) -> (r: Vec<char>)
    requires
        s@.len() < usize::MAX - 3,
    ensures
        r@ == strip_comments(s@),
{
    let open = ['<', '!', '-', '-'];
    let close = ['-', '-', '>'];
    assert(open@ =~= comment_open());
    assert(close@ =~= comment_close());
    let mut out: Vec<char> = Vec::new();
    let mut i: usize = 0;
    loop
        invariant
            i <= s@.len(),
            s@.len() < usize::MAX - 3,
            open@ == comment_open(),
            close@ == comment_close(),
            strip_comments(s@) == out@ + strip_comments_from(s@, i as int),
        decreases s@.len() - i,
    {
        let ghost before = out@;
        proof {
            lemma_first_at(s@, comment_open(), i as int);
        }
        match find_from(s, &open, i) {
            None => {
                push_range(&mut out, s, i, s.len());
                return out;
            },
            Some(a) => {
                proof {
                    lemma_first_at(s@, comment_close(), a as int);
                }
                match find_from(s, &close, a) {
                    None => {
                        push_range(&mut out, s, i, a);
                        return out;
                    },
                    Some(b) => {
                        push_range(&mut out, s, i, a);
                        assert(before + (s@.subrange(i as int, a as int) + strip_comments_from(s@, b + 3)) =~= out@ + strip_comments_from(s@, b + 3));
                        i = b + 3;
                    },
                }
            },
        }
    }
}

fn push_range(out: &mut Vec<char>, s: &Vec<char>, lo: usize, hi: usize)
    requires
        lo <= hi <= s@.len(),
    ensures
        final(out)@ == old(out)@ + s@.subrange(lo as int, hi as int),
{
    let ghost start = out@;
    let mut i = lo;
    while i < hi
        invariant
            lo <= i <= hi <= s@.len(),
            out@ == start + s@.subrange(lo as int, i as int),
        decreases hi - i,
    {
        out.push(s[i]);
        i += 1;
        assert(out@ =~= start + s@.subrange(lo as int, i as int));
    }
}

// ---------------------------------------------------------------------------
// Download links: href="….duc"
// ---------------------------------------------------------------------------

/// Where a pattern matched: its start, and the bounds of its capture.
#[derive(Clone, Copy)]
pub struct Span {
    pub start: usize,
    pub lo: usize,
    pub hi: usize,
}

pub open spec fn href_open() -> Seq<char> {
    seq!['h', 'r', 'e', 'f', '=', '"']
}

pub open spec fn duc_suffix() -> Seq<char> {
    seq!['.', 'd', 'u', 'c']
}

/// The first `"` at or after `i`, or the end.
pub open spec fn next_quote(s: Seq<char>, i: int) -> int
    decreases s.len() - i,
{
    if 0 <= i < s.len() && s[i] != '"' {
        next_quote(s, i + 1)
    } else {
        i
    }
}

pub proof fn lemma_next_quote(s: Seq<char>, i: int)
    requires
        0 <= i <= s.len(),
    ensures
        i <= next_quote(s, i) <= s.len(),
        forall|k: int| i <= k < next_quote(s, i) ==> s[k] != '"',
        next_quote(s, i) < s.len() ==> s[next_quote(s, i)] == '"',
    decreases s.len() - i,
{
    if i < s.len() && s[i] != '"' {
        lemma_next_quote(s, i + 1);
    }
}

/// A download link starting at `i`: `href="`, then one or more characters
/// other than `"` ending in `.duc`, then `"`. The capture is the link itself.
pub open spec fn href_at(s: Seq<char>, i: int) -> Option<Span> {
    if 0 <= i && occurs_at(s, href_open(), i) {
        let q = next_quote(s, i + 6);
        if q < s.len() && q - (i + 6) >= 5 && occurs_at(s, duc_suffix(), q - 4) {
            Some(Span { start: i as usize, lo: (i + 6) as usize, hi: q as usize })
        } else {
            None
        }
    } else {
        None
    }
}

/// Every download link in `s[i..]`, leftmost first, each search resuming
/// after the previous link's closing quote.
pub open spec fn hrefs_from(s: Seq<char>, i: int) -> Seq<Span>
    decreases s.len() - i,
{
    if i < 0 || i >= s.len() {
        Seq::empty()
    } else {
        match href_at(s, i) {
            Some(sp) => {
                proof {
                    lemma_next_quote(s, i + 6);
                }
                if sp.hi + 1 > i {
                    seq![sp] + hrefs_from(s, sp.hi + 1)
                } else {
                    Seq::empty()
                }
            },
            None => hrefs_from(s, i + 1),
        }
    }
}

fn href_at_exec(s: &Vec<char>, i: usize) -> (r: Option<Span>)
    requires
        i < s@.len(),
        s@.len() < usize::MAX - 8,
    ensures
        r == href_at(s@, i as int),
{
    let open = ['h', 'r', 'e', 'f', '=', '"'];
    assert(open@ =~= href_open());
    if !matches_at(s, &open, i) {
        return None;
    }
    let mut q = i + 6;
    proof {
        lemma_next_quote(s@, i + 6);
    }
    while q < s.len() && s[q] != '"'
        invariant
            i + 6 <= q <= s@.len(),
            next_quote(s@, q as int) == next_quote(s@, i + 6),
        decreases s.len() - q,
    {
        q += 1;
    }
    let duc = ['.', 'd', 'u', 'c'];
    assert(duc@ =~= duc_suffix());
    if q < s.len() && q - (i + 6) >= 5 && matches_at(s, &duc, q - 4) {
        Some(Span { start: i, lo: i + 6, hi: q })
    } else {
        None
    }
}

fn find_hrefs(s: &Vec<char>) -> (r: Vec<Span>)
    requires
        s@.len() < usize::MAX - 8,
    ensures
        r@ == hrefs_from(s@, 0),
{
    let mut out: Vec<Span> = Vec::new();
    let mut i: usize = 0;
    while i < s.len()
        invariant
            i <= s@.len() + 1,
            s@.len() < usize::MAX - 8,
            hrefs_from(s@, 0) == out@ + hrefs_from(s@, i as int),
        decreases s.len() - i,
    {
        match href_at_exec(s, i) {
            Some(sp) => {
                proof {
                    lemma_next_quote(s@, i + 6);
                    assert(out@ + (seq![sp] + hrefs_from(s@, sp.hi + 1)) =~= out@.push(sp) + hrefs_from(s@, sp.hi + 1));
                }
                out.push(sp);
                i = sp.hi + 1;
            },
            None => {
                i += 1;
            },
        }
    }
    assert(hrefs_from(s@, i as int) =~= Seq::<Span>::empty());
    assert(out@ + Seq::<Span>::empty() =~= out@);
    out
}

// ---------------------------------------------------------------------------
// Validity lines: Valid: <dates> (Cycle: <digits>)
// ---------------------------------------------------------------------------

/// Where a validity line matched: its start, the raw dates text, the cycle
/// digits and the position just after the closing `)`.
#[derive(Clone, Copy)]
pub struct ValidSpan {
    pub start: usize,
    pub text_lo: usize,
    pub text_hi: usize,
    pub dig_lo: usize,
    pub dig_hi: usize,
    pub end: usize,
}

pub open spec fn valid_open() -> Seq<char> {
    seq!['V', 'a', 'l', 'i', 'd', ':']
}

pub open spec fn cycle_open() -> Seq<char> {
    seq!['(', 'C', 'y', 'c', 'l', 'e', ':']
}

/// The first `(` or `<` at or after `i`, or the end.
pub open spec fn next_stop(s: Seq<char>, i: int) -> int
    decreases s.len() - i,
{
    if 0 <= i < s.len() && s[i] != '(' && s[i] != '<' {
        next_stop(s, i + 1)
    } else {
        i
    }
}

pub proof fn lemma_next_stop(s: Seq<char>, i: int)
    requires
        0 <= i <= s.len(),
    ensures
        i <= next_stop(s, i) <= s.len(),
    decreases s.len() - i,
{
    if i < s.len() && s[i] != '(' && s[i] != '<' {
        lemma_next_stop(s, i + 1);
    }
}

pub open spec fn all_decimal(s: Seq<char>, lo: int, hi: int) -> bool {
    forall|k: int| lo <= k < hi ==> is_decimal(#[trigger] s[k])
}

/// A validity line starting at `i`: `Valid:`, then dates — at least one
/// character other than `(` and `<`, whitespace around it allowed — then
/// `(Cycle:`, optional whitespace, three or four decimal digits (four when
/// four are followed by `)`), and `)`. The dates are `s[text_lo..text_hi]`
/// before trimming.
pub open spec fn valid_at(s: Seq<char>, i: int) -> Option<ValidSpan> {
    if 0 <= i && occurs_at(s, valid_open(), i) {
        let j0 = i + 6;
        let p = next_stop(s, j0);
        if p < s.len() && s[p] == '(' && p > j0 && occurs_at(s, cycle_open(), p) {
            let r = skip_white(s, p + 7);
            if r + 5 <= s.len() && all_decimal(s, r, r + 4) && s[r + 4] == ')' {
                Some(
                    ValidSpan {
                        start: i as usize,
                        text_lo: j0 as usize,
                        text_hi: p as usize,
                        dig_lo: r as usize,
                        dig_hi: (r + 4) as usize,
                        end: (r + 5) as usize,
                    },
                )
            } else if r + 4 <= s.len() && all_decimal(s, r, r + 3) && s[r + 3] == ')' {
                Some(
                    ValidSpan {
                        start: i as usize,
                        text_lo: j0 as usize,
                        text_hi: p as usize,
                        dig_lo: r as usize,
                        dig_hi: (r + 3) as usize,
                        end: (r + 4) as usize,
                    },
                )
            } else {
                None
            }
        } else {
            None
        }
    } else {
        None
    }
}

/// Every validity line in `s[i..]`, leftmost first, each search resuming
/// after the previous line's `)`.
pub open spec fn valids_from(s: Seq<char>, i: int) -> Seq<ValidSpan>
    decreases s.len() - i,
{
    if i < 0 || i >= s.len() {
        Seq::empty()
    } else {
        match valid_at(s, i) {
            Some(v) => if i < v.end <= s.len() {
                seq![v] + valids_from(s, v.end as int)
            } else {
                Seq::empty()
            },
            None => valids_from(s, i + 1),
        }
    }
}

pub proof fn lemma_valid_at(s: Seq<char>, i: int)
    requires
        0 <= i < s.len(),
        s.len() < usize::MAX - 8,
    ensures
        valid_at(s, i) matches Some(v) ==> i < v.start + 6 <= v.text_hi < v.dig_lo <= v.dig_hi < v.end <= s.len()
            && v.start == i && v.text_lo == i + 6,
{
    if occurs_at(s, valid_open(), i) {
        lemma_next_stop(s, i + 6);
        let p = next_stop(s, i + 6);
        if p < s.len() && p + 7 <= s.len() {
            lemma_skip_white(s, p + 7);
        }
    }
}

fn all_decimal_exec(s: &Vec<char>, lo: usize, hi: usize) -> (r: bool)
    requires
        lo <= hi <= s@.len(),
    ensures
        r == all_decimal(s@, lo as int, hi as int),
{
    let mut k = lo;
    while k < hi
        invariant
            lo <= k <= hi <= s@.len(),
            all_decimal(s@, lo as int, k as int),
        decreases hi - k,
    {
        if !decimal(s[k]) {
            return false;
        }
        k += 1;
    }
    true
}

fn valid_at_exec(s: &Vec<char>, i: usize) -> (r: Option<ValidSpan>)
    requires
        i < s@.len(),
        s@.len() < usize::MAX - 8,
    ensures
        r == valid_at(s@, i as int),
{
    let open = ['V', 'a', 'l', 'i', 'd', ':'];
    assert(open@ =~= valid_open());
    if !matches_at(s, &open, i) {
        return None;
    }
    let j0 = i + 6;
    let mut p = j0;
    proof {
        lemma_next_stop(s@, j0 as int);
    }
    while p < s.len() && s[p] != '(' && s[p] != '<'
        invariant
            j0 <= p <= s@.len(),
            next_stop(s@, p as int) == next_stop(s@, j0 as int),
        decreases s.len() - p,
    {
        p += 1;
    }
    let cyc = ['(', 'C', 'y', 'c', 'l', 'e', ':'];
    assert(cyc@ =~= cycle_open());
    if !(p < s.len() && s[p] == '(' && p > j0 && matches_at(s, &cyc, p)) {
        return None;
    }
    let r = skip_white_from(s, p + 7);
    if r <= s.len() && s.len() - r >= 5 && all_decimal_exec(s, r, r + 4) && s[r + 4] == ')' {
        Some(ValidSpan { start: i, text_lo: j0, text_hi: p, dig_lo: r, dig_hi: r + 4, end: r + 5 })
    } else if r <= s.len() && s.len() - r >= 4 && all_decimal_exec(s, r, r + 3) && s[r + 3] == ')' {
        Some(ValidSpan { start: i, text_lo: j0, text_hi: p, dig_lo: r, dig_hi: r + 3, end: r + 4 })
    } else {
        None
    }
}

fn find_valids(s: &Vec<char>) -> (r: Vec<ValidSpan>)
    requires
        s@.len() < usize::MAX - 8,
    ensures
        r@ == valids_from(s@, 0),
{
    let mut out: Vec<ValidSpan> = Vec::new();
    let mut i: usize = 0;
    while i < s.len()
        invariant
            i <= s@.len(),
            s@.len() < usize::MAX - 8,
            valids_from(s@, 0) == out@ + valids_from(s@, i as int),
        decreases s.len() - i,
    {
        match valid_at_exec(s, i) {
            Some(v) => {
                proof {
                    lemma_valid_at(s@, i as int);
                    assert(out@ + (seq![v] + valids_from(s@, v.end as int)) =~= out@.push(v) + valids_from(s@, v.end as int));
                }
                out.push(v);
                i = v.end;
            },
            None => {
                i += 1;
            },
        }
    }
    assert(valids_from(s@, i as int) =~= Seq::<ValidSpan>::empty());
    assert(out@ + Seq::<ValidSpan>::empty() =~= out@);
    out
}

// ---------------------------------------------------------------------------
// Reading what the patterns captured
// ---------------------------------------------------------------------------

/// A cycle from the digits after `Cycle:`: exactly four ASCII digits, the
/// last two a cycle number 1–13.
pub open spec fn spec_cycle_from_digits(d: Seq<char>) -> Option<Cycle> {
    if d.len() == 4 && is_ascii_digit(d[0]) && is_ascii_digit(d[1]) && is_ascii_digit(d[2])
        && is_ascii_digit(d[3]) {
        let number = digit_value(d[2]) * 10 + digit_value(d[3]);
        if 1 <= number <= 13 {
            Some(
                Cycle {
                    year: (2000 + digit_value(d[0]) * 10 + digit_value(d[1])) as u16,
                    number: number as u8,
                },
            )
        } else {
            None
        }
    } else {
        None
    }
}

/// Cycle digits that cannot be read: two ASCII digits around one two-byte
/// digit, so that cutting the text after its second byte falls inside a
/// character.
pub open spec fn digits_split_mid_char(d: Seq<char>) -> bool {
    &&& d.len() == 3
    &&& is_ascii_digit(d[0])
    &&& is_ascii_digit(d[2])
    &&& 0x80 <= (d[1] as u32) < 0x800
}

fn cycle_from_digits(s: &Vec<char>, lo: usize, hi: usize) -> (r: Option<Cycle>)
    requires
        lo <= hi <= s@.len(),
    ensures
        r == spec_cycle_from_digits(s@.subrange(lo as int, hi as int)),
{
    let ghost d = s@.subrange(lo as int, hi as int);
    if hi - lo != 4 {
        return None;
    }
    assert(d[0] == s@[lo as int] && d[1] == s@[lo + 1] && d[2] == s@[lo + 2] && d[3] == s@[lo + 3]);
    if !(ascii_digit(s[lo]) && ascii_digit(s[lo + 1]) && ascii_digit(s[lo + 2]) && ascii_digit(
        s[lo + 3],
    )) {
        return None;
    }
    let a = (s[lo] as u32 - '0' as u32) as u16;
    let b = (s[lo + 1] as u32 - '0' as u32) as u16;
    let c = (s[lo + 2] as u32 - '0' as u32) as u8;
    let e = (s[lo + 3] as u32 - '0' as u32) as u8;
    let number = c * 10 + e;
    if 1 <= number && number <= 13 {
        Some(Cycle { year: 2000 + a * 10 + b, number })
    } else {
        None
    }
}

/// The month a full English month name names, in any case.
pub open spec fn spec_month_number(w: Seq<char>) -> Option<u8> {
    let l = lower_seq(w);
    if l == "january"@ {
        Some(1)
    } else if l == "february"@ {
        Some(2)
    } else if l == "march"@ {
        Some(3)
    } else if l == "april"@ {
        Some(4)
    } else if l == "may"@ {
        Some(5)
    } else if l == "june"@ {
        Some(6)
    } else if l == "july"@ {
        Some(7)
    } else if l == "august"@ {
        Some(8)
    } else if l == "september"@ {
        Some(9)
    } else if l == "october"@ {
        Some(10)
    } else if l == "november"@ {
        Some(11)
    } else if l == "december"@ {
        Some(12)
    } else {
        None
    }
}

/// The months of the year, in order, as English names.
pub open spec fn month_names() -> Seq<Seq<char>> {
    seq![
        "january"@,
        "february"@,
        "march"@,
        "april"@,
        "may"@,
        "june"@,
        "july"@,
        "august"@,
        "september"@,
        "october"@,
        "november"@,
        "december"@,
    ]
}

proof fn lemma_lower_is_lower(s: Seq<char>)
    requires
        forall|k: int| 0 <= k < s.len() ==> 'a' <= #[trigger] s[k] <= 'z',
    ensures
        lower_seq(s) == s,
{
    assert(lower_seq(s) =~= s);
}

/// Every month of the year, named in full, reads as its number in the
/// calendar, whatever its case; a name reads as a month only when it is one
/// of the twelve, and then as that month's number.
pub proof fn law_month_names_read_as_their_number(w: Seq<char>)
    ensures
        forall|m: int|
            1 <= m <= 12 ==> spec_month_number(#[trigger] month_names()[m - 1]) == Some(m as u8),
        spec_month_number(lower_seq(w)) == spec_month_number(w),
        spec_month_number(upper_seq(w)) == spec_month_number(w),
        spec_month_number(w) matches Some(m) ==> 1 <= m <= 12 && lower_seq(w) == month_names()[m - 1],
{
    reveal_strlit("january");
    reveal_strlit("february");
    reveal_strlit("march");
    reveal_strlit("april");
    reveal_strlit("may");
    reveal_strlit("june");
    reveal_strlit("july");
    reveal_strlit("august");
    reveal_strlit("september");
    reveal_strlit("october");
    reveal_strlit("november");
    reveal_strlit("december");
    let names = month_names();
    assert forall|m: int| 1 <= m <= 12 implies spec_month_number(#[trigger] names[m - 1]) == Some(
        m as u8,
    ) by {
        let n = names[m - 1];
        lemma_lower_is_lower(n);
        assert(lower_seq(n) == n);
        if m != 1 {
            assert(n.len() != "january"@.len() || n[0] != "january"@[0] || n[2] != "january"@[2]);
        }
        if m != 2 {
            assert(n.len() != "february"@.len() || n[0] != "february"@[0] || n[2] != "february"@[2]);
        }
        if m != 3 {
            assert(n.len() != "march"@.len() || n[0] != "march"@[0] || n[2] != "march"@[2]);
        }
        if m != 4 {
            assert(n.len() != "april"@.len() || n[0] != "april"@[0] || n[2] != "april"@[2]);
        }
        if m != 5 {
            assert(n.len() != "may"@.len() || n[0] != "may"@[0] || n[2] != "may"@[2]);
        }
        if m != 6 {
            assert(n.len() != "june"@.len() || n[0] != "june"@[0] || n[2] != "june"@[2]);
        }
        if m != 7 {
            assert(n.len() != "july"@.len() || n[0] != "july"@[0] || n[2] != "july"@[2]);
        }
        if m != 8 {
            assert(n.len() != "august"@.len() || n[0] != "august"@[0] || n[2] != "august"@[2]);
        }
        if m != 9 {
            assert(n.len() != "september"@.len() || n[0] != "september"@[0] || n[2] != "september"@[2]);
        }
        if m != 10 {
            assert(n.len() != "october"@.len() || n[0] != "october"@[0] || n[2] != "october"@[2]);
        }
        if m != 11 {
            assert(n.len() != "november"@.len() || n[0] != "november"@[0] || n[2] != "november"@[2]);
        }
    }
    assert(lower_seq(lower_seq(w)) =~= lower_seq(w));
    assert forall|k: int| 0 <= k < w.len() implies #[trigger] lower(upper(w[k])) == lower(w[k]) by {
        let c = w[k];
        if 'a' <= c && c <= 'z' {
            assert((((c as u32) - 32) as char) as u32 == (c as u32) - 32);
        }
    }
    assert(lower_seq(upper_seq(w)) =~= lower_seq(w));
}

fn month_number(w: &[char]) -> (r: Option<u8>)
    ensures
        r == spec_month_number(w@),
{
    let l = lowercase(w);
    if same(&l, &chars_of("january")) {
        Some(1)
    } else if same(&l, &chars_of("february")) {
        Some(2)
    } else if same(&l, &chars_of("march")) {
        Some(3)
    } else if same(&l, &chars_of("april")) {
        Some(4)
    } else if same(&l, &chars_of("may")) {
        Some(5)
    } else if same(&l, &chars_of("june")) {
        Some(6)
    } else if same(&l, &chars_of("july")) {
        Some(7)
    } else if same(&l, &chars_of("august")) {
        Some(8)
    } else if same(&l, &chars_of("september")) {
        Some(9)
    } else if same(&l, &chars_of("october")) {
        Some(10)
    } else if same(&l, &chars_of("november")) {
        Some(11)
    } else if same(&l, &chars_of("december")) {
        Some(12)
    } else {
        None
    }
}

/// The end of `w` once trailing commas are dropped.
pub open spec fn comma_back(w: Seq<char>, e: int) -> int
    decreases e,
{
    if 0 < e <= w.len() && w[e - 1] == ',' {
        comma_back(w, e - 1)
    } else {
        e
    }
}

/// "August 6": the first word a month name, the second a day number (with
/// any trailing commas dropped) that fits in a `u8`.
pub open spec fn spec_month_day(t: Seq<char>, year: i32) -> Option<SimpleDate> {
    let a = skip_white(t, 0);
    let b = skip_word(t, a);
    let c = skip_white(t, b);
    let e = skip_word(t, c);
    if a >= t.len() || c >= t.len() {
        None
    } else {
        match spec_month_number(t.subrange(a, b)) {
            None => None,
            Some(month) => {
                let w = t.subrange(c, e);
                match parse_unsigned(w.subrange(0, comma_back(w, w.len() as int)), 255) {
                    None => None,
                    Some(day) => Some(SimpleDate { year, month, day: day as u8 }),
                }
            },
        }
    }
}

proof fn lemma_word_run(s: Seq<char>, i: int, j: int)
    requires
        0 <= i <= j <= s.len(),
        forall|k: int| i <= k < j ==> !is_white(#[trigger] s[k]),
        j == s.len() || is_white(s[j]),
    ensures
        skip_word(s, i) == j,
    decreases j - i,
{
    if i < j {
        lemma_word_run(s, i + 1, j);
    }
}

proof fn lemma_white_run(s: Seq<char>, i: int, j: int)
    requires
        0 <= i <= j <= s.len(),
        forall|k: int| i <= k < j ==> is_white(#[trigger] s[k]),
        j == s.len() || !is_white(s[j]),
    ensures
        skip_white(s, i) == j,
    decreases j - i,
{
    if i < j {
        lemma_white_run(s, i + 1, j);
    }
}

/// "<Month> <day>" reads as that day of that month: every month of the
/// year, named in full, followed by a space and a day written in ASCII
/// digits, gives the date with the month's number and the day's value.
pub proof fn law_a_month_and_day_read_as_a_date(m: int, day: Seq<char>, year: i32)
    requires
        1 <= m <= 12,
        day.len() > 0,
        all_ascii_digits(day),
        digits_value(day) <= 255,
    ensures
        spec_month_day(month_names()[m - 1] + seq![' '] + day, year) == Some(
            SimpleDate { year, month: m as u8, day: digits_value(day) as u8 },
        ),
{
    law_month_names_read_as_their_number(month_names()[m - 1]);
    reveal_strlit("january");
    reveal_strlit("february");
    reveal_strlit("march");
    reveal_strlit("april");
    reveal_strlit("may");
    reveal_strlit("june");
    reveal_strlit("july");
    reveal_strlit("august");
    reveal_strlit("september");
    reveal_strlit("october");
    reveal_strlit("november");
    reveal_strlit("december");
    let name = month_names()[m - 1];
    assert(forall|k: int| 0 <= k < name.len() ==> 'a' <= #[trigger] name[k] <= 'z');
    let t = name + seq![' '] + day;
    let n = name.len() as int;
    assert forall|k: int| 0 <= k < n implies !is_white(#[trigger] t[k]) by {
        assert(t[k] == name[k]);
    }
    assert(t[n] == ' ');
    assert forall|k: int| n + 1 <= k < t.len() implies !is_white(#[trigger] t[k]) by {
        assert(t[k] == day[k - n - 1]);
        assert(is_ascii_digit(day[k - n - 1]));
    }
    lemma_white_run(t, 0, 0);
    lemma_word_run(t, 0, n);
    assert forall|k: int| n <= k < n + 1 implies is_white(#[trigger] t[k]) by {}
    lemma_white_run(t, n, n + 1);
    lemma_word_run(t, n + 1, t.len() as int);
    assert(t.subrange(0, n) =~= name);
    let w = t.subrange(n + 1, t.len() as int);
    assert(w =~= day);
    assert(is_ascii_digit(day.last()));
    assert(comma_back(w, w.len() as int) == w.len());
    assert(w.subrange(0, w.len() as int) =~= day);
    assert(is_ascii_digit(day[0]));
}

proof fn lemma_comma_back(w: Seq<char>, e: int)
    requires
        0 <= e <= w.len(),
    ensures
        0 <= comma_back(w, e) <= e,
    decreases e,
{
    if 0 < e && w[e - 1] == ',' {
        lemma_comma_back(w, e - 1);
    }
}

fn parse_month_day(t: &Vec<char>, year: i32) -> (r: Option<SimpleDate>)
    ensures
        r == spec_month_day(t@, year),
{
    let a = skip_white_from(t, 0);
    let b = skip_word_from(t, a);
    let c = skip_white_from(t, b);
    let e = skip_word_from(t, c);
    if a >= t.len() || c >= t.len() {
        return None;
    }
    let first = copy_range(t, a, b);
    let month = match month_number(&first) {
        None => {
            return None;
        },
        Some(m) => m,
    };
    let w = copy_range(t, c, e);
    let mut k = w.len();
    proof {
        lemma_comma_back(w@, k as int);
    }
    while k > 0 && w[k - 1] == ','
        invariant
            k <= w@.len(),
            comma_back(w@, k as int) == comma_back(w@, w@.len() as int),
        decreases k,
    {
        k -= 1;
    }
    match parse_unsigned_in(&w, 0, k, 255) {
        None => None,
        Some(day) => Some(SimpleDate { year, month, day: day as u8 }),
    }
}

/// The validity window read from the dates text and the cycle digits: the
/// year comes from the first two digits, the two dates from either side of
/// the first `-`, and an end month before the start month moves the end into
/// the next year.
pub open spec fn spec_parse_validity(text: Seq<char>, d: Seq<char>) -> Option<(SimpleDate, SimpleDate)> {
    if !(d.len() >= 2 && is_ascii_digit(d[0]) && is_ascii_digit(d[1])) {
        None
    } else {
        let year = (2000 + digit_value(d[0]) * 10 + digit_value(d[1])) as i32;
        match first_at(text, seq!['-'], 0) {
            None => None,
            Some(m) => match (
                spec_month_day(trim(text.subrange(0, m)), year),
                spec_month_day(trim(text.subrange(m + 1, text.len() as int)), year),
            ) {
                (Some(start), Some(end)) => Some(
                    (
                        start,
                        if end.month < start.month {
                            SimpleDate { year: (end.year + 1) as i32, month: end.month, day: end.day }
                        } else {
                            end
                        },
                    ),
                ),
                _ => None,
            },
        }
    }
}

fn parse_validity(text: &Vec<char>, s: &Vec<char>, dlo: usize, dhi: usize) -> (r: Option<Validity>)
    requires
        dlo <= dhi <= s@.len(),
        text@.len() < usize::MAX - 8,
    ensures
        match spec_parse_validity(text@, s@.subrange(dlo as int, dhi as int)) {
            None => r is None,
            Some((start, end)) => r matches Some(v) && v.start == start && v.end == end && v.text@ == text@,
        },
{
    let ghost d = s@.subrange(dlo as int, dhi as int);
    if !(dhi - dlo >= 2 && ascii_digit(s[dlo]) && ascii_digit(s[dlo + 1])) {
        assert(dhi - dlo >= 2 ==> d[0] == s@[dlo as int] && d[1] == s@[dlo + 1]);
        return None;
    }
    assert(d[0] == s@[dlo as int] && d[1] == s@[dlo + 1]);
    let y = (s[dlo] as u32 - '0' as u32) as i32 * 10 + (s[dlo + 1] as u32 - '0' as u32) as i32;
    let year = 2000 + y;
    let dash = ['-'];
    assert(dash@ =~= seq!['-']);
    let m = match find_from(text, &dash, 0) {
        None => {
            return None;
        },
        Some(m) => m,
    };
    proof {
        lemma_first_at(text@, seq!['-'], 0);
    }
    let (a0, a1) = trim_bounds(text, 0, m);
    let left = copy_range(text, a0, a1);
    let (b0, b1) = trim_bounds(text, m + 1, text.len());
    let right = copy_range(text, b0, b1);
    let start = match parse_month_day(&left, year) {
        None => {
            return None;
        },
        Some(x) => x,
    };
    let mut end = match parse_month_day(&right, year) {
        None => {
            return None;
        },
        Some(x) => x,
    };
    if end.month < start.month {
        end = SimpleDate { year: end.year + 1, month: end.month, day: end.day };
    }
    let t = copy_range(text, 0, text.len());
    assert(t@ =~= text@);
    Some(Validity { start, end, text: string_from(t) })
}

// ---------------------------------------------------------------------------
// The page
// ---------------------------------------------------------------------------

/// Of the validity lines starting in `[lo, hi)`, from index `k` on, the
/// `n`-th (counting from 0).
pub open spec fn pick(vs: Seq<ValidSpan>, lo: int, hi: int, n: nat, k: int) -> Option<ValidSpan>
    decreases vs.len() - k,
{
    if k < 0 || k >= vs.len() {
        None
    } else if lo <= vs[k].start < hi {
        if n == 0 {
            Some(vs[k])
        } else {
            pick(vs, lo, hi, (n - 1) as nat, k + 1)
        }
    } else {
        pick(vs, lo, hi, n, k + 1)
    }
}

/// Link `k`'s block of the page runs from the previous link (or the page
/// start) up to the link itself.
pub open spec fn block_lo(hs: Seq<Span>, k: int) -> int {
    if k == 0 {
        0
    } else {
        hs[k - 1].start as int
    }
}

pub open spec fn nth_in_block(s: Seq<char>, k: int, n: nat) -> Option<ValidSpan> {
    let hs = hrefs_from(s, 0);
    pick(valids_from(s, 0), block_lo(hs, k), hs[k].start as int, n, 0)
}

pub open spec fn digits_of(s: Seq<char>, v: ValidSpan) -> Seq<char> {
    s.subrange(v.dig_lo as int, v.dig_hi as int)
}

pub open spec fn dates_of(s: Seq<char>, v: ValidSpan) -> Seq<char> {
    trim(s.subrange(v.text_lo as int, v.text_hi as int))
}

pub open spec fn cycle_of(s: Seq<char>, v: Option<ValidSpan>) -> Option<Cycle> {
    match v {
        Some(v) => spec_cycle_from_digits(digits_of(s, v)),
        None => None,
    }
}

pub open spec fn validity_of(s: Seq<char>, v: Option<ValidSpan>, x: Option<Validity>) -> bool {
    match v {
        None => x is None,
        Some(v) => match spec_parse_validity(dates_of(s, v), digits_of(s, v)) {
            None => x is None,
            Some((start, end)) => x matches Some(val) && val.start == start && val.end == end
                && val.text@ == dates_of(s, v),
        },
    }
}

/// Listing `k` of a comment-free page `s`: the `k`-th link, with the first
/// validity line of its block read as the aviation data and the second as
/// the obstacle data.
pub open spec fn listing_is(s: Seq<char>, k: int, l: Listing) -> bool {
    let h = hrefs_from(s, 0)[k];
    &&& l.href@ == s.subrange(h.lo as int, h.hi as int)
    &&& l.aviation_cycle == cycle_of(s, nth_in_block(s, k, 0))
    &&& l.obstacle_cycle == cycle_of(s, nth_in_block(s, k, 1))
    &&& validity_of(s, nth_in_block(s, k, 0), l.aviation_valid)
    &&& validity_of(s, nth_in_block(s, k, 1), l.obstacle_valid)
}

/// A page is readable when no block's aviation or obstacle cycle has its
/// digits split mid-character, where reading the cycle is not defined.
pub open spec fn page_readable(html: Seq<char>) -> bool {
    let s = strip_comments(html);
    forall|k: int, n: nat|
        0 <= k < hrefs_from(s, 0).len() && n < 2 ==> (#[trigger] nth_in_block(s, k, n) matches Some(
            v,
        ) ==> !digits_split_mid_char(digits_of(s, v)))
}

proof fn lemma_strip_len(s: Seq<char>, i: int)
    requires
        0 <= i <= s.len(),
    ensures
        strip_comments_from(s, i).len() <= s.len() - i,
    decreases s.len() - i,
{
    lemma_first_at(s, comment_open(), i);
    match first_at(s, comment_open(), i) {
        None => {},
        Some(a) => {
            lemma_first_at(s, comment_close(), a);
            match first_at(s, comment_close(), a) {
                None => {},
                Some(b) => {
                    if b + 3 <= s.len() {
                        lemma_strip_len(s, b + 3);
                    }
                },
            }
        },
    }
}

proof fn lemma_hrefs_bounds(s: Seq<char>, i: int)
    requires
        0 <= i,
        s.len() < usize::MAX - 8,
    ensures
        forall|k: int|
            0 <= k < hrefs_from(s, i).len() ==> {
                let h = #[trigger] hrefs_from(s, i)[k];
                i <= h.start && h.start + 6 == h.lo && h.lo <= h.hi < s.len()
            },
        forall|k: int, l: int|
            0 <= k < l < hrefs_from(s, i).len() ==> #[trigger] hrefs_from(s, i)[k].start
                < #[trigger] hrefs_from(s, i)[l].start,
    decreases s.len() - i,
{
    if i < s.len() {
        match href_at(s, i) {
            Some(sp) => {
                lemma_next_quote(s, i + 6);
                lemma_hrefs_bounds(s, sp.hi + 1);
                let rest = hrefs_from(s, sp.hi + 1);
                let all = hrefs_from(s, i);
                assert(all == seq![sp] + rest);
                assert(sp.start == i && sp.lo == i + 6 && sp.lo <= sp.hi < s.len());
                assert forall|k: int| 0 < k < all.len() implies #[trigger] all[k] == rest[k - 1] by {}
                assert forall|k: int| 0 <= k < all.len() implies ({
                    let h = #[trigger] all[k];
                    i <= h.start && h.start + 6 == h.lo && h.lo <= h.hi < s.len()
                }) by {
                    if k > 0 {
                        assert(all[k] == rest[k - 1]);
                    }
                }
                assert forall|k: int, l: int| 0 <= k < l < all.len() implies #[trigger] all[k].start
                    < #[trigger] all[l].start by {
                    assert(all[l] == rest[l - 1]);
                    if k > 0 {
                        assert(all[k] == rest[k - 1]);
                    }
                }
            },
            None => {
                lemma_hrefs_bounds(s, i + 1);
                assert(hrefs_from(s, i) == hrefs_from(s, i + 1));
            },
        }
    }
}

proof fn lemma_valids_bounds(s: Seq<char>, i: int)
    requires
        0 <= i,
        s.len() < usize::MAX - 8,
    ensures
        forall|k: int|
            0 <= k < valids_from(s, i).len() ==> {
                let v = #[trigger] valids_from(s, i)[k];
                i <= v.start && v.text_lo <= v.text_hi <= v.dig_lo <= v.dig_hi <= v.end <= s.len()
            },
    decreases s.len() - i,
{
    if i < s.len() {
        lemma_valid_at(s, i);
        match valid_at(s, i) {
            Some(v) => {
                lemma_valids_bounds(s, v.end as int);
                let rest = valids_from(s, v.end as int);
                let all = valids_from(s, i);
                assert(all == seq![v] + rest);
                assert forall|k: int| 0 <= k < all.len() implies ({
                    let w = #[trigger] all[k];
                    i <= w.start && w.text_lo <= w.text_hi <= w.dig_lo <= w.dig_hi <= w.end <= s.len()
                }) by {
                    if k > 0 {
                        assert(all[k] == rest[k - 1]);
                    }
                }
            },
            None => {
                lemma_valids_bounds(s, i + 1);
                assert(valids_from(s, i) == valids_from(s, i + 1));
            },
        }
    }
}

fn pick_exec(vs: &Vec<ValidSpan>, lo: usize, hi: usize, n: usize) -> (r: Option<ValidSpan>)
    ensures
        r == pick(vs@, lo as int, hi as int, n as nat, 0),
{
    let mut k: usize = 0;
    let mut left = n;
    while k < vs.len()
        invariant
            k <= vs@.len(),
            pick(vs@, lo as int, hi as int, left as nat, k as int) == pick(vs@, lo as int, hi as int, n as nat, 0),
        decreases vs.len() - k,
    {
        let v = vs[k];
        if lo <= v.start && v.start < hi {
            if left == 0 {
                return Some(v);
            }
            left -= 1;
        }
        k += 1;
    }
    None
}

fn read_block(s: &Vec<char>, v: Option<ValidSpan>) -> (r: (Option<Cycle>, Option<Validity>))
    requires
        s@.len() < usize::MAX - 8,
        v matches Some(v) ==> v.text_lo <= v.text_hi <= v.dig_lo <= v.dig_hi <= s@.len(),
    ensures
        r.0 == cycle_of(s@, v),
        validity_of(s@, v, r.1),
{
    match v {
        None => (None, None),
        Some(v) => {
            let cycle = cycle_from_digits(s, v.dig_lo, v.dig_hi);
            let (t0, t1) = trim_bounds(s, v.text_lo, v.text_hi);
            let text = copy_range(s, t0, t1);
            let valid = parse_validity(&text, s, v.dig_lo, v.dig_hi);
            (cycle, valid)
        },
    }
}

/// Checks, ahead of `parse_dynon_page`, that every cycle the page's listings
/// would carry can be read.
pub fn page_is_readable(html: &str) -> (r: bool)
    requires
        html@.len() < usize::MAX - 8,
    ensures
        r == page_readable(html@),
{
    let raw = chars_of(html);
    proof {
        lemma_strip_len(raw@, 0);
    }
    let s = strip_html_comments(&raw);
    let hs = find_hrefs(&s);
    let vs = find_valids(&s);
    proof {
        lemma_hrefs_bounds(s@, 0);
        lemma_valids_bounds(s@, 0);
    }
    let mut k: usize = 0;
    while k < hs.len()
        invariant
            k <= hs@.len(),
            s@ == strip_comments(html@),
            s@.len() < usize::MAX - 8,
            hs@ == hrefs_from(s@, 0),
            vs@ == valids_from(s@, 0),
            forall|j: int, n: nat|
                0 <= j < k && n < 2 ==> (#[trigger] nth_in_block(s@, j, n) matches Some(v)
                    ==> !digits_split_mid_char(digits_of(s@, v))),
        decreases hs.len() - k,
    {
        let lo = if k == 0 {
            0
        } else {
            hs[k - 1].start
        };
        let hi = hs[k].start;
        proof {
            lemma_valids_bounds(s@, 0);
        }
        let mut n: usize = 0;
        while n < 2
            invariant
                n <= 2,
                k < hs@.len(),
                s@ == strip_comments(html@),
                s@.len() < usize::MAX - 8,
                hs@ == hrefs_from(s@, 0),
                vs@ == valids_from(s@, 0),
                lo == block_lo(hs@, k as int),
                hi == hs@[k as int].start,
                forall|j: int, m: nat|
                    0 <= j < k && m < 2 ==> (#[trigger] nth_in_block(s@, j, m) matches Some(v)
                        ==> !digits_split_mid_char(digits_of(s@, v))),
                forall|m: nat| m < n ==> (#[trigger] nth_in_block(s@, k as int, m) matches Some(v)
                    ==> !digits_split_mid_char(digits_of(s@, v))),
            decreases 2 - n,
        {
            if let Some(v) = pick_exec(&vs, lo, hi, n) {
                proof {
                    lemma_pick_member(vs@, lo as int, hi as int, n as nat, 0);
                    lemma_valids_bounds(s@, 0);
                }
                if v.dig_hi - v.dig_lo == 3 {
                    let a = s[v.dig_lo];
                    let b = s[v.dig_lo + 1];
                    let c = s[v.dig_lo + 2];
                    assert(digits_of(s@, v)[0] == a && digits_of(s@, v)[1] == b && digits_of(s@, v)[2] == c);
                    let bu = b as u32;
                    if ascii_digit(a) && ascii_digit(c) && 0x80 <= bu && bu < 0x800 {
                        assert(nth_in_block(s@, k as int, n as nat) == Some(v));
                        assert(digits_split_mid_char(digits_of(s@, v)));
                        return false;
                    }
                }
            }
            n += 1;
        }
        k += 1;
    }
    true
}

proof fn lemma_pick_member(vs: Seq<ValidSpan>, lo: int, hi: int, n: nat, k: int)
    requires
        0 <= k,
    ensures
        pick(vs, lo, hi, n, k) matches Some(v) ==> exists|j: int| k <= j < vs.len() && vs[j] == v,
    decreases vs.len() - k,
{
    if k < vs.len() {
        if lo <= vs[k].start < hi {
            if n > 0 {
                lemma_pick_member(vs, lo, hi, (n - 1) as nat, k + 1);
            }
        } else {
            lemma_pick_member(vs, lo, hi, n, k + 1);
        }
    }
}

/// Every `.duc` download link on a Dynon aviation/obstacles page, with the
/// validity lines printed before it: the first line of its block is the
/// aviation data, the second the obstacle data. HTML comments are removed
/// first, so a commented-out table is never read as a live listing.
pub fn parse_dynon_page(html: &str) -> (r: Vec<Listing>)
    requires
        html@.len() < usize::MAX - 8,
        page_readable(html@),
    ensures
        r@.len() == hrefs_from(strip_comments(html@), 0).len(),
        forall|k: int| 0 <= k < r@.len() ==> listing_is(strip_comments(html@), k, #[trigger] r@[k]),
{
    let raw = chars_of(html);
    proof {
        lemma_strip_len(raw@, 0);
    }
    let s = strip_html_comments(&raw);
    let hs = find_hrefs(&s);
    let vs = find_valids(&s);
    proof {
        lemma_hrefs_bounds(s@, 0);
        lemma_valids_bounds(s@, 0);
    }
    let mut out: Vec<Listing> = Vec::new();
    let mut k: usize = 0;
    while k < hs.len()
        invariant
            k <= hs@.len(),
            s@ == strip_comments(html@),
            s@.len() < usize::MAX - 8,
            hs@ == hrefs_from(s@, 0),
            vs@ == valids_from(s@, 0),
            out@.len() == k,
            forall|j: int| 0 <= j < k ==> listing_is(s@, j, #[trigger] out@[j]),
        decreases hs.len() - k,
    {
        let lo = if k == 0 {
            0
        } else {
            hs[k - 1].start
        };
        let h = hs[k];
        let av = pick_exec(&vs, lo, h.start, 0);
        let ob = pick_exec(&vs, lo, h.start, 1);
        proof {
            lemma_pick_member(vs@, lo as int, h.start as int, 0, 0);
            lemma_pick_member(vs@, lo as int, h.start as int, 1, 0);
            lemma_valids_bounds(s@, 0);
            lemma_hrefs_bounds(s@, 0);
        }
        let (aviation_cycle, aviation_valid) = read_block(&s, av);
        let (obstacle_cycle, obstacle_valid) = read_block(&s, ob);
        let href = slice_to_string(&s, h.lo, h.hi);
        let l = Listing { href, aviation_cycle, obstacle_cycle, aviation_valid, obstacle_valid };
        assert(listing_is(s@, k as int, l));
        out.push(l);
        k += 1;
    }
    out
}

// ---------------------------------------------------------------------------
// Server replies
// ---------------------------------------------------------------------------

/// `std::io::Error`, carried through as it is: nothing is read from it here
/// but its description.
#[verifier::external_type_specification]
#[verifier::external_body]
pub struct ExIoError(std::io::Error);

#[derive(Debug)]
pub enum FetchError {
    Network(String),
    Io(std::io::Error),
}

/// The system's description of an I/O error, as its `Display` gives it; it
/// depends on the platform and is not stated.
#[verifier::external_body]
fn io_error_text(e: &std::io::Error) -> String {
    e.to_string()
}

impl FetchError {
    /// What the error says: a network error's own words.
    pub fn message(&self) -> (r: String)
        ensures
            self matches FetchError::Network(m) ==> r@ == m@,
    {
        match self {
            FetchError::Network(m) => m.clone(),
            FetchError::Io(e) => io_error_text(e),
        }
    }
}

pub struct PageFetch {
    /// `None` when the server answered 304 Not Modified — the caller already
    /// has the latest content and nothing further to parse.
    pub body: Option<String>,
    pub etag: Option<String>,
}

/// What `String::from_utf8_lossy` makes of `bytes`: the UTF-8 text, with
/// U+FFFD for each invalid sequence.
pub uninterp spec fn utf8_lossy(bytes: Seq<u8>) -> Seq<char>;

/// `String::from_utf8_lossy`.
#[verifier::external_body]
fn text_of(bytes: &[u8]) -> (r: String)
    ensures
        r@ == utf8_lossy(bytes@),
{
    String::from_utf8_lossy(bytes).into_owned()
}

/// `server returned <status>`, for a status of 400 or more.
pub fn server_error(status: u32) -> (r: Option<FetchError>)
    ensures
        status >= 400 <==> r is Some,
        r matches Some(e) ==> (e matches FetchError::Network(m) && m@ == "server returned "@
            + decimal_text(status as nat)),
{
    if status >= 400 {
        let mut v: Vec<char> = Vec::new();
        push_decimal(&mut v, status as u64);
        assert(v@ =~= decimal_text(status as nat));
        let mut m = String::from_str("server returned ");
        let d = string_from(v);
        m.append(d.as_str());
        Some(FetchError::Network(m))
    } else {
        None
    }
}

/// The reply to a conditional page request with `status`: 304 means the
/// caller's copy is current, so there is no body and the validator it sent
/// stays the tag; 400 and up is an error; anything else brings the page,
/// tagged with its `ETag`, else its `Last-Modified` header.
pub fn page_reply(
    status: u32,
    cache_validator: Option<&str>,
    etag: Option<String>,
    last_modified: Option<String>,
    body: &[u8],
) -> (r: Result<PageFetch, FetchError>)
    ensures
        status == 304 ==> (r matches Ok(p) && p.body is None && match cache_validator {
            Some(v) => p.etag matches Some(t) && t@ == v@,
            None => p.etag is None,
        }),
        status != 304 && status >= 400 ==> (r matches Err(FetchError::Network(m)) && m@
            == "server returned "@ + decimal_text(status as nat)),
        status < 400 && status != 304 ==> (r matches Ok(p) && (p.body matches Some(b) && b@
            == utf8_lossy(body@)) && p.etag == (if etag is Some {
            etag
        } else {
            last_modified
        })),
{
    if status == 304 {
        let tag = match cache_validator {
            Some(v) => Some(String::from_str(v)),
            None => None,
        };
        return Ok(PageFetch { body: None, etag: tag });
    }
    match server_error(status) {
        Some(e) => Err(e),
        None => {
            let tag = match etag {
                Some(t) => Some(t),
                None => last_modified,
            };
            Ok(PageFetch { body: Some(text_of(body)), etag: tag })
        },
    }
}

/// A package is saved under the last `/`-separated piece of its URL.
pub fn package_file_name(url: &str) -> (r: String)
    ensures
        r@ == href_file_name(url@),
{
    let u = chars_of(url);
    let mut e = u.len();
    while e > 0 && u[e - 1] != '/'
        invariant
            e <= u@.len(),
            last_slash(u@, e as int) == last_slash(u@, u@.len() as int),
        decreases e,
    {
        e -= 1;
    }
    slice_to_string(&u, e, u.len())
}

} // verus!
