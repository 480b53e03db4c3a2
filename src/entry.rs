//! Entries: a timestamp seen at a fixed UTC offset, an ordered list of tags and
//! free text, and the text each renders to.
use chrono::{DateTime, Datelike, FixedOffset, Local, Offset, Timelike};
use itertools::Itertools;
use vstd::prelude::*;

use crate::text::{
    decimal_min, is_digit, lemma_padded_digits, lemma_padded_injective, lemma_padded_len,
    lemma_pow10_monotone, lemma_pow10_small, lemma_width_bound, padded, push_padded, width,
    width_of,
};

verus! {

/// The largest distance from the Unix epoch, in seconds, that an instant may
/// have: well inside the years that chrono's calendar covers.
pub const MAX_INSTANT: i64 = 8_000_000_000_000;

/// The widest fixed UTC offset, in seconds, that chrono admits (exclusive).
pub const MAX_OFFSET: i32 = 86_400;

/// The earliest and latest years of chrono's calendar.
pub const MIN_YEAR: i32 = -262_143;

pub const MAX_YEAR: i32 = 262_142;

pub open spec fn is_leap_year(y: int) -> bool {
    (y % 4 == 0 && y % 100 != 0) || y % 400 == 0
}

pub open spec fn days_in_month(y: int, m: int) -> int {
    if m == 2 {
        if is_leap_year(y) {
            29
        } else {
            28
        }
    } else if m == 4 || m == 6 || m == 9 || m == 11 {
        30
    } else {
        31
    }
}

/// A day of the proleptic Gregorian calendar.
pub open spec fn is_valid_date(y: int, m: int, d: int) -> bool {
    1 <= m <= 12 && 1 <= d <= days_in_month(y, m)
}

/// Days from 0000-01-01 to the first day of year `y`.
pub open spec fn days_before_year(y: int) -> int {
    365 * y + (y + 3) / 4 - (y + 99) / 100 + (y + 399) / 400
}

/// Days from the first of the year to the first of month `m`.
pub open spec fn days_before_month(y: int, m: int) -> int {
    let base: int = if m == 1 {
        0
    } else if m == 2 {
        31
    } else if m == 3 {
        59
    } else if m == 4 {
        90
    } else if m == 5 {
        120
    } else if m == 6 {
        151
    } else if m == 7 {
        181
    } else if m == 8 {
        212
    } else if m == 9 {
        243
    } else if m == 10 {
        273
    } else if m == 11 {
        304
    } else {
        334
    };
    if m > 2 && is_leap_year(y) {
        base + 1
    } else {
        base
    }
}

/// Days from 1970-01-01 to the given day.
pub open spec fn day_number(y: int, m: int, d: int) -> int {
    days_before_year(y) + days_before_month(y, m) + d - 1 - days_before_year(1970)
}

/// An instant as seen at a fixed UTC offset: the calendar fields of its local
/// time and the offset itself, in seconds east of UTC.
pub struct Date {
    pub year: i32,
    pub month: u32,
    pub day: u32,
    pub hour: u32,
    pub minute: u32,
    pub second: u32,
    pub offset_seconds: i32,
}

impl Date {
    pub open spec fn wf(&self) -> bool {
        &&& MIN_YEAR <= self.year <= MAX_YEAR
        &&& is_valid_date(self.year as int, self.month as int, self.day as int)
        &&& self.hour < 24
        &&& self.minute < 60
        &&& self.second < 60
        &&& -MAX_OFFSET < self.offset_seconds < MAX_OFFSET
    }

    /// Seconds from 1970-01-01 00:00:00 to this local time, both read on the
    /// same clock.
    pub open spec fn local_seconds(&self) -> int {
        day_number(self.year as int, self.month as int, self.day as int) * 86400 + self.hour
            * 3600 + self.minute * 60 + self.second
    }

    /// The instant this date stands for, in seconds since the Unix epoch.
    pub open spec fn utc_seconds(&self) -> int {
        self.local_seconds() - self.offset_seconds
    }

    /// Whether two dates fall on the same local calendar day.
    pub open spec fn same_day(&self, other: Date) -> bool {
        self.year == other.year && self.month == other.month && self.day == other.day
    }

    /// The instant `now` (seconds since the Unix epoch) seen at the UTC offset
    /// given in seconds east, or at the machine's own offset at that instant
    /// when none is given.
    pub fn new(now: i64, gmt_offset_seconds: Option<i32>) -> (r: Date)
        requires
            -MAX_INSTANT <= now <= MAX_INSTANT,
            gmt_offset_seconds matches Some(o) ==> -MAX_OFFSET < o < MAX_OFFSET,
        ensures
            r.wf(),
            r.utc_seconds() == now,
            gmt_offset_seconds matches Some(o) ==> r.offset_seconds == o,
    {
        let offset = match gmt_offset_seconds {
            None => local_offset_at(now).unwrap(),
            Some(o) => o,
        };
        civil_at(now, offset).unwrap()
    }

    /// The local calendar day as `YYYY-MM-DD`, the name of its daily file
    /// without the extension.
    pub fn to_filename_date(&self) -> (r: String)
        requires
            self.wf(),
        ensures
            r@ == filename_date(*self),
    {
        let mut s = String::new();
        if 0 <= self.year && self.year <= 9999 {
            push_padded(&mut s, self.year as u64, 4);
        } else {
            let n: u64 = if self.year < 0 {
                s.push('-');
                (-(self.year as i64)) as u64
            } else {
                s.push('+');
                self.year as u64
            };
            let w = width(n);
            push_padded(&mut s, n, if w > 4 { w } else { 4 });
        }
        s.push('-');
        push_padded(&mut s, self.month as u64, 2);
        s.push('-');
        push_padded(&mut s, self.day as u64, 2);
        s
    }

    /// The local time as `hh:mm:ss AM +HHMM`, on a twelve-hour clock.
    pub fn to_logbook_timestamp(&self) -> (r: String)
        requires
            self.wf(),
        ensures
            r@ == logbook_timestamp(*self),
    {
        let mut s = String::new();
        let h = self.hour % 12;
        push_padded(&mut s, if h == 0 { 12 } else { h as u64 }, 2);
        s.push(':');
        push_padded(&mut s, self.minute as u64, 2);
        s.push(':');
        push_padded(&mut s, self.second as u64, 2);
        s.push(' ');
        s.push(if self.hour < 12 { 'A' } else { 'P' });
        s.push('M');
        s.push(' ');
        let a: i32 = if self.offset_seconds < 0 {
            s.push('-');
            -self.offset_seconds
        } else {
            s.push('+');
            self.offset_seconds
        };
        let minutes = (a + 30) / 60;
        push_padded(&mut s, (minutes / 60) as u64, 2);
        push_padded(&mut s, (minutes % 60) as u64, 2);
        s
    }
}

/// The year as chrono's `%Y` writes it: four digits within 0..=9999, else a
/// sign followed by at least four digits.
pub open spec fn year_text(y: int) -> Seq<char> {
    if 0 <= y <= 9999 {
        padded(y as nat, 4)
    } else if y < 0 {
        seq!['-'] + decimal_min((-y) as nat, 4)
    } else {
        seq!['+'] + decimal_min(y as nat, 4)
    }
}

proof fn lemma_decimal_min_injective(a: nat, b: nat)
    requires
        decimal_min(a, 4) == decimal_min(b, 4),
    ensures
        a == b,
{
    let wa = if width_of(a) > 4 { width_of(a) } else { 4 };
    let wb = if width_of(b) > 4 { width_of(b) } else { 4 };
    lemma_padded_len(a, wa);
    lemma_padded_len(b, wb);
    lemma_width_bound(a);
    lemma_width_bound(b);
    lemma_pow10_monotone(width_of(a), wa);
    lemma_pow10_monotone(width_of(b), wb);
    lemma_padded_injective(a, b, wa);
}

/// Different years are written differently.
pub proof fn lemma_year_text_injective(a: int, b: int)
    requires
        year_text(a) == year_text(b),
    ensures
        a == b,
{
    lemma_pow10_small();
    lemma_padded_len(a as nat, 4);
    lemma_padded_len(b as nat, 4);
    lemma_padded_digits(a as nat, 4);
    lemma_padded_digits(b as nat, 4);
    let ta = year_text(a);
    let tb = year_text(b);
    if 0 <= a <= 9999 && 0 <= b <= 9999 {
        lemma_padded_injective(a as nat, b as nat, 4);
    } else if 0 <= a <= 9999 {
        assert(is_digit(ta[0]));
        assert(!is_digit(tb[0]));
    } else if 0 <= b <= 9999 {
        assert(is_digit(tb[0]));
        assert(!is_digit(ta[0]));
    } else {
        assert(ta[0] == tb[0]);
        assert(ta.drop_first() == tb.drop_first());
        if a < 0 && b < 0 {
            assert(ta.drop_first() == decimal_min((-a) as nat, 4));
            assert(tb.drop_first() == decimal_min((-b) as nat, 4));
            lemma_decimal_min_injective((-a) as nat, (-b) as nat);
        } else if a > 9999 && b > 9999 {
            assert(ta.drop_first() == decimal_min(a as nat, 4));
            assert(tb.drop_first() == decimal_min(b as nat, 4));
            lemma_decimal_min_injective(a as nat, b as nat);
        }
    }
}

/// Two dates have the same file name exactly when they fall on the same day.
pub proof fn lemma_filename_date_injective(a: Date, b: Date)
    requires
        a.wf(),
        b.wf(),
    ensures
        filename_date(a) == filename_date(b) <==> a.same_day(b),
{
    if filename_date(a) == filename_date(b) {
        let ya = year_text(a.year as int);
        let yb = year_text(b.year as int);
        let ma = padded(a.month as nat, 2);
        let mb = padded(b.month as nat, 2);
        let da = padded(a.day as nat, 2);
        let db = padded(b.day as nat, 2);
        lemma_padded_len(a.month as nat, 2);
        lemma_padded_len(b.month as nat, 2);
        lemma_padded_len(a.day as nat, 2);
        lemma_padded_len(b.day as nat, 2);
        let fa = filename_date(a);
        let fb = filename_date(b);
        assert(fa.len() == ya.len() + 6);
        assert(fb.len() == yb.len() + 6);
        let n = ya.len() as int;
        assert(fa.subrange(0, n) == ya);
        assert(fb.subrange(0, n) == yb);
        assert(fa.subrange(n + 1, n + 3) == ma);
        assert(fb.subrange(n + 1, n + 3) == mb);
        assert(fa.subrange(n + 4, n + 6) == da);
        assert(fb.subrange(n + 4, n + 6) == db);
        lemma_year_text_injective(a.year as int, b.year as int);
        lemma_pow10_small();
        lemma_padded_injective(a.month as nat, b.month as nat, 2);
        lemma_padded_injective(a.day as nat, b.day as nat, 2);
    }
}

pub open spec fn filename_date(d: Date) -> Seq<char> {
    year_text(d.year as int) + seq!['-'] + padded(d.month as nat, 2) + seq!['-'] + padded(
        d.day as nat,
        2,
    )
}

pub open spec fn hour12(h: int) -> int {
    if h % 12 == 0 {
        12
    } else {
        h % 12
    }
}

/// The offset as `+HHMM` or `-HHMM`, seconds rounded to the nearest minute.
pub open spec fn offset_text(o: int) -> Seq<char> {
    let a = if o < 0 {
        -o
    } else {
        o
    };
    let minutes = (a + 30) / 60;
    seq![if o < 0 { '-' } else { '+' }] + padded((minutes / 60) as nat, 2) + padded(
        (minutes % 60) as nat,
        2,
    )
}

pub open spec fn logbook_timestamp(d: Date) -> Seq<char> {
    padded(hour12(d.hour as int) as nat, 2) + seq![':'] + padded(d.minute as nat, 2) + seq![':']
        + padded(d.second as nat, 2) + seq![' ', if d.hour < 12 { 'A' } else { 'P' }, 'M', ' ']
        + offset_text(d.offset_seconds as int)
}

/// Relies on chrono's `DateTime::from_timestamp` and `with_timezone(&Local)`:
/// the machine's UTC offset at that instant, which chrono keeps within a day.
/// chrono panics only where the machine's time zone data cannot be read.
#[verifier::external_body]
fn local_offset_at(utc_seconds: i64) -> (r: Option<i32>)
    ensures
        r matches Some(o) ==> -MAX_OFFSET < o < MAX_OFFSET,
        -MAX_INSTANT <= utc_seconds <= MAX_INSTANT ==> r is Some,
{
    let t = DateTime::from_timestamp(utc_seconds, 0)?;
    Some(t.with_timezone(&Local).offset().fix().local_minus_utc())
}

/// Relies on chrono's `FixedOffset::east_opt`, `DateTime::from_timestamp` and
/// `with_timezone`: the proleptic Gregorian calendar fields of the instant seen
/// at that offset. Within these bounds the local time stays well inside
/// chrono's calendar.
#[verifier::external_body]
fn civil_at(utc_seconds: i64, offset_seconds: i32) -> (r: Option<Date>)
    requires
        -MAX_INSTANT <= utc_seconds <= MAX_INSTANT,
        -MAX_OFFSET < offset_seconds < MAX_OFFSET,
    ensures
        r matches Some(d) ==> d.wf() && d.offset_seconds == offset_seconds && d.utc_seconds()
            == utc_seconds,
        r is Some,
{
    let off = FixedOffset::east_opt(offset_seconds)?;
    let t = DateTime::from_timestamp(utc_seconds, 0)?.with_timezone(&off);
    Some(
        Date {
            year: t.year(),
            month: t.month(),
            day: t.day(),
            hour: t.hour(),
            minute: t.minute(),
            second: t.second(),
            offset_seconds,
        },
    )
}

/// `parts` separated by `sep`.
pub open spec fn joined(parts: Seq<Seq<char>>, sep: Seq<char>) -> Seq<char>
    decreases parts.len(),
{
    if parts.len() == 0 {
        Seq::empty()
    } else if parts.len() == 1 {
        parts[0]
    } else {
        joined(parts.drop_last(), sep) + sep + parts.last()
    }
}

/// Relies on itertools' `Itertools::join`: the first item, then the separator
/// and the next item for each further one; nothing for no items.
#[verifier::external_body]
fn join_with(parts: &Vec<String>, sep: &str) -> (r: String)
    ensures
        r@ == joined(parts@.map_values(|p: String| p@), sep@),
{
    parts.iter().join(sep)
}

/// Each tag marked with `#`.
pub open spec fn hashed(tags: Seq<Seq<char>>) -> Seq<Seq<char>> {
    tags.map_values(|t: Seq<char>| seq!['#'] + t)
}

/// The tags line: each tag marked with `#`, separated by `, `.
pub open spec fn tags_text(tags: Seq<Seq<char>>) -> Seq<char> {
    joined(hashed(tags), seq![',', ' '])
}

/// The tags that an optional list holds.
pub open spec fn given_tags(maybe_tags: Option<Vec<String>>) -> Seq<Seq<char>> {
    match maybe_tags {
        None => Seq::empty(),
        Some(v) => v@.map_values(|t: String| t@),
    }
}

/// The tags of an entry, in the order they were given.
pub struct Tags {
    tags: Vec<String>,
}

impl View for Tags {
    type V = Seq<Seq<char>>;

    closed spec fn view(&self) -> Seq<Seq<char>> {
        self.tags@.map_values(|t: String| t@)
    }
}

impl Tags {
    /// The given tags, or none.
    pub fn new(maybe_tags: Option<Vec<String>>) -> (r: Self)
        ensures
            r@ == given_tags(maybe_tags),
    {
        let matched_tags = match maybe_tags {
            None => Vec::new(),
            Some(tags) => tags,
        };
        let r = Tags { tags: matched_tags };
        proof {
            if maybe_tags is None {
                assert(r@ =~= Seq::empty());
            }
        }
        r
    }

    /// The tags line, as `#a, #b`.
    pub fn to_string(&self) -> (r: String)
        ensures
            r@ == tags_text(self@),
    {
        let mut marked: Vec<String> = Vec::new();
        let mut i: usize = 0;
        while i < self.tags.len()
            invariant
                i <= self.tags@.len(),
                marked@.len() == i,
                forall|j: int| 0 <= j < i ==> #[trigger] marked@[j]@ == seq!['#'] + self.tags@[j]@,
            decreases self.tags@.len() - i,
        {
            let mut t = String::new();
            t.push('#');
            t.append(self.tags[i].as_str());
            marked.push(t);
            i = i + 1;
        }
        let sep = ", ";
        proof {
            reveal_strlit(", ");
            assert(sep@ =~= seq![',', ' ']);
            assert(marked@.map_values(|p: String| p@) =~= hashed(self@));
        }
        join_with(&marked, sep)
    }

    pub fn is_empty(&self) -> (r: bool)
        ensures
            r == (self@.len() == 0),
    {
        self.tags.len() == 0
    }
}

/// An entry without tags has no tags line: its header line is followed by its
/// content. An entry tagged `a` then `b` has the tags line `#a, #b` between
/// the two.
pub proof fn lemma_tags_line(d: Date, a: Seq<char>, b: Seq<char>, content: Seq<char>)
    ensures
        entry_text(d, Seq::empty(), content) == header_text(d) + seq!['\n'] + content + seq!['\n'],
        entry_text(d, seq![a, b], content) == header_text(d) + seq!['\n'] + (seq!['#'] + a + seq![
            ',',
            ' ',
            '#',
        ] + b) + seq!['\n'] + content + seq!['\n'],
{
    let h = hashed(seq![a, b]);
    assert(h[0] == seq!['#'] + a);
    assert(h[1] == seq!['#'] + b);
    assert(h.drop_last() =~= seq![seq!['#'] + a]);
    assert(joined(h.drop_last(), seq![',', ' ']) == seq!['#'] + a);
    assert(tags_text(seq![a, b]) =~= seq!['#'] + a + seq![',', ' ', '#'] + b);
}

/// The first line of an entry: its timestamp in brackets.
pub struct Header {
    pub entry_date: Date,
}

pub open spec fn header_text(d: Date) -> Seq<char> {
    seq!['['] + logbook_timestamp(d) + seq![']']
}

impl Header {
    pub fn to_string(&self) -> (r: String)
        requires
            self.entry_date.wf(),
        ensures
            r@ == header_text(self.entry_date),
    {
        let mut s = String::new();
        s.push('[');
        let ts = self.entry_date.to_logbook_timestamp();
        s.append(ts.as_str());
        s.push(']');
        s
    }
}

/// One journal entry.
pub struct Entry {
    pub header: Header,
    pub tags: Tags,
    pub content: String,
}

/// An entry's text: the header line, the tags line when there are tags, and
/// the content, each followed by a newline.
pub open spec fn entry_text(d: Date, tags: Seq<Seq<char>>, content: Seq<char>) -> Seq<char> {
    if tags.len() == 0 {
        header_text(d) + seq!['\n'] + content + seq!['\n']
    } else {
        header_text(d) + seq!['\n'] + tags_text(tags) + seq!['\n'] + content + seq!['\n']
    }
}

impl Entry {
    pub open spec fn wf(&self) -> bool {
        self.header.entry_date.wf()
    }

    pub fn to_string(&self) -> (r: String)
        requires
            self.wf(),
        ensures
            r@ == entry_text(self.header.entry_date, self.tags@, self.content@),
    {
        let mut s = self.header.to_string();
        s.push('\n');
        if !self.tags.is_empty() {
            let t = self.tags.to_string();
            s.append(t.as_str());
            s.push('\n');
        }
        s.append(self.content.as_str());
        s.push('\n');
        s
    }
}

} // verus!
