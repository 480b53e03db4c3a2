//! Reading the journal back: date filters of year, month or day precision.
use chrono::{Datelike, NaiveDate};
use vstd::prelude::*;
use vstd::seq_lib::{to_multiset_build, to_multiset_insert};

use crate::entry::{is_valid_date, MAX_YEAR, MIN_YEAR};
use crate::error::LogbookError;
use crate::offset::digits_value;
use crate::text::{is_ascii_digit, is_digit, lemma_pow10_monotone, lemma_pow10_small, pow10};

verus! {

/// Year, and month and day where given.
pub type YMD = (i32, Option<u32>, Option<u32>);

/// A day of the calendar.
#[derive(Debug, Clone, Copy, PartialEq, Eq, Structural)]
pub struct CalDate {
    pub year: i32,
    pub month: u32,
    pub day: u32,
}

/// Whether chrono's calendar holds the day `y-m-d`.
pub open spec fn is_calendar_day(y: int, m: int, d: int) -> bool {
    MIN_YEAR <= y <= MAX_YEAR && is_valid_date(y, m, d)
}

/// Whether day `a` comes before day `b`.
pub open spec fn precedes(a: CalDate, b: CalDate) -> bool {
    a.year < b.year || (a.year == b.year && (a.month < b.month || (a.month == b.month && a.day
        < b.day)))
}

/// Relies on chrono's `NaiveDate::from_ymd_opt`: the day when it exists in
/// the calendar and its year is in chrono's range, else nothing.
#[verifier::external_body]
fn naive_date(y: i32, m: u32, d: u32) -> (r: Option<CalDate>)
    ensures
        r is Some <==> is_calendar_day(y as int, m as int, d as int),
        r matches Some(c) ==> c.year == y && c.month == m && c.day == d,
{
    NaiveDate::from_ymd_opt(y, m, d).map(|n| CalDate { year: n.year(), month: n.month(), day: n.day() })
}

/// `s` cut at each `c`; one piece more than there are `c`s.
pub open spec fn split_on(s: Seq<char>, c: char) -> Seq<Seq<char>>
    decreases s.len(),
{
    if s.len() == 0 {
        seq![Seq::empty()]
    } else {
        let rest = split_on(s.drop_last(), c);
        if s.last() == c {
            rest.push(Seq::empty())
        } else {
            rest.update(rest.len() - 1, rest.last().push(s.last()))
        }
    }
}

pub proof fn lemma_split_on_nonempty(s: Seq<char>, c: char)
    ensures
        split_on(s, c).len() >= 1,
    decreases s.len(),
{
    if s.len() > 0 {
        lemma_split_on_nonempty(s.drop_last(), c);
    }
}

/// A field of a date filter read as a decimal number: an optional `+`, then
/// one or more digits, at most `i32::MAX`.
pub open spec fn field_value(p: Seq<char>) -> Option<int> {
    let b = if p.len() > 0 && p[0] == '+' {
        p.drop_first()
    } else {
        p
    };
    if b.len() > 0 && all_digits(b) && digits_value(b) <= i32::MAX {
        Some(digits_value(b))
    } else {
        None
    }
}

pub open spec fn all_digits(s: Seq<char>) -> bool {
    forall|i: int| 0 <= i < s.len() ==> is_digit(s[i])
}

/// A date filter starts with four digits.
pub open spec fn has_year_prefix(s: Seq<char>) -> bool {
    s.len() >= 4 && forall|i: int| 0 <= i < 4 ==> is_digit(s[i])
}

/// The year, month and day that a date filter gives: it starts with four
/// digits, and its `-`-separated fields are decimal numbers, one to three of
/// them.
pub open spec fn partial_date(s: Seq<char>) -> Result<(int, Option<int>, Option<int>), LogbookError> {
    let parts = split_on(s, '-');
    if !has_year_prefix(s) {
        Err(LogbookError::UnrecognizedDateFormat)
    } else if exists|i: int| 0 <= i < parts.len() && #[trigger] field_value(parts[i]) is None {
        Err(LogbookError::MalformedDate)
    } else if parts.len() == 1 {
        Ok((field_value(parts[0])->0, None, None))
    } else if parts.len() == 2 {
        Ok((field_value(parts[0])->0, Some(field_value(parts[1])->0), None))
    } else if parts.len() == 3 {
        Ok((field_value(parts[0])->0, Some(field_value(parts[1])->0), Some(field_value(parts[2])->0)))
    } else {
        Err(LogbookError::UnrecognizedDateFormat)
    }
}

/// How a filter date is compared with the dates of entries.
pub enum DateCompareOperatorKind {
    On,
    After,
    Before,
}

/// The day a partial date stands for under a comparison: missing fields are
/// the last month and day for `After`, the first ones otherwise.
pub open spec fn bound_fields(ymd: (int, Option<int>, Option<int>), kind: DateCompareOperatorKind) -> (int, int, int) {
    match kind {
        DateCompareOperatorKind::After => (
            ymd.0,
            match ymd.1 { Some(m) => m, None => 12 },
            match ymd.2 { Some(d) => d, None => 31 },
        ),
        _ => (
            ymd.0,
            match ymd.1 { Some(m) => m, None => 1 },
            match ymd.2 { Some(d) => d, None => 1 },
        ),
    }
}

/// The bound that a filter text gives under a comparison.
pub open spec fn filter_bound(s: Seq<char>, kind: DateCompareOperatorKind) -> Result<CalDate, LogbookError> {
    match partial_date(s) {
        Err(e) => Err(e),
        Ok(ymd) => {
            let (y, m, d) = bound_fields(ymd, kind);
            if is_calendar_day(y, m, d) {
                Ok(CalDate { year: y as i32, month: m as u32, day: d as u32 })
            } else {
                Err(LogbookError::DateOutOfRange)
            }
        },
    }
}

/// The bound of an optional filter text.
pub open spec fn optional_bound(s: Option<String>, kind: DateCompareOperatorKind) -> Result<Option<CalDate>, LogbookError> {
    match s {
        None => Ok(None),
        Some(t) => match filter_bound(t@, kind) {
            Ok(c) => Ok(Some(c)),
            Err(e) => Err(e),
        },
    }
}

/// The day that a daily file's name `YYYY-MM-DD.txt` stands for.
pub open spec fn file_day(name: Seq<char>) -> Option<CalDate> {
    if name.len() == 14 && is_digit(name[0]) && is_digit(name[1]) && is_digit(name[2]) && is_digit(
        name[3],
    ) && name[4] == '-' && is_digit(name[5]) && is_digit(name[6]) && name[7] == '-' && is_digit(
        name[8],
    ) && is_digit(name[9]) && name[10] == '.' && name[11] == 't' && name[12] == 'x' && name[13]
        == 't' {
        let y = digits_value(name.subrange(0, 4));
        let m = digits_value(name.subrange(5, 7));
        let d = digits_value(name.subrange(8, 10));
        if is_calendar_day(y, m, d) {
            Some(CalDate { year: y as i32, month: m as u32, day: d as u32 })
        } else {
            None
        }
    } else {
        None
    }
}

/// The names, in their order, of the daily files whose day passes the filters.
pub open spec fn selected_names(names: Seq<Seq<char>>, f: Options) -> Seq<Seq<char>>
    decreases names.len(),
{
    if names.len() == 0 {
        Seq::empty()
    } else {
        let prev = selected_names(names.drop_last(), f);
        match file_day(names.last()) {
            Some(c) => if f.admits_spec(c) {
                prev.push(names.last())
            } else {
                prev
            },
            None => prev,
        }
    }
}

/// A header line `[hh:mm:ss AM +HHMM]` starts at position `i` of `s`.
pub open spec fn header_at(s: Seq<char>, i: int) -> bool {
    &&& 0 <= i && i + 19 <= s.len()
    &&& s[i] == '['
    &&& is_digit(s[i + 1]) && is_digit(s[i + 2]) && s[i + 3] == ':'
    &&& is_digit(s[i + 4]) && is_digit(s[i + 5]) && s[i + 6] == ':'
    &&& is_digit(s[i + 7]) && is_digit(s[i + 8]) && s[i + 9] == ' '
    &&& (s[i + 10] == 'A' || s[i + 10] == 'P') && s[i + 11] == 'M' && s[i + 12] == ' '
    &&& (s[i + 13] == '+' || s[i + 13] == '-')
    &&& is_digit(s[i + 14]) && is_digit(s[i + 15]) && is_digit(s[i + 16]) && is_digit(s[i + 17])
    &&& s[i + 18] == ']'
}

/// A new entry starts at position `i` of `s`: a header line begins a line there.
pub open spec fn entry_starts_at(s: Seq<char>, i: int) -> bool {
    0 < i && s[i - 1] == '\n' && header_at(s, i)
}

/// The first `n` characters of a daily file cut into entries: a piece ends
/// before each line that is a header.
pub open spec fn entry_pieces(s: Seq<char>, n: int) -> Seq<Seq<char>>
    decreases n,
{
    if n <= 0 {
        seq![Seq::empty()]
    } else {
        let prev = entry_pieces(s, n - 1);
        if entry_starts_at(s, n - 1) {
            prev.push(seq![s[n - 1]])
        } else {
            prev.update(prev.len() - 1, prev.last().push(s[n - 1]))
        }
    }
}

/// The pieces, one after another.
pub open spec fn concat(pieces: Seq<Seq<char>>) -> Seq<char>
    decreases pieces.len(),
{
    if pieces.len() == 0 {
        Seq::empty()
    } else {
        concat(pieces.drop_last()) + pieces.last()
    }
}

/// Cutting a daily file into entries loses and adds nothing: the entries, one
/// after another, are the file.
pub proof fn lemma_entries_cover_file(s: Seq<char>, n: int)
    requires
        0 <= n <= s.len(),
    ensures
        entry_pieces(s, n).len() >= 1,
        concat(entry_pieces(s, n)) == s.take(n),
    decreases n,
{
    if n > 0 {
        lemma_entries_cover_file(s, n - 1);
        let prev = entry_pieces(s, n - 1);
        let c = s[n - 1];
        assert(s.take(n) == s.take(n - 1).push(c));
        if entry_starts_at(s, n - 1) {
            let next = prev.push(seq![c]);
            assert(next.drop_last() == prev);
            assert(concat(next) == s.take(n - 1) + seq![c]);
            assert(s.take(n - 1) + seq![c] =~= s.take(n));
        } else {
            let next = prev.update(prev.len() - 1, prev.last().push(c));
            assert(next.drop_last() == prev.drop_last());
            assert(concat(prev) == concat(prev.drop_last()) + prev.last());
            assert(concat(next) == concat(prev.drop_last()) + prev.last().push(c));
            assert(concat(prev.drop_last()) + prev.last().push(c) =~= (concat(prev.drop_last())
                + prev.last()).push(c));
        }
    } else {
        let one = seq![Seq::<char>::empty()];
        assert(one.drop_last() =~= Seq::<Seq<char>>::empty());
        assert(concat(one.drop_last()) == Seq::<char>::empty());
        assert(one.last() == Seq::<char>::empty());
        assert(concat(one) == concat(one.drop_last()) + one.last());
        assert(concat(one) =~= Seq::<char>::empty());
        assert(s.take(0) =~= Seq::<char>::empty());
    }
}

/// Reads the journal back.
pub struct Reader;

impl Reader {
    /// The day a daily file's name stands for, when it is `YYYY-MM-DD.txt` of a
    /// day of the calendar.
    pub fn file_date(name: &str) -> (r: Option<CalDate>)
        ensures
            r == file_day(name@),
    {
        let n = name.unicode_len();
        if n != 14 {
            return None;
        }
        let mut i: usize = 0;
        while i < 14
            invariant
                n == name@.len() == 14,
                i <= 14,
                forall|j: int|
                    0 <= j < i ==> if j == 4 || j == 7 {
                        name@[j] == '-'
                    } else if j == 10 {
                        name@[j] == '.'
                    } else if j == 11 || j == 13 {
                        name@[j] == 't'
                    } else if j == 12 {
                        name@[j] == 'x'
                    } else {
                        is_digit(name@[j])
                    },
            decreases 14 - i,
        {
            let c = name.get_char(i);
            let ok = if i == 4 || i == 7 {
                c == '-'
            } else if i == 10 {
                c == '.'
            } else if i == 11 || i == 13 {
                c == 't'
            } else if i == 12 {
                c == 'x'
            } else {
                is_ascii_digit(c)
            };
            if !ok {
                return None;
            }
            i = i + 1;
        }
        let y = digits_at(name, 0, 4);
        let m = digits_at(name, 5, 7);
        let d = digits_at(name, 8, 10);
        naive_date(y as i32, m as u32, d as u32)
    }

    /// The names of the daily files that the filters keep, earliest day first.
    pub fn select(names: &Vec<String>, filters: &Options) -> (r: Vec<String>)
        ensures
            r@.map_values(|p: String| p@).to_multiset() == selected_names(
                names@.map_values(|p: String| p@),
                *filters,
            ).to_multiset(),
            forall|k: int| 0 <= k < r@.len() ==> (#[trigger] file_day(r@[k]@)) is Some,
            forall|a: int, b: int|
                0 <= a < b < r@.len() ==> !precedes(
                    file_day(#[trigger] r@[b]@)->0,
                    file_day(#[trigger] r@[a]@)->0,
                ),
    {
        let ghost all = names@.map_values(|p: String| p@);
        let mut r: Vec<String> = Vec::new();
        let mut days: Vec<CalDate> = Vec::new();
        let mut i: usize = 0;
        assert(r@.map_values(|p: String| p@) =~= Seq::<Seq<char>>::empty());
        assert(all.take(0) =~= Seq::<Seq<char>>::empty());
        assert(selected_names(all.take(0), *filters) =~= Seq::<Seq<char>>::empty());
        while i < names.len()
            invariant
                i <= names@.len(),
                all == names@.map_values(|p: String| p@),
                r@.len() == days@.len(),
                forall|k: int| 0 <= k < r@.len() ==> file_day(#[trigger] r@[k]@) == Some(days@[k]),
                forall|a: int, b: int|
                    0 <= a < b < days@.len() ==> !precedes(#[trigger] days@[b], #[trigger] days@[a]),
                r@.map_values(|p: String| p@).to_multiset() == selected_names(
                    all.take(i as int),
                    *filters,
                ).to_multiset(),
            decreases names@.len() - i,
        {
            assert(all.take(i + 1).drop_last() == all.take(i as int));
            assert(all.take(i + 1).last() == names@[i as int]@);
            let ghost before = selected_names(all.take(i as int), *filters);
            let ghost nm = names@[i as int]@;
            match Self::file_date(names[i].as_str()) {
                Some(c) => {
                    if filters.admits(&c) {
                        assert(selected_names(all.take(i + 1), *filters) == before.push(nm));
                        let mut p: usize = 0;
                        while p < days.len() && !is_before(&c, &days[p])
                            invariant
                                p <= days@.len(),
                                forall|k: int| 0 <= k < p ==> !precedes(c, #[trigger] days@[k]),
                            decreases days@.len() - p,
                        {
                            p = p + 1;
                        }
                        let ghost old_days = days@;
                        let ghost old_r = r@.map_values(|q: String| q@);
                        let name = names[i].clone();
                        r.insert(p, name);
                        days.insert(p, c);
                        proof {
                            assert(r@.map_values(|q: String| q@) =~= old_r.insert(
                                p as int,
                                names@[i as int]@,
                            ));
                            to_multiset_insert(old_r, p as int, nm);
                            to_multiset_build(before, nm);
                            assert forall|a: int, b: int|
                                0 <= a < b < days@.len() implies !precedes(
                                #[trigger] days@[b],
                                #[trigger] days@[a],
                            ) by {
                                if b < p {
                                    assert(days@[a] == old_days[a] && days@[b] == old_days[b]);
                                } else if b == p {
                                    assert(days@[a] == old_days[a]);
                                } else if a < p {
                                    assert(days@[a] == old_days[a] && days@[b] == old_days[b - 1]);
                                } else if a == p {
                                    assert(days@[b] == old_days[b - 1]);
                                    assert(precedes(c, old_days[p as int]));
                                    if b - 1 > p {
                                        assert(!precedes(old_days[b - 1], old_days[p as int]));
                                    }
                                } else {
                                    assert(days@[a] == old_days[a - 1]);
                                    assert(days@[b] == old_days[b - 1]);
                                }
                            }
                            assert forall|k: int| 0 <= k < r@.len() implies file_day(
                                #[trigger] r@[k]@,
                            ) == Some(days@[k]) by {
                                if k < p {
                                    assert(r@[k]@ == old_r[k]);
                                } else if k > p {
                                    assert(r@[k]@ == old_r[k - 1]);
                                }
                            }
                        }
                    } else {
                        assert(selected_names(all.take(i + 1), *filters) == before);
                    }
                },
                None => {
                    assert(selected_names(all.take(i + 1), *filters) == before);
                },
            }
            i = i + 1;
        }
        assert(all.take(names@.len() as int) == all);
        r
    }

    /// A daily file's text cut into its entries, each from its header line to
    /// the next one.
    pub fn split_entries(text: &str) -> (r: Vec<String>)
        ensures
            r@.map_values(|p: String| p@) == entry_pieces(text@, text@.len() as int),
    {
        let n = text.unicode_len();
        let mut done: Vec<String> = Vec::new();
        let mut cur = String::new();
        let mut i: usize = 0;
        while i < n
            invariant
                n == text@.len(),
                i <= n,
                done@.map_values(|p: String| p@).push(cur@) == entry_pieces(text@, i as int),
            decreases n - i,
        {
            let c = text.get_char(i);
            proof {
                lemma_entries_cover_file(text@, i as int);
            }
            if i > 0 && text.get_char(i - 1) == '\n' && is_header_at(text, i) {
                let piece = cur;
                done.push(piece);
                cur = String::new();
                cur.push(c);
                assert(done@.map_values(|p: String| p@).push(cur@) =~= entry_pieces(
                    text@,
                    i + 1,
                ));
            } else {
                cur.push(c);
                assert(done@.map_values(|p: String| p@).push(cur@) =~= entry_pieces(
                    text@,
                    i + 1,
                ));
            }
            i = i + 1;
        }
        done.push(cur);
        done
    }
}

/// The value of the digits of `s` from `from` to `to`.
fn digits_at(s: &str, from: usize, to: usize) -> (r: u32)
    requires
        from <= to <= s@.len(),
        to - from <= 4,
        forall|j: int| from <= j < to ==> is_digit(s@[j]),
    ensures
        r == digits_value(s@.subrange(from as int, to as int)),
        r < 10000,
{
    let mut v: u32 = 0;
    let mut i = from;
    while i < to
        invariant
            from <= i <= to <= s@.len(),
            to - from <= 4,
            forall|j: int| from <= j < to ==> is_digit(s@[j]),
            v == digits_value(s@.subrange(from as int, i as int)),
            v < pow10((i - from) as nat),
        decreases to - i,
    {
        let c = s.get_char(i);
        assert(s@.subrange(from as int, i + 1).drop_last() == s@.subrange(from as int, i as int));
        assert(pow10((i + 1 - from) as nat) == 10 * pow10((i - from) as nat));
        proof {
            lemma_pow10_monotone((i + 1 - from) as nat, 4);
            lemma_pow10_small();
        }
        v = v * 10 + (c as u32 - '0' as u32);
        i = i + 1;
    }
    proof {
        lemma_pow10_monotone((to - from) as nat, 4);
        lemma_pow10_small();
    }
    v
}

/// Whether a header line `[hh:mm:ss AM +HHMM]` starts at position `i`.
fn is_header_at(s: &str, i: usize) -> (r: bool)
    requires
        i <= s@.len(),
    ensures
        r == header_at(s@, i as int),
{
    let n = s.unicode_len();
    if n < 19 || i > n - 19 {
        return false;
    }
    s.get_char(i) == '[' && is_ascii_digit(s.get_char(i + 1)) && is_ascii_digit(s.get_char(i + 2))
        && s.get_char(i + 3) == ':' && is_ascii_digit(s.get_char(i + 4)) && is_ascii_digit(
        s.get_char(i + 5),
    ) && s.get_char(i + 6) == ':' && is_ascii_digit(s.get_char(i + 7)) && is_ascii_digit(
        s.get_char(i + 8),
    ) && s.get_char(i + 9) == ' ' && (s.get_char(i + 10) == 'A' || s.get_char(i + 10) == 'P')
        && s.get_char(i + 11) == 'M' && s.get_char(i + 12) == ' ' && (s.get_char(i + 13) == '+'
        || s.get_char(i + 13) == '-') && is_ascii_digit(s.get_char(i + 14)) && is_ascii_digit(
        s.get_char(i + 15),
    ) && is_ascii_digit(s.get_char(i + 16)) && is_ascii_digit(s.get_char(i + 17)) && s.get_char(
        i + 18,
    ) == ']'
}

/// The date filters of a read.
#[derive(Debug)]
pub struct Options {
    pub after: Option<CalDate>,
    pub before: Option<CalDate>,
    pub on: Option<CalDate>,
}

impl Options {
    /// Filters from the texts given for `before`, `after` and `on`. `on` goes
    /// with neither of the others; that is checked before any text is read.
    pub fn new(before_arg: Option<String>, after_arg: Option<String>, on_arg: Option<String>) -> (r:
        Result<Self, LogbookError>)
        ensures
            on_arg is Some && (before_arg is Some || after_arg is Some) ==> r == Err::<
                Self,
                LogbookError,
            >(LogbookError::ConflictingFilters),
            !(on_arg is Some && (before_arg is Some || after_arg is Some)) ==> match (
                optional_bound(before_arg, DateCompareOperatorKind::Before),
                optional_bound(after_arg, DateCompareOperatorKind::After),
                optional_bound(on_arg, DateCompareOperatorKind::On),
            ) {
                (Err(e), _, _) => r == Err::<Self, LogbookError>(e),
                (Ok(_), Err(e), _) => r == Err::<Self, LogbookError>(e),
                (Ok(_), Ok(_), Err(e)) => r == Err::<Self, LogbookError>(e),
                (Ok(b), Ok(a), Ok(o)) => (r matches Ok(f) && f.before == b && f.after == a
                    && f.on == o),
            },
    {
        if on_arg.is_some() && (before_arg.is_some() || after_arg.is_some()) {
            Err(LogbookError::ConflictingFilters)
        } else {
            let before = Self::validate_filter_date(&before_arg, DateCompareOperatorKind::Before)?;
            let after = Self::validate_filter_date(&after_arg, DateCompareOperatorKind::After)?;
            let on = Self::validate_filter_date(&on_arg, DateCompareOperatorKind::On)?;
            Ok(Self { after, before, on })
        }
    }

    /// Whether an entry of day `c` passes the filters.
    pub open spec fn admits_spec(&self, c: CalDate) -> bool {
        &&& (self.before matches Some(b) ==> precedes(c, b))
        &&& (self.after matches Some(a) ==> precedes(a, c))
        &&& (self.on matches Some(o) ==> c == o)
    }

    /// Whether an entry of day `d` passes the filters: strictly before the
    /// `before` bound, strictly after the `after` bound, on the `on` day.
    pub fn admits(&self, d: &CalDate) -> (r: bool)
        ensures
            r == self.admits_spec(*d),
    {
        let before_ok = match &self.before {
            Some(b) => is_before(d, b),
            None => true,
        };
        let after_ok = match &self.after {
            Some(a) => is_before(a, d),
            None => true,
        };
        let on_ok = match &self.on {
            Some(o) => d.year == o.year && d.month == o.month && d.day == o.day,
            None => true,
        };
        before_ok && after_ok && on_ok
    }

    fn validate_filter_date(date: &Option<String>, compare_kind: DateCompareOperatorKind) -> (r:
        Result<Option<CalDate>, LogbookError>)
        ensures
            r == optional_bound(*date, compare_kind),
    {
        match date {
            Some(text) => {
                let (y, m, d) = Self::parsed_ymd(text)?;
                let maybe = match compare_kind {
                    DateCompareOperatorKind::After => naive_date(
                        y,
                        unwrap_or(m, 12),
                        unwrap_or(d, 31),
                    ),
                    DateCompareOperatorKind::Before => naive_date(
                        y,
                        unwrap_or(m, 1),
                        unwrap_or(d, 1),
                    ),
                    DateCompareOperatorKind::On => naive_date(
                        y,
                        unwrap_or(m, 1),
                        unwrap_or(d, 1),
                    ),
                };
                match maybe {
                    Some(c) => Ok(Some(c)),
                    None => Err(LogbookError::DateOutOfRange),
                }
            },
            None => Ok(None),
        }
    }

    /// The year, month and day of a date filter such as `2021`, `2021-06` or
    /// `2021-06-15`.
    pub fn parsed_ymd(date: &String) -> (r: Result<YMD, LogbookError>)
        ensures
            match partial_date(date@) {
                Err(e) => r == Err::<YMD, LogbookError>(e),
                Ok(t) => (r matches Ok(v) && v.0 as int == t.0 && (match t.1 {
                    Some(m) => (v.1 matches Some(x) && x as int == m),
                    None => v.1 is None,
                }) && (match t.2 {
                    Some(d) => (v.2 matches Some(x) && x as int == d),
                    None => v.2 is None,
                })),
            },
    {
        let s = date.as_str();
        let len = s.unicode_len();
        if len < 4 || !is_ascii_digit(s.get_char(0)) || !is_ascii_digit(s.get_char(1))
            || !is_ascii_digit(s.get_char(2)) || !is_ascii_digit(s.get_char(3)) {
            return Err(LogbookError::UnrecognizedDateFormat);
        }
        assert(has_year_prefix(date@)) by {
            assert(s@ == date@);
        }
        let parts = split_dashes(s);
        let mut values: Vec<i32> = Vec::new();
        let mut i: usize = 0;
        while i < parts.len()
            invariant
                parts@.map_values(|p: String| p@) == split_on(date@, '-'),
                has_year_prefix(date@),
                i <= parts@.len(),
                values@.len() == i,
                forall|j: int|
                    0 <= j < i ==> field_value(#[trigger] parts@[j]@) == Some(values@[j] as int)
                        && values@[j] >= 0,
            decreases parts@.len() - i,
        {
            match parse_field(parts[i].as_str()) {
                Some(v) => {
                    assert(parts@.map_values(|p: String| p@)[i as int] == parts@[i as int]@);
                    values.push(v);
                },
                None => {
                    proof {
                        assert(parts@.map_values(|p: String| p@)[i as int] == parts@[i as int]@);
                        assert(field_value(split_on(date@, '-')[i as int]) is None);
                    }
                    return Err(LogbookError::MalformedDate);
                },
            }
            i = i + 1;
        }
        proof {
            let sp = split_on(date@, '-');
            assert forall|j: int| 0 <= j < sp.len() implies #[trigger] field_value(sp[j]) is Some by {
                assert(parts@.map_values(|p: String| p@)[j] == parts@[j]@);
            }
        }
        if values.len() == 1 {
            Ok((values[0], None, None))
        } else if values.len() == 2 {
            Ok((values[0], Some(values[1] as u32), None))
        } else if values.len() == 3 {
            Ok((values[0], Some(values[1] as u32), Some(values[2] as u32)))
        } else {
            Err(LogbookError::UnrecognizedDateFormat)
        }
    }
}

fn unwrap_or(v: Option<u32>, default: u32) -> (r: u32)
    ensures
        r == match v {
            Some(x) => x,
            None => default,
        },
{
    match v {
        Some(x) => x,
        None => default,
    }
}

/// Whether day `a` comes before day `b`.
pub fn is_before(a: &CalDate, b: &CalDate) -> (r: bool)
    ensures
        r == precedes(*a, *b),
{
    a.year < b.year || (a.year == b.year && (a.month < b.month || (a.month == b.month && a.day
        < b.day)))
}

/// The pieces of `s` between dashes.
pub fn split_dashes(s: &str) -> (r: Vec<String>)
    ensures
        r@.map_values(|p: String| p@) == split_on(s@, '-'),
{
    let len = s.unicode_len();
    let mut done: Vec<String> = Vec::new();
    let mut cur = String::new();
    let mut i: usize = 0;
    while i < len
        invariant
            len == s@.len(),
            i <= len,
            done@.map_values(|p: String| p@).push(cur@) == split_on(s@.take(i as int), '-'),
        decreases len - i,
    {
        let c = s.get_char(i);
        proof {
            assert(s@.take(i + 1).drop_last() == s@.take(i as int));
            lemma_split_on_nonempty(s@.take(i as int), '-');
        }
        if c == '-' {
            let piece = cur;
            done.push(piece);
            cur = String::new();
            assert(done@.map_values(|p: String| p@).push(cur@) =~= split_on(s@.take(i + 1), '-'));
        } else {
            cur.push(c);
            assert(done@.map_values(|p: String| p@).push(cur@) =~= split_on(s@.take(i + 1), '-'));
        }
        i = i + 1;
    }
    assert(s@.take(len as int) == s@);
    done.push(cur);
    assert(done@.map_values(|p: String| p@) =~= split_on(s@, '-'));
    done
}

/// A field of a date filter as a number: an optional `+`, then digits.
pub fn parse_field(p: &str) -> (r: Option<i32>)
    ensures
        r matches Some(x) ==> field_value(p@) == Some(x as int) && x >= 0,
        r is None ==> field_value(p@) is None,
{
    let len = p.unicode_len();
    let mut i: usize = 0;
    if len > 0 && p.get_char(0) == '+' {
        i = 1;
    }
    let start = i;
    let ghost b = if p@.len() > 0 && p@[0] == '+' {
        p@.drop_first()
    } else {
        p@
    };
    assert(b == p@.skip(start as int));
    if i == len {
        return None;
    }
    let mut value: u64 = 0;
    let mut big = false;
    while i < len
        invariant
            len == p@.len(),
            start <= i <= len,
            b == p@.skip(start as int),
            b == (if p@.len() > 0 && p@[0] == '+' {
                p@.drop_first()
            } else {
                p@
            }),
            forall|j: int| 0 <= j < i - start ==> is_digit(b[j]),
            big ==> digits_value(b.take(i - start)) > i32::MAX,
            !big ==> value == digits_value(b.take(i - start)) && value <= i32::MAX,
        decreases len - i,
    {
        let c = p.get_char(i);
        assert(b[i - start] == c);
        if !is_ascii_digit(c) {
            assert(!all_digits(b));
            return None;
        }
        let d = c as u64 - '0' as u64;
        assert(b.take(i - start + 1).drop_last() == b.take(i - start));
        if !big {
            if value * 10 + d > 2147483647 {
                big = true;
            } else {
                value = value * 10 + d;
            }
        }
        i = i + 1;
    }
    assert(b.take(len - start) == b);
    if big {
        None
    } else {
        Some(value as i32)
    }
}

} // verus!
