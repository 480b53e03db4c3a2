//! Where entries go: one file per local calendar day in the journal's
//! directory.
use vstd::prelude::*;

use crate::entry::{filename_date, given_tags, lemma_filename_date_injective, Date, Entry, Header, Tags};
use crate::error::LogbookError;
use crate::offset::{offset_seconds, parse_offset_hours};

pub mod reader;
pub mod writer;

verus! {

/// `name` placed inside `dir`, as a path that ends with `name` (a relative
/// name: it does not start with `/`).
pub open spec fn joined_path(dir: Seq<char>, name: Seq<char>) -> Seq<char> {
    if dir.len() == 0 {
        name
    } else if dir.last() == '/' {
        dir + name
    } else {
        dir + seq!['/'] + name
    }
}

/// The name of the daily file of a date: `YYYY-MM-DD.txt`.
pub open spec fn logfile_name(d: Date) -> Seq<char> {
    filename_date(d) + seq!['.', 't', 'x', 't']
}

/// The path of the daily file of a date inside the journal's directory.
pub open spec fn logfile_path(dir: Seq<char>, d: Date) -> Seq<char> {
    joined_path(dir, logfile_name(d))
}

/// The text appended to a daily file for one entry: the entry and a newline.
pub open spec fn appended_text(e: Entry) -> Seq<char> {
    crate::entry::entry_text(e.header.entry_date, e.tags@, e.content@) + seq!['\n']
}

/// The daily file of an entry depends on its local calendar day alone: two
/// dates share a path in a directory exactly when they fall on the same day.
pub proof fn lemma_logfile_path_per_day(dir: Seq<char>, a: Date, b: Date)
    requires
        a.wf(),
        b.wf(),
    ensures
        logfile_path(dir, a) == logfile_path(dir, b) <==> a.same_day(b),
{
    lemma_filename_date_injective(a, b);
    let na = logfile_name(a);
    let nb = logfile_name(b);
    if logfile_path(dir, a) == logfile_path(dir, b) {
        let k: int = if dir.len() == 0 {
            0
        } else if dir.last() == '/' {
            dir.len() as int
        } else {
            dir.len() + 1int
        };
        assert(logfile_path(dir, a).skip(k) == na);
        assert(logfile_path(dir, b).skip(k) == nb);
        assert(na.subrange(0, na.len() - 4) == filename_date(a));
        assert(nb.subrange(0, nb.len() - 4) == filename_date(b));
    }
}

/// The calendar day of a date.
pub open spec fn day_of(d: Date) -> (int, int, int) {
    (d.year as int, d.month as int, d.day as int)
}

/// The files of a journal, by path, after appending each text in turn to the
/// daily file of its date, starting from an empty directory.
pub open spec fn journal_after(dir: Seq<char>, writes: Seq<(Date, Seq<char>)>) -> Map<
    Seq<char>,
    Seq<char>,
>
    decreases writes.len(),
{
    if writes.len() == 0 {
        Map::empty()
    } else {
        let prev = journal_after(dir, writes.drop_last());
        let p = logfile_path(dir, writes.last().0);
        let before = if prev.contains_key(p) {
            prev[p]
        } else {
            Seq::empty()
        };
        prev.insert(p, before + writes.last().1)
    }
}

/// The days that a series of writes falls on.
pub open spec fn days_touched(writes: Seq<(Date, Seq<char>)>) -> Set<(int, int, int)>
    decreases writes.len(),
{
    if writes.len() == 0 {
        Set::empty()
    } else {
        days_touched(writes.drop_last()).insert(day_of(writes.last().0))
    }
}

/// The texts written on the day of `d`, in the order they were written.
pub open spec fn day_texts(writes: Seq<(Date, Seq<char>)>, d: Date) -> Seq<char>
    decreases writes.len(),
{
    if writes.len() == 0 {
        Seq::empty()
    } else {
        day_texts(writes.drop_last(), d) + if writes.last().0.same_day(d) {
            writes.last().1
        } else {
            Seq::empty()
        }
    }
}

/// Appending entries across day boundaries leaves one daily file for each day
/// touched and no other, and each file holds the texts of its day in the order
/// they were written.
pub proof fn lemma_daily_files(dir: Seq<char>, writes: Seq<(Date, Seq<char>)>)
    requires
        forall|i: int| 0 <= i < writes.len() ==> (#[trigger] writes[i]).0.wf(),
    ensures
        journal_after(dir, writes).dom().finite(),
        days_touched(writes).finite(),
        journal_after(dir, writes).dom().len() == days_touched(writes).len(),
        forall|p: Seq<char>| #[trigger]
            journal_after(dir, writes).contains_key(p) ==> exists|d: Date|
                d.wf() && p == logfile_path(dir, d) && days_touched(writes).contains(day_of(d)),
        forall|d: Date|
            d.wf() ==> (journal_after(dir, writes).contains_key(#[trigger] logfile_path(dir, d))
                <==> days_touched(writes).contains(day_of(d))),
        forall|d: Date|
            d.wf() && days_touched(writes).contains(day_of(d)) ==> journal_after(dir, writes)[
                #[trigger] logfile_path(dir, d)] == day_texts(writes, d),
        forall|d: Date|
            d.wf() && !days_touched(writes).contains(day_of(d)) ==> #[trigger] day_texts(
                writes,
                d,
            ) == Seq::<char>::empty(),
    decreases writes.len(),
{
    if writes.len() > 0 {
        let w = writes.drop_last();
        assert forall|i: int| 0 <= i < w.len() implies (#[trigger] w[i]).0.wf() by {
            assert(w[i] == writes[i]);
        }
        lemma_daily_files(dir, w);
        let last = writes.last().0;
        assert(writes[writes.len() - 1] == writes.last());
        let p = logfile_path(dir, last);
        let prev = journal_after(dir, w);
        let now = journal_after(dir, writes);
        assert(prev.contains_key(p) <==> days_touched(w).contains(day_of(last)));
        assert(now.dom() == prev.dom().insert(p));
        assert forall|q: Seq<char>| #[trigger] now.contains_key(q) implies exists|d: Date|
            d.wf() && q == logfile_path(dir, d) && days_touched(writes).contains(day_of(d)) by {
            if q == p {
                assert(last.wf() && q == logfile_path(dir, last) && days_touched(writes).contains(
                    day_of(last),
                ));
            } else {
                assert(prev.contains_key(q));
                let d = choose|d: Date|
                    d.wf() && q == logfile_path(dir, d) && days_touched(w).contains(day_of(d));
                assert(days_touched(writes).contains(day_of(d)));
            }
        }
        assert forall|d: Date| d.wf() implies (now.contains_key(#[trigger] logfile_path(dir, d))
            <==> days_touched(writes).contains(day_of(d))) by {
            lemma_logfile_path_per_day(dir, d, last);
        }
        assert forall|d: Date|
            d.wf() && days_touched(writes).contains(day_of(d)) implies now[#[trigger] logfile_path(
                dir,
                d,
            )] == day_texts(writes, d) by {
            lemma_logfile_path_per_day(dir, d, last);
            let t = writes.last().1;
            if d.same_day(last) {
                assert(logfile_path(dir, d) == p);
                assert(day_texts(writes, d) == day_texts(w, d) + t);
                if days_touched(w).contains(day_of(d)) {
                    assert(prev[p] == day_texts(w, d));
                } else {
                    assert(day_texts(w, d) == Seq::<char>::empty());
                    assert(!prev.contains_key(p));
                    assert(day_texts(w, d) + t =~= t);
                    assert(Seq::<char>::empty() + t =~= t);
                }
            } else {
                assert(day_of(d) != day_of(last));
                assert(days_touched(w).contains(day_of(d)));
                assert(now[logfile_path(dir, d)] == prev[logfile_path(dir, d)]);
                assert(day_texts(writes, d) =~= day_texts(w, d));
            }
        }
        assert forall|d: Date|
            d.wf() && !days_touched(writes).contains(day_of(d)) implies #[trigger] day_texts(
                writes,
                d,
            ) == Seq::<char>::empty() by {
            assert(!d.same_day(last));
            assert(day_texts(writes, d) == day_texts(w, d) + Seq::<char>::empty());
        }
    }
}

/// Places `name` inside `dir`, adding a separator only where `dir` lacks one.
pub fn join_path(dir: &str, name: &str) -> (r: String)
    ensures
        r@ == joined_path(dir@, name@),
{
    let mut s = String::from_str(dir);
    let n = dir.unicode_len();
    if n > 0 && dir.get_char(n - 1) != '/' {
        s.push('/');
    }
    s.append(name);
    s
}

/// The path of the daily file that an entry stamped `date` goes to.
pub fn logfile_for(date: &Date, logbook_dir: &str) -> (r: String)
    requires
        date.wf(),
    ensures
        r@ == logfile_path(logbook_dir@, *date),
{
    let mut name = date.to_filename_date();
    name.push('.');
    name.push('t');
    name.push('x');
    name.push('t');
    join_path(logbook_dir, name.as_str())
}

/// The text to append for an entry: its rendering and a newline.
pub fn appended(entry: &Entry) -> (r: String)
    requires
        entry.wf(),
    ensures
        r@ == appended_text(*entry),
{
    let mut s = entry.to_string();
    s.push('\n');
    s
}

/// Reads an optional offset in hours as seconds east of UTC.
pub fn validate_offset_text(offset: Option<String>) -> (r: Result<Option<i32>, LogbookError>)
    ensures
        offset is None ==> r == Ok::<Option<i32>, LogbookError>(None),
        offset matches Some(t) ==> match offset_seconds(t@) {
            Some(secs) => r == Ok::<Option<i32>, LogbookError>(Some(secs as i32)),
            None => r == Err::<Option<i32>, LogbookError>(LogbookError::InvalidOffset),
        },
{
    match offset {
        Some(t) => match parse_offset_hours(t.as_str()) {
            Ok(secs) => Ok(Some(secs)),
            Err(e) => Err(e),
        },
        None => Ok(None),
    }
}

/// The journal.
pub struct Logbook;

impl Logbook {
    /// The path of the daily file that an entry stamped `date` goes to.
    pub fn current_logfile(date: &Date, logbook_dir: &str) -> (r: String)
        requires
            date.wf(),
        ensures
            r@ == logfile_path(logbook_dir@, *date),
    {
        logfile_for(date, logbook_dir)
    }

    /// The entry for a message and its tags, stamped `date`.
    pub fn create_entry(date: Date, options: Options) -> (r: Entry)
        ensures
            r.header.entry_date == date,
            r.tags@ == given_tags(options.tags),
            r.content == options.message,
    {
        let header = Header { entry_date: date };
        let tags = Tags::new(options.tags);
        Entry { header, tags, content: options.message }
    }
}

/// What the journal is asked to do.
pub enum LogbookOperationKind {
    Write,
    Read,
}

/// A message to record, its tags, and the UTC offset to stamp it with.
pub struct Options {
    pub message: String,
    pub tags: Option<Vec<String>>,
    /// Seconds east of UTC; the machine's own offset when absent.
    pub utc_offset: Option<i32>,
}

impl Options {
    pub open spec fn wf(&self) -> bool {
        self.utc_offset matches Some(o) ==> -86400 < o < 86400
    }

    /// Options for a new entry; the offset, when given, is a number of hours
    /// in quarter-hour steps, less than a day either way.
    pub fn new(message: String, tags: Option<Vec<String>>, utc_offset: Option<String>) -> (r:
        Result<Self, LogbookError>)
        ensures
            utc_offset is None ==> (r matches Ok(o) && o.utc_offset is None),
            utc_offset matches Some(t) ==> match offset_seconds(t@) {
                Some(secs) => (r matches Ok(o) && o.utc_offset == Some(secs as i32)),
                None => r == Err::<Self, LogbookError>(LogbookError::InvalidOffset),
            },
            r matches Ok(o) ==> o.wf() && o.message == message && o.tags == tags,
    {
        let offset = Self::validate_offset(utc_offset)?;
        Ok(Self { message, tags, utc_offset: offset })
    }

    /// The offset in seconds east of UTC that an optional text of hours names.
    pub fn validate_offset(offset: Option<String>) -> (r: Result<Option<i32>, LogbookError>)
        ensures
            offset is None ==> r == Ok::<Option<i32>, LogbookError>(None),
            offset matches Some(t) ==> match offset_seconds(t@) {
                Some(secs) => r == Ok::<Option<i32>, LogbookError>(Some(secs as i32)),
                None => r == Err::<Option<i32>, LogbookError>(LogbookError::InvalidOffset),
            },
    {
        validate_offset_text(offset)
    }
}

} // verus!
