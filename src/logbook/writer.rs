//! Recording a new entry: everything but the append itself, which the caller
//! performs on the path and text handed back.
use vstd::prelude::*;

use crate::config::LogbookConf;
use crate::entry::{entry_text, given_tags, Date, Entry, Header, Tags, MAX_INSTANT};
use crate::error::LogbookError;
use crate::logbook::{
    appended, day_texts, days_touched, journal_after, lemma_daily_files, logfile_for, logfile_path,
    validate_offset_text,
};
use crate::offset::offset_seconds;

verus! {

/// One append to the journal: the entry's date, the daily file it goes to,
/// and the text to add at the end of that file.
pub struct Append {
    pub date: Date,
    pub path: String,
    pub text: String,
}

/// The files by path after performing each append in turn, starting where
/// none of the paths had a file: each text goes at the end of its path's file.
pub open spec fn files_after(appends: Seq<Append>) -> Map<Seq<char>, Seq<char>>
    decreases appends.len(),
{
    if appends.len() == 0 {
        Map::empty()
    } else {
        let prev = files_after(appends.drop_last());
        let a = appends.last();
        let before = if prev.contains_key(a.path@) {
            prev[a.path@]
        } else {
            Seq::empty()
        };
        prev.insert(a.path@, before + a.text@)
    }
}

/// The date and text of each append.
pub open spec fn writes_of(appends: Seq<Append>) -> Seq<(Date, Seq<char>)> {
    appends.map_values(|a: Append| (a.date, a.text@))
}

/// Performing the appends that `Writer::prepare` hands out for a directory,
/// across day boundaries, leaves one new daily file for each local calendar day
/// touched and no other, and each holds the texts of its day in the order they
/// were written.
pub proof fn lemma_prepared_appends(dir: Seq<char>, appends: Seq<Append>)
    requires
        forall|i: int|
            0 <= i < appends.len() ==> (#[trigger] appends[i]).date.wf() && appends[i].path@
                == logfile_path(dir, appends[i].date),
    ensures
        files_after(appends) == journal_after(dir, writes_of(appends)),
        files_after(appends).dom().finite(),
        files_after(appends).dom().len() == days_touched(writes_of(appends)).len(),
        forall|d: Date|
            d.wf() ==> (files_after(appends).contains_key(#[trigger] logfile_path(dir, d))
                <==> days_touched(writes_of(appends)).contains(
                (d.year as int, d.month as int, d.day as int),
            )),
        forall|d: Date|
            d.wf() && days_touched(writes_of(appends)).contains(
                (d.year as int, d.month as int, d.day as int),
            ) ==> files_after(appends)[#[trigger] logfile_path(dir, d)] == day_texts(
                writes_of(appends),
                d,
            ),
    decreases appends.len(),
{
    let w = writes_of(appends);
    if appends.len() > 0 {
        let rest = appends.drop_last();
        assert forall|i: int| 0 <= i < rest.len() implies (#[trigger] rest[i]).date.wf()
            && rest[i].path@ == logfile_path(dir, rest[i].date) by {
            assert(rest[i] == appends[i]);
        }
        lemma_prepared_appends(dir, rest);
        assert(writes_of(rest) =~= w.drop_last());
        assert(appends[appends.len() - 1] == appends.last());
    }
    assert forall|i: int| 0 <= i < w.len() implies (#[trigger] w[i]).0.wf() by {
        assert(w[i].0 == appends[i].date);
    }
    lemma_daily_files(dir, w);
}

pub struct Writer;

impl Writer {
    /// Stamps the message at the instant `now` (seconds since the Unix epoch)
    /// and works out where it goes and what is written. A message is required;
    /// that is checked before anything else.
    pub fn prepare(config: &LogbookConf, options: Options, now: i64) -> (r: Result<
        Append,
        LogbookError,
    >)
        requires
            -MAX_INSTANT <= now <= MAX_INSTANT,
            options.wf(),
        ensures
            options.message is None ==> r == Err::<Append, LogbookError>(
                LogbookError::MissingMessage,
            ),
            options.message matches Some(m) ==> (r matches Ok(a) && a.date.wf()
                && a.date.utc_seconds() == now && (options.utc_offset matches Some(o)
                ==> a.date.offset_seconds == o) && a.path@ == logfile_path(
                config.logbook_dir@,
                a.date,
            ) && a.text@ == entry_text(a.date, given_tags(options.tags), m@) + seq!['\n']),
    {
        let message = match options.message {
            Some(m) => m,
            None => return Err(LogbookError::MissingMessage),
        };
        let date = Date::new(now, options.utc_offset);
        let path = Self::current_logfile(&date, config.logbook_dir.as_str());
        let entry = Self::create_entry(date, options.tags, message);
        let text = appended(&entry);
        Ok(Append { date: entry.header.entry_date, path, text })
    }

    /// The entry for a message and its tags, stamped `date`.
    pub fn create_entry(date: Date, tags: Option<Vec<String>>, content: String) -> (r: Entry)
        ensures
            r.header.entry_date == date,
            r.tags@ == given_tags(tags),
            r.content == content,
    {
        let header = Header { entry_date: date };
        let entry_tags = Tags::new(tags);
        Entry { header, tags: entry_tags, content }
    }

    /// The path of the daily file that an entry stamped `date` goes to.
    pub fn current_logfile(date: &Date, logbook_dir: &str) -> (r: String)
        requires
            date.wf(),
        ensures
            r@ == logfile_path(logbook_dir@, *date),
    {
        logfile_for(date, logbook_dir)
    }
}

/// What a write is asked to record.
pub struct Options {
    pub message: Option<String>,
    pub tags: Option<Vec<String>>,
    /// Seconds east of UTC; the machine's own offset when absent.
    pub utc_offset: Option<i32>,
}

impl Options {
    pub open spec fn wf(&self) -> bool {
        self.utc_offset matches Some(o) ==> -86400 < o < 86400
    }

    /// Options for a write; the offset, when given, is a number of hours in
    /// quarter-hour steps, less than a day either way.
    pub fn new(message: Option<String>, tags: Option<Vec<String>>, offset: Option<String>) -> (r:
        Result<Self, LogbookError>)
        ensures
            offset is None ==> (r matches Ok(o) && o.utc_offset is None),
            offset matches Some(t) ==> match offset_seconds(t@) {
                Some(secs) => (r matches Ok(o) && o.utc_offset == Some(secs as i32)),
                None => r == Err::<Self, LogbookError>(LogbookError::InvalidOffset),
            },
            r matches Ok(o) ==> o.wf() && o.message == message && o.tags == tags,
    {
        let utc_offset = Self::validate_offset(offset)?;
        Ok(Self { message, tags, utc_offset })
    }

    /// The offset in seconds east of UTC that an optional text of hours names.
    pub fn validate_offset(offset: Option<String>) -> (r: Result<Option<i32>, LogbookError>)
        ensures
            offset is None ==> r == Ok::<Option<i32>, LogbookError>(None),
            offset matches Some(t) ==> match offset_seconds(t@) {
                Some(secs) => r == Ok::<Option<i32>, LogbookError>(Some(secs as i32)),
                None => r == Err::<Option<i32>, LogbookError>(LogbookError::InvalidOffset),
            },
    {
        validate_offset_text(offset)
    }
}

} // verus!
