//! Where the journal lives.
use vstd::prelude::*;

use crate::error::LogbookError;
use crate::logbook::{join_path, joined_path};

verus! {

/// The journal's settings: the directory that holds its daily files.
pub struct LogbookConf {
    pub logbook_dir: String,
}

/// The directory chosen on first run: the typed answer when there is one, else
/// a `Logbook` directory inside the home directory or, lacking one, inside the
/// working directory.
pub open spec fn chosen_dir(answer: Seq<char>, home: Option<Seq<char>>, cwd: Option<Seq<char>>) -> Option<Seq<char>> {
    if answer.len() > 0 {
        Some(answer)
    } else {
        match home {
            Some(h) => Some(joined_path(h, seq!['L', 'o', 'g', 'b', 'o', 'o', 'k'])),
            None => match cwd {
                Some(c) => Some(joined_path(c, seq!['L', 'o', 'g', 'b', 'o', 'o', 'k'])),
                None => None,
            },
        }
    }
}

/// The characters of an optional string.
pub open spec fn text_of(s: Option<String>) -> Option<Seq<char>> {
    match s {
        Some(t) => Some(t@),
        None => None,
    }
}

impl LogbookConf {
    /// Settings from the first-run answer, the home directory and the working
    /// directory, whichever of the latter two are known.
    pub fn from_answer(answer: &str, home: Option<String>, cwd: Option<String>) -> (r: Result<
        LogbookConf,
        LogbookError,
    >)
        ensures
            match chosen_dir(answer@, text_of(home), text_of(cwd)) {
                Some(d) => (r matches Ok(c) && c.logbook_dir@ == d),
                None => r == Err::<LogbookConf, LogbookError>(LogbookError::NoLogbookDir),
            },
    {
        if answer.unicode_len() > 0 {
            return Ok(LogbookConf { logbook_dir: String::from_str(answer) });
        }
        let base = match home {
            Some(h) => h,
            None => match cwd {
                Some(c) => c,
                None => return Err(LogbookError::NoLogbookDir),
            },
        };
        let name = "Logbook";
        proof {
            reveal_strlit("Logbook");
        }
        Ok(LogbookConf { logbook_dir: join_path(base.as_str(), name) })
    }
}

} // verus!
