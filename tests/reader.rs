use logbook::error::LogbookError;
use logbook::logbook::reader::{parse_field, split_dashes, CalDate, Options, Reader};

fn day(year: i32, month: u32, day: u32) -> CalDate {
    CalDate { year, month, day }
}

#[test]
fn partial_dates_of_each_precision() {
    assert_eq!(Options::parsed_ymd(&"2021".to_string()), Ok((2021, None, None)));
    assert_eq!(Options::parsed_ymd(&"2021-06".to_string()), Ok((2021, Some(6), None)));
    assert_eq!(Options::parsed_ymd(&"2021-06-15".to_string()), Ok((2021, Some(6), Some(15))));
    assert_eq!(Options::parsed_ymd(&"2021-13".to_string()), Ok((2021, Some(13), None)));
}

#[test]
fn partial_dates_out_of_the_calendar() {
    assert_eq!(
        Options::new(Some("2021-13".to_string()), None, None).err(),
        Some(LogbookError::DateOutOfRange)
    );
    assert_eq!(
        Options::new(None, None, Some("2021-06-31".to_string())).err(),
        Some(LogbookError::DateOutOfRange)
    );
    // "after" fills in day 31, which June lacks
    assert_eq!(
        Options::new(None, Some("2021-06".to_string()), None).err(),
        Some(LogbookError::DateOutOfRange)
    );
}

#[test]
fn malformed_and_unrecognized_dates() {
    assert_eq!(Options::parsed_ymd(&"2021-ab".to_string()), Err(LogbookError::MalformedDate));
    assert_eq!(Options::parsed_ymd(&"2021x".to_string()), Err(LogbookError::MalformedDate));
    assert_eq!(Options::parsed_ymd(&"2021--5".to_string()), Err(LogbookError::MalformedDate));
    assert_eq!(Options::parsed_ymd(&"21-06".to_string()), Err(LogbookError::UnrecognizedDateFormat));
    assert_eq!(Options::parsed_ymd(&"June".to_string()), Err(LogbookError::UnrecognizedDateFormat));
    assert_eq!(
        Options::parsed_ymd(&"2021-01-02-03".to_string()),
        Err(LogbookError::UnrecognizedDateFormat)
    );
}

#[test]
fn before_and_after_fill_in_opposite_ends() {
    let f = Options::new(Some("2021".to_string()), Some("2020".to_string()), None).unwrap();
    assert_eq!(f.before, Some(day(2021, 1, 1)));
    assert_eq!(f.after, Some(day(2020, 12, 31)));
    assert_eq!(f.on, None);
    let f = Options::new(None, None, Some("2021-06".to_string())).unwrap();
    assert_eq!(f.on, Some(day(2021, 6, 1)));
}

#[test]
fn on_with_before_conflicts_before_any_parsing() {
    assert_eq!(
        Options::new(Some("garbage".to_string()), None, Some("also garbage".to_string())).err(),
        Some(LogbookError::ConflictingFilters)
    );
    assert_eq!(
        Options::new(None, Some("2021".to_string()), Some("2021".to_string())).err(),
        Some(LogbookError::ConflictingFilters)
    );
}

#[test]
fn filters_admit_strictly_between_bounds() {
    let f = Options::new(Some("2021-06-15".to_string()), Some("2021-06-10".to_string()), None).unwrap();
    assert!(f.admits(&day(2021, 6, 11)));
    assert!(f.admits(&day(2021, 6, 14)));
    assert!(!f.admits(&day(2021, 6, 15)));
    assert!(!f.admits(&day(2021, 6, 10)));
    let f = Options::new(None, None, Some("2021-06-15".to_string())).unwrap();
    assert!(f.admits(&day(2021, 6, 15)));
    assert!(!f.admits(&day(2021, 6, 16)));
    let f = Options::new(None, None, None).unwrap();
    assert!(f.admits(&day(1, 1, 1)));
}

#[test]
fn fields_and_pieces() {
    assert_eq!(parse_field("+7"), Some(7));
    assert_eq!(parse_field("2147483647"), Some(2147483647));
    assert_eq!(parse_field("2147483648"), None);
    assert_eq!(parse_field(""), None);
    assert_eq!(split_dashes("a-b--c"), vec!["a", "b", "", "c"]);
    assert_eq!(split_dashes(""), vec![""]);
}

#[test]
fn daily_file_names_give_their_day() {
    assert_eq!(Reader::file_date("2021-06-15.txt"), Some(day(2021, 6, 15)));
    assert_eq!(Reader::file_date("2021-02-29.txt"), None);
    assert_eq!(Reader::file_date("2021-06-15.md"), None);
    assert_eq!(Reader::file_date("notes.txt"), None);
    assert_eq!(Reader::file_date("2021-6-15.txt"), None);
}

#[test]
fn select_keeps_the_days_the_filters_admit() {
    let names: Vec<String> = ["2021-06-16.txt", "2021-06-14.txt", "readme", "2020-01-01.txt", "2021-07-01.txt"]
        .iter()
        .map(|s| s.to_string())
        .collect();
    let f = Options::new(Some("2021-07".to_string()), Some("2020".to_string()), None).unwrap();
    assert_eq!(Reader::select(&names, &f), vec!["2021-06-14.txt", "2021-06-16.txt"]);
    let all = Options::new(None, None, None).unwrap();
    assert_eq!(
        Reader::select(&names, &all),
        vec!["2020-01-01.txt", "2021-06-14.txt", "2021-06-16.txt", "2021-07-01.txt"]
    );
}

#[test]
fn split_entries_cuts_at_header_lines() {
    let text = "[12:00:00 AM +0000]\n#food\nHad pizza\n\n[01:30:00 PM -0330]\nline one\n[not a header]\n\n";
    let pieces = Reader::split_entries(text);
    assert_eq!(
        pieces,
        vec![
            "[12:00:00 AM +0000]\n#food\nHad pizza\n\n",
            "[01:30:00 PM -0330]\nline one\n[not a header]\n\n"
        ]
    );
    assert_eq!(pieces.concat(), text);
    assert_eq!(Reader::split_entries(""), vec![""]);
}
