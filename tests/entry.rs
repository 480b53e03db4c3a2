use chrono::{DateTime, Local, Offset};
use logbook::entry::{Date, Entry, Header, Tags};

fn epoch_entry_date() -> Date {
    Date::new(0, Some(0))
}

#[test]
fn tags_is_empty_is_true_when_there_are_no_tags() {
    let result = Tags::new(None).is_empty();
    assert_eq!(result, true);
}

#[test]
fn tags_is_empty_is_true_when_there_is_an_empty_list() {
    let result = Tags::new(Some(vec![])).is_empty();
    assert_eq!(result, true);
}

#[test]
fn tags_is_empty_is_false_when_there_are_tags() {
    let result = Tags::new(Some(vec!["pizza".to_string(), "planet".to_string()])).is_empty();

    assert_eq!(result, false);
}

#[test]
fn tags_to_string_prepends_with_hashes() {
    let result = Tags::new(Some(vec!["pizza".to_string(), "planet".to_string()])).to_string();

    assert_eq!(result, "#pizza, #planet".to_string());
}

#[test]
fn header_to_string_formats_correctly() {
    let result = Header { entry_date: Date::new(0, Some(0)) }.to_string();
    assert_eq!(result, "[12:00:00 AM +0000]")
}

#[test]
fn date_new_contructs_a_date_with_correct_offset() {
    let date = Date::new(0, Some(0));

    assert_eq!(date.offset_seconds, 0);
}

#[test]
fn date_new_constructs_a_date_with_local_offset() {
    let now = DateTime::from_timestamp(0, 0).unwrap();
    let local_offset = now.with_timezone(&Local).offset().fix().local_minus_utc();
    let date = Date::new(0, None);

    assert_eq!(date.offset_seconds, local_offset);
}

#[test]
fn date_to_filename_date_formats_correctly() {
    let date = Date::new(86_400, Some(0));
    let result = date.to_filename_date();

    assert_eq!(result, "1970-01-02");
}

#[test]
fn date_to_logbook_timestamp_formats_correctly() {
    let date = Date::new(86_400, Some(0));
    let result = date.to_logbook_timestamp();

    assert_eq!(result, "12:00:00 AM +0000");
}

#[test]
fn entry_to_string_formats_with_no_tags() {
    let header = Header { entry_date: epoch_entry_date() };
    let tags = Tags::new(None);
    let result = Entry {
        header,
        tags,
        content: "I haven't had pizza in 30 days".to_string(),
    }
    .to_string();

    let expected = format!(
        "{}\n",
        vec!["[12:00:00 AM +0000]", "I haven't had pizza in 30 days"].join("\n")
    );

    assert_eq!(result, expected);
}

#[test]
fn entry_to_string_formats_correctly_with_tags() {
    let header = Header { entry_date: epoch_entry_date() };
    let tags = Tags::new(Some(vec!["pizza".to_string(), "planet".to_string()]));
    let result = Entry {
        header,
        tags,
        content: "I haven't had pizza in 30 days".to_string(),
    }
    .to_string();

    let expected = format!(
        "{}\n",
        vec!["[12:00:00 AM +0000]", "#pizza, #planet", "I haven't had pizza in 30 days"].join("\n")
    );

    assert_eq!(result, expected);
}

#[test]
fn entry_without_tags_has_no_tags_line() {
    let text = Entry {
        header: Header { entry_date: epoch_entry_date() },
        tags: Tags::new(Some(vec![])),
        content: "x".to_string(),
    }
    .to_string();
    assert_eq!(text, "[12:00:00 AM +0000]\nx\n");
    assert!(!text.contains('#'));
}

#[test]
fn entry_with_two_tags_has_one_tags_line() {
    let text = Entry {
        header: Header { entry_date: epoch_entry_date() },
        tags: Tags::new(Some(vec!["a".to_string(), "b".to_string()])),
        content: "x".to_string(),
    }
    .to_string();
    assert_eq!(text, "[12:00:00 AM +0000]\n#a, #b\nx\n");
}

#[test]
fn single_tag_has_no_separator() {
    assert_eq!(Tags::new(Some(vec!["food".to_string()])).to_string(), "#food");
    assert_eq!(Tags::new(None).to_string(), "");
}

#[test]
fn timestamp_in_the_afternoon_with_negative_offset() {
    // 1970-01-01 15:04:05 UTC seen at -03:30 is 11:34:05 in the morning
    let date = Date::new(15 * 3600 + 4 * 60 + 5, Some(-(3 * 3600 + 1800)));
    assert_eq!(date.to_logbook_timestamp(), "11:34:05 AM -0330");
    assert_eq!(date.to_filename_date(), "1970-01-01");
    // and at +09:45 it is 00:49:05 the next day
    let date = Date::new(15 * 3600 + 4 * 60 + 5, Some(9 * 3600 + 2700));
    assert_eq!(date.to_logbook_timestamp(), "12:49:05 AM +0945");
    assert_eq!(date.to_filename_date(), "1970-01-02");
}

#[test]
fn timestamp_after_noon_reads_pm() {
    // 2021-06-15 13:00:00 UTC
    let date = Date::new(1_623_762_000, Some(0));
    assert_eq!(date.to_logbook_timestamp(), "01:00:00 PM +0000");
    assert_eq!(date.to_filename_date(), "2021-06-15");
    assert_eq!((date.year, date.month, date.day, date.hour), (2021, 6, 15, 13));
}

#[test]
fn filename_date_before_year_one_and_after_9999() {
    // 0001-01-01 is 719_162 days before the epoch, and year 0 is a leap year
    let date = Date::new(-719_163 * 86_400, Some(0));
    assert_eq!(date.to_filename_date(), "0000-12-31");
    let date = Date::new(-719_529 * 86_400, Some(0));
    assert_eq!(date.to_filename_date(), "-0001-12-31");
    // 10000-01-01 is 2_932_897 days after the epoch
    let date = Date::new(2_932_897 * 86_400, Some(0));
    assert_eq!(date.to_filename_date(), "+10000-01-01");
}
