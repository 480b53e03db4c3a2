use logbook::error::LogbookError;
use logbook::logbook::writer::Options;
use logbook::offset::parse_offset_hours;

#[test]
fn quarter_hour_offsets_are_read_as_seconds() {
    assert_eq!(parse_offset_hours("0"), Ok(0));
    assert_eq!(parse_offset_hours("0.0"), Ok(0));
    assert_eq!(parse_offset_hours("5.5"), Ok(19_800));
    assert_eq!(parse_offset_hours("+5.75"), Ok(20_700));
    assert_eq!(parse_offset_hours("-3.25"), Ok(-11_700));
    assert_eq!(parse_offset_hours("0.2500000"), Ok(900));
    assert_eq!(parse_offset_hours("23.75"), Ok(85_500));
    assert_eq!(parse_offset_hours("-12"), Ok(-43_200));
}

#[test]
fn offsets_off_the_quarter_hour_are_refused() {
    for bad in ["0.1", "5.3", "0.125", "0.2500001", "1.05", "-7.2"] {
        assert_eq!(parse_offset_hours(bad), Err(LogbookError::InvalidOffset), "{}", bad);
    }
}

#[test]
fn offsets_that_are_not_numbers_or_too_wide_are_refused() {
    for bad in ["", "+", "abc", "5.", ".5", "1e2", "24", "-24", "100.25", "5,5", "--1"] {
        assert_eq!(parse_offset_hours(bad), Err(LogbookError::InvalidOffset), "{}", bad);
    }
}

#[test]
fn writer_options_validate_the_offset() {
    assert_eq!(
        Options::new(Some("m".to_string()), None, Some("0.3".to_string())).err(),
        Some(LogbookError::InvalidOffset)
    );
    let o = Options::new(Some("m".to_string()), None, Some("1.5".to_string())).unwrap();
    assert_eq!(o.utc_offset, Some(5400));
    let o = Options::new(Some("m".to_string()), None, None).unwrap();
    assert_eq!(o.utc_offset, None);
}

#[test]
fn validate_offset_refuses_non_quarter_hours() {
    assert_eq!(Options::validate_offset(Some("0.3".to_string())), Err(LogbookError::InvalidOffset));
    assert_eq!(Options::validate_offset(Some("-4.75".to_string())), Ok(Some(-17_100)));
    assert_eq!(Options::validate_offset(None), Ok(None));
    assert_eq!(
        logbook::logbook::Options::validate_offset(Some("2.2".to_string())),
        Err(LogbookError::InvalidOffset)
    );
}
