use logbook::config::LogbookConf;
use logbook::entry::Date;
use logbook::error::LogbookError;
use logbook::logbook::writer::{Options, Writer};
use logbook::logbook::{join_path, Logbook};

fn conf(dir: &str) -> LogbookConf {
    LogbookConf { logbook_dir: dir.to_string() }
}

#[test]
fn pizza_scenario_goes_to_its_day_file() {
    let options = Options::new(
        Some("Had pizza".to_string()),
        Some(vec!["food".to_string()]),
        Some("0.0".to_string()),
    )
    .unwrap();
    let append = Writer::prepare(&conf("/logs"), options, 86_400).unwrap();
    assert_eq!(append.path, "/logs/1970-01-02.txt");
    assert_eq!(append.text, "[12:00:00 AM +0000]\n#food\nHad pizza\n\n");
}

#[test]
fn a_message_is_required() {
    let options = Options::new(None, None, None).unwrap();
    assert_eq!(
        Writer::prepare(&conf("/logs"), options, 0).err(),
        Some(LogbookError::MissingMessage)
    );
}

#[test]
fn writes_across_midnight_use_two_files() {
    let first = Writer::prepare(
        &conf("logs"),
        Options::new(Some("late".to_string()), None, Some("5.5".to_string())).unwrap(),
        18 * 3600 + 29 * 60,
    )
    .unwrap();
    let second = Writer::prepare(
        &conf("logs"),
        Options::new(Some("early".to_string()), None, Some("5.5".to_string())).unwrap(),
        18 * 3600 + 31 * 60,
    )
    .unwrap();
    let third = Writer::prepare(
        &conf("logs"),
        Options::new(Some("later".to_string()), None, Some("5.5".to_string())).unwrap(),
        20 * 3600,
    )
    .unwrap();
    assert_eq!(first.path, "logs/1970-01-01.txt");
    assert_eq!(second.path, "logs/1970-01-02.txt");
    assert_eq!(third.path, second.path);
    assert_eq!(first.text, "[11:59:00 PM +0530]\nlate\n\n");
    assert_eq!(second.text, "[12:01:00 AM +0530]\nearly\n\n");
}

#[test]
fn same_day_gives_same_path_and_other_days_other_paths() {
    let morning = Date::new(3600, Some(0));
    let evening = Date::new(23 * 3600, Some(0));
    let next = Date::new(25 * 3600, Some(0));
    assert_eq!(
        Logbook::current_logfile(&morning, "d"),
        Logbook::current_logfile(&evening, "d")
    );
    assert_ne!(Logbook::current_logfile(&morning, "d"), Logbook::current_logfile(&next, "d"));
    assert_eq!(Writer::current_logfile(&next, "d/"), "d/1970-01-02.txt");
    assert_eq!(Writer::current_logfile(&next, ""), "1970-01-02.txt");
}

#[test]
fn join_path_adds_one_separator() {
    assert_eq!(join_path("/home/me", "Logbook"), "/home/me/Logbook");
    assert_eq!(join_path("/home/me/", "Logbook"), "/home/me/Logbook");
    assert_eq!(join_path("", "Logbook"), "Logbook");
}

#[test]
fn create_entry_keeps_tags_and_content() {
    let entry = Writer::create_entry(Date::new(0, Some(0)), Some(vec!["t".to_string()]), "c".to_string());
    assert_eq!(entry.content, "c");
    assert_eq!(entry.tags.to_string(), "#t");
    let old = logbook::logbook::Options::new("m".to_string(), None, Some("-2.25".to_string())).unwrap();
    assert_eq!(old.utc_offset, Some(-8100));
    let entry = Logbook::create_entry(Date::new(0, old.utc_offset), old);
    assert_eq!(entry.to_string(), "[09:45:00 PM -0215]\nm\n");
}

#[test]
fn first_run_directory_choice() {
    let c = LogbookConf::from_answer("/srv/journal", Some("/home/me".to_string()), None).unwrap();
    assert_eq!(c.logbook_dir, "/srv/journal");
    let c = LogbookConf::from_answer("", Some("/home/me".to_string()), Some("/tmp".to_string())).unwrap();
    assert_eq!(c.logbook_dir, "/home/me/Logbook");
    let c = LogbookConf::from_answer("", None, Some("/tmp".to_string())).unwrap();
    assert_eq!(c.logbook_dir, "/tmp/Logbook");
    assert_eq!(
        LogbookConf::from_answer("", None, None).err(),
        Some(LogbookError::NoLogbookDir)
    );
}
