use binbloom::{LogLevel, Logger};

#[test]
fn verbosity_mapping() {
    assert_eq!(LogLevel::from_verbosity(0), LogLevel::Warning);
    assert_eq!(LogLevel::from_verbosity(1), LogLevel::Info);
    assert_eq!(LogLevel::from_verbosity(2), LogLevel::Debug);
    assert_eq!(LogLevel::from_verbosity(10), LogLevel::Debug);
}

#[test]
fn level_ordering() {
    assert!(LogLevel::Error < LogLevel::Debug);
    assert!(LogLevel::Quiet < LogLevel::Error);
}

#[test]
fn logger_shows_levels_up_to_its_own() {
    let l = Logger::new(LogLevel::Warning);
    assert!(l.shows(LogLevel::Quiet));
    assert!(l.shows(LogLevel::Error));
    assert!(l.shows(LogLevel::Warning));
    assert!(!l.shows(LogLevel::Info));
    assert!(!l.shows(LogLevel::Debug));
    assert_eq!(Logger::default().level(), LogLevel::Warning);
}

#[test]
fn tags() {
    assert_eq!(LogLevel::Quiet.tag(), "");
    assert_eq!(LogLevel::Error.tag(), "ERROR");
    assert_eq!(LogLevel::Warning.tag(), "WARNING");
    assert_eq!(LogLevel::Info.tag(), "INFO");
    assert_eq!(LogLevel::Debug.tag(), "DEBUG");
}

#[test]
fn lines_carry_tags() {
    let l = Logger::new(LogLevel::Info);
    assert_eq!(l.line(LogLevel::Quiet, "hello"), Some("hello".to_string()));
    assert_eq!(l.line(LogLevel::Info, "hi"), Some("INFO: hi".to_string()));
    assert_eq!(l.line(LogLevel::Debug, "hidden"), None);
}
