use cs2_haskell::diagnostic::ErrorLevel;
use cs2_haskell::parse::{line_from_groups, parse_line, skip_leading_dot, ParseError};

#[test]
fn parses_example_line() {
    let e = parse_line("./foo.c:12:3: something Major] Bad indentation (C-O1) extra")
        .unwrap()
        .unwrap();
    assert_eq!(e.file, "foo.c");
    assert_eq!(e.line_nb, Some(12));
    assert_eq!(e.col_nb, Some(3));
    assert_eq!(e.level, ErrorLevel::Major);
    assert_eq!(e.description, "Bad indentation");
    assert_eq!(e.rule, "C-O1");
    assert!(!e.ignore);
    assert_eq!(e.occurrences, 1);
}

#[test]
fn unmatched_lines_give_nothing() {
    for line in ["", "banner text", "no colon here Major] x (C-O1)", "a.c:1:1: Critical] x (C-O1)"] {
        assert!(matches!(parse_line(line), Ok(None)));
        assert!(matches!(parse_line(line), Ok(None)));
    }
}

#[test]
fn absent_positions_stay_absent() {
    let e = parse_line("./b.c: Fatal] missing header (C-H1)").unwrap().unwrap();
    assert_eq!(e.file, "b.c");
    assert_eq!(e.line_nb, None);
    assert_eq!(e.col_nb, None);
    assert_eq!(e.level, ErrorLevel::Fatal);
    assert_eq!(e.description, "missing header");
    assert_eq!(e.rule, "C-H1");
}

#[test]
fn only_one_leading_dot_slash_is_removed() {
    let e = parse_line("././x.c:1:2: y Info] d (C-A1)").unwrap().unwrap();
    assert_eq!(e.file, "./x.c");
    let e = parse_line("src/x.c:1:2: y Minor] d (C-A1)").unwrap().unwrap();
    assert_eq!(e.file, "src/x.c");
    assert_eq!(e.level, ErrorLevel::Minor);
}

#[test]
fn skip_leading_dot_drops_two_characters() {
    assert_eq!(skip_leading_dot("./a.c"), "a.c");
    assert_eq!(skip_leading_dot("."), "");
}

#[test]
fn oversized_line_number_is_an_error() {
    assert!(matches!(
        parse_line("./a.c:99999999999:1: x Minor] d (C-S1)"),
        Err(ParseError::BadNumber)
    ));
}

#[test]
fn unknown_keyword_in_groups_is_an_error() {
    let groups: Vec<String> = ["whole", "f.c", "1", "2", "Bogus", "desc", "C-O1"]
        .iter()
        .map(|s| s.to_string())
        .collect();
    assert!(matches!(line_from_groups(&groups), Err(ParseError::UnknownLevel)));
}

#[test]
fn short_groups_are_an_error() {
    let groups: Vec<String> = vec!["whole".to_string(), "f.c".to_string()];
    assert!(matches!(line_from_groups(&groups), Err(ParseError::MissingGroup)));
}

#[test]
fn groups_make_a_finding() {
    let groups: Vec<String> = ["whole", "./f.c", "", "7", "Info", "desc", "C-O1"]
        .iter()
        .map(|s| s.to_string())
        .collect();
    let e = line_from_groups(&groups).unwrap();
    assert_eq!(e.file, "f.c");
    assert_eq!(e.line_nb, None);
    assert_eq!(e.col_nb, Some(7));
    assert_eq!(e.level, ErrorLevel::Info);
}

#[test]
fn level_names_and_colours() {
    assert_eq!(ErrorLevel::from_str("Fatal"), Some(ErrorLevel::Fatal));
    assert_eq!(ErrorLevel::from_str("fatal"), None);
    assert_eq!(ErrorLevel::Major.as_str(), "MAJOR");
    assert_eq!(ErrorLevel::Minor.to_color_str(), "\x1b[0;93m");
    assert_eq!(ErrorLevel::Info.as_word(), "info");
}
