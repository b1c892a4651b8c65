use cs2_haskell::canon::{clean_errors_vector, my_dedup, sort_errors};
use cs2_haskell::diagnostic::{ErrorLevel, LineError};
use cs2_haskell::ignore::{ignore_entries, mark_ignored, verify_ignore};
use cs2_haskell::parse::{parse_line, parse_output, ParseError};
use cs2_haskell::report::{has_findings, render_body, render_report, summary_errors};

fn finding(line: &str) -> LineError {
    parse_line(line).unwrap().unwrap()
}

fn lines(v: &[&str]) -> Vec<String> {
    v.iter().map(|s| s.to_string()).collect()
}

#[test]
fn end_to_end_scenario() {
    let input = lines(&[
        "./a.c:5:1: x Minor] trailing space (C-S1) y",
        "./a.c:5:1: x Minor] trailing space (C-S1) y",
        "./b.c: Fatal] missing header (C-H1)",
    ]);
    let rep = parse_output(&input, None).ok().unwrap();
    assert_eq!(rep.errors.len(), 2);
    assert_eq!(rep.errors[0].file, "a.c");
    assert_eq!(rep.errors[0].occurrences, 2);
    assert_eq!(rep.errors[1].file, "b.c");
    assert_eq!(rep.errors[1].line_nb, None);
    assert_eq!(rep.errors[1].col_nb, None);
    assert_eq!(rep.errors[1].occurrences, 1);
    assert!(rep.has_findings);
    let summary = "\x1b[0;01m2 error(s)\x1b[0;0m: \x1b[0;01m\x1b[0;31m1 fatal\x1b[0;0m, \
                   \x1b[0;31m0 major\x1b[0;0m, \x1b[0;93m1 minor\x1b[0;0m, \
                   \x1b[0;36m0 info\x1b[0;0m\n";
    assert!(rep.text.ends_with(summary));
    assert!(rep.text.contains("(a.c:5:1) (x2)"));
}

#[test]
fn two_equivalent_lines_merge_keeping_first_description() {
    let mut v = vec![
        finding("./a.c:3:4: x Major] first words (C-O1)"),
        finding("./a.c:3:4: x Major] other words (C-O1)"),
    ];
    clean_errors_vector(&mut v);
    assert_eq!(v.len(), 1);
    assert_eq!(v[0].occurrences, 2);
    assert_eq!(v[0].description, "first words");
}

#[test]
fn trailing_pair_is_merged() {
    let mut v = vec![
        finding("./a.c:1:1: x Minor] one (C-S1)"),
        finding("./b.c:2:2: x Major] d1 (C-O1)"),
        finding("./b.c:2:2: x Major] d2 (C-O1)"),
    ];
    clean_errors_vector(&mut v);
    assert_eq!(v.len(), 2);
    assert_eq!(v[1].file, "b.c");
    assert_eq!(v[1].occurrences, 2);
    assert_eq!(v[1].description, "d1");
}

#[test]
fn dedup_merges_only_neighbours() {
    let mut v = vec![
        finding("./a.c:1:1: x Minor] one (C-S1)"),
        finding("./b.c:1:1: x Minor] two (C-S1)"),
        finding("./a.c:1:1: x Minor] three (C-S1)"),
    ];
    my_dedup(&mut v);
    assert_eq!(v.len(), 3);
    let mut w: Vec<LineError> = Vec::new();
    my_dedup(&mut w);
    assert!(w.is_empty());
}

#[test]
fn order_is_file_then_column_then_line() {
    let v = vec![
        finding("./b.c:1:1: x Minor] a (C-S1)"),
        finding("./A.c:9:2: x Minor] b (C-S1)"),
        finding("./a.c:1:3: x Minor] c (C-S1)"),
        finding("./a.c:5:2: x Minor] d (C-S1)"),
        finding("./a.c: x Minor] e (C-S1)"),
    ];
    let s = sort_errors(&v);
    let got: Vec<&str> = s.iter().map(|e| e.description.as_str()).collect();
    assert_eq!(got, vec!["e", "d", "b", "c", "a"]);
}

#[test]
fn case_is_ignored_when_ordering_files() {
    let v = vec![finding("./Zeta.c:1:1: x Minor] z (C-S1)"), finding("./alpha.c:1:1: x Minor] a (C-S1)")];
    let s = sort_errors(&v);
    assert_eq!(s[0].file, "alpha.c");
    assert_eq!(s[1].file, "Zeta.c");
}

#[test]
fn ignore_filter_marks_files_and_directories() {
    let mut v = vec![
        finding("./build/x.c:1:1: x Minor] a (C-S1)"),
        finding("./gen.c:1:1: x Minor] b (C-S1)"),
        finding("./gen.c.bak:1:1: x Minor] c (C-S1)"),
        finding("./src/main.c:1:1: x Minor] d (C-S1)"),
        finding("./buildx/y.c:1:1: x Minor] e (C-S1)"),
    ];
    verify_ignore(&mut v, "Would remove build/\nWould remove gen.c\n");
    let flags: Vec<bool> = v.iter().map(|e| e.ignore).collect();
    assert_eq!(flags, vec![true, true, false, false, false]);
}

#[test]
fn ignore_listing_is_split_into_entries() {
    let entries = ignore_entries("Would remove a/\nWould remove b.c\n");
    assert_eq!(entries, vec!["a/".to_string(), "b.c".to_string(), String::new()]);
}

#[test]
fn empty_entries_cover_nothing() {
    let mut v = vec![finding("x.c:1:1: x Minor] a (C-S1)")];
    mark_ignored(&mut v, &vec![String::new(), "x.c/".to_string()]);
    assert!(!v[0].ignore);
}

#[test]
fn findings_flag_follows_suppression() {
    let mut v = vec![finding("x.c:1:1: x Minor] a (C-S1)"), finding("y.c:1:1: x Minor] a (C-S1)")];
    assert!(has_findings(&v));
    v[0].ignore = true;
    assert!(has_findings(&v));
    v[1].ignore = true;
    assert!(!has_findings(&v));
    assert!(!has_findings(&Vec::new()));
}

#[test]
fn suppressed_findings_are_counted_not_shown() {
    let input = lines(&["./a.c:1:1: x Info] hidden (C-S1)", "./b.c:2: x Fatal] shown (C-H1)"]);
    let rep = parse_output(&input, Some("Would remove a.c\n")).ok().unwrap();
    assert!(rep.errors[0].ignore);
    assert!(rep.has_findings);
    let expected = "\x1b[0;01mb.c:\x1b[0;0m\n\
                    \x1b[0;31mFATAL [C-H1]:\x1b[0;0m shown \x1b[0;90m(b.c:2)\x1b[0;0m\n\
                    \x1b[0;01m1 ignored errors\x1b[0;0m (use --no-ignore to see them)\n\
                    \x1b[0;01m1 error(s)\x1b[0;0m: \x1b[0;01m\x1b[0;31m1 fatal\x1b[0;0m, \
                    \x1b[0;31m0 major\x1b[0;0m, \x1b[0;93m0 minor\x1b[0;0m, \
                    \x1b[0;36m0 info\x1b[0;0m\n";
    assert_eq!(rep.text, expected);
}

#[test]
fn all_suppressed_gives_all_clear() {
    let input = lines(&["./a.c:1:1: x Info] hidden (C-S1)"]);
    let rep = parse_output(&input, Some("a.c")).ok().unwrap();
    assert!(!rep.has_findings);
    assert!(rep.text.ends_with("\x1b[0;01mThere are no coding style errors!\x1b[0;0m\n"));
}

#[test]
fn empty_input_gives_all_clear() {
    let rep = parse_output(&Vec::new(), None).ok().unwrap();
    assert!(rep.errors.is_empty());
    assert!(!rep.has_findings);
    assert_eq!(rep.text, "\x1b[0;01mThere are no coding style errors!\x1b[0;0m\n");
}

#[test]
fn header_once_per_run_of_one_file() {
    let v = vec![
        finding("a.c:1:1: x Minor] p (C-S1)"),
        finding("a.c:2:1: x Minor] q (C-S1)"),
        finding("b.c:1:1: x Minor] r (C-S1)"),
    ];
    let body = render_body(&v);
    assert_eq!(body.matches("\x1b[0;01ma.c:").count(), 1);
    assert_eq!(body.matches("\x1b[0;01mb.c:").count(), 1);
    assert_eq!(render_report(&v), format!("{}{}", body, summary_errors(&v)));
}

#[test]
fn bad_number_stops_the_run() {
    let input = lines(&["ok line", "./a.c:99999999999:1: x Minor] d (C-S1)"]);
    assert!(matches!(parse_output(&input, None), Err(ParseError::BadNumber)));
}

#[test]
fn levels_are_counted_in_fixed_order() {
    let v = vec![
        finding("a.c:1:1: x Info] p (C-S1)"),
        finding("a.c:2:1: x Major] q (C-S1)"),
        finding("a.c:3:1: x Major] q (C-S2)"),
    ];
    assert_eq!(v[0].level, ErrorLevel::Info);
    let s = summary_errors(&v);
    assert_eq!(
        s,
        "\x1b[0;01m3 error(s)\x1b[0;0m: \x1b[0;01m\x1b[0;31m0 fatal\x1b[0;0m, \
         \x1b[0;31m2 major\x1b[0;0m, \x1b[0;93m0 minor\x1b[0;0m, \x1b[0;36m1 info\x1b[0;0m\n"
    );
}

#[test]
fn empty_file_name_gets_one_header_per_run() {
    let v = vec![finding("./:1:1: x Minor] p (C-S1)"), finding("./:2:1: x Minor] q (C-S1)")];
    assert_eq!(v[0].file, "");
    let body = render_body(&v);
    assert_eq!(body.matches("\x1b[0;01m:\x1b[0;0m\n").count(), 1);
    assert!(body.starts_with("\x1b[0;01m:\x1b[0;0m\n"));
}

#[test]
fn equivalent_pair_in_longer_list_merges_to_first_seen() {
    let mut v = vec![
        finding("./b.c:1:1: x Minor] other (C-S1)"),
        finding("./a.c:4:2: x Major] first seen (C-O1)"),
        finding("./c.c:1:1: x Minor] third (C-S1)"),
        finding("./a.c:4:2: x Major] seen later (C-O1)"),
    ];
    clean_errors_vector(&mut v);
    let files: Vec<&str> = v.iter().map(|e| e.file.as_str()).collect();
    assert_eq!(files, vec!["a.c", "b.c", "c.c"]);
    assert_eq!(v[0].occurrences, 2);
    assert_eq!(v[0].description, "first seen");
    assert_eq!(v[1].occurrences, 1);
}
