use cs2_haskell::package::{needs_rebuild, release_download_link, Packages, LAMBDANANAS_RELEASE_LINK};
use cs2_haskell::paths::{get_final_path, get_temp_path, path_var_warning};
use cs2_haskell::shared::{split_output, Colors, OutputError};
use cs2_haskell::text::{decimal, parse_number, replace_all, split_on, text_le};

#[test]
fn split_output_splits_lines() {
    let v = split_output(b"one\ntwo\n".to_vec()).ok().unwrap();
    assert_eq!(v, vec!["one".to_string(), "two".to_string(), String::new()]);
    let v = split_output("é\nx".as_bytes().to_vec()).ok().unwrap();
    assert_eq!(v, vec!["é".to_string(), "x".to_string()]);
}

#[test]
fn split_output_rejects_bad_bytes() {
    assert!(matches!(split_output(vec![0xff, 0x0a]), Err(OutputError::NotUtf8)));
}

#[test]
fn split_on_empty_gives_one_piece() {
    assert_eq!(split_on("", '\n'), vec![String::new()]);
}

#[test]
fn decimal_and_numbers() {
    assert_eq!(decimal(0), "0");
    assert_eq!(decimal(4294967295), "4294967295");
    assert_eq!(parse_number("0042"), Some(42));
    assert_eq!(parse_number("4294967295"), Some(4294967295));
    assert_eq!(parse_number("4294967296"), None);
    assert_eq!(parse_number(""), None);
    assert_eq!(parse_number("1a"), None);
}

#[test]
fn replace_and_compare() {
    assert_eq!(replace_all("aXbXX", "X", "yy"), "ayybyyyy");
    assert_eq!(replace_all("aaa", "aa", "b"), "ba");
    assert!(text_le("abc", "abd"));
    assert!(text_le("ab", "abc"));
    assert!(!text_le("b", "a"));
}

#[test]
fn colours() {
    assert_eq!(Colors::GRAY.as_str(), "\x1b[0;90m");
    assert_eq!(Colors::RESET.as_str(), "\x1b[0;0m");
}

#[test]
fn package_names() {
    assert_eq!(Packages::from_str("LambdaNanas"), Some(Packages::Lambdananas));
    assert_eq!(Packages::from_str("cs2-HASKELL"), Some(Packages::Cs2Haskell));
    assert_eq!(Packages::from_str("other"), None);
    assert_eq!(Packages::Cs2Haskell.as_str(), "cs2-haskell");
    assert_eq!(Packages::Lambdananas.get_packages(), vec!["/usr/local/bin/lambdananas"]);
    assert!(Packages::Cs2Haskell.get_packages().is_empty());
}

#[test]
fn paths_of_packages() {
    assert_eq!(get_temp_path("lambdananas"), "/tmp/cs2-haskell-lambdananas");
    assert_eq!(get_final_path("lambdananas"), "/usr/local/share/cs2-haskell/lambdananas");
    assert_eq!(get_final_path(""), "/usr/local/share/cs2-haskell/");
}

#[test]
fn path_warning() {
    assert_eq!(path_var_warning("/usr/bin:/usr/local/bin", "/usr/local/bin"), None);
    assert_eq!(
        path_var_warning("/usr/bin", "/usr/local/bin"),
        Some("You need to add /usr/local/bin to your PATH environment variable.".to_string())
    );
}

#[test]
fn release_link_from_description() {
    let body = "{\"url\":\"x\",\"tag_name\":\"v1.2\",\"name\":\"r\"}";
    assert_eq!(
        release_download_link(LAMBDANANAS_RELEASE_LINK, body),
        Some("https://github.com/Epitech/lambdananas/releases/download/v1.2/lambdananas".to_string())
    );
    assert_eq!(release_download_link(LAMBDANANAS_RELEASE_LINK, "{}"), None);
}

#[test]
fn pull_output_decides_rebuild() {
    assert!(!needs_rebuild("From x\nAlready up to date.\n"));
    assert!(needs_rebuild("Updating 1..2\nFast-forward\n"));
}
