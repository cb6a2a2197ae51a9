//! The command line on given arguments.
use crowc::cli::{build, output_name, parse_args, Command};

fn args(words: &[&str]) -> Vec<String> {
    words.iter().map(|w| w.to_string()).collect()
}

fn usage(words: &[&str]) -> bool {
    matches!(parse_args(&args(words)), Command::Usage)
}

#[test]
fn builds_and_runs() {
    match parse_args(&args(&["build", "a.crow"])) {
        Command::Build { src, out } => assert_eq!((src.as_str(), out), ("a.crow", None)),
        _ => panic!("expected a build"),
    }
    match parse_args(&args(&["build", "-o", "x", "a.crow"])) {
        Command::Build { src, out } => {
            assert_eq!((src.as_str(), out), ("a.crow", Some("x".to_string())))
        }
        _ => panic!("expected a build"),
    }
    match parse_args(&args(&["run", "a.crow", "-o", "b"])) {
        Command::Run { src } => assert_eq!(src, "a.crow"),
        _ => panic!("expected a run"),
    }
}

#[test]
fn usage_otherwise() {
    assert!(usage(&[]));
    assert!(usage(&["frobnicate"]));
    assert!(usage(&["run"]));
    assert!(usage(&["build"]));
    assert!(usage(&["build", "a.crow", "-o"]));
    assert!(usage(&["build", "a.crow", "b.crow"]));
}

#[test]
fn output_names() {
    assert_eq!(output_name(Some("x".to_string()), Some("a".to_string())), "x");
    assert_eq!(output_name(None, Some("a".to_string())), "a");
    assert_eq!(output_name(None, None), "a.out");
}

#[test]
fn first_error_wins() {
    let message = |src: &str| match build(src) {
        Ok(_) => panic!("expected an error"),
        Err(m) => m,
    };
    assert_eq!(message("fn main() { let x = ; }"), "1:21: expected an expression, found ';'");
    assert!(message("fn main() { let x: int = true; }").contains("type mismatch"));
    assert!(message("\"").contains("unterminated"));
}
