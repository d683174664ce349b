use remodeco::model::{SourceFingerprint, SourceKind};
use remodeco::natural::natural_cmp;
use remodeco::scan::{compile_excludes, relative_path, skip_entry, sort_rows, ScanRow};

fn row(from: &str) -> ScanRow {
    ScanRow {
        from: from.to_owned(),
        fingerprint: SourceFingerprint {
            kind: SourceKind::File,
            dev: "1".into(),
            ino: "1".into(),
            size: "0".into(),
            nlink: "1".into(),
            mtime_ns: "0".into(),
            mode: 0o100644,
        },
    }
}

#[test]
fn sorts_numbers_naturally() {
    assert_eq!(natural_cmp("x2", "x10"), std::cmp::Ordering::Less);
}

#[test]
fn natural_order_compares_digit_runs_as_numbers() {
    assert_eq!(natural_cmp("x10", "x2"), std::cmp::Ordering::Greater);
    assert_eq!(natural_cmp("a", "a"), std::cmp::Ordering::Equal);
    assert_eq!(natural_cmp("x01", "x1"), std::cmp::Ordering::Greater);
    assert_eq!(natural_cmp("ab", "abc"), std::cmp::Ordering::Less);
    assert_eq!(natural_cmp("b", "a10"), std::cmp::Ordering::Greater);
}

#[test]
fn rows_are_listed_in_natural_order() {
    let rows = vec![row("/r/x10"), row("/r/x2"), row("/r/a"), row("/r/x2")];
    let sorted = sort_rows(rows);
    let names: Vec<&str> = sorted.iter().map(|r| r.from.as_str()).collect();
    assert_eq!(names, vec!["/r/a", "/r/x2", "/r/x2", "/r/x10"]);
}

#[test]
fn hidden_and_excluded_entries_are_skipped() {
    let matchers = compile_excludes(&vec!["node_modules".to_owned(), "*.tmp".to_owned()])
        .unwrap_or_else(|_| panic!("patterns compile"));
    assert!(skip_entry(".secret", "/r/.secret", "/r", false, &matchers));
    assert!(!skip_entry(".secret", "/r/.secret", "/r", true, &matchers));
    assert!(skip_entry("node_modules", "/r/node_modules", "/r", false, &matchers));
    assert!(skip_entry("x.tmp", "/r/sub/x.tmp", "/r", false, &matchers));
    assert!(!skip_entry("a.txt", "/r/a.txt", "/r", false, &matchers));
}

#[test]
fn an_invalid_exclude_pattern_is_named() {
    match compile_excludes(&vec!["ok".to_owned(), "a[".to_owned()]) {
        Err(p) => assert_eq!(p, "a["),
        Ok(_) => panic!("accepted an unclosed class"),
    }
}

#[test]
fn relative_paths_are_below_the_root() {
    assert_eq!(relative_path("/r/sub/a.txt", "/r"), "sub/a.txt");
    assert_eq!(relative_path("/elsewhere/a", "/r"), "/elsewhere/a");
}

#[test]
fn a_pattern_whose_matcher_cannot_be_built_is_refused() {
    let deep = format!("{}a{}", "{".repeat(300), "}".repeat(300));
    assert_eq!(compile_excludes(&vec![deep.clone()]).err(), Some(deep));
    assert!(compile_excludes(&vec!["*.tmp".to_owned()]).is_ok());
}
