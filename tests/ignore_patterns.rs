use projectstructure::ignore::{kept_entries, parse_ignore_file, IgnoreMatcher};
use projectstructure::tree::DirEntry;

fn entry(path: &str, is_dir: bool) -> DirEntry {
    DirEntry { path: path.to_string(), is_dir }
}

#[test]
fn ignore_file_lines() {
    let p = parse_ignore_file("target\n\n  \t\n\\.git\r\n \r\nnode_modules\n");
    assert_eq!(p, vec!["target".to_string(), "\\.git".to_string(), "node_modules".to_string()]);
    assert!(parse_ignore_file("").is_empty());
    assert_eq!(parse_ignore_file(" x \n"), vec![" x ".to_string()]);
}

#[test]
fn invalid_pattern_is_reported() {
    let p = vec!["ok".to_string(), "(".to_string(), "[".to_string()];
    match IgnoreMatcher::compile(&p) {
        Err(bad) => assert_eq!(bad, "("),
        Ok(_) => panic!("an invalid pattern was accepted"),
    }
}

#[test]
fn matches_anywhere_in_path() {
    let m = IgnoreMatcher::compile(&vec!["sub".to_string(), "\\.log$".to_string()]).unwrap();
    assert!(m.is_ignored("./sub"));
    assert!(m.is_ignored("./a/subdir/x"));
    assert!(m.is_ignored("./run.log"));
    assert!(!m.is_ignored("./a.txt"));
    assert!(!m.is_ignored("./run.log.txt"));
}

#[test]
fn no_patterns_ignore_nothing() {
    let m = IgnoreMatcher::none();
    assert!(!m.is_ignored("./anything"));
    let m = IgnoreMatcher::compile(&Vec::new()).unwrap();
    assert!(!m.is_ignored(""));
}

#[test]
fn ignored_entries_are_dropped() {
    let m = IgnoreMatcher::compile(&vec!["sub".to_string()]).unwrap();
    let kept = kept_entries(&m, vec![entry("./a.txt", false), entry("./sub", true), entry("./c", true)]);
    let paths: Vec<&str> = kept.iter().map(|e| e.path.as_str()).collect();
    assert_eq!(paths, vec!["./a.txt", "./c"]);
    assert!(!kept[0].is_dir);
    assert!(kept[1].is_dir);
}
