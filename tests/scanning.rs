use projectstructure::flatten::{flatten_structure, FlatStructure};
use projectstructure::ignore::IgnoreMatcher;
use projectstructure::scan::{ScanStep, Scanner};
use projectstructure::tree::{DirEntry, Node, Structure};
use std::collections::HashMap;

/// Walks a simulated file system: directory path to (entry path, is_dir).
fn walk(fs: &HashMap<&str, Vec<(&str, bool)>>, patterns: &[&str]) -> (Structure, Vec<String>) {
    let matcher = IgnoreMatcher::compile(&patterns.iter().map(|p| p.to_string()).collect()).unwrap();
    let (mut scanner, mut next) = Scanner::start(".".to_string(), matcher);
    let mut listed = Vec::new();
    loop {
        listed.push(next.clone());
        let entries = fs[next.as_str()]
            .iter()
            .map(|(p, d)| DirEntry { path: p.to_string(), is_dir: *d })
            .collect();
        match scanner.on_listing(entries) {
            ScanStep::List(p) => next = p,
            ScanStep::Done(s) => return (s, listed),
            ScanStep::Revisit(p) => panic!("revisited {}", p),
        }
    }
}

fn files<'a>(f: &'a FlatStructure, dir: &str) -> Option<Vec<&'a str>> {
    f.find(dir).map(|i| f.entries[i].files.iter().map(|s| s.as_str()).collect())
}

fn sample() -> HashMap<&'static str, Vec<(&'static str, bool)>> {
    let mut fs = HashMap::new();
    fs.insert(".", vec![("./a.txt", false), ("./sub", true), ("./empty", true)]);
    fs.insert("./sub", vec![("./sub/b.txt", false), ("./sub/deep", true)]);
    fs.insert("./sub/deep", vec![("./sub/deep/c.txt", false)]);
    fs.insert("./empty", vec![]);
    fs
}

#[test]
fn walk_without_patterns() {
    let (s, listed) = walk(&sample(), &[]);
    assert_eq!(s.root, ".");
    assert_eq!(listed, vec![".", "./sub", "./sub/deep", "./empty"]);
    assert_eq!(s.children.len(), 3);
    match &s.children[1] {
        Node::Directory(d, ch) => {
            assert_eq!(d, "./sub");
            assert_eq!(ch.len(), 2);
        }
        Node::File(_) => panic!("expected a directory"),
    }
    let flat = flatten_structure(&s);
    let mut keys: Vec<&str> = flat.entries.iter().map(|e| e.dir.as_str()).collect();
    keys.sort();
    assert_eq!(keys, vec![".", "./empty", "./sub", "./sub/deep"]);
    assert_eq!(files(&flat, "."), Some(vec!["a.txt"]));
    assert_eq!(files(&flat, "./sub"), Some(vec!["b.txt"]));
    assert_eq!(files(&flat, "./sub/deep"), Some(vec!["c.txt"]));
    assert_eq!(files(&flat, "./empty"), Some(vec![]));
}

#[test]
fn ignored_directory_is_never_listed() {
    let (s, listed) = walk(&sample(), &["sub"]);
    assert_eq!(listed, vec![".", "./empty"]);
    let flat = flatten_structure(&s);
    assert_eq!(files(&flat, "."), Some(vec!["a.txt"]));
    assert!(files(&flat, "./sub").is_none());
    assert!(files(&flat, "sub").is_none());
    assert!(files(&flat, "./sub/deep").is_none());
}

#[test]
fn proj_scenario_with_sub_ignored() {
    let mut fs = HashMap::new();
    fs.insert(".", vec![("./a.txt", false), ("./sub", true)]);
    fs.insert("./sub", vec![("./sub/b.txt", false)]);
    let (s, _) = walk(&fs, &["sub"]);
    let flat = flatten_structure(&s);
    assert_eq!(flat.entries.len(), 1);
    assert_eq!(files(&flat, "."), Some(vec!["a.txt"]));
}

#[test]
fn ignored_files_are_dropped() {
    let (s, _) = walk(&sample(), &["\\.txt$"]);
    let flat = flatten_structure(&s);
    assert_eq!(files(&flat, "."), Some(vec![]));
    assert_eq!(files(&flat, "./sub/deep"), Some(vec![]));
}

#[test]
fn directory_listed_twice_stops_the_walk() {
    let mut fs = HashMap::new();
    fs.insert(".", vec![("./a", true)]);
    fs.insert("./a", vec![("./a/f", false), (".", true)]);
    let matcher = IgnoreMatcher::none();
    let (mut scanner, next) = Scanner::start(".".to_string(), matcher);
    let root_entries = fs[next.as_str()].iter().map(|(p, d)| DirEntry { path: p.to_string(), is_dir: *d }).collect();
    let next = match scanner.on_listing(root_entries) {
        ScanStep::List(p) => p,
        _ => panic!("expected a listing request"),
    };
    assert_eq!(next, "./a");
    let entries = fs[next.as_str()].iter().map(|(p, d)| DirEntry { path: p.to_string(), is_dir: *d }).collect();
    match scanner.on_listing(entries) {
        ScanStep::Revisit(p) => assert_eq!(p, "."),
        _ => panic!("expected the walk to stop"),
    }
}

#[test]
fn files_and_directories_keep_their_kind_and_place() {
    let (s, _) = walk(&sample(), &[]);
    match &s.children[0] {
        Node::File(p) => assert_eq!(p, "./a.txt"),
        Node::Directory(..) => panic!("a file became a directory"),
    }
    match &s.children[1] {
        Node::Directory(d, ch) => {
            assert_eq!(d, "./sub");
            match &ch[0] {
                Node::File(p) => assert_eq!(p, "./sub/b.txt"),
                Node::Directory(..) => panic!("a file became a directory"),
            }
            match &ch[1] {
                Node::Directory(dd, inner) => {
                    assert_eq!(dd, "./sub/deep");
                    assert_eq!(inner.len(), 1);
                }
                Node::File(_) => panic!("a directory became a file"),
            }
        }
        Node::File(_) => panic!("a directory became a file"),
    }
    match &s.children[2] {
        Node::Directory(d, ch) => {
            assert_eq!(d, "./empty");
            assert!(ch.is_empty());
        }
        Node::File(_) => panic!("a directory became a file"),
    }
}
