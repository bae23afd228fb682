use projectstructure::flatten::{file_base_name, flatten_structure, FlatStructure};
use projectstructure::ignore::{kept_entries, IgnoreMatcher};
use projectstructure::tree::{DirEntry, Node, Structure};

fn files<'a>(f: &'a FlatStructure, dir: &str) -> Option<Vec<&'a str>> {
    f.find(dir).map(|i| f.entries[i].files.iter().map(|s| s.as_str()).collect())
}

fn keys(f: &FlatStructure) -> Vec<String> {
    let mut k: Vec<String> = f.entries.iter().map(|e| e.dir.clone()).collect();
    k.sort();
    k
}

#[test]
fn base_names() {
    assert_eq!(file_base_name("./sub/b.txt"), "b.txt");
    assert_eq!(file_base_name("plain"), "plain");
    assert_eq!(file_base_name("dir/"), "");
}

#[test]
fn ignored_subdirectory_leaves_no_key() {
    let m = IgnoreMatcher::compile(&vec!["sub".to_string()]).unwrap();
    let listing = vec![
        DirEntry { path: "./a.txt".to_string(), is_dir: false },
        DirEntry { path: "./sub".to_string(), is_dir: true },
    ];
    let mut children = Vec::new();
    for e in kept_entries(&m, listing) {
        if e.is_dir {
            children.push(Node::Directory(e.path, vec![Node::File("./sub/b.txt".to_string())]));
        } else {
            children.push(Node::File(e.path));
        }
    }
    let flat = flatten_structure(&Structure { root: ".".to_string(), children });
    assert_eq!(files(&flat, "."), Some(vec!["a.txt"]));
    assert_eq!(keys(&flat), vec![".".to_string()]);
    assert!(files(&flat, "./sub").is_none());
    assert!(files(&flat, "sub").is_none());
}

#[test]
fn every_directory_has_a_key() {
    let s = Structure {
        root: ".".to_string(),
        children: vec![
            Node::Directory("./empty".to_string(), vec![]),
            Node::Directory(
                "./src".to_string(),
                vec![
                    Node::File("./src/lib.rs".to_string()),
                    Node::Directory("./src/inner".to_string(), vec![Node::File("./src/inner/x.rs".to_string())]),
                ],
            ),
        ],
    };
    let flat = flatten_structure(&s);
    assert_eq!(
        keys(&flat),
        vec![".".to_string(), "./empty".to_string(), "./src".to_string(), "./src/inner".to_string()]
    );
    assert_eq!(files(&flat, "."), Some(vec![]));
    assert_eq!(files(&flat, "./empty"), Some(vec![]));
    assert_eq!(files(&flat, "./src"), Some(vec!["lib.rs"]));
    assert_eq!(files(&flat, "./src/inner"), Some(vec!["x.rs"]));
}

#[test]
fn each_file_listed_once_under_its_directory() {
    let s = Structure {
        root: ".".to_string(),
        children: vec![
            Node::File("./a.txt".to_string()),
            Node::Directory("./d".to_string(), vec![Node::File("./d/a.txt".to_string()), Node::File("./d/b.txt".to_string())]),
            Node::File("./c.txt".to_string()),
        ],
    };
    let flat = flatten_structure(&s);
    assert_eq!(files(&flat, "."), Some(vec!["a.txt", "c.txt"]));
    assert_eq!(files(&flat, "./d"), Some(vec!["a.txt", "b.txt"]));
}

#[test]
fn empty_scan_has_root_only() {
    let flat = flatten_structure(&Structure { root: ".".to_string(), children: vec![] });
    assert_eq!(keys(&flat), vec![".".to_string()]);
    assert_eq!(files(&flat, "."), Some(vec![]));
}
