use vstd::prelude::*;

verus! {

/// One node of a scanned tree: a file by its displayed path, or a
/// directory by its displayed path with the nodes found inside it.
#[derive(Debug)]
pub enum Node {
    File(String),
    Directory(String, Vec<Node>),
}

/// The result of scanning one directory.
#[derive(Debug)]
pub struct Structure {
    pub root: String,
    pub children: Vec<Node>,
}

} // verus!

verus! {

/// One entry of a directory listing: its displayed path and whether it is
/// a directory.
#[derive(Debug)]
pub struct DirEntry {
    pub path: String,
    pub is_dir: bool,
}

} // verus!
