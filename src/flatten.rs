//! Flattening a scanned tree into a map from directory to the base names of
//! the files directly inside it.

use vstd::prelude::*;
use crate::text::{chars_of, same_text, split_on, lemma_split_on_nonempty, string_of};
use crate::tree::{Node, Structure};

verus! {

/// The directory of the scanned root.
pub open spec fn root_key() -> Seq<char> {
    seq!['.']
}

/// What follows the last `/` of a path (all of it where there is none).
pub open spec fn base_name(path: Seq<char>) -> Seq<char> {
    split_on(path, '/').last()
}

/// One fact read off a tree: a directory seen, or a file (by base name)
/// seen inside a directory.
pub ghost enum Step {
    Dir(Seq<char>),
    File(Seq<char>, Seq<char>),
}

/// The facts of a node under `parent`, depth first: a directory, then what
/// is inside it.
pub open spec fn node_steps(n: Node, parent: Seq<char>) -> Seq<Step>
    decreases n,
{
    match n {
        Node::File(p) => seq![Step::File(parent, base_name(p@))],
        Node::Directory(d, ch) => seq![Step::Dir(d@)] + nodes_steps(ch@, d@),
    }
}

pub open spec fn nodes_steps(ns: Seq<Node>, parent: Seq<char>) -> Seq<Step>
    decreases ns,
{
    if ns.len() == 0 {
        Seq::empty()
    } else {
        nodes_steps(ns.drop_last(), parent) + node_steps(ns.last(), parent)
    }
}

/// A directory map: directory path to the file names directly inside it.
pub type FlatModel = Map<Seq<char>, Seq<Seq<char>>>;

/// A directory gets a key (with no files yet) unless it has one; a file's
/// name is appended to its directory's list.
pub open spec fn apply_step(m: FlatModel, s: Step) -> FlatModel {
    match s {
        Step::Dir(k) => if m.contains_key(k) {
            m
        } else {
            m.insert(k, Seq::empty())
        },
        Step::File(p, b) => m.insert(
            p,
            if m.contains_key(p) {
                m[p]
            } else {
                Seq::empty()
            }.push(b),
        ),
    }
}

pub open spec fn apply_steps(m: FlatModel, ss: Seq<Step>) -> FlatModel
    decreases ss.len(),
{
    if ss.len() == 0 {
        m
    } else {
        apply_step(apply_steps(m, ss.drop_last()), ss.last())
    }
}

pub proof fn lemma_apply_steps_append(m: FlatModel, a: Seq<Step>, b: Seq<Step>)
    ensures
        apply_steps(m, a + b) == apply_steps(apply_steps(m, a), b),
    decreases b.len(),
{
    if b.len() == 0 {
        assert(a + b =~= a);
    } else {
        assert((a + b).drop_last() =~= a + b.drop_last());
        lemma_apply_steps_append(m, a, b.drop_last());
    }
}

/// The directory map of a scanned root's children: the root's own key
/// always, each directory's key, and each file's base name under the
/// directory that holds it, in the order of the scan.
pub open spec fn flatten_model(ns: Seq<Node>) -> FlatModel {
    apply_steps(map![root_key() => Seq::empty()], nodes_steps(ns, root_key()))
}

/// The file names directly inside one directory.
#[derive(Debug)]
pub struct DirFiles {
    pub dir: String,
    pub files: Vec<String>,
}

/// A directory map, kept as a list of entries with distinct directories.
#[derive(Debug)]
pub struct FlatStructure {
    pub entries: Vec<DirFiles>,
}

pub open spec fn names_view(v: Seq<String>) -> Seq<Seq<char>> {
    v.map_values(|s: String| s@)
}

impl FlatStructure {
    /// No directory appears in two entries.
    pub open spec fn wf(&self) -> bool {
        forall|i: int, j: int|
            0 <= i < self.entries@.len() && 0 <= j < self.entries@.len() && i != j
                ==> self.entries@[i].dir@ != self.entries@[j].dir@
    }

    pub open spec fn has_dir(&self, k: Seq<char>) -> bool {
        exists|i: int| 0 <= i < self.entries@.len() && self.entries@[i].dir@ == k
    }

    pub open spec fn index_of(&self, k: Seq<char>) -> int {
        choose|i: int| 0 <= i < self.entries@.len() && self.entries@[i].dir@ == k
    }

    pub open spec fn spec_view(&self) -> FlatModel {
        Map::new(
            |k: Seq<char>| self.has_dir(k),
            |k: Seq<char>| names_view(self.entries@[self.index_of(k)].files@),
        )
    }
}

impl View for FlatStructure {
    type V = FlatModel;

    open spec fn view(&self) -> FlatModel {
        self.spec_view()
    }
}

/// The name after the last `/` of `path`.
pub fn file_base_name(path: &str) -> (r: String)
    ensures
        r@ == base_name(path@),
{
    let chars = chars_of(path);
    let mut cur: Vec<char> = Vec::new();
    let mut i: usize = 0;
    proof {
        assert(chars@.take(0) =~= Seq::<char>::empty());
        assert(cur@ =~= Seq::<char>::empty());
    }
    while i < chars.len()
        invariant
            i <= chars@.len(),
            chars@ == path@,
            cur@ == split_on(chars@.take(i as int), '/').last(),
        decreases chars.len() - i,
    {
        let c = chars[i];
        proof {
            assert(chars@.take(i + 1).drop_last() =~= chars@.take(i as int));
            lemma_split_on_nonempty(chars@.take(i as int), '/');
        }
        if c == '/' {
            cur = Vec::new();
            proof {
                assert(cur@ =~= Seq::<char>::empty());
            }
        } else {
            cur.push(c);
        }
        i += 1;
    }
    proof {
        assert(chars@.take(chars@.len() as int) =~= chars@);
    }
    string_of(&cur)
}

impl FlatStructure {
    /// The entry of directory `k`, if there is one.
    pub fn find(&self, k: &str) -> (r: Option<usize>)
        requires
            self.wf(),
        ensures
            match r {
                Some(i) => i < self.entries@.len() && self.entries@[i as int].dir@ == k@,
                None => !self.has_dir(k@),
            },
    {
        let mut i: usize = 0;
        while i < self.entries.len()
            invariant
                i <= self.entries@.len(),
                forall|j: int| 0 <= j < i ==> self.entries@[j].dir@ != k@,
            decreases self.entries.len() - i,
        {
            if same_text(self.entries[i].dir.as_str(), k) {
                return Some(i);
            }
            i += 1;
        }
        None
    }

    proof fn lemma_index_of(&self, i: int)
        requires
            self.wf(),
            0 <= i < self.entries@.len(),
        ensures
            self.has_dir(self.entries@[i].dir@),
            self.index_of(self.entries@[i].dir@) == i,
    {
    }

    fn add_dir(&mut self, k: &str)
        requires
            old(self).wf(),
        ensures
            final(self).wf(),
            final(self)@ == apply_step(old(self)@, Step::Dir(k@)),
    {
        match self.find(k) {
            Some(_) => {},
            None => {
                let ghost prev = *self;
                self.entries.push(DirFiles { dir: k.to_owned(), files: Vec::new() });
                proof {
                    let n = prev.entries@.len() as int;
                    assert forall|kk: Seq<char>| #[trigger] self.has_dir(kk) == (prev.has_dir(kk) || kk == k@) by {
                        if prev.has_dir(kk) {
                            let j = prev.index_of(kk);
                            assert(self.entries@[j] == prev.entries@[j]);
                        }
                        if kk == k@ {
                            assert(self.entries@[n].dir@ == k@);
                        }
                    }
                    assert forall|kk: Seq<char>| prev.has_dir(kk) implies #[trigger] self.index_of(kk) == prev.index_of(kk) by {
                        let j = prev.index_of(kk);
                        assert(self.entries@[j] == prev.entries@[j]);
                        self.lemma_index_of(j);
                    }
                    self.lemma_index_of(n);
                    assert(names_view(self.entries@[n].files@) =~= Seq::<Seq<char>>::empty());
                    assert(self@ =~= prev@.insert(k@, Seq::empty()));
                }
            },
        }
    }

    fn add_file(&mut self, parent: &str, name: String)
        requires
            old(self).wf(),
        ensures
            final(self).wf(),
            final(self)@ == apply_step(old(self)@, Step::File(parent@, name@)),
    {
        let ghost prev = *self;
        match self.find(parent) {
            Some(i) => {
                let mut e = self.entries.remove(i);
                proof {
                    prev.lemma_index_of(i as int);
                }
                e.files.push(name);
                self.entries.insert(i, e);
                proof {
                    assert forall|kk: Seq<char>| #[trigger] self.has_dir(kk) == prev.has_dir(kk) by {
                        if prev.has_dir(kk) {
                            let j = prev.index_of(kk);
                            assert(self.entries@[j].dir@ == prev.entries@[j].dir@);
                        }
                        if self.has_dir(kk) {
                            let j = self.index_of(kk);
                            assert(self.entries@[j].dir@ == prev.entries@[j].dir@);
                        }
                    }
                    assert forall|kk: Seq<char>| prev.has_dir(kk) && kk != parent@ implies #[trigger] self.index_of(kk) == prev.index_of(kk) by {
                        let j = prev.index_of(kk);
                        assert(self.entries@[j] == prev.entries@[j]);
                        self.lemma_index_of(j);
                    }
                    self.lemma_index_of(i as int);
                    assert(names_view(self.entries@[i as int].files@) =~= names_view(prev.entries@[i as int].files@).push(name@));
                    assert(self@ =~= prev@.insert(parent@, prev@[parent@].push(name@)));
                }
            },
            None => {
                self.entries.push(DirFiles { dir: parent.to_owned(), files: vec![name] });
                proof {
                    let n = prev.entries@.len() as int;
                    assert forall|kk: Seq<char>| #[trigger] self.has_dir(kk) == (prev.has_dir(kk) || kk == parent@) by {
                        if prev.has_dir(kk) {
                            let j = prev.index_of(kk);
                            assert(self.entries@[j] == prev.entries@[j]);
                        }
                        if kk == parent@ {
                            assert(self.entries@[n].dir@ == parent@);
                        }
                    }
                    assert forall|kk: Seq<char>| prev.has_dir(kk) implies #[trigger] self.index_of(kk) == prev.index_of(kk) by {
                        let j = prev.index_of(kk);
                        assert(self.entries@[j] == prev.entries@[j]);
                        self.lemma_index_of(j);
                    }
                    self.lemma_index_of(n);
                    assert(names_view(self.entries@[n].files@) =~= Seq::<Seq<char>>::empty().push(name@));
                    assert(self@ =~= prev@.insert(parent@, Seq::<Seq<char>>::empty().push(name@)));
                }
            },
        }
    }
}

proof fn lemma_apply_one(m: FlatModel, s: Step)
    ensures
        apply_steps(m, seq![s]) == apply_step(m, s),
{
    assert(seq![s].drop_last() =~= Seq::<Step>::empty());
    assert(apply_steps(m, Seq::<Step>::empty()) == m);
}

/// Records one node found under directory `parent`.
pub fn process_node(node: &Node, parent: &str, out: &mut FlatStructure)
    requires
        old(out).wf(),
    ensures
        final(out).wf(),
        final(out)@ == apply_steps(old(out)@, node_steps(*node, parent@)),
    decreases node,
{
    match node {
        Node::File(p) => {
            let name = file_base_name(p.as_str());
            out.add_file(parent, name);
            proof {
                lemma_apply_one(old(out)@, Step::File(parent@, base_name(p@)));
            }
        },
        Node::Directory(d, ch) => {
            let ghost before = out@;
            out.add_dir(d.as_str());
            process_nodes(ch, d.as_str(), out);
            proof {
                lemma_apply_one(before, Step::Dir(d@));
                lemma_apply_steps_append(before, seq![Step::Dir(d@)], nodes_steps(ch@, d@));
            }
        },
    }
}

/// Records, in order, the nodes found under directory `parent`.
pub fn process_nodes(ns: &Vec<Node>, parent: &str, out: &mut FlatStructure)
    requires
        old(out).wf(),
    ensures
        final(out).wf(),
        final(out)@ == apply_steps(old(out)@, nodes_steps(ns@, parent@)),
    decreases ns,
{
    let ghost start = out@;
    let mut i: usize = 0;
    proof {
        assert(ns@.take(0) =~= Seq::<Node>::empty());
    }
    while i < ns.len()
        invariant
            i <= ns@.len(),
            out.wf(),
            out@ == apply_steps(start, nodes_steps(ns@.take(i as int), parent@)),
        decreases ns.len() - i,
    {
        let ghost before = out@;
        process_node(&ns[i], parent, out);
        proof {
            let t = ns@.take(i + 1);
            assert(t.drop_last() =~= ns@.take(i as int));
            assert(t.last() == ns@[i as int]);
            lemma_apply_steps_append(
                start,
                nodes_steps(ns@.take(i as int), parent@),
                node_steps(ns@[i as int], parent@),
            );
        }
        i += 1;
    }
    proof {
        assert(ns@.take(ns@.len() as int) =~= ns@);
    }
}

/// The directory map of a scanned structure: see `flatten_model`.
pub fn flatten_structure(structure: &Structure) -> (r: FlatStructure)
    ensures
        r.wf(),
        r@ == flatten_model(structure.children@),
{
    let mut out = FlatStructure { entries: vec![DirFiles { dir: ".".to_owned(), files: Vec::new() }] };
    proof {
        reveal_strlit(".");
        assert(out.entries@[0].dir@ == root_key());
        out.lemma_index_of(0);
        assert forall|k: Seq<char>| #[trigger] out.has_dir(k) == (k == root_key()) by {
            if k == root_key() {
                assert(out.entries@[0].dir@ == k);
            }
        }
        assert(names_view(out.entries@[0].files@) =~= Seq::<Seq<char>>::empty());
        assert(out@ =~= map![root_key() => Seq::<Seq<char>>::empty()]);
    }
    process_nodes(&structure.children, ".", &mut out);
    out
}

/// Every directory path in a node, itself included.
pub open spec fn node_dirs(n: Node) -> Set<Seq<char>>
    decreases n,
{
    match n {
        Node::File(_) => Set::empty(),
        Node::Directory(d, ch) => set![d@] + nodes_dirs(ch@),
    }
}

/// Every directory path in a sequence of nodes, at any depth.
pub open spec fn nodes_dirs(ns: Seq<Node>) -> Set<Seq<char>>
    decreases ns,
{
    if ns.len() == 0 {
        Set::empty()
    } else {
        nodes_dirs(ns.drop_last()) + node_dirs(ns.last())
    }
}

proof fn lemma_dom_node(m: FlatModel, n: Node, parent: Seq<char>)
    requires
        m.contains_key(parent),
    ensures
        apply_steps(m, node_steps(n, parent)).dom() == m.dom() + node_dirs(n),
    decreases n,
{
    match n {
        Node::File(p) => {
            lemma_apply_one(m, Step::File(parent, base_name(p@)));
            assert(m.dom().insert(parent) =~= m.dom());
            assert(m.dom() + Set::empty() =~= m.dom());
        },
        Node::Directory(d, ch) => {
            lemma_apply_one(m, Step::Dir(d@));
            lemma_apply_steps_append(m, seq![Step::Dir(d@)], nodes_steps(ch@, d@));
            let m1 = apply_step(m, Step::Dir(d@));
            assert(m1.dom() =~= m.dom() + set![d@]);
            lemma_dom_nodes(m1, ch@, d@);
            assert(m.dom() + set![d@] + nodes_dirs(ch@) =~= m.dom() + (set![d@] + nodes_dirs(ch@)));
        },
    }
}

proof fn lemma_dom_nodes(m: FlatModel, ns: Seq<Node>, parent: Seq<char>)
    requires
        m.contains_key(parent),
    ensures
        apply_steps(m, nodes_steps(ns, parent)).dom() == m.dom() + nodes_dirs(ns),
    decreases ns,
{
    if ns.len() == 0 {
        assert(m.dom() + Set::empty() =~= m.dom());
    } else {
        lemma_dom_nodes(m, ns.drop_last(), parent);
        lemma_apply_steps_append(m, nodes_steps(ns.drop_last(), parent), node_steps(ns.last(), parent));
        let m1 = apply_steps(m, nodes_steps(ns.drop_last(), parent));
        lemma_dom_node(m1, ns.last(), parent);
        assert(m.dom() + nodes_dirs(ns.drop_last()) + node_dirs(ns.last()) =~= m.dom() + (nodes_dirs(
            ns.drop_last(),
        ) + node_dirs(ns.last())));
    }
}

/// The directories of a flattened scan are exactly the root and every
/// directory of the tree, empty ones included.
pub proof fn lemma_flatten_keys(ns: Seq<Node>)
    ensures
        flatten_model(ns).dom() == set![root_key()] + nodes_dirs(ns),
{
    let m0: FlatModel = map![root_key() => Seq::<Seq<char>>::empty()];
    assert(m0.dom() =~= set![root_key()]);
    lemma_dom_nodes(m0, ns, root_key());
}

/// The base names of the files that steps place in directory `d`, in order.
pub open spec fn files_in(ss: Seq<Step>, d: Seq<char>) -> Seq<Seq<char>>
    decreases ss.len(),
{
    if ss.len() == 0 {
        Seq::empty()
    } else {
        let prev = files_in(ss.drop_last(), d);
        match ss.last() {
            Step::File(p, b) => if p == d {
                prev.push(b)
            } else {
                prev
            },
            Step::Dir(_) => prev,
        }
    }
}

pub open spec fn files_at(m: FlatModel, d: Seq<char>) -> Seq<Seq<char>> {
    if m.contains_key(d) {
        m[d]
    } else {
        Seq::empty()
    }
}

proof fn lemma_files_in_steps(m: FlatModel, ss: Seq<Step>, d: Seq<char>)
    ensures
        files_at(apply_steps(m, ss), d) == files_at(m, d) + files_in(ss, d),
        !apply_steps(m, ss).contains_key(d) ==> !m.contains_key(d) && files_in(ss, d).len() == 0,
    decreases ss.len(),
{
    if ss.len() == 0 {
        assert(files_at(m, d) + Seq::<Seq<char>>::empty() =~= files_at(m, d));
    } else {
        lemma_files_in_steps(m, ss.drop_last(), d);
        let prev = apply_steps(m, ss.drop_last());
        match ss.last() {
            Step::File(p, b) => {
                if p == d {
                    assert(files_at(m, d) + files_in(ss, d) =~= (files_at(m, d) + files_in(
                        ss.drop_last(),
                        d,
                    )).push(b));
                }
            },
            Step::Dir(k) => {
                if k == d && !prev.contains_key(d) {
                    assert(files_at(m, d) + files_in(ss, d) =~= Seq::<Seq<char>>::empty());
                }
            },
        }
    }
}

/// In a flattened scan, the list of each directory holds the base name of
/// every file directly inside it, once per file, in the order of the scan,
/// and nothing else.
pub proof fn lemma_flatten_files(ns: Seq<Node>, d: Seq<char>)
    requires
        flatten_model(ns).contains_key(d),
    ensures
        flatten_model(ns)[d] == files_in(nodes_steps(ns, root_key()), d),
{
    let m0: FlatModel = map![root_key() => Seq::<Seq<char>>::empty()];
    lemma_files_in_steps(m0, nodes_steps(ns, root_key()), d);
    assert(files_at(m0, d) =~= Seq::<Seq<char>>::empty());
    assert(files_at(m0, d) + files_in(nodes_steps(ns, root_key()), d) =~= files_in(
        nodes_steps(ns, root_key()),
        d,
    ));
}

} // verus!
