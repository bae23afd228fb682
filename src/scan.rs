//! The directory walk, as decisions between listings: the caller lists the
//! directory that the scanner asks for and hands the entries back; the
//! scanner drops ignored entries, chooses the next directory to list (depth
//! first), and assembles the tree.

use vstd::prelude::*;
use crate::flatten::{flatten_model, lemma_flatten_keys, node_dirs, nodes_dirs, root_key};
use crate::ignore::{kept, kept_entries, IgnoreMatcher};
use crate::text::same_text;
use crate::tree::{DirEntry, Node, Structure};

verus! {

/// No node of the tree has an ignored path.
pub open spec fn node_kept(m: &IgnoreMatcher, n: Node) -> bool
    decreases n,
{
    match n {
        Node::File(p) => !m.ignores(p@),
        Node::Directory(d, ch) => !m.ignores(d@) && nodes_kept(m, ch@),
    }
}

pub open spec fn nodes_kept(m: &IgnoreMatcher, ns: Seq<Node>) -> bool
    decreases ns,
{
    if ns.len() == 0 {
        true
    } else {
        nodes_kept(m, ns.drop_last()) && node_kept(m, ns.last())
    }
}

proof fn lemma_nodes_kept_push(m: &IgnoreMatcher, ns: Seq<Node>, n: Node)
    ensures
        nodes_kept(m, ns.push(n)) == (nodes_kept(m, ns) && node_kept(m, n)),
{
    assert(ns.push(n).drop_last() =~= ns);
}

/// The kept entries of each directory listed so far, by directory path.
pub type Listings = Map<Seq<char>, Seq<DirEntry>>;

/// `n` is the node that entry `e` gives: a file for a file, and for a
/// directory, a directory whose nodes are given, in order, by the listing
/// of that directory.
pub open spec fn node_from(l: Listings, n: Node, e: DirEntry) -> bool
    decreases n,
{
    match n {
        Node::File(p) => !e.is_dir && p@ == e.path@,
        Node::Directory(d, ch) => e.is_dir && d@ == e.path@ && l.contains_key(d@) && nodes_from(
            l,
            ch@,
            l[d@],
        ),
    }
}

/// The nodes are given one for one, in order, by the entries.
pub open spec fn nodes_from(l: Listings, ns: Seq<Node>, es: Seq<DirEntry>) -> bool
    decreases ns,
{
    if ns.len() == 0 {
        es.len() == 0
    } else {
        &&& es.len() == ns.len()
        &&& nodes_from(l, ns.drop_last(), es.drop_last())
        &&& node_from(l, ns.last(), es.last())
    }
}

proof fn lemma_nodes_from_push(l: Listings, ns: Seq<Node>, es: Seq<DirEntry>, n: Node, e: DirEntry)
    ensures
        nodes_from(l, ns.push(n), es.push(e)) == (nodes_from(l, ns, es) && node_from(l, n, e)),
{
    assert(ns.push(n).drop_last() =~= ns);
    assert(es.push(e).drop_last() =~= es);
}

pub open spec fn grows(l: Listings, l2: Listings) -> bool {
    forall|k: Seq<char>| #[trigger] l.contains_key(k) ==> l2.contains_key(k) && l2[k] == l[k]
}

proof fn lemma_node_from_grows(l: Listings, l2: Listings, n: Node, e: DirEntry)
    requires
        node_from(l, n, e),
        grows(l, l2),
    ensures
        node_from(l2, n, e),
    decreases n,
{
    if let Node::Directory(d, ch) = n {
        lemma_nodes_from_grows(l, l2, ch@, l[d@]);
    }
}

proof fn lemma_nodes_from_grows(l: Listings, l2: Listings, ns: Seq<Node>, es: Seq<DirEntry>)
    requires
        nodes_from(l, ns, es),
        grows(l, l2),
    ensures
        nodes_from(l2, ns, es),
    decreases ns,
{
    if ns.len() > 0 {
        lemma_nodes_from_grows(l, l2, ns.drop_last(), es.drop_last());
        lemma_node_from_grows(l, l2, ns.last(), es.last());
    }
}

/// A directory being walked: its path, the kept entries not yet handled,
/// and the nodes built so far.
pub struct ScanFrame {
    path: String,
    pending: Vec<DirEntry>,
    children: Vec<Node>,
}

/// What the caller does next.
pub enum ScanStep {
    /// List this directory and hand its entries to `on_listing`.
    List(String),
    /// The walk is over: the scanned tree.
    Done(Structure),
    /// A directory entry names a path that the walk has reached before (the
    /// root, or the path of another directory entry): the walk stops here.
    Revisit(String),
}

/// The state of one walk, depth first.
pub struct Scanner {
    matcher: IgnoreMatcher,
    stack: Vec<ScanFrame>,
    visited: Vec<String>,
    root: Ghost<Seq<char>>,
    listings: Ghost<Listings>,
    origins: Ghost<Origins>,
}

/// Entry `i` of the listing of `d` is a directory with path `p`.
pub open spec fn dir_entry_at(l: Listings, d: Seq<char>, i: int, p: Seq<char>) -> bool {
    &&& l.contains_key(d)
    &&& 0 <= i < l[d].len()
    &&& l[d][i].is_dir
    &&& l[d][i].path@ == p
}

/// The path `p` is reached twice: it is a directory entry of some listing,
/// and also the root or a directory entry at another place.
pub open spec fn reached_twice(l: Listings, root: Seq<char>, p: Seq<char>) -> bool {
    exists|d: Seq<char>, i: int|
        #[trigger] dir_entry_at(l, d, i, p) && (p == root || exists|d2: Seq<char>, i2: int|
            #[trigger] dir_entry_at(l, d2, i2, p) && (d2 != d || i2 != i))
}

/// For each directory asked for but the root, the entry that named it.
pub type Origins = Map<Seq<char>, (Seq<char>, int)>;

spec fn origins_ok(l: Listings, o: Origins) -> bool {
    forall|p: Seq<char>| #[trigger] o.contains_key(p) ==> dir_entry_at(l, o[p].0, o[p].1, p)
}

/// How many entries of frame `j`'s listing have been taken from it.
spec fn consumed(stack: Seq<ScanFrame>, j: int) -> int {
    stack[j].children@.len() as int + if j + 1 < stack.len() {
        1int
    } else {
        0int
    }
}

/// The entry that named a directory is never still pending.
spec fn origins_consumed(o: Origins, stack: Seq<ScanFrame>) -> bool {
    forall|p: Seq<char>, j: int|
        #![trigger o[p], stack[j]]
        o.contains_key(p) && 0 <= j < stack.len() && stack[j].path@ == o[p].0 ==> o[p].1 < consumed(stack, j)
}

spec fn distinct_paths(stack: Seq<ScanFrame>) -> bool {
    forall|a: int, b: int|
        #![trigger stack[a], stack[b]]
        0 <= a < stack.len() && 0 <= b < stack.len() && a != b ==> stack[a].path@ != stack[b].path@
}

spec fn frame_ok(m: &IgnoreMatcher, f: ScanFrame, top_level: bool) -> bool {
    &&& top_level || !m.ignores(f.path@)
    &&& forall|i: int| 0 <= i < f.pending@.len() ==> !m.ignores(#[trigger] f.pending@[i].path@)
    &&& nodes_kept(m, f.children@)
}

/// A listed frame against its listing: its nodes come from the first
/// entries, then (below the top) the entry of the directory being walked
/// above it, then the pending entries.
spec fn frame_fits(l: Listings, f: ScanFrame, next: Option<Seq<char>>) -> bool {
    let es = l[f.path@];
    let c = f.children@.len() as int;
    let x: int = if next is Some {
        1
    } else {
        0
    };
    &&& l.contains_key(f.path@)
    &&& es.len() == c + x + f.pending@.len()
    &&& nodes_from(l, f.children@, es.take(c))
    &&& f.pending@ == es.skip(c + x)
    &&& (next matches Some(p) ==> es[c].is_dir && es[c].path@ == p)
}

spec fn next_of(stack: Seq<ScanFrame>, i: int) -> Option<Seq<char>> {
    if i + 1 < stack.len() {
        Some(stack[i + 1].path@)
    } else {
        None
    }
}

spec fn in_visited(v: Seq<String>, k: Seq<char>) -> bool {
    exists|j: int| 0 <= j < v.len() && #[trigger] v[j]@ == k
}

spec fn work(stack: Seq<ScanFrame>) -> nat
    decreases stack.len(),
{
    if stack.len() == 0 {
        0
    } else {
        work(stack.drop_last()) + stack.last().pending@.len() + 1
    }
}

proof fn lemma_work_push(stack: Seq<ScanFrame>, f: ScanFrame)
    ensures
        work(stack.push(f)) == work(stack) + f.pending@.len() + 1,
{
    assert(stack.push(f).drop_last() =~= stack);
}

fn was_visited(v: &Vec<String>, p: &str) -> (r: bool)
    ensures
        r == in_visited(v@, p@),
{
    let mut i: usize = 0;
    while i < v.len()
        invariant
            i <= v@.len(),
            forall|j: int| 0 <= j < i ==> #[trigger] v@[j]@ != p@,
        decreases v.len() - i,
    {
        if same_text(v[i].as_str(), p) {
            return true;
        }
        i += 1;
    }
    false
}

impl Scanner {
    pub closed spec fn ignore_patterns(&self) -> IgnoreMatcher {
        self.matcher
    }

    /// The directory that the walk started from.
    pub closed spec fn root(&self) -> Seq<char> {
        self.root@
    }

    /// The kept entries of every directory listed so far.
    pub closed spec fn listings(&self) -> Listings {
        self.listings@
    }

    /// The directory last asked for.
    pub closed spec fn awaited(&self) -> Seq<char> {
        self.stack@.last().path@
    }

    closed spec fn common(&self) -> bool {
        &&& self.stack@.len() >= 1
        &&& self.stack@[0].path@ == self.root@
        &&& forall|i: int|
            0 <= i < self.stack@.len() ==> frame_ok(&self.matcher, #[trigger] self.stack@[i], i == 0)
        &&& forall|k: Seq<char>| #[trigger]
            self.listings@.contains_key(k) ==> k == self.root@ || !self.matcher.ignores(k)
        &&& origins_ok(self.listings@, self.origins@)
        &&& origins_consumed(self.origins@, self.stack@)
        &&& distinct_paths(self.stack@)
        &&& forall|k: Seq<char>| #[trigger]
            in_visited(self.visited@, k) ==> k == self.root@ || self.origins@.contains_key(k)
        &&& forall|j: int| 0 <= j < self.stack@.len() ==> in_visited(self.visited@, #[trigger] self.stack@[j].path@)
    }

    /// Every directory on the stack has been listed.
    closed spec fn inv(&self) -> bool {
        &&& self.common()
        &&& forall|i: int|
            0 <= i < self.stack@.len() ==> frame_fits(
                self.listings@,
                #[trigger] self.stack@[i],
                next_of(self.stack@, i),
            )
        &&& forall|k: Seq<char>| #[trigger] in_visited(self.visited@, k) == self.listings@.contains_key(k)
    }

    /// The walk waits for the listing of the directory it last asked for,
    /// which has not been listed before.
    pub closed spec fn wf(&self) -> bool {
        let n = self.stack@.len() - 1;
        &&& self.common()
        &&& forall|i: int|
            0 <= i < n ==> frame_fits(
                self.listings@,
                #[trigger] self.stack@[i],
                Some(self.stack@[i + 1].path@),
            )
        &&& self.stack@[n].pending@.len() == 0
        &&& self.stack@[n].children@.len() == 0
        &&& !self.listings@.contains_key(self.stack@[n].path@)
        &&& forall|k: Seq<char>| #[trigger]
            in_visited(self.visited@, k) == (self.listings@.contains_key(k) || k
                == self.stack@[n].path@)
    }

    /// A walk of `root` that leaves out what `matcher` ignores; the first
    /// directory to list is `root` itself.
    pub fn start(root: String, matcher: IgnoreMatcher) -> (r: (Scanner, String))
        ensures
            r.0.wf(),
            r.0.ignore_patterns() == matcher,
            r.0.root() == root@,
            r.0.awaited() == root@,
            r.0.listings() == Map::<Seq<char>, Seq<DirEntry>>::empty(),
            r.1@ == root@,
    {
        let listed = root.clone();
        let seen = root.clone();
        let ghost root_path = root@;
        let frame = ScanFrame { path: root, pending: Vec::new(), children: Vec::new() };
        let s = Scanner {
            matcher,
            stack: vec![frame],
            visited: vec![seen],
            root: Ghost(root_path),
            listings: Ghost(Map::empty()),
            origins: Ghost(Map::empty()),
        };
        proof {
            let f = s.stack@[0];
            assert(nodes_kept(&s.matcher, f.children@));
            assert(frame_ok(&s.matcher, f, true));
            assert forall|k: Seq<char>| #[trigger] in_visited(s.visited@, k) == (k == root_path) by {
                if k == root_path {
                    assert(s.visited@[0]@ == k);
                }
            }
        }
        (s, listed)
    }

    /// Takes the listing of the directory last asked for; ignored entries
    /// are dropped. Files become nodes; the first kept subdirectory not yet
    /// walked is the next to list, unless it was listed before. When every
    /// directory is done the tree is returned: each of its nodes is given,
    /// in order, by the kept listing of its directory, a directory node
    /// exactly for a directory entry.
    pub fn on_listing(&mut self, entries: Vec<DirEntry>) -> (r: ScanStep)
        requires
            old(self).wf(),
        ensures
            final(self).ignore_patterns() == old(self).ignore_patterns(),
            final(self).root() == old(self).root(),
            final(self).listings() == old(self).listings().insert(
                old(self).awaited(),
                kept(&old(self).ignore_patterns(), entries@),
            ),
            forall|k: Seq<char>| #[trigger]
                final(self).listings().contains_key(k) ==> k == final(self).root()
                    || !final(self).ignore_patterns().ignores(k),
            match r {
                ScanStep::List(p) => {
                    &&& final(self).wf()
                    &&& final(self).awaited() == p@
                    &&& !final(self).listings().contains_key(p@)
                    &&& !final(self).ignore_patterns().ignores(p@)
                    &&& exists|d: Seq<char>, i: int|
                        #![trigger final(self).listings()[d][i]]
                        final(self).listings().contains_key(d) && 0 <= i < final(self).listings()[d].len()
                            && final(self).listings()[d][i].is_dir && final(self).listings()[d][i].path@ == p@
                },
                ScanStep::Done(s) => {
                    &&& s.root@ == final(self).root()
                    &&& final(self).listings().contains_key(final(self).root())
                    &&& nodes_from(final(self).listings(), s.children@, final(self).listings()[final(self).root()])
                    &&& nodes_kept(&final(self).ignore_patterns(), s.children@)
                },
                ScanStep::Revisit(p) => reached_twice(final(self).listings(), final(self).root(), p@),
            },
    {
        let kept = kept_entries(&self.matcher, entries);
        let ghost l0 = self.listings@;
        let ghost before = self.stack@;
        let mut top = self.stack.pop().unwrap();
        let ghost below = self.stack@;
        let ghost old_top = top;
        top.pending = kept;
        self.stack.push(top);
        proof {
            let n = below.len() as int;
            assert(before =~= below.push(old_top));
            self.listings@ = l0.insert(top.path@, top.pending@);
            let l = self.listings@;
            let s = self.stack@;
            assert(grows(l0, l));
            assert(frame_ok(&self.matcher, s[n], n == 0));
            assert forall|i: int| 0 <= i < s.len() implies frame_ok(&self.matcher, #[trigger] s[i], i == 0) by {
                if i < n {
                    assert(s[i] == before[i]);
                }
            }
            if n == 0 {
                assert(s[0].path@ == self.root@);
            } else {
                assert(s[0] == before[0]);
            }
            assert(old_top.children@ =~= Seq::<Node>::empty());
            assert(top.children@ =~= Seq::<Node>::empty());
            assert(l[top.path@].take(0) =~= Seq::<DirEntry>::empty());
            assert(l[top.path@].skip(0) =~= top.pending@);
            assert(frame_fits(l, s[n], None));
            assert forall|i: int| 0 <= i < s.len() implies frame_fits(l, #[trigger] s[i], next_of(s, i)) by {
                if i < n {
                    assert(s[i] == before[i]);
                    assert(frame_fits(l0, before[i], Some(before[i + 1].path@)));
                    assert(s[i + 1].path@ == before[i + 1].path@);
                    assert(l0.contains_key(s[i].path@));
                    assert(s[i].path@ != top.path@);
                    assert(l[s[i].path@] == l0[s[i].path@]);
                    lemma_nodes_from_grows(l0, l, s[i].children@, l0[s[i].path@].take(s[i].children@.len() as int));
                }
            }
            assert forall|k: Seq<char>| #[trigger] l.contains_key(k) implies k == self.root@ || !self.matcher.ignores(k) by {
                if k == top.path@ && n > 0 {
                    assert(frame_ok(&self.matcher, s[n], false));
                }
            }
            assert forall|k: Seq<char>| #[trigger] in_visited(self.visited@, k) == l.contains_key(k) by {}
        }
        self.drive()
    }

    #[verifier::rlimit(60)]
    fn drive(&mut self) -> (r: ScanStep)
        requires
            old(self).inv(),
        ensures
            final(self).matcher == old(self).matcher,
            final(self).root == old(self).root,
            final(self).listings == old(self).listings,
            match r {
                ScanStep::List(p) => {
                    &&& final(self).wf()
                    &&& final(self).awaited() == p@
                    &&& !final(self).listings@.contains_key(p@)
                    &&& !final(self).matcher.ignores(p@)
                    &&& exists|d: Seq<char>, i: int|
                        #![trigger final(self).listings@[d][i]]
                        final(self).listings@.contains_key(d) && 0 <= i < final(self).listings@[d].len()
                            && final(self).listings@[d][i].is_dir && final(self).listings@[d][i].path@ == p@
                },
                ScanStep::Done(s) => {
                    &&& s.root@ == final(self).root@
                    &&& final(self).listings@.contains_key(final(self).root@)
                    &&& nodes_from(final(self).listings@, s.children@, final(self).listings@[final(self).root@])
                    &&& nodes_kept(&final(self).matcher, s.children@)
                },
                ScanStep::Revisit(p) => reached_twice(final(self).listings@, final(self).root@, p@),
            },
    {
        loop
            invariant
                self.inv(),
                self.matcher == old(self).matcher,
                self.root == old(self).root,
                self.listings == old(self).listings,
            decreases work(self.stack@),
        {
            let ghost l = self.listings@;
            let ghost before = self.stack@;
            let mut top = self.stack.pop().unwrap();
            let ghost below = self.stack@;
            let ghost old_top = top;
            let ghost n = below.len() as int;
            let ghost es = l[old_top.path@];
            let ghost c = old_top.children@.len() as int;
            proof {
                assert(before =~= below.push(top));
                lemma_work_push(below, top);
                assert(frame_ok(&self.matcher, top, below.len() == 0));
                assert(before[n] == old_top);
                assert(frame_fits(l, old_top, next_of(before, n)));
                assert(next_of(before, n) is None);
            }
            if top.pending.len() > 0 {
                let e = top.pending.remove(0);
                proof {
                    assert(e == es[c]);
                    assert(top.pending@ =~= es.skip(c + 1));
                    assert(!self.matcher.ignores(e.path@));
                    assert forall|i: int| 0 <= i < top.pending@.len() implies !self.matcher.ignores(
                        #[trigger] top.pending@[i].path@,
                    ) by {
                        assert(top.pending@[i] == old_top.pending@[i + 1]);
                    }
                }
                if e.is_dir {
                    if was_visited(&self.visited, e.path.as_str()) {
                        proof {
                            let p = e.path@;
                            assert(l.contains_key(p));
                            assert(dir_entry_at(l, old_top.path@, c, p));
                            if p != self.root@ {
                                assert(self.origins@.contains_key(p));
                                let d2 = self.origins@[p].0;
                                let i2 = self.origins@[p].1;
                                assert(dir_entry_at(l, d2, i2, p));
                                if d2 == old_top.path@ {
                                    assert(i2 < consumed(before, n));
                                }
                            }
                        }
                        return ScanStep::Revisit(e.path);
                    }
                    let listed = e.path.clone();
                    let seen = e.path.clone();
                    let ghost v0 = self.visited@;
                    self.visited.push(seen);
                    self.stack.push(top);
                    let frame = ScanFrame { path: e.path, pending: Vec::new(), children: Vec::new() };
                    self.stack.push(frame);
                    proof {
                        let s = self.stack@;
                        assert(s.len() == n + 2);
                        assert(s[n] == top);
                        assert(s[n + 1] == frame);
                        assert(nodes_kept(&self.matcher, frame.children@));
                        assert forall|i: int| 0 <= i < s.len() implies frame_ok(
                            &self.matcher,
                            #[trigger] s[i],
                            i == 0,
                        ) by {
                            if i < n {
                                assert(s[i] == before[i]);
                            }
                        }
                        assert(frame_fits(l, top, Some(frame.path@)));
                        assert forall|i: int| 0 <= i < n + 1 implies frame_fits(
                            l,
                            #[trigger] s[i],
                            Some(s[i + 1].path@),
                        ) by {
                            if i < n {
                                assert(s[i] == before[i]);
                                assert(frame_fits(l, before[i], next_of(before, i)));
                                if i + 1 < n {
                                    assert(s[i + 1] == before[i + 1]);
                                } else {
                                    assert(before[i + 1] == old_top);
                                }
                            }
                        }
                        assert(!l.contains_key(frame.path@));
                        assert forall|k: Seq<char>| #[trigger] in_visited(self.visited@, k) == (l.contains_key(k) || k == frame.path@) by {
                            if in_visited(self.visited@, k) {
                                let j = choose|j: int| 0 <= j < self.visited@.len() && #[trigger] self.visited@[j]@ == k;
                                if j < v0.len() {
                                    assert(in_visited(v0, k));
                                }
                            }
                            if l.contains_key(k) {
                                assert(in_visited(v0, k));
                                let j = choose|j: int| 0 <= j < v0.len() && #[trigger] v0[j]@ == k;
                                assert(self.visited@[j] == v0[j]);
                            }
                            if k == frame.path@ {
                                assert(self.visited@[v0.len() as int]@ == k);
                            }
                        }
                        assert(s[0].path@ == self.root@) by {
                            if n > 0 {
                                assert(s[0] == before[0]);
                            }
                        }
                        assert(l[old_top.path@][c].path@ == frame.path@);
                        let o0 = self.origins@;
                        self.origins@ = o0.insert(frame.path@, (old_top.path@, c));
                        let o = self.origins@;
                        assert(dir_entry_at(l, old_top.path@, c, frame.path@));
                        assert(origins_ok(l, o));
                        assert forall|a: int, b: int|
                            #![trigger s[a], s[b]]
                            0 <= a < s.len() && 0 <= b < s.len() && a != b implies s[a].path@ != s[b].path@ by {
                            if a < n + 1 && b < n + 1 {
                                assert(s[a].path@ == before[a].path@);
                                assert(s[b].path@ == before[b].path@);
                            } else if a == n + 1 {
                                assert(in_visited(v0, before[b].path@));
                                assert(s[b].path@ == before[b].path@);
                            } else {
                                assert(in_visited(v0, before[a].path@));
                                assert(s[a].path@ == before[a].path@);
                            }
                        }
                        assert(distinct_paths(s));
                        assert forall|q: Seq<char>, j: int|
                            #![trigger o[q], s[j]]
                            o.contains_key(q) && 0 <= j < s.len() && s[j].path@ == o[q].0 implies o[q].1 < consumed(s, j) by {
                            if q == frame.path@ {
                                if j != n {
                                    assert(s[j].path@ != s[n].path@);
                                }
                            } else {
                                assert(o[q] == o0[q]);
                                assert(dir_entry_at(l, o0[q].0, o0[q].1, q));
                                if j < n {
                                    assert(s[j] == before[j]);
                                    assert(o0[q].1 < consumed(before, j));
                                } else if j == n {
                                    assert(o0[q].1 < consumed(before, n));
                                } else {
                                    assert(l.contains_key(s[j].path@));
                                }
                            }
                        }
                        assert(origins_consumed(o, s));
                        assert forall|k: Seq<char>| #[trigger] in_visited(self.visited@, k) implies k == self.root@
                            || o.contains_key(k) by {
                            if k != frame.path@ {
                                assert(in_visited(v0, k));
                            }
                        }
                        assert forall|j: int| 0 <= j < s.len() implies in_visited(self.visited@, #[trigger] s[j].path@) by {
                            if j <= n {
                                assert(s[j].path@ == before[j].path@);
                                assert(in_visited(v0, before[j].path@));
                            }
                        }
                    }
                    return ScanStep::List(listed);
                } else {
                    let ghost prev = top.children@;
                    let node = Node::File(e.path);
                    top.children.push(node);
                    proof {
                        lemma_nodes_kept_push(&self.matcher, prev, node);
                        assert(es.take(c + 1) =~= es.take(c).push(es[c]));
                        lemma_nodes_from_push(l, prev, es.take(c), node, es[c]);
                    }
                    self.stack.push(top);
                    proof {
                        let s = self.stack@;
                        lemma_work_push(below, top);
                        assert(s[n] == top);
                        assert(frame_fits(l, top, None));
                        assert forall|i: int| 0 <= i < s.len() implies frame_ok(
                            &self.matcher,
                            #[trigger] s[i],
                            i == 0,
                        ) && frame_fits(l, s[i], next_of(s, i)) by {
                            if i < n {
                                assert(s[i] == before[i]);
                                assert(frame_fits(l, before[i], next_of(before, i)));
                                if i + 1 < n {
                                    assert(s[i + 1] == before[i + 1]);
                                }
                            }
                        }
                        assert(s[0].path@ == self.root@) by {
                            if n > 0 {
                                assert(s[0] == before[0]);
                            }
                        }
                    }
                }
            } else {
                proof {
                    assert(es.len() == c);
                    assert(es.take(c) =~= es);
                }
                if self.stack.len() == 0 {
                    proof {
                        assert(before[0] == top);
                    }
                    return ScanStep::Done(Structure { root: top.path, children: top.children });
                }
                let mut parent = self.stack.pop().unwrap();
                let ghost rest = self.stack@;
                let ghost old_parent = parent;
                let ghost pes = l[parent.path@];
                let ghost pc = parent.children@.len() as int;
                proof {
                    assert(below =~= rest.push(parent));
                    lemma_work_push(rest, parent);
                    assert(parent == before[n - 1]);
                    assert(frame_ok(&self.matcher, parent, rest.len() == 0));
                    assert(frame_fits(l, parent, next_of(before, n - 1)));
                    assert(next_of(before, n - 1) == Some(old_top.path@));
                }
                let ghost prev = parent.children@;
                let node = Node::Directory(top.path, top.children);
                parent.children.push(node);
                proof {
                    lemma_nodes_kept_push(&self.matcher, prev, node);
                    assert(node_from(l, node, pes[pc]));
                    assert(pes.take(pc + 1) =~= pes.take(pc).push(pes[pc]));
                    lemma_nodes_from_push(l, prev, pes.take(pc), node, pes[pc]);
                    assert(parent.pending@ == pes.skip(pc + 1));
                }
                self.stack.push(parent);
                proof {
                    let s = self.stack@;
                    lemma_work_push(rest, parent);
                    assert(s[n - 1] == parent);
                    assert(frame_fits(l, parent, None));
                    assert forall|i: int| 0 <= i < s.len() implies frame_ok(
                        &self.matcher,
                        #[trigger] s[i],
                        i == 0,
                    ) && frame_fits(l, s[i], next_of(s, i)) by {
                        if i < n - 1 {
                            assert(s[i] == before[i]);
                            assert(frame_fits(l, before[i], next_of(before, i)));
                            if i + 1 < n - 1 {
                                assert(s[i + 1] == before[i + 1]);
                            }
                        }
                    }
                    assert(s[0].path@ == self.root@) by {
                        if n - 1 > 0 {
                            assert(s[0] == before[0]);
                        }
                    }
                }
            }
        }
    }
}

proof fn lemma_kept_dirs_node(m: &IgnoreMatcher, n: Node)
    requires
        node_kept(m, n),
    ensures
        forall|d: Seq<char>| #[trigger] node_dirs(n).contains(d) ==> !m.ignores(d),
    decreases n,
{
    match n {
        Node::File(_) => {
            assert(node_dirs(n) =~= Set::<Seq<char>>::empty());
        },
        Node::Directory(dn, ch) => {
            lemma_kept_dirs_nodes(m, ch@);
            assert forall|d: Seq<char>| #[trigger] node_dirs(n).contains(d) implies !m.ignores(d) by {
                if d != dn@ {
                    assert(nodes_dirs(ch@).contains(d));
                }
            }
        },
    }
}

proof fn lemma_kept_dirs_nodes(m: &IgnoreMatcher, ns: Seq<Node>)
    requires
        nodes_kept(m, ns),
    ensures
        forall|d: Seq<char>| #[trigger] nodes_dirs(ns).contains(d) ==> !m.ignores(d),
    decreases ns,
{
    if ns.len() == 0 {
        assert(nodes_dirs(ns) =~= Set::<Seq<char>>::empty());
    } else {
        lemma_kept_dirs_nodes(m, ns.drop_last());
        lemma_kept_dirs_node(m, ns.last());
        assert forall|d: Seq<char>| #[trigger] nodes_dirs(ns).contains(d) implies !m.ignores(d) by {
            if !nodes_dirs(ns.drop_last()).contains(d) {
                assert(node_dirs(ns.last()).contains(d));
            }
        }
    }
}

/// In a tree with no ignored path, as a walk gives, the flattened map has
/// no ignored directory either: each key is the root or a directory of the
/// tree, and none of those is ignored.
pub proof fn lemma_flatten_has_no_ignored_dir(m: &IgnoreMatcher, ns: Seq<Node>)
    requires
        nodes_kept(m, ns),
    ensures
        forall|k: Seq<char>|
            #[trigger] flatten_model(ns).contains_key(k) ==> k == root_key() || !m.ignores(k),
{
    lemma_flatten_keys(ns);
    lemma_kept_dirs_nodes(m, ns);
}

proof fn lemma_listed_dirs_node(m: &IgnoreMatcher, l: Listings, root: Seq<char>, n: Node, e: DirEntry)
    requires
        node_from(l, n, e),
        forall|k: Seq<char>| #[trigger] l.contains_key(k) ==> k == root || !m.ignores(k),
    ensures
        forall|d: Seq<char>| #[trigger] node_dirs(n).contains(d) ==> l.contains_key(d) && (d == root || !m.ignores(d)),
    decreases n,
{
    match n {
        Node::File(_) => {
            assert(node_dirs(n) =~= Set::<Seq<char>>::empty());
        },
        Node::Directory(dn, ch) => {
            lemma_listed_dirs_nodes(m, l, root, ch@, l[dn@]);
            assert forall|d: Seq<char>| #[trigger] node_dirs(n).contains(d) implies l.contains_key(d) && (d
                == root || !m.ignores(d)) by {
                if d != dn@ {
                    assert(nodes_dirs(ch@).contains(d));
                }
            }
        },
    }
}

proof fn lemma_listed_dirs_nodes(m: &IgnoreMatcher, l: Listings, root: Seq<char>, ns: Seq<Node>, es: Seq<DirEntry>)
    requires
        nodes_from(l, ns, es),
        forall|k: Seq<char>| #[trigger] l.contains_key(k) ==> k == root || !m.ignores(k),
    ensures
        forall|d: Seq<char>| #[trigger] nodes_dirs(ns).contains(d) ==> l.contains_key(d) && (d == root || !m.ignores(d)),
    decreases ns,
{
    if ns.len() == 0 {
        assert(nodes_dirs(ns) =~= Set::<Seq<char>>::empty());
    } else {
        lemma_listed_dirs_nodes(m, l, root, ns.drop_last(), es.drop_last());
        lemma_listed_dirs_node(m, l, root, ns.last(), es.last());
        assert forall|d: Seq<char>| #[trigger] nodes_dirs(ns).contains(d) implies l.contains_key(d) && (d
            == root || !m.ignores(d)) by {
            if !nodes_dirs(ns.drop_last()).contains(d) {
                assert(node_dirs(ns.last()).contains(d));
            }
        }
    }
}

/// A walk does not reach below an ignored directory. Each directory of a
/// finished walk's tree, at any depth, is one whose listing was taken, and
/// none of those is ignored but the root; the nodes inside a directory all
/// come from its own listing. So an ignored directory is never listed, and
/// neither it nor anything below it is a node or a key of the flattened map.
pub proof fn lemma_walk_skips_ignored(m: &IgnoreMatcher, l: Listings, root: Seq<char>, ns: Seq<Node>)
    requires
        l.contains_key(root),
        nodes_from(l, ns, l[root]),
        forall|k: Seq<char>| #[trigger] l.contains_key(k) ==> k == root || !m.ignores(k),
    ensures
        forall|d: Seq<char>| #[trigger] nodes_dirs(ns).contains(d) ==> l.contains_key(d) && (d == root || !m.ignores(d)),
        forall|k: Seq<char>| #[trigger] flatten_model(ns).contains_key(k) ==> k == root_key() || l.contains_key(k),
        forall|d: Seq<char>| m.ignores(d) && d != root ==> !(#[trigger] l.contains_key(d)),
{
    lemma_listed_dirs_nodes(m, l, root, ns, l[root]);
    lemma_flatten_keys(ns);
    assert forall|k: Seq<char>| #[trigger] flatten_model(ns).contains_key(k) implies k == root_key() || l.contains_key(k) by {
        if k != root_key() {
            assert(nodes_dirs(ns).contains(k));
        }
    }
}

} // verus!
