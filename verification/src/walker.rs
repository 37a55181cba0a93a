//! The directory walker. It traverses an in-memory model of a directory
//! tree in pre-order and reports, for each directory, its path and the names
//! of its immediate subdirectories and files. A directory's report comes
//! before the reports of anything below it.
use vstd::prelude::*;

verus! {

/// One directory of the model tree: its own name, the names of its files,
/// and its subdirectories.
pub struct FsNode {
    /// The directory's own name (for the root: the root path).
    pub name: String,
    /// Names of the files directly inside.
    pub files: Vec<String>,
    /// The subdirectories directly inside.
    pub directories: Vec<FsNode>,
}

impl FsNode {
    /// Names of the immediate subdirectories.
    pub open spec fn dir_names(self) -> Seq<Seq<char>> {
        self.directories@.map_values(|d: FsNode| d.name@)
    }

    /// Names of the immediate files.
    pub open spec fn file_names(self) -> Seq<Seq<char>> {
        self.files.deep_view()
    }
}

/// What the walker reports for one directory.
pub struct DirectoryEntry {
    /// Path components from the walk's root to this directory.
    pub path: Vec<String>,
    /// Names of the immediate subdirectories.
    pub directories: Vec<String>,
    /// Names of the immediate files.
    pub files: Vec<String>,
}

impl DirectoryEntry {
    /// The report as plain sequences: path, directory names, file names.
    pub open spec fn model(self) -> (Seq<Seq<char>>, Seq<Seq<char>>, Seq<Seq<char>>) {
        (self.path.deep_view(), self.directories.deep_view(), self.files.deep_view())
    }
}

/// The reports as plain sequences.
pub open spec fn entries_model(es: Seq<DirectoryEntry>) -> Seq<
    (Seq<Seq<char>>, Seq<Seq<char>>, Seq<Seq<char>>),
> {
    es.map_values(|e: DirectoryEntry| e.model())
}

/// The pre-order report of `node` and everything below it: `node`'s own
/// report first, then those of its subtrees in order.
pub open spec fn spec_walk(path: Seq<Seq<char>>, node: FsNode) -> Seq<
    (Seq<Seq<char>>, Seq<Seq<char>>, Seq<Seq<char>>),
>
    decreases node, node.directories@.len() + 1,
{
    seq![(path, node.dir_names(), node.file_names())] + spec_walk_children(path, node, 0)
}

/// The pre-order reports of `node`'s subtrees from child `i` onward.
pub open spec fn spec_walk_children(path: Seq<Seq<char>>, node: FsNode, i: int) -> Seq<
    (Seq<Seq<char>>, Seq<Seq<char>>, Seq<Seq<char>>),
>
    decreases node, node.directories@.len() - i,
{
    if i < 0 || i >= node.directories@.len() {
        Seq::empty()
    } else {
        spec_walk(path.push(node.directories@[i].name@), node.directories@[i])
            + spec_walk_children(path, node, i + 1)
    }
}

/// Directories in the tree rooted at `node`, the root included.
pub open spec fn count_dirs(node: FsNode) -> nat
    decreases node, node.directories@.len() + 1,
{
    1 + count_dirs_children(node, 0)
}

/// Directories in `node`'s subtrees from child `i` onward.
pub open spec fn count_dirs_children(node: FsNode, i: int) -> nat
    decreases node, node.directories@.len() - i,
{
    if i < 0 || i >= node.directories@.len() {
        0
    } else {
        count_dirs(node.directories@[i]) + count_dirs_children(node, i + 1)
    }
}

/// The walk reports every directory of the tree exactly once: one report
/// per directory, whatever path it is reached under.
pub proof fn lemma_walk_visits_once(path: Seq<Seq<char>>, node: FsNode)
    ensures
        spec_walk(path, node).len() == count_dirs(node),
    decreases node, node.directories@.len() + 1,
{
    lemma_walk_children_count(path, node, 0);
}

proof fn lemma_walk_children_count(path: Seq<Seq<char>>, node: FsNode, i: int)
    ensures
        spec_walk_children(path, node, i).len() == count_dirs_children(node, i),
    decreases node, node.directories@.len() - i,
{
    if 0 <= i < node.directories@.len() {
        lemma_walk_visits_once(path.push(node.directories@[i].name@), node.directories@[i]);
        lemma_walk_children_count(path, node, i + 1);
    }
}

/// A fresh copy of a list of names.
pub(crate) fn clone_strings(v: &Vec<String>) -> (r: Vec<String>)
    ensures
        r@ =~= v@,
{
    let mut r: Vec<String> = Vec::new();
    let mut j: usize = 0;
    while j < v.len()
        invariant
            0 <= j <= v@.len(),
            r@ =~= v@.take(j as int),
        decreases v@.len() - j,
    {
        r.push(v[j].clone());
        proof {
            assert(r@ =~= v@.take(j + 1));
        }
        j = j + 1;
    }
    proof {
        assert(v@.take(v@.len() as int) =~= v@);
    }
    r
}

/// Report `node` and everything below it onto the end of `out`.
fn walk_node(path: &Vec<String>, node: &FsNode, out: &mut Vec<DirectoryEntry>)
    ensures
        entries_model(final(out)@) =~= entries_model(old(out)@) + spec_walk(
            path.deep_view(),
            *node,
        ),
    decreases *node,
{
    let ghost pathv = path.deep_view();
    let mut dirs: Vec<String> = Vec::new();
    let mut j: usize = 0;
    while j < node.directories.len()
        invariant
            0 <= j <= node.directories@.len(),
            dirs@.len() == j,
            forall|m: int| 0 <= m < j ==> (#[trigger] dirs@[m])@ == node.directories@[m].name@,
        decreases node.directories@.len() - j,
    {
        dirs.push(node.directories[j].name.clone());
        j = j + 1;
    }
    proof {
        assert(dirs.deep_view() =~= node.dir_names());
    }
    let entry = DirectoryEntry {
        path: clone_strings(path),
        directories: dirs,
        files: clone_strings(&node.files),
    };
    proof {
        assert(entry.path.deep_view() =~= pathv);
        assert(entry.files.deep_view() =~= node.file_names());
        assert(entry.model() == (pathv, node.dir_names(), node.file_names()));
    }
    let ghost target = entries_model(old(out)@) + spec_walk(pathv, *node);
    let ghost base = entries_model(out@).push(entry.model());
    out.push(entry);
    proof {
        assert(entries_model(out@) =~= base);
        assert(entries_model(out@) + spec_walk_children(pathv, *node, 0) =~= target);
    }
    let mut i: usize = 0;
    while i < node.directories.len()
        invariant
            0 <= i <= node.directories@.len(),
            pathv == path.deep_view(),
            entries_model(out@) + spec_walk_children(pathv, *node, i as int) =~= target,
        decreases node.directories@.len() - i,
    {
        let child = &node.directories[i];
        let mut child_path = clone_strings(path);
        child_path.push(child.name.clone());
        proof {
            assert(child_path.deep_view() =~= pathv.push(node.directories@[i as int].name@));
        }
        walk_node(&child_path, child, out);
        proof {
            assert(entries_model(out@) + spec_walk_children(pathv, *node, i + 1) =~= target);
        }
        i = i + 1;
    }
    proof {
        assert(spec_walk_children(pathv, *node, node.directories@.len() as int)
            =~= Seq::empty());
        assert(entries_model(out@) =~= target);
    }
}

/// A visitor that takes one directory's report at a time: the directory's
/// path, its subdirectory names and its file names.
pub trait Walker {
    /// Take one directory's report.
    fn visit(&mut self, path: &Vec<String>, directories: &Vec<String>, files: &Vec<String>);
}

/// The walker: it holds the tree it walks.
pub struct FileWalker {
    /// The root of the tree.
    pub root: FsNode,
}

impl FileWalker {
    /// A walker over the tree rooted at `root`.
    pub fn new(root: FsNode) -> (w: FileWalker)
        ensures
            w.root == root,
    {
        FileWalker { root }
    }

    /// Visit every directory of the tree once, in pre-order: each
    /// directory's report holds exactly its files and subdirectory names,
    /// and comes before the reports of anything below it.
    pub fn walk(&self) -> (r: Vec<DirectoryEntry>)
        ensures
            entries_model(r@) =~= spec_walk(seq![self.root.name@], self.root),
            r@.len() == count_dirs(self.root),
    {
        let mut path: Vec<String> = Vec::new();
        path.push(self.root.name.clone());
        let mut out: Vec<DirectoryEntry> = Vec::new();
        proof {
            assert(path.deep_view() =~= seq![self.root.name@]);
            assert(entries_model(out@) =~= Seq::empty());
        }
        walk_node(&path, &self.root, &mut out);
        proof {
            lemma_walk_visits_once(seq![self.root.name@], self.root);
            assert(entries_model(out@).len() == out@.len());
        }
        out
    }

    /// Hand each directory's report to `walker`, in pre-order. What the
    /// visitor does with a report is its own affair.
    pub fn walk_with<W: Walker>(&self, walker: &mut W) {
        let entries = self.walk();
        let mut i: usize = 0;
        while i < entries.len()
            invariant
                0 <= i <= entries@.len(),
            decreases entries@.len() - i,
        {
            let e = &entries[i];
            walker.visit(&e.path, &e.directories, &e.files);
            i = i + 1;
        }
    }
}

} // verus!
