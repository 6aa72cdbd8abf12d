//! The ordered file tree of a vault snapshot.
//!
//! Each directory's visible children are partitioned into subfolders and
//! `.md` notes; within a sibling list all folders precede all notes and each
//! group is sorted by name. Hidden entries never appear. The tree carries
//! recursive note and folder totals.

use vstd::prelude::*;

verus! {

use crate::fsmodel::{
    FsEntry, is_hidden_name, is_hidden, is_md_name, is_md, md_stem, stem_of, chars_lt, chars_le,
    lemma_chars_lt_connected, str_lt, spec_join, join_path, find_named, find_named_from,
    entry_name,
};
use crate::vault::FsResult;
use vstd::seq_lib::lemma_multiset_commutative;
use vstd::string::{StrSliceExecFns, StringExecFns};

/// A node of the file tree: a folder with its children, or a note.
#[derive(Debug)]
pub enum FileTreeNode {
    Folder {
        /// Folder name.
        name: String,
        /// Path relative to the vault root (no leading separator).
        path: String,
        /// Last-modified time in seconds.
        modified: u64,
        /// Ordered children: folders first, then notes, each sorted by name.
        children: Vec<FileTreeNode>,
    },
    Note {
        /// Note name (no extension).
        name: String,
        /// Absolute path.
        path: String,
        /// Path relative to the vault root (no leading separator).
        relative_path: String,
        /// Last-modified time in seconds.
        modified: u64,
    },
}

/// A vault's file tree with recursive totals.
#[derive(Debug)]
pub struct FileTree {
    pub vault_path: String,
    pub root: Vec<FileTreeNode>,
    pub total_notes: usize,
    pub total_folders: usize,
}

impl FileTreeNode {
    pub open spec fn node_name(&self) -> Seq<char> {
        match self {
            FileTreeNode::Folder { name, .. } => name@,
            FileTreeNode::Note { name, .. } => name@,
        }
    }

    pub open spec fn is_folder(&self) -> bool {
        self is Folder
    }
}

// ---------------------------------------------------------------------------
// Recursive totals
// ---------------------------------------------------------------------------

pub open spec fn notes_count_from(nodes: Seq<FileTreeNode>, k: int) -> nat
    decreases nodes, nodes.len() - k,
{
    if k < 0 || k >= nodes.len() {
        0
    } else {
        (match nodes[k] {
            FileTreeNode::Note { .. } => 1 as nat,
            FileTreeNode::Folder { children, .. } => notes_count_from(children@, 0),
        }) + notes_count_from(nodes, k + 1)
    }
}

/// Number of notes in the tree, counted leaf-wise.
pub open spec fn spec_count_notes(nodes: Seq<FileTreeNode>) -> nat {
    notes_count_from(nodes, 0)
}

pub open spec fn folders_count_from(nodes: Seq<FileTreeNode>, k: int) -> nat
    decreases nodes, nodes.len() - k,
{
    if k < 0 || k >= nodes.len() {
        0
    } else {
        (match nodes[k] {
            FileTreeNode::Note { .. } => 0 as nat,
            FileTreeNode::Folder { children, .. } => 1 + folders_count_from(children@, 0),
        }) + folders_count_from(nodes, k + 1)
    }
}

/// Number of folders in the tree: each folder counts one plus its children's
/// folders.
pub open spec fn spec_count_folders(nodes: Seq<FileTreeNode>) -> nat {
    folders_count_from(nodes, 0)
}

/// A count clamped to what a `usize` can hold.
pub open spec fn cap_usize(n: nat) -> nat {
    if n <= usize::MAX as nat {
        n
    } else {
        usize::MAX as nat
    }
}

pub(crate) fn saturating_add_usize(a: usize, b: usize) -> (r: usize)
    ensures
        r as nat == cap_usize(a as nat + b as nat),
{
    if a > usize::MAX - b {
        usize::MAX
    } else {
        a + b
    }
}

/// Counts the notes of the tree (saturating at `usize::MAX`, which a real
/// tree cannot reach).
pub fn count_tree_notes(nodes: &Vec<FileTreeNode>) -> (r: usize)
    ensures
        r as nat == cap_usize(spec_count_notes(nodes@)),
    decreases nodes@,
{
    let n = nodes.len();
    let mut acc: usize = 0;
    let ghost mut prefix: nat = 0nat;
    let mut k: usize = 0;
    while k < n
        invariant
            k <= n,
            n == nodes@.len(),
            acc as nat == cap_usize(prefix),
            prefix + notes_count_from(nodes@, k as int) == spec_count_notes(nodes@),
        decreases n - k,
    {
        let c: usize = match &nodes[k] {
            FileTreeNode::Note { .. } => 1,
            FileTreeNode::Folder { children, .. } => {
                proof {
                    assert(decreases_to!(nodes@ => nodes@[k as int]));
                }
                count_tree_notes(children)
            },
        };
        let ghost here: nat = match nodes@[k as int] {
            FileTreeNode::Note { .. } => 1 as nat,
            FileTreeNode::Folder { children, .. } => notes_count_from(children@, 0),
        };
        acc = saturating_add_usize(acc, c);
        proof {
            prefix = prefix + here;
        }
        k = k + 1;
    }
    acc
}

/// Counts the folders of the tree (saturating at `usize::MAX`).
pub fn count_tree_folders(nodes: &Vec<FileTreeNode>) -> (r: usize)
    ensures
        r as nat == cap_usize(spec_count_folders(nodes@)),
    decreases nodes@,
{
    let n = nodes.len();
    let mut acc: usize = 0;
    let ghost mut prefix: nat = 0nat;
    let mut k: usize = 0;
    while k < n
        invariant
            k <= n,
            n == nodes@.len(),
            acc as nat == cap_usize(prefix),
            prefix + folders_count_from(nodes@, k as int) == spec_count_folders(nodes@),
        decreases n - k,
    {
        let c: usize = match &nodes[k] {
            FileTreeNode::Note { .. } => 0,
            FileTreeNode::Folder { children, .. } => {
                proof {
                    assert(decreases_to!(nodes@ => nodes@[k as int]));
                }
                let sub = count_tree_folders(children);
                saturating_add_usize(sub, 1)
            },
        };
        let ghost here: nat = match nodes@[k as int] {
            FileTreeNode::Note { .. } => 0 as nat,
            FileTreeNode::Folder { children, .. } => 1 + folders_count_from(children@, 0),
        };
        acc = saturating_add_usize(acc, c);
        proof {
            prefix = prefix + here;
        }
        k = k + 1;
    }
    acc
}

// ---------------------------------------------------------------------------
// Snapshot well-formedness
// ---------------------------------------------------------------------------

/// A usable file or folder name: nonempty and free of separators.
pub open spec fn name_ok(n: Seq<char>) -> bool {
    n.len() > 0 && forall|p: int| 0 <= p < n.len() ==> n[p] != '/'
}

/// Sibling names are distinct, nonempty, and free of separators — true of
/// any real directory listing.
pub open spec fn names_ok(entries: Seq<FsEntry>) -> bool {
    &&& forall|i: int, j: int|
        0 <= i < j < entries.len() ==> (#[trigger] entries[i].name_chars()) != (
        #[trigger] entries[j].name_chars())
    &&& forall|i: int| 0 <= i < entries.len() ==> name_ok((#[trigger] entries[i]).name_chars())
}

/// A well-formed snapshot: sibling names well formed at every level.
pub open spec fn entries_wf(entries: Seq<FsEntry>) -> bool
    decreases entries, entries.len() + 1,
{
    names_ok(entries) && entries_wf_from(entries, 0)
}

pub open spec fn entries_wf_from(entries: Seq<FsEntry>, k: int) -> bool
    decreases entries, entries.len() - k,
{
    if k < 0 || k >= entries.len() {
        true
    } else {
        (match entries[k] {
            FsEntry::Dir { entries: sub, .. } => entries_wf(sub@),
            FsEntry::File { .. } => true,
        }) && entries_wf_from(entries, k + 1)
    }
}

proof fn lemma_wf_from_at(entries: Seq<FsEntry>, j: int, k: int)
    requires
        entries_wf_from(entries, j),
        0 <= j <= k < entries.len(),
    ensures
        match entries[k] {
            FsEntry::Dir { entries: sub, .. } => entries_wf(sub@),
            FsEntry::File { .. } => true,
        },
    decreases k - j,
{
    if j < k {
        lemma_wf_from_at(entries, j + 1, k);
    }
}

proof fn lemma_find_named_from_here(entries: Seq<FsEntry>, nm: Seq<char>, j: int, k: int)
    requires
        0 <= j <= k < entries.len(),
        entries[k].name_chars() == nm,
        forall|i1: int, i2: int|
            0 <= i1 < i2 < entries.len() ==> (#[trigger] entries[i1].name_chars()) != (
            #[trigger] entries[i2].name_chars()),
    ensures
        find_named_from(entries, nm, j) == Some(k),
    decreases k - j,
{
    if j < k {
        assert(entries[j].name_chars() != entries[k].name_chars());
        lemma_find_named_from_here(entries, nm, j + 1, k);
    }
}

// ---------------------------------------------------------------------------
// Relative and absolute locations
// ---------------------------------------------------------------------------

/// A child's path relative to the vault root.
pub open spec fn rel_child(rel: Seq<char>, name: Seq<char>) -> Seq<char> {
    if rel.len() == 0 {
        name
    } else {
        rel + seq!['/'] + name
    }
}

/// The absolute path of the directory at relative path `rel`.
pub open spec fn abs_of(vault: Seq<char>, rel: Seq<char>) -> Seq<char> {
    if rel.len() == 0 {
        vault
    } else {
        spec_join(vault, rel)
    }
}

pub open spec fn rel_ok(rel: Seq<char>) -> bool {
    rel.len() == 0 || rel[rel.len() - 1] != '/'
}

proof fn lemma_abs_child(vault: Seq<char>, rel: Seq<char>, name: Seq<char>)
    requires
        rel_ok(rel),
        name_ok(name),
    ensures
        abs_of(vault, rel_child(rel, name)) == spec_join(abs_of(vault, rel), name),
        rel_ok(rel_child(rel, name)),
{
    if rel.len() == 0 {
        assert(rel_child(rel, name) == name);
    } else {
        let rc = rel + seq!['/'] + name;
        assert(rc[rc.len() - 1] == name[name.len() - 1]);
        if vault.len() == 0 {
            assert(abs_of(vault, rc) =~= spec_join(abs_of(vault, rel), name));
        } else if vault[vault.len() - 1] == '/' {
            assert((vault + rel)[(vault + rel).len() - 1] == rel[rel.len() - 1]);
            assert(abs_of(vault, rc) =~= spec_join(abs_of(vault, rel), name));
        } else {
            assert((vault + seq!['/'] + rel)[(vault + seq!['/'] + rel).len() - 1] == rel[rel.len()
                - 1]);
            assert(abs_of(vault, rc) =~= spec_join(abs_of(vault, rel), name));
        }
    }
}

// ---------------------------------------------------------------------------
// What a correct tree is
// ---------------------------------------------------------------------------

/// Sibling order: folders before notes; within a kind, strictly increasing
/// names.
pub open spec fn order_pair(a: FileTreeNode, b: FileTreeNode) -> bool {
    if a.is_folder() == b.is_folder() {
        chars_lt(a.node_name(), b.node_name())
    } else {
        a.is_folder() && !b.is_folder()
    }
}

pub open spec fn nodes_ordered(nodes: Seq<FileTreeNode>) -> bool {
    forall|i: int, j: int|
        0 <= i < j < nodes.len() ==> order_pair(#[trigger] nodes[i], #[trigger] nodes[j])
}

/// The node faithfully presents the like-named visible entry of `entries`:
/// right kind, right time, right paths, and (for a folder) children that are
/// themselves a correct tree of that directory.
pub open spec fn node_linked(
    n: FileTreeNode,
    entries: Seq<FsEntry>,
    vault: Seq<char>,
    rel: Seq<char>,
) -> bool
    decreases n, 0int,
{
    match n {
        FileTreeNode::Folder { name, path, modified, children } => {
            &&& !is_hidden_name(name@)
            &&& path@ == rel_child(rel, name@)
            &&& match find_named(entries, name@) {
                Some(i) => entries[i] matches FsEntry::Dir { modified: m2, entries: sub, .. }
                    && modified == m2 && tree_ok(children@, sub@, vault, rel_child(rel, name@)),
                None => false,
            }
        },
        FileTreeNode::Note { name, path, relative_path, modified } => {
            let fname = name@ + seq!['.', 'm', 'd'];
            &&& !is_hidden_name(fname)
            &&& relative_path@ == rel_child(rel, fname)
            &&& path@ == spec_join(abs_of(vault, rel), fname)
            &&& match find_named(entries, fname) {
                Some(i) => entries[i] matches FsEntry::File { modified: m2, .. } && modified == m2,
                None => false,
            }
        },
    }
}

pub open spec fn nodes_linked_from(
    nodes: Seq<FileTreeNode>,
    k: int,
    entries: Seq<FsEntry>,
    vault: Seq<char>,
    rel: Seq<char>,
) -> bool
    decreases nodes, nodes.len() - k,
{
    if k < 0 || k >= nodes.len() {
        true
    } else {
        node_linked(nodes[k], entries, vault, rel) && nodes_linked_from(
            nodes,
            k + 1,
            entries,
            vault,
            rel,
        )
    }
}

/// Every visible directory and visible `.md` file of `entries` appears among
/// `nodes`.
pub open spec fn entry_covered(e: FsEntry, nodes: Seq<FileTreeNode>) -> bool {
    is_hidden_name(e.name_chars()) || match e {
        FsEntry::Dir { name, .. } => exists|i: int|
            {
                &&& 0 <= i < nodes.len()
                &&& (#[trigger] nodes[i]) matches FileTreeNode::Folder { name: n2, .. }
                &&& n2@ == name@
            },
        FsEntry::File { name, .. } => !is_md_name(name@) || exists|i: int|
            {
                &&& 0 <= i < nodes.len()
                &&& (#[trigger] nodes[i]) matches FileTreeNode::Note { name: n2, .. }
                &&& n2@ == md_stem(name@)
            },
    }
}

pub open spec fn entries_covered(entries: Seq<FsEntry>, nodes: Seq<FileTreeNode>) -> bool {
    forall|j: int| 0 <= j < entries.len() ==> entry_covered(#[trigger] entries[j], nodes)
}

/// `nodes` is exactly the ordered tree of the visible part of `entries`:
/// ordered, each node presenting its entry (recursively), and no visible
/// entry missing.
pub open spec fn tree_ok(
    nodes: Seq<FileTreeNode>,
    entries: Seq<FsEntry>,
    vault: Seq<char>,
    rel: Seq<char>,
) -> bool
    decreases nodes, nodes.len() + 1,
{
    &&& nodes_ordered(nodes)
    &&& nodes_linked_from(nodes, 0, entries, vault, rel)
    &&& entries_covered(entries, nodes)
}

proof fn lemma_linked_from_forall(
    nodes: Seq<FileTreeNode>,
    k: int,
    entries: Seq<FsEntry>,
    vault: Seq<char>,
    rel: Seq<char>,
)
    requires
        0 <= k <= nodes.len(),
    ensures
        nodes_linked_from(nodes, k, entries, vault, rel) <==> (forall|i: int|
            k <= i < nodes.len() ==> node_linked(#[trigger] nodes[i], entries, vault, rel)),
    decreases nodes.len() - k,
{
    if k < nodes.len() {
        lemma_linked_from_forall(nodes, k + 1, entries, vault, rel);
    }
}

// ---------------------------------------------------------------------------
// Sorting a sibling group by name
// ---------------------------------------------------------------------------

pub(crate) proof fn lemma_ms_insert<A>(s: Seq<A>, i: int, a: A)
    requires
        0 <= i <= s.len(),
    ensures
        s.insert(i, a).to_multiset() == s.to_multiset().insert(a),
{
    broadcast use vstd::seq_lib::group_to_multiset_ensures;

    assert(s.insert(i, a) =~= s.take(i).push(a) + s.skip(i));
    assert(s =~= s.take(i) + s.skip(i));
    lemma_multiset_commutative(s.take(i).push(a), s.skip(i));
    lemma_multiset_commutative(s.take(i), s.skip(i));
    assert(s.take(i).push(a).to_multiset() =~= s.take(i).to_multiset().insert(a));
    assert(s.insert(i, a).to_multiset() =~= s.to_multiset().insert(a));
}

pub(crate) proof fn lemma_ms_remove<A>(s: Seq<A>, i: int)
    requires
        0 <= i < s.len(),
    ensures
        s.to_multiset() == s.remove(i).to_multiset().insert(s[i]),
{
    broadcast use vstd::seq_lib::group_to_multiset_ensures;

    assert(s.remove(i).insert(i, s[i]) =~= s);
    lemma_ms_insert(s.remove(i), i, s[i]);
}

/// Sorts a sibling group by name (stable; ties keep their order).
fn sort_nodes(v: &mut Vec<FileTreeNode>)
    ensures
        final (v)@.to_multiset() == old(v)@.to_multiset(),
        forall|i: int, j: int|
            0 <= i < j < final (v)@.len() ==> chars_le(
                #[trigger] final (v)@[i].node_name(),
                #[trigger] final (v)@[j].node_name(),
            ),
{
    let n = v.len();
    let mut i: usize = 1;
    while i < v.len()
        invariant
            1 <= i <= v@.len() || v@.len() == 0,
            v@.to_multiset() == old(v)@.to_multiset(),
            forall|p: int, q: int|
                0 <= p < q < i ==> chars_le(
                    #[trigger] v@[p].node_name(),
                    #[trigger] v@[q].node_name(),
                ),
        decreases v@.len() - i,
    {
        let ghost before = v@;
        let x = v.remove(i);
        proof {
            lemma_ms_remove(before, i as int);
        }
        // find the insertion point in the sorted prefix
        let mut p: usize = 0;
        while p < i && !str_lt(x.node_name_str(), v[p].node_name_str())
            invariant
                p <= i,
                i < before.len(),
                v@ == before.remove(i as int),
                forall|q: int| 0 <= q < p ==> !chars_lt(x.node_name(), #[trigger] v@[q].node_name()),
            decreases i - p,
        {
            p = p + 1;
        }
        let ghost mid = v@;
        v.insert(p, x);
        proof {
            lemma_ms_insert(mid, p as int, x);
            before.remove_ensures(i as int);
            mid.insert_ensures(p as int, x);
            // prefix order after the insertion
            assert forall|a: int, b: int| 0 <= a < b < i + 1 implies chars_le(
                #[trigger] v@[a].node_name(),
                #[trigger] v@[b].node_name(),
            ) by {
                if b < p {
                    assert(v@[a] == before[a] && v@[b] == before[b]);
                } else if a < p && b == p {
                    assert(v@[a] == before[a]);
                    assert(v@[b] == x);
                } else if a < p && b > p {
                    assert(v@[a] == before[a] && v@[b] == before[b - 1]);
                } else if a == p && b > p {
                    assert(v@[a] == x);
                    assert(v@[b] == before[b - 1]);
                    assert(chars_lt(x.node_name(), mid[p as int].node_name()) || p as int == i);
                    if (p as int) < i {
                        assert(mid[p as int] == before[p as int]);
                        lemma_chars_lt_connected(x.node_name(), before[p as int].node_name());
                        if b - 1 > p {
                            assert(chars_le(before[p as int].node_name(), before[b - 1].node_name()));
                            lemma_chars_lt_connected(x.node_name(), before[b - 1].node_name());
                            if chars_lt(before[b - 1].node_name(), x.node_name()) {
                                crate::fsmodel::lemma_chars_lt_trans(
                                    before[b - 1].node_name(),
                                    x.node_name(),
                                    before[p as int].node_name(),
                                );
                            }
                        }
                    }
                } else if a > p && b > p {
                    assert(v@[a] == before[a - 1] && v@[b] == before[b - 1]);
                }
            }
        }
        i = i + 1;
    }
}

impl FileTreeNode {
    /// The node's name.
    pub fn node_name_str(&self) -> (r: &str)
        ensures
            r@ == self.node_name(),
    {
        match self {
            FileTreeNode::Folder { name, .. } => name.as_str(),
            FileTreeNode::Note { name, .. } => name.as_str(),
        }
    }
}

proof fn lemma_ms_same_contains<A>(a: Seq<A>, b: Seq<A>)
    requires
        a.to_multiset() == b.to_multiset(),
    ensures
        forall|x: A| #[trigger] b.contains(x) ==> a.contains(x),
        forall|x: A| #[trigger] a.contains(x) ==> b.contains(x),
{
    a.to_multiset_ensures();
    b.to_multiset_ensures();
    assert forall|x: A| #[trigger] b.contains(x) implies a.contains(x) by {
        assert(b.to_multiset().count(x) > 0);
        assert(a.to_multiset().count(x) > 0);
    }
    assert forall|x: A| #[trigger] a.contains(x) implies b.contains(x) by {
        assert(a.to_multiset().count(x) > 0);
        assert(b.to_multiset().count(x) > 0);
    }
}

/// Distinct names survive any permutation.
proof fn lemma_perm_distinct_names(a: Seq<FileTreeNode>, b: Seq<FileTreeNode>)
    requires
        a.to_multiset() == b.to_multiset(),
        forall|i: int, j: int|
            0 <= i < j < a.len() ==> (#[trigger] a[i].node_name()) != (#[trigger] a[j].node_name()),
    ensures
        forall|i: int, j: int|
            0 <= i < j < b.len() ==> (#[trigger] b[i].node_name()) != (#[trigger] b[j].node_name()),
{
    a.to_multiset_ensures();
    b.to_multiset_ensures();
    assert(a.no_duplicates()) by {
        assert forall|i: int, j: int|
            0 <= i < a.len() && 0 <= j < a.len() && i != j implies a[i] != a[j] by {
            if i < j {
                assert(a[i].node_name() != a[j].node_name());
            } else {
                assert(a[j].node_name() != a[i].node_name());
            }
        }
    }
    a.lemma_multiset_has_no_duplicates();
    b.lemma_multiset_has_no_duplicates_conv();
    assert forall|i: int, j: int|
        0 <= i < j < b.len() implies (#[trigger] b[i].node_name()) != (
    #[trigger] b[j].node_name()) by {
        if b[i].node_name() == b[j].node_name() {
            assert(b[i] != b[j]);
            assert(a.contains(b[i])) by {
                assert(b.contains(b[i]));
                assert(b.to_multiset().count(b[i]) > 0);
            }
            assert(a.contains(b[j])) by {
                assert(b.contains(b[j]));
                assert(b.to_multiset().count(b[j]) > 0);
            }
            let p = choose|p: int| 0 <= p < a.len() && a[p] == b[i];
            let q = choose|q: int| 0 <= q < a.len() && a[q] == b[j];
            assert(p != q);
            if p < q {
                assert(a[p].node_name() != a[q].node_name());
            } else {
                assert(a[q].node_name() != a[p].node_name());
            }
        }
    }
}

// ---------------------------------------------------------------------------
// Building the tree
// ---------------------------------------------------------------------------

fn build_nodes(entries: &Vec<FsEntry>, vault: &String, abs: &String, rel: &String) -> (nodes: Vec<
    FileTreeNode,
>)
    requires
        entries_wf(entries@),
        rel_ok(rel@),
        abs@ == abs_of(vault@, rel@),
    ensures
        tree_ok(nodes@, entries@, vault@, rel@),
    decreases entries@,
{
    let n = entries.len();
    let mut folders: Vec<FileTreeNode> = Vec::new();
    let mut notes: Vec<FileTreeNode> = Vec::new();
    let mut k: usize = 0;
    while k < n
        invariant
            k <= n,
            n == entries@.len(),
            entries_wf(entries@),
            rel_ok(rel@),
            abs@ == abs_of(vault@, rel@),
            forall|i: int|
                0 <= i < folders@.len() ==> (#[trigger] folders@[i]).is_folder() && node_linked(
                    folders@[i],
                    entries@,
                    vault@,
                    rel@,
                ),
            forall|i: int|
                0 <= i < notes@.len() ==> !(#[trigger] notes@[i]).is_folder() && node_linked(
                    notes@[i],
                    entries@,
                    vault@,
                    rel@,
                ),
            forall|i: int|
                0 <= i < folders@.len() ==> match find_named(
                    entries@,
                    (#[trigger] folders@[i]).node_name(),
                ) {
                    Some(j) => j < k,
                    None => false,
                },
            forall|i: int|
                0 <= i < notes@.len() ==> match find_named(
                    entries@,
                    (#[trigger] notes@[i]).node_name() + seq!['.', 'm', 'd'],
                ) {
                    Some(j) => j < k,
                    None => false,
                },
            forall|i: int, j: int|
                0 <= i < j < folders@.len() ==> (#[trigger] folders@[i].node_name()) != (
                #[trigger] folders@[j].node_name()),
            forall|i: int, j: int|
                0 <= i < j < notes@.len() ==> (#[trigger] notes@[i].node_name()) != (
                #[trigger] notes@[j].node_name()),
            forall|j: int| 0 <= j < k ==> entry_covered(#[trigger] entries@[j], folders@ + notes@),
        decreases n - k,
    {
        let ghost old_f = folders@;
        let ghost old_n = notes@;
        let e = &entries[k];
        let ename = entry_name(e);
        proof {
            assert(entries@[k as int] == *e);
        }
        if !is_hidden(ename) {
            match e {
                FsEntry::Dir { name: dname, modified, entries: sub } => {
                    proof {
                        reveal_strlit("/");
                        assert("/"@ =~= seq!['/']);
                        assert(name_ok(dname@));
                        lemma_abs_child(vault@, rel@, dname@);
                        lemma_wf_from_at(entries@, 0, k as int);
                        assert(decreases_to!(entries@ => entries@[k as int]));
                        assert(decreases_to!(*e => e->Dir_entries));
                        assert(decreases_to!(e->Dir_entries => sub@));
                    }
                    let child_rel = if rel.as_str().unicode_len() == 0 {
                        dname.clone()
                    } else {
                        rel.clone().concat("/").concat(dname.as_str())
                    };
                    proof {
                        assert(child_rel@ == rel_child(rel@, dname@));
                    }
                    let child_abs = join_path(abs.as_str(), dname.as_str());
                    let children = build_nodes(sub, vault, &child_abs, &child_rel);
                    let node = FileTreeNode::Folder {
                        name: dname.clone(),
                        path: child_rel,
                        modified: *modified,
                        children,
                    };
                    proof {
                        lemma_find_named_from_here(entries@, dname@, 0, k as int);
                        assert(node_linked(node, entries@, vault@, rel@));
                    }
                    folders.push(node);
                    proof {
                        assert(folders@ == old_f.push(node));
                        assert forall|i: int, j: int|
                            0 <= i < j < folders@.len() implies (
                        #[trigger] folders@[i].node_name()) != (
                        #[trigger] folders@[j].node_name()) by {
                            if j == folders@.len() - 1 && folders@[i].node_name() == dname@ {
                                assert(find_named(entries@, dname@) == Some(k as int));
                            }
                        }
                    }
                },
                FsEntry::File { name: fname, modified, .. } => {
                    if is_md(fname) {
                        let st = stem_of(fname);
                        let relp = if rel.as_str().unicode_len() == 0 {
                            fname.clone()
                        } else {
                            rel.clone().concat("/").concat(fname.as_str())
                        };
                        proof {
                            reveal_strlit("/");
                            assert("/"@ =~= seq!['/']);
                            assert(relp@ == rel_child(rel@, fname@));
                            assert(st@ + seq!['.', 'm', 'd'] =~= fname@);
                        }
                        let ap = join_path(abs.as_str(), fname.as_str());
                        let node = FileTreeNode::Note {
                            name: st,
                            path: ap,
                            relative_path: relp,
                            modified: *modified,
                        };
                        proof {
                            lemma_find_named_from_here(entries@, fname@, 0, k as int);
                            assert(node_linked(node, entries@, vault@, rel@));
                        }
                        notes.push(node);
                        proof {
                            assert(notes@ == old_n.push(node));
                            assert forall|i: int, j: int|
                                0 <= i < j < notes@.len() implies (
                            #[trigger] notes@[i].node_name()) != (
                            #[trigger] notes@[j].node_name()) by {
                                if j == notes@.len() - 1 && notes@[i].node_name() == node.node_name() {
                                    assert(notes@[i].node_name() + seq!['.', 'm', 'd'] =~= fname@);
                                    assert(find_named(entries@, fname@) == Some(k as int));
                                }
                            }
                        }
                    }
                },
            }
        }
        proof {
            // coverage of the first k + 1 entries over the grown lists
            assert forall|j: int|
                0 <= j < k + 1 implies entry_covered(#[trigger] entries@[j], folders@ + notes@) by {
                let cat = folders@ + notes@;
                let old_cat = old_f + old_n;
                if j == k {
                    let ej = entries@[j];
                    if !is_hidden_name(ej.name_chars()) {
                        match ej {
                            FsEntry::Dir { .. } => {
                                let i = folders@.len() - 1;
                                assert(cat[i] == folders@[i]);
                            },
                            FsEntry::File { name, .. } => {
                                if is_md_name(name@) {
                                    let i = folders@.len() + notes@.len() - 1;
                                    assert(cat[i] == notes@[notes@.len() - 1]);
                                    assert(md_stem(name@) == notes@[notes@.len()
                                        - 1].node_name());
                                }
                            },
                        }
                    }
                } else {
                    assert(entry_covered(entries@[j], old_cat));
                    if !is_hidden_name(entries@[j].name_chars()) {
                        match entries@[j] {
                            FsEntry::Dir { name, .. } => {
                                let i = choose|i: int|
                                    {
                                        &&& 0 <= i < old_cat.len()
                                        &&& (#[trigger] old_cat[i]) matches FileTreeNode::Folder {
                                            name: n2,
                                            ..
                                        }
                                        &&& n2@ == name@
                                    };
                                if i < old_f.len() {
                                    assert(cat[i] == old_f[i]);
                                } else {
                                    assert(cat[i + folders@.len() - old_f.len()] == old_n[i
                                        - old_f.len()]);
                                }
                            },
                            FsEntry::File { name, .. } => {
                                if is_md_name(name@) {
                                    let i = choose|i: int|
                                        {
                                            &&& 0 <= i < old_cat.len()
                                            &&& (#[trigger] old_cat[i]) matches FileTreeNode::Note {
                                                name: n2,
                                                ..
                                            }
                                            &&& n2@ == md_stem(name@)
                                        };
                                    if i < old_f.len() {
                                        assert(cat[i] == old_f[i]);
                                    } else {
                                        assert(cat[i + folders@.len() - old_f.len()] == old_n[i
                                            - old_f.len()]);
                                    }
                                }
                            },
                        }
                    }
                }
            }
        }
        k = k + 1;
    }
    // sort each group by name, then concatenate: folders first
    let ghost pre_f = folders@;
    let ghost pre_n = notes@;
    sort_nodes(&mut folders);
    sort_nodes(&mut notes);
    proof {
        lemma_ms_same_contains(pre_f, folders@);
        lemma_ms_same_contains(pre_n, notes@);
        lemma_perm_distinct_names(pre_f, folders@);
        lemma_perm_distinct_names(pre_n, notes@);
        assert forall|i: int| 0 <= i < folders@.len() implies (#[trigger] folders@[i]).is_folder()
            && node_linked(folders@[i], entries@, vault@, rel@) by {
            assert(pre_f.contains(folders@[i])) by {
                assert(folders@.contains(folders@[i]));
            }
            let p = choose|p: int| 0 <= p < pre_f.len() && pre_f[p] == folders@[i];
            assert(pre_f[p].is_folder() && node_linked(pre_f[p], entries@, vault@, rel@));
        }
        assert forall|i: int| 0 <= i < notes@.len() implies !(#[trigger] notes@[i]).is_folder()
            && node_linked(notes@[i], entries@, vault@, rel@) by {
            assert(pre_n.contains(notes@[i])) by {
                assert(notes@.contains(notes@[i]));
            }
            let p = choose|p: int| 0 <= p < pre_n.len() && pre_n[p] == notes@[i];
            assert(!pre_n[p].is_folder() && node_linked(pre_n[p], entries@, vault@, rel@));
        }
    }
    let ghost sf = folders@;
    let ghost sn = notes@;
    let mut nodes = folders;
    nodes.append(&mut notes);
    proof {
        let cat = nodes@;
        assert(cat == sf + sn);
        // order: folders first, each group strictly sorted (names are distinct)
        assert forall|i: int, j: int| 0 <= i < j < cat.len() implies order_pair(
            #[trigger] cat[i],
            #[trigger] cat[j],
        ) by {
            if j < sf.len() {
                assert(cat[i] == sf[i] && cat[j] == sf[j]);
                lemma_chars_lt_connected(sf[i].node_name(), sf[j].node_name());
            } else if i < sf.len() {
                assert(cat[i] == sf[i] && cat[j] == sn[j - sf.len()]);
            } else {
                assert(cat[i] == sn[i - sf.len()] && cat[j] == sn[j - sf.len()]);
                lemma_chars_lt_connected(
                    sn[i - sf.len()].node_name(),
                    sn[j - sf.len()].node_name(),
                );
            }
        }
        // every node linked
        assert forall|i: int| 0 <= i < cat.len() implies node_linked(
            #[trigger] cat[i],
            entries@,
            vault@,
            rel@,
        ) by {
            if i < sf.len() {
                assert(cat[i] == sf[i]);
            } else {
                assert(cat[i] == sn[i - sf.len()]);
            }
        }
        lemma_linked_from_forall(cat, 0, entries@, vault@, rel@);
        // coverage carries over from the unsorted lists
        assert forall|j: int| 0 <= j < entries@.len() implies entry_covered(
            #[trigger] entries@[j],
            cat,
        ) by {
            let old_cat = pre_f + pre_n;
            assert(entry_covered(entries@[j], old_cat));
            if !is_hidden_name(entries@[j].name_chars()) {
                match entries@[j] {
                    FsEntry::Dir { name, .. } => {
                        let i = choose|i: int|
                            {
                                &&& 0 <= i < old_cat.len()
                                &&& (#[trigger] old_cat[i]) matches FileTreeNode::Folder {
                                    name: n2,
                                    ..
                                }
                                &&& n2@ == name@
                            };
                        let nd = old_cat[i];
                        if i < pre_f.len() {
                            assert(pre_f.contains(nd));
                            assert(sf.contains(nd));
                            let p = choose|p: int| 0 <= p < sf.len() && sf[p] == nd;
                            assert(cat[p] == nd);
                        } else {
                            assert(pre_n.contains(nd));
                            assert(sn.contains(nd));
                            let p = choose|p: int| 0 <= p < sn.len() && sn[p] == nd;
                            assert(cat[p + sf.len()] == nd);
                        }
                    },
                    FsEntry::File { name, .. } => {
                        if is_md_name(name@) {
                            let i = choose|i: int|
                                {
                                    &&& 0 <= i < old_cat.len()
                                    &&& (#[trigger] old_cat[i]) matches FileTreeNode::Note {
                                        name: n2,
                                        ..
                                    }
                                    &&& n2@ == md_stem(name@)
                                };
                            let nd = old_cat[i];
                            if i < pre_f.len() {
                                assert(pre_f.contains(nd));
                                assert(sf.contains(nd));
                                let p = choose|p: int| 0 <= p < sf.len() && sf[p] == nd;
                                assert(cat[p] == nd);
                            } else {
                                assert(pre_n.contains(nd));
                                assert(sn.contains(nd));
                                let p = choose|p: int| 0 <= p < sn.len() && sn[p] == nd;
                                assert(cat[p + sf.len()] == nd);
                            }
                        }
                    },
                }
            }
        }
    }
    nodes
}

/// The ordered file tree of the vault snapshot, with recursive totals.
pub fn list_file_tree(vault_path: &String, entries: &Vec<FsEntry>) -> (r: FsResult<FileTree>)
    requires
        entries_wf(entries@),
    ensures
        r.success,
        r.error is None,
        r.data matches Some(ft) && {
            &&& ft.vault_path@ == vault_path@
            &&& tree_ok(ft.root@, entries@, vault_path@, Seq::empty())
            &&& ft.total_notes as nat == cap_usize(spec_count_notes(ft.root@))
            &&& ft.total_folders as nat == cap_usize(spec_count_folders(ft.root@))
        },
{
    let rel = String::new();
    proof {
        assert(rel@.len() == 0);
        assert(abs_of(vault_path@, rel@) == vault_path@);
    }
    let root = build_nodes(entries, vault_path, vault_path, &rel);
    let total_notes = count_tree_notes(&root);
    let total_folders = count_tree_folders(&root);
    FsResult::ok(
        FileTree { vault_path: vault_path.clone(), root, total_notes, total_folders },
    )
}


// ---------------------------------------------------------------------------
// Hidden-entry exclusion
// ---------------------------------------------------------------------------

/// No node of `nodes[k..]`, recursively, is named with a leading dot.
pub open spec fn no_hidden_from(nodes: Seq<FileTreeNode>, k: int) -> bool
    decreases nodes, nodes.len() - k,
{
    if k < 0 || k >= nodes.len() {
        true
    } else {
        (!is_hidden_name(nodes[k].node_name()) && (match nodes[k] {
            FileTreeNode::Folder { children, .. } => no_hidden_from(children@, 0),
            FileTreeNode::Note { .. } => true,
        })) && no_hidden_from(nodes, k + 1)
    }
}

proof fn lemma_no_hidden_from(
    nodes: Seq<FileTreeNode>,
    k: int,
    entries: Seq<FsEntry>,
    vault: Seq<char>,
    rel: Seq<char>,
)
    requires
        0 <= k,
        nodes_linked_from(nodes, k, entries, vault, rel),
    ensures
        no_hidden_from(nodes, k),
    decreases nodes, nodes.len() - k,
{
    if 0 <= k < nodes.len() {
        assert(node_linked(nodes[k], entries, vault, rel));
        match nodes[k] {
            FileTreeNode::Folder { name, children, .. } => {
                crate::fsmodel::lemma_find_named_range(entries, name@, 0);
                let i = find_named(entries, name@)->Some_0;
                match entries[i] {
                    FsEntry::Dir { entries: sub, .. } => {
                        assert(tree_ok(children@, sub@, vault, rel_child(rel, name@)));
                        lemma_no_hidden_from(children@, 0, sub@, vault, rel_child(rel, name@));
                    },
                    FsEntry::File { .. } => {
                        assert(false);
                    },
                }
            },
            FileTreeNode::Note { name, .. } => {
                let fname = name@ + seq!['.', 'm', 'd'];
                assert(!is_hidden_name(fname));
                if name@.len() == 0 {
                    assert(fname =~= seq!['.', 'm', 'd']);
                    assert(is_hidden_name(fname));
                }
                assert(fname[0] == name@[0]);
            },
        }
        lemma_no_hidden_from(nodes, k + 1, entries, vault, rel);
    }
}

/// A file or directory whose name starts with a dot never appears in a
/// correct tree, at any depth.
pub proof fn lemma_tree_no_hidden(
    nodes: Seq<FileTreeNode>,
    entries: Seq<FsEntry>,
    vault: Seq<char>,
    rel: Seq<char>,
)
    requires
        tree_ok(nodes, entries, vault, rel),
    ensures
        no_hidden_from(nodes, 0),
{
    lemma_no_hidden_from(nodes, 0, entries, vault, rel);
}

} // verus!
