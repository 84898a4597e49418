//! Scanning a directory snapshot into the tree surfaced to the UI.
//!
//! A scan keeps an entry when `RawEntry::spec_kept` holds of it, builds a
//! node for each kept entry (recursing into subdirectories), and sorts
//! each sibling list with the two-key order `node_le`: directories before
//! files, names compared case-insensitively within each group. The sort
//! is a stable insertion sort, stated as a spec function, so the result
//! of a scan is pinned exactly.

use vstd::prelude::*;
use crate::errors::WsError;
use crate::order::{visible_name, md_name};
use crate::path::{join_spec, join_path};
use crate::tree::{
    RawEntry,
    FileNode,
    NodeV,
    node_le,
    node_view,
    views_of,
    node_le_exec,
    lemma_node_le_total,
    lemma_node_le_transitive,
};

verus! {

/// A sibling list in scan order: every pair of positions respects
/// `node_le`, so directories precede files and, within each group, names
/// are case-insensitively non-decreasing.
pub open spec fn siblings_sorted(s: Seq<NodeV>) -> bool {
    forall|i: int, j: int| 0 <= i < j < s.len() ==> node_le(#[trigger] s[i], #[trigger] s[j])
}

/// `x` placed into the sorted list `s`, before the first element it
/// precedes or equals.
pub open spec fn insert_sorted(x: NodeV, s: Seq<NodeV>) -> Seq<NodeV>
    decreases s.len(),
{
    if s.len() == 0 {
        seq![x]
    } else if node_le(x, s[0]) {
        seq![x] + s
    } else {
        seq![s[0]] + insert_sorted(x, s.drop_first())
    }
}

/// Insertion sort of a sibling list: stable, so the result is a single
/// well-defined sequence.
pub open spec fn sort_spec(s: Seq<NodeV>) -> Seq<NodeV>
    decreases s.len(),
{
    if s.len() == 0 {
        s
    } else {
        insert_sorted(s.last(), sort_spec(s.drop_last()))
    }
}

pub proof fn lemma_insert_sorted_len(x: NodeV, s: Seq<NodeV>)
    ensures
        insert_sorted(x, s).len() == s.len() + 1,
    decreases s.len(),
{
    if s.len() > 0 && !node_le(x, s[0]) {
        lemma_insert_sorted_len(x, s.drop_first());
    }
}

/// Every element of `insert_sorted(x, s)` is `x` or an element of `s`.
pub proof fn lemma_insert_sorted_elems(x: NodeV, s: Seq<NodeV>, j: int)
    requires
        0 <= j < insert_sorted(x, s).len(),
    ensures
        insert_sorted(x, s)[j] == x || s.contains(insert_sorted(x, s)[j]),
    decreases s.len(),
{
    if s.len() == 0 {
    } else if node_le(x, s[0]) {
    } else {
        if j > 0 {
            lemma_insert_sorted_elems(x, s.drop_first(), j - 1);
            let y = insert_sorted(x, s)[j];
            if s.drop_first().contains(y) {
                let k = choose|k: int| 0 <= k < s.drop_first().len() && s.drop_first()[k] == y;
                assert(s[k + 1] == y);
            }
        }
    }
}

pub proof fn lemma_insert_sorted_sorted(x: NodeV, s: Seq<NodeV>)
    requires
        siblings_sorted(s),
    ensures
        siblings_sorted(insert_sorted(x, s)),
    decreases s.len(),
{
    let out = insert_sorted(x, s);
    if s.len() == 0 {
    } else if node_le(x, s[0]) {
        assert forall|i: int, j: int| 0 <= i < j < out.len() implies node_le(out[i], out[j]) by {
            if i == 0 && j > 1 {
                assert(node_le(s[0], s[j - 1]));
                lemma_node_le_transitive(x, s[0], s[j - 1]);
            }
        }
    } else {
        lemma_node_le_total(x, s[0]);
        assert forall|i: int, j: int|
            0 <= i < j < s.drop_first().len() implies node_le(
            s.drop_first()[i],
            s.drop_first()[j],
        ) by {
            assert(node_le(s[i + 1], s[j + 1]));
        }
        lemma_insert_sorted_sorted(x, s.drop_first());
        let tail = insert_sorted(x, s.drop_first());
        assert forall|i: int, j: int| 0 <= i < j < out.len() implies node_le(out[i], out[j]) by {
            if i == 0 {
                lemma_insert_sorted_elems(x, s.drop_first(), j - 1);
                if tail[j - 1] == x {
                    assert(node_le(s[0], x));
                } else {
                    let k = choose|k: int|
                        0 <= k < s.drop_first().len() && s.drop_first()[k] == tail[j - 1];
                    assert(node_le(s[0], s[k + 1]));
                }
            } else {
                assert(node_le(tail[i - 1], tail[j - 1]));
            }
        }
    }
}

pub proof fn lemma_sort_sorted(s: Seq<NodeV>)
    ensures
        siblings_sorted(sort_spec(s)),
        sort_spec(s).len() == s.len(),
    decreases s.len(),
{
    if s.len() > 0 {
        lemma_sort_sorted(s.drop_last());
        lemma_insert_sorted_sorted(s.last(), sort_spec(s.drop_last()));
        lemma_insert_sorted_len(s.last(), sort_spec(s.drop_last()));
    }
}

/// Sorting does not add, drop or duplicate a sibling.
pub proof fn lemma_insert_sorted_multiset(x: NodeV, s: Seq<NodeV>)
    ensures
        insert_sorted(x, s).to_multiset() == s.to_multiset().insert(x),
    decreases s.len(),
{
    broadcast use vstd::seq_lib::group_to_multiset_ensures;

    if s.len() == 0 {
        assert(seq![x] =~= Seq::<NodeV>::empty().push(x));
        assert(Seq::<NodeV>::empty().push(x).to_multiset() =~= Seq::<
            NodeV,
        >::empty().to_multiset().insert(x));
    } else if node_le(x, s[0]) {
        assert(seq![x] + s =~= (seq![x] + s.drop_last()).push(s.last()));
        lemma_seq_push_multiset(seq![x] + s.drop_last(), s.last());
        lemma_insert_prefix_multiset(x, s);
    } else {
        lemma_insert_sorted_multiset(x, s.drop_first());
        assert(seq![s[0]] + insert_sorted(x, s.drop_first()) =~= insert_sorted(
            x,
            s.drop_first(),
        ).insert(0, s[0]));
        lemma_seq_insert0_multiset(insert_sorted(x, s.drop_first()), s[0]);
        lemma_seq_insert0_multiset(s.drop_first(), s[0]);
        assert(seq![s[0]] + s.drop_first() =~= s.drop_first().insert(0, s[0]));
        assert(s =~= seq![s[0]] + s.drop_first());
        assert(s.to_multiset() == s.drop_first().to_multiset().insert(s[0]));
        assert(insert_sorted(x, s).to_multiset() =~= s.to_multiset().insert(x));
    }
}

/// Prepending an element inserts it into the multiset.
proof fn lemma_seq_insert0_multiset(s: Seq<NodeV>, x: NodeV)
    ensures
        s.insert(0, x).to_multiset() == s.to_multiset().insert(x),
    decreases s.len(),
{
    broadcast use vstd::seq_lib::group_to_multiset_ensures;

    if s.len() == 0 {
        assert(s.insert(0, x) =~= s.push(x));
    } else {
        lemma_seq_insert0_multiset(s.drop_last(), x);
        assert(s.insert(0, x) =~= s.drop_last().insert(0, x).push(s.last()));
        assert(s =~= s.drop_last().push(s.last()));
        assert(s.insert(0, x).to_multiset() =~= s.to_multiset().insert(x));
    }
}

proof fn lemma_seq_push_multiset(s: Seq<NodeV>, x: NodeV)
    ensures
        s.push(x).to_multiset() == s.to_multiset().insert(x),
{
    broadcast use vstd::seq_lib::group_to_multiset_ensures;

}

proof fn lemma_insert_prefix_multiset(x: NodeV, s: Seq<NodeV>)
    requires
        s.len() > 0,
    ensures
        (seq![x] + s).to_multiset() == s.to_multiset().insert(x),
    decreases s.len(),
{
    broadcast use vstd::seq_lib::group_to_multiset_ensures;

    assert(seq![x] + s =~= s.insert(0, x));
    lemma_seq_insert0_multiset(s, x);
}

pub proof fn lemma_sort_multiset(s: Seq<NodeV>)
    ensures
        sort_spec(s).to_multiset() == s.to_multiset(),
    decreases s.len(),
{
    broadcast use vstd::seq_lib::group_to_multiset_ensures;

    if s.len() > 0 {
        lemma_sort_multiset(s.drop_last());
        lemma_insert_sorted_multiset(s.last(), sort_spec(s.drop_last()));
        assert(s =~= s.drop_last().push(s.last()));
        assert(s.to_multiset() == s.drop_last().to_multiset().insert(s.last()));
    }
}

/// Where the search for the insertion point stops, the spec insertion
/// places the element.
proof fn lemma_insert_sorted_at(x: NodeV, s: Seq<NodeV>, j: int)
    requires
        0 <= j <= s.len(),
        forall|k: int| 0 <= k < j ==> !node_le(x, #[trigger] s[k]),
        j < s.len() ==> node_le(x, s[j]),
    ensures
        insert_sorted(x, s) == s.take(j) + seq![x] + s.skip(j),
    decreases j,
{
    if j == 0 {
        if s.len() == 0 {
            assert(insert_sorted(x, s) =~= s.take(0) + seq![x] + s.skip(0));
        } else {
            assert(insert_sorted(x, s) =~= s.take(0) + seq![x] + s.skip(0));
        }
    } else {
        assert(!node_le(x, s[0]));
        lemma_insert_sorted_at(x, s.drop_first(), j - 1);
        assert(s.drop_first().take(j - 1) =~= s.take(j).drop_first());
        assert(s.drop_first().skip(j - 1) =~= s.skip(j));
        assert(seq![s[0]] + (s.drop_first().take(j - 1) + seq![x] + s.drop_first().skip(j - 1))
            =~= s.take(j) + seq![x] + s.skip(j));
    }
}

/// The index at which `x` belongs in the sorted sibling list `v`.
fn find_insert_pos(v: &Vec<FileNode>, x: &FileNode) -> (j: usize)
    ensures
        j <= v@.len(),
        forall|k: int| 0 <= k < j ==> !node_le(node_view(*x), #[trigger] views_of(v@)[k]),
        j < v@.len() ==> node_le(node_view(*x), views_of(v@)[j as int]),
{
    let mut j: usize = 0;
    loop
        invariant
            j <= v@.len(),
            forall|k: int| 0 <= k < j ==> !node_le(node_view(*x), #[trigger] views_of(v@)[k]),
        ensures
            j <= v@.len(),
            forall|k: int| 0 <= k < j ==> !node_le(node_view(*x), #[trigger] views_of(v@)[k]),
            j < v@.len() ==> node_le(node_view(*x), views_of(v@)[j as int]),
        decreases v@.len() - j,
    {
        if j >= v.len() {
            break ;
        }
        if node_le_exec(x, &v[j]) {
            break ;
        }
        j = j + 1;
    }
    j
}

/// Places one node into a sorted sibling list, exactly as the spec
/// insertion does.
pub fn insert_into_sorted(v: &mut Vec<FileNode>, x: FileNode)
    ensures
        views_of(final(v)@) == insert_sorted(node_view(x), views_of(old(v)@)),
{
    let j = find_insert_pos(v, &x);
    let ghost s = views_of(v@);
    v.insert(j, x);
    proof {
        lemma_insert_sorted_at(node_view(x), s, j as int);
        assert(views_of(v@) =~= s.take(j as int) + seq![node_view(x)] + s.skip(j as int));
    }
}

/// Sorts one sibling list with the two-key order: directories before
/// files, case-insensitive names within each group.
pub fn sort_siblings(v: Vec<FileNode>) -> (r: Vec<FileNode>)
    ensures
        views_of(r@) == sort_spec(views_of(v@)),
{
    let mut rest = v;
    let ghost all = views_of(rest@);
    let mut out: Vec<FileNode> = Vec::new();
    proof {
        assert(views_of(Seq::<FileNode>::empty()) =~= Seq::<NodeV>::empty());
        assert(all.take(0) =~= Seq::<NodeV>::empty());
        assert(sort_spec(Seq::<NodeV>::empty()) =~= Seq::<NodeV>::empty());
        assert(all.skip(0) =~= all);
    }
    while rest.len() > 0
        invariant
            rest@.len() <= all.len(),
            views_of(rest@) =~= all.skip(all.len() - rest@.len()),
            views_of(out@) == sort_spec(all.take(all.len() - rest@.len())),
        decreases rest@.len(),
    {
        let ghost taken = all.len() - rest@.len();
        let ghost rv = rest@;
        let ghost prev = views_of(rest@);
        let x = rest.remove(0);
        proof {
            assert(views_of(rest@) =~= prev.drop_first());
            assert(prev.drop_first() =~= all.skip(taken + 1));
            assert(prev[0] == node_view(rv[0]));
            assert(node_view(x) == all[taken as int]);
        }
        insert_into_sorted(&mut out, x);
        proof {
            assert(all.take(taken + 1).drop_last() =~= all.take(taken as int));
            assert(all.take(taken + 1).last() == all[taken as int]);
        }
    }
    proof {
        assert(all.take(all.len() as int) =~= all);
    }
    out
}

/// The node a scan builds for one kept entry inside the directory at
/// `base`. An unreadable directory is surfaced as a directory with no
/// children rather than failing the scan.
pub open spec fn scan_entry_spec(base: Seq<char>, e: RawEntry) -> NodeV
    decreases e, 0int, 0int,
{
    match e {
        RawEntry::File { name } => NodeV::File { name: name@, path: join_spec(base, name@) },
        RawEntry::Unreadable { name } => NodeV::Dir {
            name: name@,
            path: join_spec(base, name@),
            children: Seq::empty(),
        },
        RawEntry::Dir { name, entries } => NodeV::Dir {
            name: name@,
            path: join_spec(base, name@),
            children: scan_children_spec(join_spec(base, name@), entries),
        },
    }
}

/// The sibling list a scan of the directory at `base` produces from the
/// OS-ordered `entries`: the kept entries' nodes, sorted.
pub open spec fn scan_children_spec(base: Seq<char>, entries: Vec<RawEntry>) -> Seq<NodeV>
    decreases entries, entries@.len() + 1, 0int,
{
    sort_spec(kept_views(base, entries, 0))
}

/// The nodes of the kept entries among `entries[i..]`, in OS order.
pub open spec fn kept_views(base: Seq<char>, entries: Vec<RawEntry>, i: int) -> Seq<NodeV>
    decreases entries, entries@.len() - i, 1int,
{
    if i < 0 || i >= entries@.len() {
        Seq::empty()
    } else if entries@[i].spec_kept() {
        seq![scan_entry_spec(base, entries@[i])] + kept_views(base, entries, i + 1)
    } else {
        kept_views(base, entries, i + 1)
    }
}

/// Builds the node for one kept entry, recursing into subdirectories.
pub fn scan_entry(base: &str, e: &RawEntry) -> (r: FileNode)
    ensures
        node_view(r) == scan_entry_spec(base@, *e),
    decreases *e, 0int, 0int,
{
    match e {
        RawEntry::File { name } => FileNode::File {
            name: name.clone(),
            path: join_path(base, name.as_str()),
        },
        RawEntry::Unreadable { name } => {
            let r = FileNode::Dir {
                name: name.clone(),
                path: join_path(base, name.as_str()),
                children: Vec::new(),
            };
            proof {
                crate::tree::lemma_children_view_is_views_of(r->Dir_children, 0);
                assert(r->Dir_children@.skip(0) =~= r->Dir_children@);
                assert(views_of(Seq::<FileNode>::empty()) =~= Seq::<NodeV>::empty());
            }
            r
        },
        RawEntry::Dir { name, entries } => {
            let path = join_path(base, name.as_str());
            let children = scan_children(path.as_str(), entries);
            let r = FileNode::Dir { name: name.clone(), path, children };
            proof {
                crate::tree::lemma_children_view_is_views_of(r->Dir_children, 0);
                assert(r->Dir_children@.skip(0) =~= r->Dir_children@);
            }
            r
        },
    }
}

/// Scans one directory level: filters the OS-ordered entries, builds a
/// node for each kept one, and sorts the resulting sibling list.
pub fn scan_children(base: &str, entries: &Vec<RawEntry>) -> (r: Vec<FileNode>)
    ensures
        views_of(r@) == scan_children_spec(base@, *entries),
    decreases *entries, entries@.len() + 1, 0int,
{
    let mut kept: Vec<FileNode> = Vec::new();
    let mut i: usize = 0;
    proof {
        assert(views_of(kept@) =~= Seq::<NodeV>::empty());
    }
    while i < entries.len()
        invariant
            i <= entries@.len(),
            kept_views(base@, *entries, 0) =~= views_of(kept@) + kept_views(
                base@,
                *entries,
                i as int,
            ),
        decreases entries@.len() - i,
    {
        let e = &entries[i];
        if e.kept() {
            let ghost before = kept@;
            let node = scan_entry(base, e);
            kept.push(node);
            proof {
                assert(views_of(kept@) =~= views_of(before) + seq![node_view(node)]);
                assert(views_of(kept@) + kept_views(base@, *entries, i as int + 1) =~= views_of(
                    before,
                ) + kept_views(base@, *entries, i as int));
            }
        }
        i = i + 1;
    }
    proof {
        assert(kept_views(base@, *entries, entries@.len() as int) =~= Seq::<NodeV>::empty());
        assert(kept_views(base@, *entries, 0) =~= views_of(kept@));
    }
    sort_siblings(kept)
}

/// The tree that `get_tree` reports for a snapshot of the root: the
/// scanned sibling list of a readable directory, an empty list for an
/// unreadable one.
pub open spec fn tree_of_spec(root: Seq<char>, snapshot: RawEntry) -> Seq<NodeV> {
    match snapshot {
        RawEntry::File { .. } => Seq::empty(),
        RawEntry::Unreadable { .. } => Seq::empty(),
        RawEntry::Dir { entries, .. } => scan_children_spec(root, entries),
    }
}

/// The standalone directory-tree fetch: scans a snapshot of the root
/// directory without touching any watch. A snapshot that is a file is
/// rejected with `InvalidDirectory`; an unreadable root is surfaced as
/// empty, as every unreadable directory is.
pub fn get_tree(root_path: &str, snapshot: &RawEntry) -> (r: Result<Vec<FileNode>, WsError>)
    ensures
        match r {
            Ok(nodes) => snapshot.spec_is_dir() && views_of(nodes@) == tree_of_spec(
                root_path@,
                *snapshot,
            ),
            Err(e) => !snapshot.spec_is_dir() && e is InvalidDirectory,
        },
{
    match snapshot {
        RawEntry::File { .. } => Err(WsError::InvalidDirectory),
        RawEntry::Unreadable { .. } => {
            let nodes: Vec<FileNode> = Vec::new();
            proof {
                assert(views_of(nodes@) =~= Seq::<NodeV>::empty());
            }
            Ok(nodes)
        },
        RawEntry::Dir { entries, .. } => Ok(scan_children(root_path, entries)),
    }
}

/// Every sibling list below `n`, at every depth, is in scan order.
pub open spec fn tree_sorted(n: NodeV) -> bool
    decreases n,
{
    match n {
        NodeV::File { .. } => true,
        NodeV::Dir { children, .. } => siblings_sorted(children) && forall|i: int|
            0 <= i < children.len() ==> tree_sorted(#[trigger] children[i]),
    }
}

/// Every node below `n` is well formed: its name is non-empty and not
/// dot-prefixed, and a file node's name has extension exactly `md`.
/// (That a file node carries no children at all, and a directory node
/// always carries a list, is forced by the shape of `NodeV` itself.)
pub open spec fn tree_well_formed(n: NodeV) -> bool
    decreases n,
{
    &&& visible_name(n.name())
    &&& (n is File ==> md_name(n.name()))
    &&& (n matches NodeV::Dir { children, .. } ==> forall|i: int|
        0 <= i < children.len() ==> tree_well_formed(#[trigger] children[i]))
}

/// Every element of `kept_views(base, entries, i)` is the node of some
/// kept entry at an index at or after `i`.
pub proof fn lemma_kept_views_elems(base: Seq<char>, entries: Vec<RawEntry>, i: int, j: int)
    requires
        0 <= j < kept_views(base, entries, i).len(),
    ensures
        exists|k: int|
            i <= k < entries@.len() && #[trigger] entries@[k].spec_kept() && kept_views(
                base,
                entries,
                i,
            )[j] == scan_entry_spec(base, entries@[k]),
    decreases entries@.len() - i,
{
    if i < 0 || i >= entries@.len() {
    } else if entries@[i].spec_kept() {
        if j == 0 {
            assert(entries@[i].spec_kept() && kept_views(base, entries, i)[0] == scan_entry_spec(
                base,
                entries@[i],
            ));
        } else {
            lemma_kept_views_elems(base, entries, i + 1, j - 1);
        }
    } else {
        lemma_kept_views_elems(base, entries, i + 1, j);
    }
}

/// The node of every kept entry at or after `i` stands in
/// `kept_views(base, entries, i)`.
pub proof fn lemma_kept_views_contains(base: Seq<char>, entries: Vec<RawEntry>, i: int, k: int)
    requires
        0 <= i <= k < entries@.len(),
        entries@[k].spec_kept(),
    ensures
        kept_views(base, entries, i).contains(scan_entry_spec(base, entries@[k])),
    decreases entries@.len() - i,
{
    let s = kept_views(base, entries, i);
    if i == k {
        assert(s[0] == scan_entry_spec(base, entries@[k]));
    } else {
        lemma_kept_views_contains(base, entries, i + 1, k);
        let t = kept_views(base, entries, i + 1);
        let j = choose|j: int| 0 <= j < t.len() && t[j] == scan_entry_spec(base, entries@[k]);
        if entries@[i].spec_kept() {
            assert(s[j + 1] == scan_entry_spec(base, entries@[k]));
        }
    }
}

/// An element of the sorted sibling list is an element of the unsorted
/// one and conversely: sorting neither adds nor drops a node.
pub proof fn lemma_sort_contains(s: Seq<NodeV>, x: NodeV)
    ensures
        sort_spec(s).contains(x) <==> s.contains(x),
{
    broadcast use vstd::seq_lib::group_to_multiset_ensures;

    lemma_sort_multiset(s);
    assert(s.to_multiset().count(x) == sort_spec(s).to_multiset().count(x));
}

/// Scan determinism: one snapshot, one tree. Two scans of the same
/// snapshot against the same root yield identical sibling lists.
pub proof fn lemma_scan_deterministic(root: Seq<char>, a: RawEntry, b: RawEntry)
    requires
        a == b,
    ensures
        tree_of_spec(root, a) == tree_of_spec(root, b),
{
}

/// Scanning an empty directory yields an empty sibling list.
pub proof fn lemma_scan_empty_dir(base: Seq<char>, entries: Vec<RawEntry>)
    requires
        entries@.len() == 0,
    ensures
        scan_children_spec(base, entries) =~= Seq::<NodeV>::empty(),
{
}

/// Every sibling list a scan produces is in scan order: directories
/// precede files and names are case-insensitively non-decreasing within
/// each group — at the scanned level and at every level below it.
pub proof fn lemma_scan_children_sorted(base: Seq<char>, entries: Vec<RawEntry>)
    ensures
        siblings_sorted(scan_children_spec(base, entries)),
        forall|j: int|
            0 <= j < scan_children_spec(base, entries).len() ==> tree_sorted(
                #[trigger] scan_children_spec(base, entries)[j],
            ),
    decreases entries, entries@.len() + 1, 0int,
{
    let raw = kept_views(base, entries, 0);
    let out = scan_children_spec(base, entries);
    lemma_sort_sorted(raw);
    assert forall|j: int| 0 <= j < out.len() implies tree_sorted(#[trigger] out[j]) by {
        lemma_sort_contains(raw, out[j]);
        assert(out.contains(out[j]));
        let m = choose|m: int| 0 <= m < raw.len() && raw[m] == out[j];
        lemma_kept_views_elems(base, entries, 0, m);
        let k = choose|k: int|
            0 <= k < entries@.len() && #[trigger] entries@[k].spec_kept() && raw[m]
                == scan_entry_spec(base, entries@[k]);
        lemma_scan_entry_sorted(base, entries@[k]);
    }
}

/// Every node a scan builds is `tree_sorted`.
pub proof fn lemma_scan_entry_sorted(base: Seq<char>, e: RawEntry)
    ensures
        tree_sorted(scan_entry_spec(base, e)),
    decreases e, 0int, 1int,
{
    match e {
        RawEntry::File { .. } => {
        },
        RawEntry::Unreadable { .. } => {
        },
        RawEntry::Dir { name, entries } => {
            lemma_scan_children_sorted(join_spec(base, name@), entries);
        },
    }
}

/// Every sibling list a scan produces is well formed: no surfaced name
/// is empty or dot-prefixed, and every surfaced file has extension
/// exactly `md` — at the scanned level and at every level below it.
pub proof fn lemma_scan_children_well_formed(base: Seq<char>, entries: Vec<RawEntry>)
    ensures
        forall|j: int|
            0 <= j < scan_children_spec(base, entries).len() ==> tree_well_formed(
                #[trigger] scan_children_spec(base, entries)[j],
            ),
    decreases entries, entries@.len() + 1, 0int,
{
    let raw = kept_views(base, entries, 0);
    let out = scan_children_spec(base, entries);
    assert forall|j: int| 0 <= j < out.len() implies tree_well_formed(#[trigger] out[j]) by {
        lemma_sort_contains(raw, out[j]);
        assert(out.contains(out[j]));
        let m = choose|m: int| 0 <= m < raw.len() && raw[m] == out[j];
        lemma_kept_views_elems(base, entries, 0, m);
        let k = choose|k: int|
            0 <= k < entries@.len() && #[trigger] entries@[k].spec_kept() && raw[m]
                == scan_entry_spec(base, entries@[k]);
        lemma_scan_entry_well_formed(base, entries@[k]);
    }
}

/// The node a scan builds for a kept entry is `tree_well_formed`.
pub proof fn lemma_scan_entry_well_formed(base: Seq<char>, e: RawEntry)
    requires
        e.spec_kept(),
    ensures
        tree_well_formed(scan_entry_spec(base, e)),
    decreases e, 0int, 1int,
{
    match e {
        RawEntry::File { .. } => {
        },
        RawEntry::Unreadable { .. } => {
        },
        RawEntry::Dir { name, entries } => {
            let p = join_spec(base, name@);
            lemma_scan_children_well_formed(p, entries);
            let children = scan_children_spec(p, entries);
            assert forall|i: int| 0 <= i < children.len() implies tree_well_formed(
                #[trigger] children[i],
            ) by {
                assert(tree_well_formed(scan_children_spec(p, entries)[i]));
            }
        },
    }
}

/// The tree `get_tree` reports is in scan order at every level.
pub proof fn lemma_tree_of_sorted(root: Seq<char>, snapshot: RawEntry)
    ensures
        siblings_sorted(tree_of_spec(root, snapshot)),
        forall|j: int|
            0 <= j < tree_of_spec(root, snapshot).len() ==> tree_sorted(
                #[trigger] tree_of_spec(root, snapshot)[j],
            ),
{
    if snapshot is Dir {
        lemma_scan_children_sorted(root, snapshot->Dir_entries);
    }
}

/// The tree `get_tree` reports is well formed at every level.
pub proof fn lemma_tree_of_well_formed(root: Seq<char>, snapshot: RawEntry)
    ensures
        forall|j: int|
            0 <= j < tree_of_spec(root, snapshot).len() ==> tree_well_formed(
                #[trigger] tree_of_spec(root, snapshot)[j],
            ),
{
    if snapshot is Dir {
        lemma_scan_children_well_formed(root, snapshot->Dir_entries);
    }
}

/// The name of a scanned node is the name of its entry.
pub proof fn lemma_scan_entry_name(base: Seq<char>, e: RawEntry)
    ensures
        scan_entry_spec(base, e).name() == e.spec_name(),
{
}

/// The path of a scanned node joins the directory's path with the
/// entry's name.
pub proof fn lemma_scan_entry_path(base: Seq<char>, e: RawEntry)
    ensures
        scan_entry_spec(base, e).path() == join_spec(base, e.spec_name()),
{
}

/// Entry names inside one directory are distinct, as an OS listing
/// always reports them.
pub open spec fn distinct_names(entries: Vec<RawEntry>) -> bool {
    forall|i: int, j: int|
        0 <= i < j < entries@.len() ==> (#[trigger] entries@[i].spec_name())
            != (#[trigger] entries@[j].spec_name())
}

/// With distinct entry names, no kept node value repeats.
proof fn lemma_kept_views_no_dup(base: Seq<char>, entries: Vec<RawEntry>, i: int)
    requires
        distinct_names(entries),
        0 <= i,
    ensures
        kept_views(base, entries, i).no_duplicates(),
    decreases entries@.len() - i,
{
    if i < entries@.len() {
        lemma_kept_views_no_dup(base, entries, i + 1);
        if entries@[i].spec_kept() {
            let head = scan_entry_spec(base, entries@[i]);
            let tail = kept_views(base, entries, i + 1);
            let s = kept_views(base, entries, i);
            assert forall|j: int| 0 <= j < tail.len() implies tail[j] != head by {
                lemma_kept_views_elems(base, entries, i + 1, j);
                let k = choose|k: int|
                    i + 1 <= k < entries@.len() && #[trigger] entries@[k].spec_kept() && tail[j]
                        == scan_entry_spec(base, entries@[k]);
                lemma_scan_entry_name(base, entries@[k]);
                lemma_scan_entry_name(base, entries@[i]);
                assert(entries@[i].spec_name() != entries@[k].spec_name());
            }
            assert forall|p: int, q: int|
                0 <= p < s.len() && 0 <= q < s.len() && p != q implies s[p] != s[q] by {
                if p == 0 {
                    assert(s[q] == tail[q - 1]);
                } else if q == 0 {
                    assert(s[p] == tail[p - 1]);
                } else {
                    assert(s[p] == tail[p - 1] && s[q] == tail[q - 1]);
                }
            }
        }
    }
}

/// Within one scanned sibling list every path is unique: since the
/// names of a directory's entries are distinct, no two surfaced
/// siblings share a path.
pub proof fn lemma_sibling_paths_unique(base: Seq<char>, entries: Vec<RawEntry>, p: int, q: int)
    requires
        distinct_names(entries),
        0 <= p < scan_children_spec(base, entries).len(),
        0 <= q < scan_children_spec(base, entries).len(),
        p != q,
    ensures
        scan_children_spec(base, entries)[p].path() != scan_children_spec(base, entries)[q].path(),
{
    broadcast use vstd::seq_lib::group_to_multiset_ensures;

    let raw = kept_views(base, entries, 0);
    let out = scan_children_spec(base, entries);
    lemma_kept_views_no_dup(base, entries, 0);
    raw.lemma_multiset_has_no_duplicates();
    lemma_sort_multiset(raw);
    assert forall|x: NodeV| out.to_multiset().contains(x) implies out.to_multiset().count(x)
        == 1 by {
        assert(out.to_multiset().count(x) == raw.to_multiset().count(x));
    }
    out.lemma_multiset_has_no_duplicates_conv();
    if out[p].path() == out[q].path() {
        let kp = surfaced_entry_of(base, entries, p);
        let kq = surfaced_entry_of(base, entries, q);
        lemma_scan_entry_path(base, entries@[kp]);
        lemma_scan_entry_path(base, entries@[kq]);
        crate::path::lemma_join_injective(
            base,
            entries@[kp].spec_name(),
            entries@[kq].spec_name(),
        );
        assert(kp == kq);
        assert(out[p] != out[q]);
    }
}

/// The index of the kept entry whose node stands at position `j` of the
/// scanned sibling list.
proof fn surfaced_entry_of(base: Seq<char>, entries: Vec<RawEntry>, j: int) -> (k: int)
    requires
        0 <= j < scan_children_spec(base, entries).len(),
    ensures
        0 <= k < entries@.len(),
        entries@[k].spec_kept(),
        scan_children_spec(base, entries)[j] == scan_entry_spec(base, entries@[k]),
{
    let raw = kept_views(base, entries, 0);
    let out = scan_children_spec(base, entries);
    lemma_sort_contains(raw, out[j]);
    assert(out.contains(out[j]));
    let m = choose|m: int| 0 <= m < raw.len() && raw[m] == out[j];
    lemma_kept_views_elems(base, entries, 0, m);
    choose|k: int|
        0 <= k < entries@.len() && #[trigger] entries@[k].spec_kept() && raw[m] == scan_entry_spec(
            base,
            entries@[k],
        )
}

/// A scanned node is a directory node exactly when its entry is a
/// directory (readable or not).
pub proof fn lemma_scan_entry_variant(base: Seq<char>, e: RawEntry)
    ensures
        scan_entry_spec(base, e).is_dir() == e.spec_is_dir(),
{
}

/// A file entry's node appears in the scanned sibling list iff its
/// extension is exactly `md` and its name is not hidden; a directory
/// entry's node appears iff its name is not hidden, regardless of the
/// directory's contents.
pub proof fn lemma_surfaced_iff_kept(base: Seq<char>, entries: Vec<RawEntry>, k: int)
    requires
        0 <= k < entries@.len(),
    ensures
        scan_children_spec(base, entries).contains(scan_entry_spec(base, entries@[k]))
            <==> entries@[k].spec_kept(),
{
    let raw = kept_views(base, entries, 0);
    let e = entries@[k];
    let node = scan_entry_spec(base, e);
    lemma_sort_contains(raw, node);
    if e.spec_kept() {
        lemma_kept_views_contains(base, entries, 0, k);
    }
    if raw.contains(node) {
        let m = choose|m: int| 0 <= m < raw.len() && raw[m] == node;
        lemma_kept_views_elems(base, entries, 0, m);
        let k2 = choose|k2: int|
            0 <= k2 < entries@.len() && #[trigger] entries@[k2].spec_kept() && raw[m]
                == scan_entry_spec(base, entries@[k2]);
        let e2 = entries@[k2];
        // the witness entry shares the node's name and directory-ness,
        // so the entry at k is kept as well
        lemma_scan_entry_name(base, e);
        lemma_scan_entry_name(base, e2);
        lemma_scan_entry_variant(base, e);
        lemma_scan_entry_variant(base, e2);
        assert(e.spec_name() == e2.spec_name());
        assert(e.spec_is_dir() == e2.spec_is_dir());
    }
}

} // verus!
