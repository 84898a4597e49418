//! The data model of a scanned workspace.
//!
//! `RawEntry` is the shell's snapshot of one filesystem entry, exactly as
//! the OS reported it: unfiltered, in OS order, with a distinguished
//! variant for a directory whose listing could not be read. `FileNode` is
//! one entry surfaced to the UI: a closed two-variant union, so a file
//! node carries no children field at all and a directory node always
//! carries one. `NodeV` is the mathematical value of a `FileNode`.

use vstd::prelude::*;
use crate::order::{name_le, visible_name, md_name, str_le};

verus! {

/// One filesystem entry as read by the shell, before any filtering.
///
/// `Unreadable` stands for a directory whose listing could not be
/// obtained (permission denied, removed mid-scan); the scan treats it as
/// a directory with no entries rather than failing.
pub enum RawEntry {
    File { name: String },
    Dir { name: String, entries: Vec<RawEntry> },
    Unreadable { name: String },
}

/// One entry surfaced to the UI.
pub enum FileNode {
    File { name: String, path: String },
    Dir { name: String, path: String, children: Vec<FileNode> },
}

/// The mathematical value of a `FileNode`.
pub enum NodeV {
    File { name: Seq<char>, path: Seq<char> },
    Dir { name: Seq<char>, path: Seq<char>, children: Seq<NodeV> },
}

impl RawEntry {
    /// The entry's name as reported by the OS.
    pub open spec fn spec_name(&self) -> Seq<char> {
        match self {
            RawEntry::File { name } => name@,
            RawEntry::Dir { name, .. } => name@,
            RawEntry::Unreadable { name } => name@,
        }
    }

    /// Whether the entry is a directory (readable or not).
    pub open spec fn spec_is_dir(&self) -> bool {
        !(self is File)
    }

    /// Whether a scan keeps the entry: hidden names are dropped at every
    /// level, directories are kept regardless of contents, and files are
    /// kept only with extension exactly `md`.
    pub open spec fn spec_kept(&self) -> bool {
        visible_name(self.spec_name()) && (self.spec_is_dir() || md_name(self.spec_name()))
    }

    /// The executable filter decision, pinned to `spec_kept`.
    pub fn kept(&self) -> (r: bool)
        ensures
            r == self.spec_kept(),
    {
        let name = match self {
            RawEntry::File { name } => name,
            RawEntry::Dir { name, .. } => name,
            RawEntry::Unreadable { name } => name,
        };
        let is_dir = match self {
            RawEntry::File { .. } => false,
            RawEntry::Dir { .. } => true,
            RawEntry::Unreadable { .. } => true,
        };
        if !crate::order::is_visible_name(name.as_str()) {
            return false;
        }
        if is_dir {
            return true;
        }
        crate::order::is_md_name(name.as_str())
    }
}

impl NodeV {
    pub open spec fn name(&self) -> Seq<char> {
        match self {
            NodeV::File { name, .. } => *name,
            NodeV::Dir { name, .. } => *name,
        }
    }

    pub open spec fn path(&self) -> Seq<char> {
        match self {
            NodeV::File { path, .. } => *path,
            NodeV::Dir { path, .. } => *path,
        }
    }

    pub open spec fn is_dir(&self) -> bool {
        self is Dir
    }
}

/// The values of the nodes of `v` from index `i` on.
pub open spec fn children_view(v: Vec<FileNode>, i: int) -> Seq<NodeV>
    decreases v, v@.len() - i, 1int,
{
    if i < 0 || i >= v@.len() {
        Seq::empty()
    } else {
        seq![node_view(v@[i])] + children_view(v, i + 1)
    }
}

/// The mathematical value of a `FileNode`.
pub open spec fn node_view(n: FileNode) -> NodeV
    decreases n, 0int, 0int,
{
    match n {
        FileNode::File { name, path } => NodeV::File { name: name@, path: path@ },
        FileNode::Dir { name, path, children } => NodeV::Dir {
            name: name@,
            path: path@,
            children: children_view(children, 0),
        },
    }
}

/// The values of a whole sibling list.
pub open spec fn views_of(s: Seq<FileNode>) -> Seq<NodeV> {
    s.map_values(|n: FileNode| node_view(n))
}

/// `children_view` from index 0 is exactly the mapped view of the vector.
pub proof fn lemma_children_view_is_views_of(v: Vec<FileNode>, i: int)
    requires
        0 <= i <= v@.len(),
    ensures
        children_view(v, i) =~= views_of(v@.skip(i)),
    decreases v@.len() - i,
{
    if i < v@.len() {
        lemma_children_view_is_views_of(v, i + 1);
        assert(v@.skip(i).drop_first() =~= v@.skip(i + 1));
        assert(children_view(v, i) =~= views_of(v@.skip(i)));
    }
}

impl FileNode {
    pub fn name(&self) -> (r: &String)
        ensures
            r@ == node_view(*self).name(),
    {
        match self {
            FileNode::File { name, .. } => name,
            FileNode::Dir { name, .. } => name,
        }
    }

    pub fn path(&self) -> (r: &String)
        ensures
            r@ == node_view(*self).path(),
    {
        match self {
            FileNode::File { path, .. } => path,
            FileNode::Dir { path, .. } => path,
        }
    }

    pub fn is_dir(&self) -> (r: bool)
        ensures
            r == node_view(*self).is_dir(),
    {
        match self {
            FileNode::File { .. } => false,
            FileNode::Dir { .. } => true,
        }
    }
}

/// Decides whether two surfaced nodes carry the same value: same
/// variant, name, path, and (for directories) equal children lists.
pub fn nodes_equal(a: &FileNode, b: &FileNode) -> (r: bool)
    ensures
        r == (node_view(*a) == node_view(*b)),
    decreases *a, 0int, 0int,
{
    match (a, b) {
        (FileNode::File { name: an, path: ap }, FileNode::File { name: bn, path: bp }) => {
            let r = *an == *bn && *ap == *bp;
            proof {
                assert(r == (node_view(*a) == node_view(*b)));
            }
            r
        },
        (
            FileNode::Dir { name: an, path: ap, children: ac },
            FileNode::Dir { name: bn, path: bp, children: bc },
        ) => {
            if !(*an == *bn) || !(*ap == *bp) {
                proof {
                    assert(node_view(*a)->Dir_name == an@);
                }
                false
            } else {
                let eq = siblings_equal(ac, bc);
                proof {
                    lemma_children_view_is_views_of(*ac, 0);
                    lemma_children_view_is_views_of(*bc, 0);
                    assert(ac@.skip(0) =~= ac@);
                    assert(bc@.skip(0) =~= bc@);
                }
                eq
            }
        },
        _ => {
            proof {
                assert(node_view(*a) is Dir <==> *a is Dir);
                assert(node_view(*b) is Dir <==> *b is Dir);
            }
            false
        },
    }
}

/// Decides whether two sibling lists carry the same values, node for
/// node and in the same order.
pub fn siblings_equal(a: &Vec<FileNode>, b: &Vec<FileNode>) -> (r: bool)
    ensures
        r == (views_of(a@) == views_of(b@)),
    decreases *a, a@.len() + 1, 0int,
{
    if a.len() != b.len() {
        proof {
            assert(views_of(a@).len() != views_of(b@).len());
        }
        return false;
    }
    let mut i: usize = 0;
    while i < a.len()
        invariant
            i <= a@.len(),
            a@.len() == b@.len(),
            forall|k: int| 0 <= k < i ==> views_of(a@)[k] == views_of(b@)[k],
        decreases a@.len() - i,
    {
        let same = nodes_equal(&a[i], &b[i]);
        if !same {
            proof {
                assert(views_of(a@)[i as int] != views_of(b@)[i as int]);
            }
            return false;
        }
        proof {
            assert(views_of(a@)[i as int] == views_of(b@)[i as int]);
        }
        i = i + 1;
    }
    proof {
        assert(views_of(a@) =~= views_of(b@));
    }
    true
}

/// Sibling order: every directory precedes every file, and within each
/// group names are ordered case-insensitively.
pub open spec fn node_le(a: NodeV, b: NodeV) -> bool {
    if a.is_dir() && !b.is_dir() {
        true
    } else if !a.is_dir() && b.is_dir() {
        false
    } else {
        name_le(a.name(), b.name())
    }
}

pub proof fn lemma_node_le_total(a: NodeV, b: NodeV)
    ensures
        node_le(a, b) || node_le(b, a),
{
    crate::order::lemma_name_le_total(a.name(), b.name());
}

pub proof fn lemma_node_le_transitive(a: NodeV, b: NodeV, c: NodeV)
    requires
        node_le(a, b),
        node_le(b, c),
    ensures
        node_le(a, c),
{
    if a.is_dir() == b.is_dir() && b.is_dir() == c.is_dir() {
        crate::order::lemma_name_le_transitive(a.name(), b.name(), c.name());
    }
}

/// The executable sibling comparison, pinned to `node_le` on the values.
pub fn node_le_exec(a: &FileNode, b: &FileNode) -> (r: bool)
    ensures
        r == node_le(node_view(*a), node_view(*b)),
{
    let a_dir = a.is_dir();
    let b_dir = b.is_dir();
    if a_dir && !b_dir {
        true
    } else if !a_dir && b_dir {
        false
    } else {
        str_le(a.name().as_str(), b.name().as_str())
    }
}

} // verus!
