use vstd::prelude::*;
use vstd::multiset::Multiset;
use crate::top_files::{FileEntry, TopKFiles, TopKView, offer_spec};

verus! {

pub type NodeId = usize;

pub type ResourceName = String;

/// How much of a directory has been scanned.
#[derive(Debug, Clone, Copy, PartialEq, Eq, Structural)]
pub enum NodeState {
    Unseen,
    Partial,
    Complete,
}

/// A directory of the scanned tree.
#[derive(Debug)]
pub struct Node {
    id: NodeId,
    parent: Option<NodeId>,
    name: ResourceName,
    pub(crate) children: Vec<NodeId>,
    own_files_bytes: u64,
    own_files_count: u64,
    subtree_bytes_known: u64,
    subtree_bytes_unknown: u64,
    state: NodeState,
    top_files: TopKFiles,
}

/// The abstract state of a [`Node`].
pub struct NodeView {
    pub id: NodeId,
    pub parent: Option<NodeId>,
    pub name: Seq<char>,
    pub children: Seq<NodeId>,
    pub own_bytes: u64,
    pub own_count: u64,
    pub subtree_known: u64,
    pub subtree_unknown: u64,
    pub state: NodeState,
    pub top_files: TopKView,
}

/// `a + b`, or `u64::MAX` where the sum does not fit.
pub open spec fn sat_add(a: u64, b: u64) -> u64 {
    if a + b > u64::MAX {
        u64::MAX
    } else {
        (a + b) as u64
    }
}

/// The state after learning something about a directory: an unseen one
/// becomes partial, any other keeps its state.
pub open spec fn after_partial(s: NodeState) -> NodeState {
    if s == NodeState::Unseen {
        NodeState::Partial
    } else {
        s
    }
}

impl Node {
    /// This directory's largest files as they are listed, largest first.
    pub closed spec fn listed_files(&self) -> Seq<FileEntry> {
        self.top_files.listed()
    }
}

impl View for Node {
    type V = NodeView;

    closed spec fn view(&self) -> NodeView {
        NodeView {
            id: self.id,
            parent: self.parent,
            name: self.name@,
            children: self.children@,
            own_bytes: self.own_files_bytes,
            own_count: self.own_files_count,
            subtree_known: self.subtree_bytes_known,
            subtree_unknown: self.subtree_bytes_unknown,
            state: self.state,
            top_files: self.top_files@,
        }
    }
}

impl Node {
    /// A fresh, unseen directory with no files and no children.
    pub fn new(id: NodeId, parent: Option<NodeId>, name: ResourceName, top_k: usize) -> (r: Self)
        ensures
            r@ == (NodeView {
                id,
                parent,
                name: name@,
                children: Seq::empty(),
                own_bytes: 0,
                own_count: 0,
                subtree_known: 0,
                subtree_unknown: 0,
                state: NodeState::Unseen,
                top_files: TopKView { k: top_k, files: Multiset::empty() },
            }),
    {
        let r = Self {
            id,
            parent,
            name,
            children: Vec::new(),
            own_files_bytes: 0,
            own_files_count: 0,
            subtree_bytes_known: 0,
            subtree_bytes_unknown: 0,
            state: NodeState::Unseen,
            top_files: TopKFiles::new(top_k),
        };
        assert(r.children@ =~= Seq::<NodeId>::empty());
        r
    }

    /// Marks an unseen directory as partially scanned.
    pub fn mark_partial(&mut self)
        ensures
            final(self)@ == (NodeView { state: after_partial(old(self)@.state), ..old(self)@ }),
    {
        if matches!(self.state, NodeState::Unseen) {
            self.state = NodeState::Partial;
        }
    }

    /// Marks a directory as completely scanned: nothing of it is unknown any more.
    pub fn mark_complete(&mut self)
        ensures
            final(self)@ == (NodeView { state: NodeState::Complete, subtree_unknown: 0, ..old(self)@ }),
    {
        self.state = NodeState::Complete;
        self.subtree_bytes_unknown = 0;
    }

    /// Records a file of `size` bytes directly in this directory.
    pub fn add_file(&mut self, name: ResourceName, size: u64)
        ensures
            final(self)@ == (NodeView {
                own_bytes: sat_add(old(self)@.own_bytes, size),
                own_count: sat_add(old(self)@.own_count, 1),
                top_files: offer_spec(old(self)@.top_files, name@, size),
                state: after_partial(old(self)@.state),
                ..old(self)@
            }),
    {
        self.own_files_bytes = self.own_files_bytes.saturating_add(size);
        self.own_files_count = self.own_files_count.saturating_add(1);
        self.top_files.offer(name, size);
        self.mark_partial();
    }

    /// Adds `delta` bytes found below this directory.
    pub fn add_subtree_known(&mut self, delta: u64)
        ensures
            final(self)@ == (NodeView {
                subtree_known: sat_add(old(self)@.subtree_known, delta),
                state: after_partial(old(self)@.state),
                ..old(self)@
            }),
    {
        self.subtree_bytes_known = self.subtree_bytes_known.saturating_add(delta);
        self.mark_partial();
    }

    /// Appends a child directory.
    pub(crate) fn push_child(&mut self, child: NodeId)
        ensures
            final(self)@ == (NodeView { children: old(self)@.children.push(child), ..old(self)@ }),
    {
        self.children.push(child);
    }

    pub fn parent_id(&self) -> (r: Option<NodeId>)
        ensures
            r == self@.parent,
    {
        self.parent
    }

    pub fn id(&self) -> (r: NodeId)
        ensures
            r == self@.id,
    {
        self.id
    }

    pub fn name(&self) -> (r: &str)
        ensures
            r@ == self@.name,
    {
        self.name.as_str()
    }

    pub fn children(&self) -> (r: &[NodeId])
        ensures
            r@ == self@.children,
    {
        self.children.as_slice()
    }

    /// Bytes of this directory's own files and of everything known below it.
    pub fn total_bytes(&self) -> (r: u64)
        requires
            self@.own_bytes + self@.subtree_known <= u64::MAX,
        ensures
            r == self@.own_bytes + self@.subtree_known,
    {
        self.own_files_bytes + self.subtree_bytes_known
    }

    pub fn own_bytes(&self) -> (r: u64)
        ensures
            r == self@.own_bytes,
    {
        self.own_files_bytes
    }

    pub fn subtree_bytes(&self) -> (r: u64)
        ensures
            r == self@.subtree_known,
    {
        self.subtree_bytes_known
    }

    pub fn top_files(&self) -> (r: &TopKFiles)
        ensures
            r@ == self@.top_files,
            r.listed() == self.listed_files(),
    {
        &self.top_files
    }
}

impl Clone for Node {
    fn clone(&self) -> (r: Self)
        ensures
            r@ == self@,
    {
        Node {
            id: self.id,
            parent: self.parent,
            name: self.name.clone(),
            children: vstd::slice::slice_to_vec(self.children.as_slice()),
            own_files_bytes: self.own_files_bytes,
            own_files_count: self.own_files_count,
            subtree_bytes_known: self.subtree_bytes_known,
            subtree_bytes_unknown: self.subtree_bytes_unknown,
            state: self.state,
            top_files: self.top_files.clone(),
        }
    }
}

} // verus!
