use vstd::prelude::*;
use std::collections::VecDeque;
use std::path::PathBuf;
use crate::model::{Node, NodeId, NodeState, NodeView, ResourceName, after_partial, sat_add};
use crate::scanner::{ScanEvent, ScanJob};
use crate::top_files::offer_spec;
use crate::totals::{
    all_sum, lemma_ancestor_transitive_chain, lemma_root_above_all, lemma_root_total, below_sum, is_ancestor, lemma_ancestor_below, lemma_ancestor_same_parents, lemma_ancestor_step,
    lemma_below_le_all, lemma_below_sum_zero, lemma_sums_after_own_change, lemma_sums_same_prefix, on_chain,
    recorded_bytes, sums_consistent,
};
use crate::walk::total_of;
use crate::tree::{Tree, TreeView, fresh_node, same_nodes, same_shape, lemma_same_shape_wf, tree_wf};

verus! {

/// The path `PathBuf::from` makes of the text `s`.
pub uninterp spec fn path_of(s: Seq<char>) -> PathBuf;

/// `PathBuf::from`: the path that a string names; the same text always
/// gives the same path.
#[verifier::external_body]
fn path_from_string(s: String) -> (r: PathBuf)
    ensures
        r == path_of(s@),
{
    PathBuf::from(s)
}

/// The view of a node after `delta` bytes were found below it.
pub open spec fn known_added(v: NodeView, delta: u64) -> NodeView {
    NodeView { subtree_known: sat_add(v.subtree_known, delta), state: after_partial(v.state), ..v }
}

/// The view of a node after a file of `size` bytes named `name` was found in it.
pub open spec fn file_added(v: NodeView, name: Seq<char>, size: u64) -> NodeView {
    NodeView {
        own_bytes: sat_add(v.own_bytes, size),
        own_count: sat_add(v.own_count, 1),
        top_files: offer_spec(v.top_files, name, size),
        state: after_partial(v.state),
        ..v
    }
}

/// `new` is `old` with node `x` changed to `v` and every other node unchanged.
pub open spec fn node_changed(old: Seq<Node>, new: Seq<Node>, x: int, v: NodeView) -> bool {
    &&& new.len() == old.len()
    &&& new[x]@ == v
    &&& forall|a: int| 0 <= a < old.len() && a != x ==> #[trigger] new[a] == old[a]
}

/// `new` is `old` after a file of `size` bytes named `name` was found in node
/// `p`: `p` records it, every node above `p` learns of `size` more bytes below
/// it, and every other node is unchanged.
pub open spec fn file_recorded(old: Seq<Node>, new: Seq<Node>, p: int, name: Seq<char>, size: u64) -> bool {
    &&& new.len() == old.len()
    &&& new[p]@ == file_added(old[p]@, name, size)
    &&& forall|a: int|
        0 <= a < old.len() && a != p ==> if is_ancestor(old, a, p) {
            (#[trigger] new[a])@ == known_added(old[a]@, size)
        } else {
            new[a] == old[a]
        }
}

/// `new` is `old` after a directory named `name` was found in node `p`: a
/// fresh node is appended as the last child of `p`, `p` is marked partial, and
/// every other node is unchanged.
pub open spec fn dir_added(old: Seq<Node>, new: Seq<Node>, p: int, name: Seq<char>, top_k: usize) -> bool {
    &&& new.len() == old.len() + 1
    &&& new[old.len() as int]@ == fresh_node(old.len() as NodeId, Some(p as NodeId), name, top_k)
    &&& new[p]@ == (NodeView {
        children: old[p]@.children.push(old.len() as NodeId),
        state: after_partial(old[p]@.state),
        ..old[p]@
    })
    &&& forall|a: int| 0 <= a < old.len() && a != p ==> #[trigger] new[a] == old[a]
}

/// The ids an event names are nodes of the tree, and the counters it
/// increments can be incremented.
pub open spec fn event_ok(s: SessionView, event: ScanEvent) -> bool {
    match event {
        ScanEvent::File { parent_id, .. } => parent_id < s.tree.nodes.len(),
        ScanEvent::Dir { parent_id, .. } => parent_id < s.tree.nodes.len(),
        ScanEvent::Done { node } => {
            &&& node < s.tree.nodes.len()
            &&& s.jobs_done < u64::MAX
        },
        ScanEvent::Error { node, .. } => {
            &&& node < s.tree.nodes.len()
            &&& s.errors < u64::MAX
        },
    }
}

/// The bytes an event adds to the files recorded.
pub open spec fn event_bytes(event: ScanEvent) -> nat {
    match event {
        ScanEvent::File { size, .. } => size as nat,
        _ => 0,
    }
}

/// `new` is `old` after applying `event`: a file is recorded in its directory
/// and known above it; a directory becomes a new child node and a pending job;
/// a finished directory is complete and counted as done; an error is counted
/// and leaves its directory partial.
pub open spec fn applied(old: SessionView, new: SessionView, event: ScanEvent) -> bool {
    &&& new.tree.root == old.tree.root
    &&& new.top_k == old.top_k
    &&& new.jobs_started == old.jobs_started
    &&& match event {
        ScanEvent::File { parent_id, name, size } => {
            &&& file_recorded(old.tree.nodes, new.tree.nodes, parent_id as int, name@, size)
            &&& new.pending == old.pending
            &&& new.errors == old.errors
            &&& new.jobs_done == old.jobs_done
        },
        ScanEvent::Dir { parent_id, name, path } => {
            &&& dir_added(old.tree.nodes, new.tree.nodes, parent_id as int, name@, old.top_k)
            &&& new.pending == old.pending.push(
                ScanJob { path, node_id: old.tree.nodes.len() as NodeId, depth: 0 },
            )
            &&& new.errors == old.errors
            &&& new.jobs_done == old.jobs_done
        },
        ScanEvent::Done { node } => {
            &&& node_changed(
                old.tree.nodes,
                new.tree.nodes,
                node as int,
                NodeView { state: NodeState::Complete, subtree_unknown: 0, ..old.tree.nodes[node as int]@ },
            )
            &&& new.pending == old.pending
            &&& new.errors == old.errors
            &&& new.jobs_done == old.jobs_done + 1
        },
        ScanEvent::Error { node, .. } => {
            &&& node_changed(
                old.tree.nodes,
                new.tree.nodes,
                node as int,
                NodeView { state: after_partial(old.tree.nodes[node as int]@.state), ..old.tree.nodes[node as int]@ },
            )
            &&& new.pending == old.pending
            &&& new.errors == old.errors + 1
            &&& new.jobs_done == old.jobs_done
        },
    }
}

/// `new` is `old` after applying `event` in a scan whose directories are
/// scanned on worker threads: a new directory becomes a node and a job handed
/// to a worker (it is counted as started and not queued); a finished directory
/// is counted as done twice (once as such and once as any finished
/// directory); any other event is applied as in a scan on one thread.
pub open spec fn parallel_applied(old: SessionView, new: SessionView, event: ScanEvent) -> bool {
    match event {
        ScanEvent::Dir { parent_id, name, .. } => {
            &&& new.tree.root == old.tree.root
            &&& new.top_k == old.top_k
            &&& dir_added(old.tree.nodes, new.tree.nodes, parent_id as int, name@, old.top_k)
            &&& new.pending == old.pending
            &&& new.jobs_started == old.jobs_started + 1
            &&& new.jobs_done == old.jobs_done
            &&& new.errors == old.errors
        },
        ScanEvent::Done { .. } => applied(SessionView { jobs_done: (old.jobs_done + 1) as u64, ..old }, new, event),
        _ => applied(old, new, event),
    }
}

/// While all recorded bytes fit in a `u64`, every directory keeps knowing
/// exactly the bytes below it, and the bytes recorded grow by the event's.
pub open spec fn sums_kept(old: SessionView, new: SessionView, event: ScanEvent) -> bool {
    sums_consistent(old.tree.nodes) && recorded_bytes(old.tree.nodes) + event_bytes(event) <= u64::MAX ==> {
        &&& sums_consistent(new.tree.nodes)
        &&& recorded_bytes(new.tree.nodes) == recorded_bytes(old.tree.nodes) + event_bytes(event)
    }
}

/// A scan in progress: the tree found so far, the directories still to scan,
/// and counts of jobs and errors.
#[derive(Debug)]
pub struct Session {
    pub tree: Tree,
    queue: VecDeque<ScanJob>,
    top_k: usize,
    pub errors: u64,
    pub jobs_started: u64,
    pub jobs_done: u64,
}

/// The abstract state of a [`Session`].
pub struct SessionView {
    pub tree: TreeView,
    pub pending: Seq<ScanJob>,
    pub top_k: usize,
    pub errors: u64,
    pub jobs_started: u64,
    pub jobs_done: u64,
}

impl View for Session {
    type V = SessionView;

    closed spec fn view(&self) -> SessionView {
        SessionView {
            tree: self.tree@,
            pending: self.queue@,
            top_k: self.top_k,
            errors: self.errors,
            jobs_started: self.jobs_started,
            jobs_done: self.jobs_done,
        }
    }
}

/// The tree is well formed and every pending job names one of its nodes.
pub open spec fn session_wf(s: SessionView) -> bool {
    &&& s.tree.root == 0
    &&& tree_wf(s.tree.nodes)
    &&& forall|i: int| 0 <= i < s.pending.len() ==> #[trigger] s.pending[i].node_id < s.tree.nodes.len()
}

impl Session {
    pub open spec fn wf(&self) -> bool {
        session_wf(self@)
    }

    /// Every directory knows exactly the bytes recorded below it.
    pub open spec fn sums_ok(&self) -> bool {
        sums_consistent(self@.tree.nodes)
    }

    /// A session that has scanned nothing yet: one unseen root directory named
    /// by `root_path`, and one pending job for it.
    pub fn new(root_path: String, top_k: usize) -> (s: Self)
        ensures
            s.wf(),
            s.sums_ok(),
            recorded_bytes(s@.tree.nodes) == 0,
            s@.tree.nodes.len() == 1,
            s@.tree.nodes[0]@ == fresh_node(0, None, root_path@, top_k),
            s@.pending == seq![ScanJob { path: path_of(root_path@), node_id: 0, depth: 0 }],
            s@.top_k == top_k,
            s@.errors == 0,
            s@.jobs_started == 0,
            s@.jobs_done == 0,
    {
        let root_name: ResourceName = root_path.clone();
        let tree = Tree::new(root_name, top_k);
        let mut queue: VecDeque<ScanJob> = VecDeque::new();
        queue.push_back(ScanJob { path: path_from_string(root_path), node_id: 0, depth: 0 });
        let s = Self { tree, queue, top_k, errors: 0, jobs_started: 0, jobs_done: 0 };
        proof {
            let n = s@.tree.nodes;
            assert(below_sum(n, 0, 1) == 0) by {
                lemma_below_sum_zero(n, 0, 1);
            }
            assert(all_sum(n, 0) == 0);
        }
        s
    }

    /// Takes the next directory to scan, counting it as started.
    pub fn next_job(&mut self) -> (job: Option<ScanJob>)
        requires
            old(self)@.pending.len() > 0 ==> old(self)@.jobs_started < u64::MAX,
        ensures
            final(self)@.tree == old(self)@.tree,
            final(self)@.top_k == old(self)@.top_k,
            final(self)@.errors == old(self)@.errors,
            final(self)@.jobs_done == old(self)@.jobs_done,
            match job {
                Some(j) => {
                    &&& old(self)@.pending.len() > 0
                    &&& j == old(self)@.pending[0]
                    &&& final(self)@.pending == old(self)@.pending.drop_first()
                    &&& final(self)@.jobs_started == old(self)@.jobs_started + 1
                },
                None => {
                    &&& old(self)@.pending.len() == 0
                    &&& final(self)@.pending == old(self)@.pending
                    &&& final(self)@.jobs_started == old(self)@.jobs_started
                },
            },
            old(self).wf() ==> final(self).wf(),
            moved_forward(old(self)@, final(self)@),
    {
        let job = self.queue.pop_front();
        if job.is_some() {
            self.jobs_started = self.jobs_started + 1;
        }
        job
    }

    /// Adds `delta` bytes to node `from` and to every node above it.
    fn propagate_known_delta(&mut self, from: NodeId, delta: u64)
        requires
            old(self).tree.wf(),
            from < old(self)@.tree.nodes.len(),
        ensures
            final(self)@.tree.root == old(self)@.tree.root,
            final(self)@.tree.nodes.len() == old(self)@.tree.nodes.len(),
            forall|a: int|
                0 <= a < old(self)@.tree.nodes.len() ==> if on_chain(old(self)@.tree.nodes, a, from as int) {
                    (#[trigger] final(self)@.tree.nodes[a])@ == known_added(old(self)@.tree.nodes[a]@, delta)
                } else {
                    final(self)@.tree.nodes[a] == old(self)@.tree.nodes[a]
                },
            final(self).queue == old(self).queue,
            final(self).top_k == old(self).top_k,
            final(self)@.errors == old(self)@.errors,
            final(self)@.jobs_started == old(self)@.jobs_started,
            final(self)@.jobs_done == old(self)@.jobs_done,
    {
        let ghost orig = self.tree@.nodes;
        let ghost q0 = self.queue;
        let ghost k0 = self.top_k;
        let ghost e0 = self.errors;
        let ghost s0 = self.jobs_started;
        let ghost d0 = self.jobs_done;
        let mut cur: Option<NodeId> = Some(from);
        while cur.is_some()
            invariant
                tree_wf(orig),
                self.tree@.root == 0,
                self.tree@.nodes.len() == orig.len(),
                from < orig.len(),
                cur matches Some(c) ==> c < orig.len() && on_chain(orig, c as int, from as int),
                forall|a: int|
                    0 <= a < orig.len() ==> if on_chain(orig, a, from as int) && !(cur matches Some(c) && on_chain(
                        orig,
                        a,
                        c as int,
                    )) {
                        (#[trigger] self.tree@.nodes[a])@ == known_added(orig[a]@, delta)
                    } else {
                        self.tree@.nodes[a] == orig[a]
                    },
                self.queue == q0,
                self.top_k == k0,
                self.errors == e0,
                self.jobs_started == s0,
                self.jobs_done == d0,
            decreases
                match cur {
                    Some(c) => c + 1,
                    None => 0,
                },
        {
            let id = cur.unwrap();
            proof {
                if is_ancestor(orig, id as int, id as int) {
                    lemma_ancestor_below(orig, id as int, id as int);
                }
                assert(self.tree@.nodes[id as int] == orig[id as int]);
            }
            let parent = self.tree.node(id).parent_id();
            let ghost before = self.tree@.nodes;
            self.tree.node_mut(id).add_subtree_known(delta);
            proof {
                if id > 0 {
                    assert(orig[id as int]@.parent matches Some(p) && p < id);
                }
                assert forall|a: int| 0 <= a < orig.len() implies on_chain(orig, a, id as int) == (a == id || (
                parent matches Some(p) && on_chain(orig, a, p as int))) by {
                    lemma_ancestor_step(orig, a, id as int);
                }
                if let Some(p) = parent {
                    lemma_ancestor_transitive_chain(orig, p as int, id as int, from as int);
                    if on_chain(orig, id as int, p as int) {
                        if is_ancestor(orig, id as int, p as int) {
                            lemma_ancestor_below(orig, id as int, p as int);
                        }
                    }
                }
                assert forall|a: int| 0 <= a < orig.len() implies if on_chain(orig, a, from as int) && !(
                parent matches Some(c) && on_chain(orig, a, c as int)) {
                    (#[trigger] self.tree@.nodes[a])@ == known_added(orig[a]@, delta)
                } else {
                    self.tree@.nodes[a] == orig[a]
                } by {
                    if a != id {
                        assert(self.tree@.nodes[a] == before[a]);
                    }
                }
            }
            cur = parent;
        }
    }

    /// Applies what scanning a directory reported.
    pub fn apply_event(&mut self, event: ScanEvent)
        requires
            old(self).wf(),
            event_ok(old(self)@, event),
        ensures
            final(self).wf(),
            applied(old(self)@, final(self)@, event),
            sums_kept(old(self)@, final(self)@, event),
            moved_forward(old(self)@, final(self)@),
    {
        let ghost old_nodes = self.tree@.nodes;
        let ghost old_queue = self.queue@;
        proof {
            assert forall|i: int| 0 <= i < old_queue.len() implies #[trigger] old_queue[i].node_id < old_nodes.len() by {
                assert(old(self)@.pending[i] == old_queue[i]);
            }
        }
        match event {
            ScanEvent::File { parent_id, name, size } => {
                let ghost gname = name@;
                let node = self.tree.node_mut(parent_id);
                node.add_file(name, size);
                let ghost mid = self.tree@.nodes;
                proof {
                    assert(same_shape(old_nodes, mid));
                    lemma_same_shape_wf(old_nodes, mid);
                    assert forall|i: int| 0 <= i < old_nodes.len() implies (#[trigger] old_nodes[i])@.parent
                        == mid[i]@.parent by {
                        assert(same_shape(old_nodes, mid));
                    }
                }
                if let Some(grandparent) = self.tree.node(parent_id).parent_id() {
                    proof {
                        assert(mid[parent_id as int]@.parent == old_nodes[parent_id as int]@.parent);
                        if parent_id > 0 {
                            assert(old_nodes[parent_id as int]@.parent matches Some(p) && p < parent_id);
                        }
                    }
                    self.propagate_known_delta(grandparent, size);
                    proof {
                        let fin = self.tree@.nodes;
                        assert forall|a: int| 0 <= a < old_nodes.len() implies is_ancestor(old_nodes, a, parent_id as int)
                            == on_chain(mid, a, grandparent as int) by {
                            lemma_ancestor_step(old_nodes, a, parent_id as int);
                            lemma_ancestor_same_parents(old_nodes, mid, a, grandparent as int, old_nodes.len() as int);
                        }
                        if on_chain(mid, parent_id as int, grandparent as int) {
                            if is_ancestor(mid, parent_id as int, grandparent as int) {
                                lemma_ancestor_below(mid, parent_id as int, grandparent as int);
                            }
                        }
                        assert(fin[parent_id as int] == mid[parent_id as int]);
                    }
                } else {
                    proof {
                        assert(parent_id == 0);
                        assert forall|a: int| 0 <= a < old_nodes.len() implies !is_ancestor(old_nodes, a, parent_id as int) by {
                        }
                    }
                }
                proof {
                    let fin = self.tree@.nodes;
                    assert(file_recorded(old_nodes, fin, parent_id as int, gname, size));
                    assert(same_shape(old_nodes, fin));
                    lemma_same_shape_wf(old_nodes, fin);
                    if sums_consistent(old_nodes) && recorded_bytes(old_nodes) + size <= u64::MAX {
                        lemma_file_keeps_sums(old_nodes, fin, parent_id as int, gname, size);
                    }
                }
            },
            ScanEvent::Dir { parent_id, name, path } => {
                let ghost gname = name@;
                let child_id = self.tree.add_child(parent_id, name, self.top_k);
                self.queue.push_back(ScanJob { path, node_id: child_id, depth: 0 });
                let ghost mid = self.tree@.nodes;
                self.tree.node_mut(parent_id).mark_partial();
                proof {
                    let fin = self.tree@.nodes;
                    assert(dir_added(old_nodes, fin, parent_id as int, gname, self.top_k));
                    assert(same_shape(mid, fin));
                    lemma_same_shape_wf(mid, fin);
                    lemma_dir_keeps_sums(old_nodes, fin, parent_id as int, gname, self.top_k);
                    lemma_dir_moves_forward(old_nodes, fin, parent_id as int, gname, self.top_k);
                }
            },
            ScanEvent::Done { node } => {
                self.jobs_done = self.jobs_done + 1;
                self.tree.node_mut(node).mark_complete();
                proof {
                    let fin = self.tree@.nodes;
                    assert(same_shape(old_nodes, fin));
                    lemma_same_shape_wf(old_nodes, fin);
                    lemma_same_own_keeps_sums(old_nodes, fin);
                }
            },
            ScanEvent::Error { node, .. } => {
                self.errors = self.errors + 1;
                self.tree.node_mut(node).mark_partial();
                proof {
                    let fin = self.tree@.nodes;
                    assert(same_shape(old_nodes, fin));
                    lemma_same_shape_wf(old_nodes, fin);
                    lemma_same_own_keeps_sums(old_nodes, fin);
                }
            },
        }
        proof {
            assert forall|i: int| 0 <= i < self.queue@.len() implies #[trigger] self.queue@[i].node_id
                < self.tree@.nodes.len() by {
                if i < old_queue.len() {
                    assert(self.queue@[i] == old_queue[i]);
                }
            }
            lemma_applied_moves_forward(old(self)@, self@, event);
        }
    }

    /// Applies one event of a scan whose directories are scanned on worker
    /// threads while `active_jobs` of them are in progress. A new directory
    /// becomes a node and is handed back as the job for a worker instead of
    /// being queued; a finished directory is counted twice as done (once here
    /// and once as any finished directory). Returns the number of directories
    /// in progress afterwards and the job to hand out, if any.
    pub fn handle_parallel_event(&mut self, event: ScanEvent, active_jobs: u64) -> (r: (u64, Option<ScanJob>))
        requires
            old(self).wf(),
            active_jobs > 0,
            event_ok(old(self)@, event),
            event matches ScanEvent::Dir { .. } ==> old(self)@.jobs_started < u64::MAX && active_jobs < u64::MAX,
            event matches ScanEvent::Done { .. } ==> old(self)@.jobs_done + 2 <= u64::MAX,
        ensures
            final(self).wf(),
            sums_kept(old(self)@, final(self)@, event),
            moved_forward(old(self)@, final(self)@),
            parallel_applied(old(self)@, final(self)@, event),
            match event {
                ScanEvent::Dir { path, .. } => {
                    &&& r.0 == active_jobs + 1
                    &&& r.1 == Some(ScanJob { path, node_id: old(self)@.tree.nodes.len() as NodeId, depth: 0 })
                },
                ScanEvent::Done { .. } => {
                    &&& r.0 == active_jobs - 1
                    &&& r.1 is None
                },
                _ => {
                    &&& r.0 == active_jobs
                    &&& r.1 is None
                },
            },
    {
        match event {
            ScanEvent::Dir { parent_id, name, path } => {
                let ghost old_nodes = self.tree@.nodes;
                let ghost gname = name@;
                let child_id = self.tree.add_child(parent_id, name, self.top_k);
                let new_job = ScanJob { path, node_id: child_id, depth: 0 };
                self.jobs_started = self.jobs_started + 1;
                let ghost mid = self.tree@.nodes;
                self.tree.node_mut(parent_id).mark_partial();
                proof {
                    let fin = self.tree@.nodes;
                    assert(dir_added(old_nodes, fin, parent_id as int, gname, self.top_k));
                    assert(same_shape(mid, fin));
                    lemma_same_shape_wf(mid, fin);
                    lemma_dir_keeps_sums(old_nodes, fin, parent_id as int, gname, self.top_k);
                    lemma_dir_moves_forward(old_nodes, fin, parent_id as int, gname, self.top_k);
                    assert forall|i: int| 0 <= i < self.queue@.len() implies #[trigger] self.queue@[i].node_id
                        < fin.len() by {
                        assert(old(self)@.pending[i] == self.queue@[i]);
                    }
                }
                (active_jobs + 1, Some(new_job))
            },
            ScanEvent::Done { node } => {
                self.jobs_done = self.jobs_done + 1;
                let ghost counted = self@;
                proof {
                    assert(counted == SessionView { jobs_done: (old(self)@.jobs_done + 1) as u64, ..old(self)@ });
                }
                self.apply_event(ScanEvent::Done { node });
                proof {
                    lemma_moved_forward_trans(old(self)@, counted, self@);
                }
                (active_jobs - 1, None)
            },
            other => {
                self.apply_event(other);
                (active_jobs, None)
            },
        }
    }
}

/// Two sessions are alike: alike trees, the same pending jobs, capacity and counts.
pub open spec fn same_session(a: SessionView, b: SessionView) -> bool {
    &&& a.tree.root == b.tree.root
    &&& same_nodes(a.tree.nodes, b.tree.nodes)
    &&& a.pending == b.pending
    &&& a.top_k == b.top_k
    &&& a.errors == b.errors
    &&& a.jobs_started == b.jobs_started
    &&& a.jobs_done == b.jobs_done
}

impl Clone for Session {
    fn clone(&self) -> (r: Self)
        ensures
            same_session(r@, self@),
            self.wf() ==> r.wf(),
            self.sums_ok() ==> r.sums_ok(),
    {
        let mut queue: VecDeque<ScanJob> = VecDeque::new();
        let mut i: usize = 0;
        while i < self.queue.len()
            invariant
                i <= self.queue@.len(),
                queue@ == self.queue@.take(i as int),
            decreases self.queue@.len() - i,
        {
            let job = self.queue[i].clone();
            queue.push_back(job);
            proof {
                assert(queue@ =~= self.queue@.take(i + 1));
            }
            i = i + 1;
        }
        proof {
            assert(self.queue@.take(self.queue@.len() as int) =~= self.queue@);
        }
        let r = Session {
            tree: self.tree.clone(),
            queue,
            top_k: self.top_k,
            errors: self.errors,
            jobs_started: self.jobs_started,
            jobs_done: self.jobs_done,
        };
        proof {
            lemma_same_nodes_sums(self@.tree.nodes, r@.tree.nodes);
        }
        r
    }
}

/// Alike trees have the same sums.
proof fn lemma_same_nodes_sums(a: Seq<Node>, b: Seq<Node>)
    requires
        same_nodes(a, b),
    ensures
        sums_consistent(a) ==> sums_consistent(b),
{
    assert forall|i: int| 0 <= i < a.len() implies (#[trigger] a[i])@.parent == b[i]@.parent by {
    }
    assert forall|i: int| 0 <= i < a.len() implies (#[trigger] a[i])@.own_bytes == b[i]@.own_bytes by {
    }
    assert forall|i: int| 0 <= i < a.len() implies (#[trigger] a[i])@.subtree_known == b[i]@.subtree_known by {
    }
    lemma_same_own_keeps_sums(a, b);
}

/// The bytes of all files that `events` report.
pub open spec fn reported_bytes(events: Seq<ScanEvent>) -> nat
    decreases events.len(),
{
    if events.len() == 0 {
        0
    } else {
        reported_bytes(events.drop_last()) + event_bytes(events.last())
    }
}

/// Scan law: when a session that has recorded nothing applies `events` in turn
/// (`states[i + 1]` being `states[i]` after `events[i]`, as `apply_event`
/// guarantees), its root ends up with a total of exactly the bytes of all
/// files reported, as long as they fit in a `u64`.
pub proof fn lemma_root_total_after_events(states: Seq<SessionView>, events: Seq<ScanEvent>)
    requires
        states.len() == events.len() + 1,
        forall|i: int| 0 <= i < states.len() ==> session_wf(#[trigger] states[i]),
        sums_consistent(states[0].tree.nodes),
        recorded_bytes(states[0].tree.nodes) == 0,
        forall|i: int| 0 <= i < events.len() ==> sums_kept(#[trigger] states[i], states[i + 1], events[i]),
        reported_bytes(events) <= u64::MAX,
    ensures
        states.last().tree.nodes[0]@.own_bytes + states.last().tree.nodes[0]@.subtree_known == reported_bytes(events),
{
    lemma_recorded_after_events(states, events);
    lemma_root_total(states.last().tree.nodes);
}

proof fn lemma_recorded_after_events(states: Seq<SessionView>, events: Seq<ScanEvent>)
    requires
        states.len() == events.len() + 1,
        sums_consistent(states[0].tree.nodes),
        recorded_bytes(states[0].tree.nodes) == 0,
        forall|i: int| 0 <= i < events.len() ==> sums_kept(#[trigger] states[i], states[i + 1], events[i]),
        reported_bytes(events) <= u64::MAX,
    ensures
        sums_consistent(states.last().tree.nodes),
        recorded_bytes(states.last().tree.nodes) == reported_bytes(events),
    decreases events.len(),
{
    if events.len() > 0 {
        let k = events.len() - 1;
        let pre_states = states.drop_last();
        let pre_events = events.drop_last();
        assert forall|i: int| 0 <= i < pre_events.len() implies sums_kept(#[trigger] pre_states[i], pre_states[i + 1], pre_events[i]) by {
            assert(sums_kept(states[i], states[i + 1], events[i]));
        }
        lemma_recorded_after_events(pre_states, pre_events);
        assert(sums_kept(states[k], states[k + 1], events[k]));
        assert(pre_states.last() == states[k]);
    }
}

/// Events that change no own bytes and no parents keep the sums.
pub proof fn lemma_same_own_keeps_sums(old: Seq<Node>, new: Seq<Node>)
    requires
        old.len() == new.len(),
        forall|i: int| 0 <= i < old.len() ==> (#[trigger] old[i])@.parent == new[i]@.parent,
        forall|i: int| 0 <= i < old.len() ==> (#[trigger] old[i])@.own_bytes == new[i]@.own_bytes,
        forall|i: int| 0 <= i < old.len() ==> (#[trigger] old[i])@.subtree_known == new[i]@.subtree_known,
    ensures
        sums_consistent(old) ==> sums_consistent(new),
        recorded_bytes(new) == recorded_bytes(old),
{
    assert forall|a: int| 0 <= a < new.len() implies below_sum(new, a, new.len() as int) == below_sum(
        old,
        a,
        old.len() as int,
    ) && all_sum(new, new.len() as int) == all_sum(old, old.len() as int) by {
        lemma_sums_same_prefix(old, new, a, old.len() as int);
    }
    lemma_sums_same_prefix(old, new, 0, old.len() as int);
    if sums_consistent(old) {
        assert forall|a: int| 0 <= a < new.len() implies #[trigger] new[a]@.subtree_known == below_sum(
            new,
            a,
            new.len() as int,
        ) by {
            assert(old[a]@.subtree_known == new[a]@.subtree_known);
        }
    }
}

/// Sums law for files: recording a file of `size` bytes keeps every node's
/// knowledge of the bytes below it exact, and adds `size` to all bytes
/// recorded, as long as all bytes recorded still fit in a `u64`.
pub proof fn lemma_file_keeps_sums(old: Seq<Node>, new: Seq<Node>, p: int, name: Seq<char>, size: u64)
    requires
        tree_wf(old),
        0 <= p < old.len(),
        file_recorded(old, new, p, name, size),
        sums_consistent(old),
        recorded_bytes(old) + size <= u64::MAX,
    ensures
        sums_consistent(new),
        recorded_bytes(new) == recorded_bytes(old) + size,
{
    lemma_below_le_all(old, p, old.len() as int);
    assert forall|i: int| 0 <= i < old.len() implies (#[trigger] old[i])@.parent == new[i]@.parent by {
    }
    assert forall|i: int| 0 <= i < old.len() && i != p implies (#[trigger] old[i])@.own_bytes == new[i]@.own_bytes by {
    }
    assert(new[p]@.own_bytes == old[p]@.own_bytes + size);
    lemma_sums_after_own_change(old, new, p, size as nat, 0, old.len() as int);
    assert forall|a: int| 0 <= a < new.len() implies #[trigger] new[a]@.subtree_known == below_sum(
        new,
        a,
        new.len() as int,
    ) by {
        lemma_sums_after_own_change(old, new, p, size as nat, a, old.len() as int);
        lemma_below_le_all(old, a, old.len() as int);
        if a == p {
            if is_ancestor(old, p, p) {
                lemma_ancestor_below(old, p, p);
            }
        }
    }
}

/// Sums law for directories: a new, empty directory changes no sums.
pub proof fn lemma_dir_keeps_sums(old: Seq<Node>, new: Seq<Node>, p: int, name: Seq<char>, top_k: usize)
    requires
        0 <= p < old.len(),
        dir_added(old, new, p, name, top_k),
    ensures
        sums_consistent(old) ==> sums_consistent(new),
        recorded_bytes(new) == recorded_bytes(old),
{
    let n = old.len() as int;
    assert forall|i: int| 0 <= i < n implies (#[trigger] old[i])@.parent == new[i]@.parent by {
        if i != p {
            assert(new[i] == old[i]);
        }
    }
    assert forall|i: int| 0 <= i < n implies (#[trigger] old[i])@.own_bytes == new[i]@.own_bytes by {
        if i != p {
            assert(new[i] == old[i]);
        }
    }
    lemma_sums_same_prefix(old, new, 0, n);
    assert(all_sum(new, n + 1) == all_sum(new, n) + new[n]@.own_bytes);
    if sums_consistent(old) {
        assert forall|a: int| 0 <= a < new.len() implies #[trigger] new[a]@.subtree_known == below_sum(new, a, n + 1) by {
            lemma_sums_same_prefix(old, new, a, n);
            assert(below_sum(new, a, n + 1) == below_sum(new, a, n));
            if a == n {
                lemma_below_sum_zero(new, a, n + 1);
            } else if a != p {
                assert(new[a] == old[a]);
            }
        }
    }
}

/// `b` is `a` moved forward: no count goes down, no node goes away, every
/// node keeps its name and parent, and the root's total does not shrink.
pub open spec fn moved_forward(a: SessionView, b: SessionView) -> bool {
    &&& a.jobs_started <= b.jobs_started
    &&& a.jobs_done <= b.jobs_done
    &&& a.errors <= b.errors
    &&& a.tree.nodes.len() <= b.tree.nodes.len()
    &&& forall|i: int|
        0 <= i < a.tree.nodes.len() ==> (#[trigger] b.tree.nodes[i])@.name == a.tree.nodes[i]@.name
            && b.tree.nodes[i]@.parent == a.tree.nodes[i]@.parent
    &&& total_of(a.tree.nodes, 0) <= total_of(b.tree.nodes, 0)
}

pub proof fn lemma_moved_forward_trans(a: SessionView, b: SessionView, c: SessionView)
    requires
        moved_forward(a, b),
        moved_forward(b, c),
    ensures
        moved_forward(a, c),
{
    assert forall|i: int| 0 <= i < a.tree.nodes.len() implies (#[trigger] c.tree.nodes[i])@.name == a.tree.nodes[i]@.name
        && c.tree.nodes[i]@.parent == a.tree.nodes[i]@.parent by {
        assert(b.tree.nodes[i]@.name == a.tree.nodes[i]@.name);
    }
}

/// Run law: over a run of a scan in which each session follows the one
/// before it by a step that moves it forward (as `apply_event`,
/// `handle_parallel_event` and `next_job` do), a later session has counted
/// at least as much as an earlier one, holds all of its nodes with their
/// names and parents, and its root total is at least as large.
pub proof fn lemma_run_moves_forward(states: Seq<SessionView>, i: int, j: int)
    requires
        forall|k: int| 0 <= k < states.len() - 1 ==> moved_forward(#[trigger] states[k], states[k + 1]),
        0 <= i <= j < states.len(),
    ensures
        moved_forward(states[i], states[j]),
    decreases j - i,
{
    if i == j {
        assert(moved_forward(states[i], states[i]));
    } else {
        lemma_run_moves_forward(states, i, j - 1);
        assert(moved_forward(states[j - 1], states[j]));
        lemma_moved_forward_trans(states[i], states[j - 1], states[j]);
    }
}

/// Run law of a scan on worker threads: along any run of events applied as
/// `handle_parallel_event` applies them (the sessions a progress callback
/// sees are sessions of such a run), a later session has counted at least as
/// many started and finished directories and errors as an earlier one, holds
/// all of its nodes with their names and parents, and its root total is at
/// least as large.
pub proof fn lemma_parallel_run_moves_forward(states: Seq<SessionView>, events: Seq<ScanEvent>, i: int, j: int)
    requires
        states.len() == events.len() + 1,
        forall|k: int|
            0 <= k < events.len() ==> {
                &&& session_wf(#[trigger] states[k])
                &&& event_ok(states[k], events[k])
                &&& parallel_applied(states[k], states[k + 1], events[k])
            },
        0 <= i <= j < states.len(),
    ensures
        moved_forward(states[i], states[j]),
{
    assert forall|k: int| 0 <= k < states.len() - 1 implies moved_forward(#[trigger] states[k], states[k + 1]) by {
        lemma_parallel_step_moves_forward(states[k], states[k + 1], events[k]);
    }
    lemma_run_moves_forward(states, i, j);
}

/// One event applied as on worker threads moves a session forward.
proof fn lemma_parallel_step_moves_forward(old: SessionView, new: SessionView, event: ScanEvent)
    requires
        session_wf(old),
        event_ok(old, event),
        parallel_applied(old, new, event),
    ensures
        moved_forward(old, new),
{
    let on = old.tree.nodes;
    let nn = new.tree.nodes;
    match event {
        ScanEvent::Dir { parent_id, name, .. } => {
            lemma_dir_moves_forward(on, nn, parent_id as int, name@, old.top_k);
        },
        ScanEvent::Done { node } => {
            assert forall|i: int| 0 <= i < on.len() implies (#[trigger] nn[i])@.name == on[i]@.name && nn[i]@.parent
                == on[i]@.parent by {
                if i != node {
                    assert(nn[i] == on[i]);
                }
            }
            if node != 0 {
                assert(nn[0] == on[0]);
            }
        },
        _ => {
            lemma_applied_moves_forward(old, new, event);
        },
    }
}

proof fn lemma_dir_moves_forward(old: Seq<Node>, new: Seq<Node>, p: int, name: Seq<char>, top_k: usize)
    requires
        dir_added(old, new, p, name, top_k),
        0 <= p < old.len(),
    ensures
        forall|i: int| 0 <= i < old.len() ==> (#[trigger] new[i])@.name == old[i]@.name && new[i]@.parent == old[i]@.parent,
        total_of(old, 0) <= total_of(new, 0),
{
    assert forall|i: int| 0 <= i < old.len() implies (#[trigger] new[i])@.name == old[i]@.name && new[i]@.parent
        == old[i]@.parent by {
        if i != p {
            assert(new[i] == old[i]);
        }
    }
    if p != 0 {
        assert(new[0] == old[0]);
    }
}

/// Applying an event moves a session forward.
proof fn lemma_applied_moves_forward(old: SessionView, new: SessionView, event: ScanEvent)
    requires
        session_wf(old),
        event_ok(old, event),
        applied(old, new, event),
    ensures
        moved_forward(old, new),
{
    let on = old.tree.nodes;
    let nn = new.tree.nodes;
    match event {
        ScanEvent::File { parent_id, name, size } => {
            let p = parent_id as int;
            assert forall|i: int| 0 <= i < on.len() implies (#[trigger] nn[i])@.name == on[i]@.name && nn[i]@.parent
                == on[i]@.parent by {
                if i != p && !is_ancestor(on, i, p) {
                    assert(nn[i] == on[i]);
                }
            }
            if p == 0 {
                assert(nn[0]@ == file_added(on[0]@, name@, size));
            } else {
                lemma_root_above_all(on, p);
                assert(nn[0]@ == known_added(on[0]@, size));
            }
        },
        ScanEvent::Dir { parent_id, name, .. } => {
            lemma_dir_moves_forward(on, nn, parent_id as int, name@, old.top_k);
        },
        ScanEvent::Done { node } => {
            assert forall|i: int| 0 <= i < on.len() implies (#[trigger] nn[i])@.name == on[i]@.name && nn[i]@.parent
                == on[i]@.parent by {
                if i != node {
                    assert(nn[i] == on[i]);
                }
            }
            if node != 0 {
                assert(nn[0] == on[0]);
            }
        },
        ScanEvent::Error { node, .. } => {
            assert forall|i: int| 0 <= i < on.len() implies (#[trigger] nn[i])@.name == on[i]@.name && nn[i]@.parent
                == on[i]@.parent by {
                if i != node {
                    assert(nn[i] == on[i]);
                }
            }
            if node != 0 {
                assert(nn[0] == on[0]);
            }
        },
    }
}

} // verus!
