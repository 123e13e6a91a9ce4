//! Slab-allocated node store with generation-tagged handles.
//!
//! Nodes live in slots; a handle carries the slot index and the generation
//! the slot had when the node was inserted. Removing a node bumps the slot's
//! generation, so every handle to a removed node goes stale at once.
use vstd::prelude::*;
use crate::NodeData;

verus! {

/// Stable handle into the node store: slot index plus the slot generation
/// at insertion time. Stale after the node is removed.
#[derive(Clone, Copy, PartialEq, Eq, Structural, Debug)]
pub struct NodeId {
    pub index: usize,
    pub generation: u64,
}

/// A stale or never-issued node handle was used.
#[derive(Clone, Copy, PartialEq, Eq, Structural, Debug)]
pub struct InvalidHandle;

/// A stored UI node: its raw content plus its position in the tree.
pub struct UiNode {
    pub data: NodeData,
    pub parent: Option<NodeId>,
    pub children: Vec<NodeId>,
}

struct Slot {
    generation: u64,
    node: Option<UiNode>,
}

/// Slab of UI nodes. Parent/child topology is kept consistent by every
/// operation: children lists only ever name live nodes, and the parent
/// relation is acyclic (each node sits strictly deeper than its parent).
pub struct NodeStore {
    slots: Vec<Slot>,
    free: Vec<usize>,
    depth: Ghost<Map<int, nat>>,
}

impl NodeStore {
    /// Number of slots ever allocated (live or free).
    pub closed spec fn slot_count(self) -> int {
        self.slots@.len() as int
    }

    /// Slot `i` currently holds a node.
    pub closed spec fn is_live(self, i: int) -> bool {
        0 <= i < self.slots@.len() && self.slots@[i].node is Some
    }

    /// The node in slot `i` (meaningful only when live).
    pub closed spec fn node_of(self, i: int) -> UiNode {
        self.slots@[i].node->Some_0
    }

    /// Current generation of slot `i`.
    pub closed spec fn gen_of(self, i: int) -> u64 {
        self.slots@[i].generation
    }

    /// A handle is valid when its slot is live and the generations agree.
    pub open spec fn valid(self, id: NodeId) -> bool {
        self.is_live(id.index as int) && self.gen_of(id.index as int) == id.generation
    }

    /// The (unique) currently-valid handle for live slot `i`.
    pub open spec fn id_of(self, i: int) -> NodeId {
        NodeId { index: i as usize, generation: self.gen_of(i) }
    }

    /// Distance from the root: 0 for a parentless node, parent's depth + 1
    /// otherwise. Witnesses acyclicity of the parent relation.
    pub closed spec fn depth_of(self, i: int) -> nat {
        self.depth@[i]
    }

    spec fn free_wf(self) -> bool {
        &&& forall|k: int|
            0 <= k < self.free@.len() ==> (#[trigger] self.free@[k]) < self.slots@.len()
                && !self.is_live(self.free@[k] as int)
        &&& forall|k1: int, k2: int|
            0 <= k1 < k2 < self.free@.len() ==> self.free@[k1] != self.free@[k2]
    }

    /// Local well-formedness of live slot `i`: parent link and child links
    /// agree in both directions, children are distinct, depths increase by
    /// one along each edge.
    pub closed spec fn node_wf(self, i: int) -> bool {
        let n = self.node_of(i);
        &&& match n.parent {
            None => self.depth_of(i) == 0,
            Some(p) => {
                &&& self.valid(p)
                &&& p.index as int != i
                &&& self.depth_of(p.index as int) + 1 == self.depth_of(i)
                &&& exists|k: int|
                    0 <= k < self.node_of(p.index as int).children@.len()
                        && self.node_of(p.index as int).children@[k] == self.id_of(i)
            },
        }
        &&& forall|k: int|
            0 <= k < n.children@.len() ==> self.valid(#[trigger] n.children@[k])
                && self.node_of(n.children@[k].index as int).parent == Some(self.id_of(i))
        &&& forall|k1: int, k2: int|
            0 <= k1 < k2 < n.children@.len() ==> n.children@[k1].index != n.children@[k2].index
    }

    /// Store-wide invariant: every live node is locally well-formed and the
    /// free list names dead slots only, each at most once.
    pub closed spec fn wf(self) -> bool {
        &&& self.free_wf()
        &&& forall|i: int| #[trigger] self.is_live(i) ==> self.node_wf(i)
    }

    /// Node `i` lies in the subtree rooted at the node `root` points at:
    /// the parent chain from `i` reaches `root.index`.
    pub open spec fn in_subtree(self, root: NodeId, i: int) -> bool
        decreases self.depth_of(i),
    {
        if !self.is_live(i) {
            false
        } else if i == root.index as int {
            true
        } else {
            match self.node_of(i).parent {
                None => false,
                Some(p) => {
                    if self.is_live(p.index as int)
                        && self.depth_of(p.index as int) < self.depth_of(i) {
                        self.in_subtree(root, p.index as int)
                    } else {
                        false
                    }
                },
            }
        }
    }

    /// An empty store.
    pub fn new() -> (s: NodeStore)
        ensures
            s.wf(),
            s.slot_count() == 0,
            forall|i: int| !s.is_live(i),
    {
        NodeStore { slots: Vec::new(), free: Vec::new(), depth: Ghost(Map::empty()) }
    }

    /// Whether a handle still points at a live node.
    pub fn is_valid(&self, id: NodeId) -> (r: bool)
        ensures
            r == self.valid(id),
    {
        if id.index < self.slots.len() {
            match &self.slots[id.index].node {
                Some(_) => self.slots[id.index].generation == id.generation,
                None => false,
            }
        } else {
            false
        }
    }

    /// Content of the node a handle points at, `None` on a stale handle.
    pub fn get(&self, id: NodeId) -> (r: Option<&NodeData>)
        ensures
            r is Some <==> self.valid(id),
            r is Some ==> *r->Some_0 == self.node_of(id.index as int).data,
    {
        if self.is_valid(id) {
            match &self.slots[id.index].node {
                Some(n) => Some(&n.data),
                None => None,
            }
        } else {
            None
        }
    }

    /// Ordered child list of the node a handle points at.
    pub fn children(&self, id: NodeId) -> (r: Option<&Vec<NodeId>>)
        ensures
            r is Some <==> self.valid(id),
            r is Some ==> *r->Some_0 == self.node_of(id.index as int).children,
    {
        if self.is_valid(id) {
            match &self.slots[id.index].node {
                Some(n) => Some(&n.children),
                None => None,
            }
        } else {
            None
        }
    }

    /// Parent handle of the node a handle points at (`None` for a root).
    pub fn parent_of(&self, id: NodeId) -> (r: Option<NodeId>)
        requires
            self.valid(id),
        ensures
            r == self.node_of(id.index as int).parent,
    {
        match &self.slots[id.index].node {
            Some(n) => n.parent,
            None => None,
        }
    }

    /// Insert a node under `parent` (or as a root when `parent` is `None`).
    /// Fails exactly when a given parent handle is stale; the new handle's
    /// slot was not live before, so no valid handle is disturbed.
    pub fn insert(&mut self, data: NodeData, parent: Option<NodeId>) -> (r: Result<
        NodeId,
        InvalidHandle,
    >)
        requires
            old(self).wf(),
        ensures
            final(self).wf(),
            r is Ok <==> (match parent {
                Some(p) => old(self).valid(p),
                None => true,
            }),
            r is Err ==> *final(self) == *old(self),
            r is Ok ==> ({
                let id = r->Ok_0;
                &&& final(self).valid(id)
                &&& !old(self).is_live(id.index as int)
                &&& final(self).node_of(id.index as int).data == data
                &&& final(self).node_of(id.index as int).parent == parent
                &&& final(self).node_of(id.index as int).children@.len() == 0
                &&& forall|i: int|
                    old(self).is_live(i) ==> #[trigger] final(self).is_live(i)
                        && final(self).gen_of(i) == old(self).gen_of(i)
                &&& forall|i: int|
                    #[trigger] final(self).is_live(i) ==> i == id.index as int || old(
                        self,
                    ).is_live(i)
                &&& forall|i: int|
                    old(self).is_live(i) && (parent is None || i != parent->Some_0.index as int)
                        ==> #[trigger] final(self).node_of(i) == old(self).node_of(i)
                &&& parent is Some ==> ({
                    let pi = parent->Some_0.index as int;
                    &&& final(self).node_of(pi).children@ == old(self).node_of(
                        pi,
                    ).children@.push(id)
                    &&& final(self).node_of(pi).data == old(self).node_of(pi).data
                    &&& final(self).node_of(pi).parent == old(self).node_of(pi).parent
                })
            }),
    {
        let ghost pre = *self;
        match parent {
            Some(p) => {
                if !self.is_valid(p) {
                    return Err(InvalidHandle);
                }
            },
            None => {},
        }
        let ghost pdepth: nat = (match parent {
            Some(p) => pre.depth_of(p.index as int) + 1,
            None => 0,
        });
        let node = UiNode { data, parent, children: Vec::new() };
        let idx: usize;
        match self.free.pop() {
            Some(j) => {
                idx = j;
                assert(pre.free_wf());
                assert(!pre.is_live(j as int));
                self.slots[j].node = Some(node);
            },
            None => {
                idx = self.slots.len();
                self.slots.push(Slot { generation: 0, node: Some(node) });
            },
        }
        proof {
            self.depth@ = self.depth@.insert(idx as int, pdepth);
        }
        let id = NodeId { index: idx, generation: self.slots[idx].generation };
        match parent {
            Some(p) => {
                let ghost mid = *self;
                match &mut self.slots[p.index].node {
                    Some(pn) => {
                        pn.children.push(id);
                    },
                    None => {},
                }
                proof {
                    assert(self.is_live(p.index as int));
                    assert(self.node_of(p.index as int).children@ == mid.node_of(
                        p.index as int,
                    ).children@.push(id));
                }
            },
            None => {},
        }
        proof {
            let pi: int = (match parent {
                Some(p) => p.index as int,
                None => -1,
            });
            assert forall|i: int| #[trigger] self.is_live(i) implies self.node_wf(i) by {
                let n = self.node_of(i);
                if i == idx as int {
                    match parent {
                        Some(p) => {
                            assert(pre.is_live(p.index as int));
                            assert(self.depth_of(p.index as int) == pre.depth_of(p.index as int));
                            let plen = self.node_of(p.index as int).children@.len() as int;
                            assert(self.node_of(p.index as int).children@[plen - 1] == id);
                            assert(self.id_of(i) == id);
                        },
                        None => {
                            assert(self.depth_of(i) == 0);
                        },
                    }
                    assert(n.children@.len() == 0);
                } else if parent is Some && i == pi {
                    assert(pre.is_live(i));
                    assert(pre.node_wf(i));
                    let npre = pre.node_of(i);
                    assert(n.parent == npre.parent);
                    assert(n.children@ == npre.children@.push(id));
                    match npre.parent {
                        None => {
                            assert(self.depth_of(i) == pre.depth_of(i));
                        },
                        Some(gp) => {
                            assert(pre.is_live(gp.index as int));
                            assert(gp.index as int != idx as int);
                            assert(gp.index as int != i);
                            assert(self.node_of(gp.index as int).children@ == pre.node_of(
                                gp.index as int,
                            ).children@);
                            let k = choose|k: int|
                                0 <= k < pre.node_of(gp.index as int).children@.len()
                                    && pre.node_of(gp.index as int).children@[k] == pre.id_of(i);
                            assert(self.node_of(gp.index as int).children@[k] == self.id_of(i));
                        },
                    }
                    assert forall|k: int| 0 <= k < n.children@.len() implies self.valid(
                        #[trigger] n.children@[k],
                    ) && self.node_of(n.children@[k].index as int).parent == Some(
                        self.id_of(i),
                    ) by {
                        if k < npre.children@.len() {
                            let c = npre.children@[k];
                            assert(pre.valid(c));
                            assert(c.index as int != idx as int);
                            assert(c.index as int != i);
                            assert(pre.node_of(c.index as int).parent == Some(pre.id_of(i)));
                            assert(self.node_of(c.index as int).parent == pre.node_of(
                                c.index as int,
                            ).parent);
                        } else {
                            assert(n.children@[k] == id);
                        }
                    }
                    assert forall|k1: int, k2: int|
                        0 <= k1 < k2 < n.children@.len() implies n.children@[k1].index
                        != n.children@[k2].index by {
                        if k2 == npre.children@.len() && k1 < npre.children@.len() {
                            let c = npre.children@[k1];
                            assert(pre.valid(c));
                            assert(pre.is_live(c.index as int));
                            assert(!pre.is_live(idx as int));
                        }
                    }
                } else {
                    assert(pre.is_live(i));
                    assert(pre.node_wf(i));
                    let npre = pre.node_of(i);
                    assert(n == npre);
                    match npre.parent {
                        None => {
                            assert(self.depth_of(i) == pre.depth_of(i));
                        },
                        Some(q) => {
                            assert(pre.is_live(q.index as int));
                            assert(q.index as int != idx as int);
                            assert(self.depth_of(q.index as int) == pre.depth_of(q.index as int));
                            assert(self.depth_of(i) == pre.depth_of(i));
                            let k = choose|k: int|
                                0 <= k < pre.node_of(q.index as int).children@.len()
                                    && pre.node_of(q.index as int).children@[k] == pre.id_of(i);
                            if parent is Some && q.index as int == pi {
                                assert(self.node_of(q.index as int).children@[k] == pre.node_of(
                                    q.index as int,
                                ).children@[k]);
                            } else {
                                assert(self.node_of(q.index as int) == pre.node_of(q.index as int));
                            }
                            assert(self.node_of(q.index as int).children@[k] == self.id_of(i));
                        },
                    }
                    assert forall|k: int| 0 <= k < n.children@.len() implies self.valid(
                        #[trigger] n.children@[k],
                    ) && self.node_of(n.children@[k].index as int).parent == Some(
                        self.id_of(i),
                    ) by {
                        let c = npre.children@[k];
                        assert(pre.valid(c));
                        assert(c.index as int != idx as int);
                        if parent is Some && c.index as int == pi {
                            assert(self.node_of(c.index as int).parent == pre.node_of(
                                c.index as int,
                            ).parent);
                        } else {
                            assert(self.node_of(c.index as int) == pre.node_of(c.index as int));
                        }
                    }
                }
            }
            assert(self.free_wf()) by {
                assert forall|k: int|
                    0 <= k < self.free@.len() implies (#[trigger] self.free@[k])
                    < self.slots@.len() && !self.is_live(self.free@[k] as int) by {
                    assert(self.free@[k] == pre.free@[k]);
                    assert(pre.free@[k] < pre.slots@.len());
                    assert(!pre.is_live(pre.free@[k] as int));
                    if pre.free@.len() > self.free@.len() {
                        assert(pre.free@[pre.free@.len() - 1] == idx);
                        assert(self.free@[k] != idx);
                    } else {
                        assert(idx as int == pre.slots@.len());
                    }
                }
            }
        }
        Ok(id)
    }
    /// Number of slots, live or free.
    pub fn slot_len(&self) -> (r: usize)
        ensures
            r as int == self.slot_count(),
    {
        self.slots.len()
    }

    /// Whether slot `i` currently holds a node.
    pub fn live_slot(&self, i: usize) -> (r: bool)
        requires
            i < self.slot_count(),
        ensures
            r == self.is_live(i as int),
    {
        match &self.slots[i].node {
            Some(_) => true,
            None => false,
        }
    }

    /// Content of the live node in slot `i`.
    pub fn data_at(&self, i: usize) -> (r: &NodeData)
        requires
            self.is_live(i as int),
        ensures
            *r == self.node_of(i as int).data,
    {
        &self.slots[i].node.as_ref().unwrap().data
    }

    /// Parent handle of the live node in slot `i`.
    pub fn parent_at(&self, i: usize) -> (r: Option<NodeId>)
        requires
            self.is_live(i as int),
        ensures
            r == self.node_of(i as int).parent,
    {
        self.slots[i].node.as_ref().unwrap().parent
    }

    /// Child list of the live node in slot `i`.
    pub fn children_at(&self, i: usize) -> (r: &Vec<NodeId>)
        requires
            self.is_live(i as int),
        ensures
            *r == self.node_of(i as int).children,
    {
        &self.slots[i].node.as_ref().unwrap().children
    }

    /// Consequences of well-formedness for one live node, stated for use
    /// outside this module.
    pub proof fn lemma_wf_node(self, i: int)
        requires
            self.wf(),
            self.is_live(i),
        ensures
            match self.node_of(i).parent {
                None => self.depth_of(i) == 0,
                Some(p) => self.valid(p) && p.index as int != i && self.depth_of(p.index as int)
                    + 1 == self.depth_of(i) && exists|k: int|
                    0 <= k < self.node_of(p.index as int).children@.len() && self.node_of(
                        p.index as int,
                    ).children@[k] == self.id_of(i),
            },
            forall|k: int|
                0 <= k < self.node_of(i).children@.len() ==> self.valid(
                    #[trigger] self.node_of(i).children@[k],
                ) && self.node_of(self.node_of(i).children@[k].index as int).parent == Some(
                    self.id_of(i),
                ),
            forall|k1: int, k2: int|
                0 <= k1 < k2 < self.node_of(i).children@.len() ==> self.node_of(
                    i,
                ).children@[k1].index != self.node_of(i).children@[k2].index,
    {
        assert(self.node_wf(i));
    }

    /// Live slots lie within the allocated range.
    pub proof fn lemma_live_in_range(self)
        ensures
            forall|i: int| #[trigger] self.is_live(i) ==> 0 <= i < self.slot_count(),
    {
    }

    /// The slot count fits the machine's address range.
    pub proof fn lemma_slot_count_usize(self)
        ensures
            0 <= self.slot_count() <= usize::MAX,
    {
        self.lemma_len_usize();
    }

    /// The ancestor chain of live node `i`, root first, `i` last.
    spec fn anc_seq(self, i: int) -> Seq<int>
        decreases self.depth_of(i),
    {
        if !self.is_live(i) {
            seq![i]
        } else {
            match self.node_of(i).parent {
                None => seq![i],
                Some(p) => {
                    if self.is_live(p.index as int) && self.depth_of(p.index as int)
                        < self.depth_of(i) {
                        self.anc_seq(p.index as int).push(i)
                    } else {
                        seq![i]
                    }
                },
            }
        }
    }

    proof fn lemma_anc_seq(self, i: int)
        requires
            self.wf(),
            self.is_live(i),
        ensures
            self.anc_seq(i).len() == self.depth_of(i) + 1,
            forall|t: int|
                0 <= t < self.anc_seq(i).len() ==> self.is_live(#[trigger] self.anc_seq(i)[t])
                    && self.depth_of(self.anc_seq(i)[t]) == t,
        decreases self.depth_of(i),
    {
        assert(self.node_wf(i));
        match self.node_of(i).parent {
            None => {
                assert(self.depth_of(i) == 0);
            },
            Some(p) => {
                self.lemma_anc_seq(p.index as int);
                assert forall|t: int| 0 <= t < self.anc_seq(i).len() implies self.is_live(
                    #[trigger] self.anc_seq(i)[t],
                ) && self.depth_of(self.anc_seq(i)[t]) == t by {
                    if t < self.anc_seq(p.index as int).len() {
                        assert(self.anc_seq(i)[t] == self.anc_seq(p.index as int)[t]);
                    } else {
                        assert(self.anc_seq(i)[t] == i);
                    }
                }
            },
        }
    }

    /// A node's depth is below the slot count: its ancestor chain occupies
    /// that many distinct live slots.
    pub proof fn lemma_depth_bound(self, i: int)
        requires
            self.wf(),
            self.is_live(i),
        ensures
            self.depth_of(i) < self.slot_count(),
    {
        self.lemma_anc_seq(i);
        self.lemma_live_in_range();
        let s = self.anc_seq(i);
        assert(s.no_duplicates()) by {
            assert forall|t1: int, t2: int|
                0 <= t1 < s.len() && 0 <= t2 < s.len() && t1 != t2 implies s[t1] != s[t2] by {
                assert(self.depth_of(s[t1]) == t1);
                assert(self.depth_of(s[t2]) == t2);
            }
        }
        s.unique_seq_to_set();
        let range = vstd::set_lib::set_int_range(0, self.slot_count());
        vstd::set_lib::lemma_int_range(0, self.slot_count());
        assert(s.to_set().subset_of(range)) by {
            assert forall|x: int| s.to_set().contains(x) implies range.contains(x) by {
                assert(s.contains(x));
                let t = choose|t: int| 0 <= t < s.len() && s[t] == x;
                assert(self.is_live(s[t]));
            }
        }
        vstd::set_lib::lemma_len_subset(s.to_set(), range);
    }

    /// Every child handle held by a live node is itself valid: no live node
    /// can name a removed node.
    pub proof fn lemma_children_valid(self, id: NodeId, k: int)
        requires
            self.wf(),
            self.valid(id),
            0 <= k < self.node_of(id.index as int).children@.len(),
        ensures
            self.valid(self.node_of(id.index as int).children@[k]),
    {
        assert(self.is_live(id.index as int));
        assert(self.node_wf(id.index as int));
    }

    /// The root of an occupied subtree is live, and no deeper than any of
    /// its members: the parent chain cannot climb back down.
    pub proof fn lemma_subtree_live(self, root: NodeId, i: int)
        requires
            self.wf(),
            self.in_subtree(root, i),
        ensures
            self.is_live(root.index as int),
            self.depth_of(root.index as int) <= self.depth_of(i),
        decreases self.depth_of(i),
    {
        if i == root.index as int {
        } else {
            assert(self.is_live(i));
            assert(self.node_wf(i));
            match self.node_of(i).parent {
                Some(p) => {
                    self.lemma_subtree_live(root, p.index as int);
                },
                None => {},
            }
        }
    }

    fn node_ref(&self, i: usize) -> (n: &UiNode)
        requires
            self.is_live(i as int),
        ensures
            *n == self.node_of(i as int),
    {
        self.slots[i].node.as_ref().unwrap()
    }

    fn live_at(&self, i: usize) -> (r: bool)
        requires
            i < self.slots@.len(),
        ensures
            r == self.is_live(i as int),
    {
        match &self.slots[i].node {
            Some(_) => true,
            None => false,
        }
    }

    /// Whether live node `i` lies under the node `root` points at.
    fn is_descendant(&self, i: usize, root: NodeId) -> (r: bool)
        requires
            self.wf(),
            self.is_live(i as int),
        ensures
            r == self.in_subtree(root, i as int),
    {
        let mut cur: usize = i;
        loop
            invariant
                self.wf(),
                self.is_live(cur as int),
                self.in_subtree(root, i as int) == self.in_subtree(root, cur as int),
            decreases self.depth_of(cur as int),
        {
            if cur == root.index {
                return true;
            }
            proof {
                assert(self.is_live(cur as int));
                assert(self.node_wf(cur as int));
            }
            match self.node_ref(cur).parent {
                Some(p) => {
                    cur = p.index;
                },
                None => {
                    return false;
                },
            }
        }
    }

    /// Remove the node `id` points at together with its whole subtree.
    /// Fails exactly on a stale handle and then changes nothing. On success
    /// exactly the members of the subtree die, their slots' generations
    /// change (so their handles go stale), every surviving node keeps its
    /// content, and the parent of the removed node merely loses that one
    /// child entry.
    #[verifier::loop_isolation(false)]
    #[verifier::rlimit(60)]
    pub fn remove(&mut self, id: NodeId) -> (r: Result<(), InvalidHandle>)
        requires
            old(self).wf(),
        ensures
            final(self).wf(),
            r is Ok <==> old(self).valid(id),
            r is Err ==> *final(self) == *old(self),
            r is Ok ==> ({
                &&& forall|i: int|
                    #[trigger] final(self).is_live(i) <==> (old(self).is_live(i) && !old(
                        self,
                    ).in_subtree(id, i))
                &&& forall|i: int|
                    old(self).is_live(i) && old(self).in_subtree(id, i)
                        ==> #[trigger] final(self).gen_of(i) != old(self).gen_of(i)
                &&& forall|i: int|
                    #[trigger] final(self).is_live(i) ==> final(self).gen_of(i) == old(
                        self,
                    ).gen_of(i)
                &&& forall|i: int|
                    #[trigger] final(self).is_live(i) && (old(self).node_of(
                        id.index as int,
                    ).parent is None || i != old(self).node_of(
                        id.index as int,
                    ).parent->Some_0.index as int) ==> final(self).node_of(i) == old(self).node_of(
                        i,
                    )
                &&& (old(self).node_of(id.index as int).parent matches Some(par) ==> ({
                    let pi = par.index as int;
                    let oc = old(self).node_of(pi).children@;
                    &&& final(self).is_live(pi)
                    &&& exists|k: int|
                        0 <= k < oc.len() && oc[k] == id && final(self).node_of(pi).children@
                            == oc.remove(k)
                    &&& final(self).node_of(pi).data == old(self).node_of(pi).data
                    &&& final(self).node_of(pi).parent == old(self).node_of(pi).parent
                }))
                &&& final(self).slot_count() == old(self).slot_count()
            }),
    {
        if !self.is_valid(id) {
            return Err(InvalidHandle);
        }
        let ghost pre = *self;
        let n = self.slots.len();

        // Phase 1: mark every member of the subtree, against the unchanged store.
        let mut marks: Vec<bool> = Vec::new();
        let mut j: usize = 0;
        while j < n
            invariant
                j <= n,
                marks@.len() == j,
                *self == pre,
                forall|t: int|
                    0 <= t < j ==> #[trigger] marks@[t] == (pre.is_live(t) && pre.in_subtree(
                        id,
                        t,
                    )),
            decreases n - j,
        {
            let m = if self.live_at(j) {
                self.is_descendant(j, id)
            } else {
                false
            };
            marks.push(m);
            j += 1;
        }

        // Phase 2: detach `id` from its parent's child list.
        proof {
            assert(pre.node_wf(id.index as int));
        }
        let par = self.node_ref(id.index).parent;
        match par {
            Some(p) => {
                proof {
                    assert(pre.valid(p));
                    assert(pre.id_of(id.index as int) == id);
                }
                let kid = self.find_child(p.index, id);
                match &mut self.slots[p.index].node {
                    Some(pn) => {
                        pn.children.remove(kid);
                    },
                    None => {},
                }
                proof {
                    assert(self.node_of(p.index as int).children@ == pre.node_of(
                        p.index as int,
                    ).children@.remove(kid as int));
                    // the parent is not inside the subtree being removed
                    if pre.in_subtree(id, p.index as int) {
                        pre.lemma_subtree_live(id, p.index as int);
                        assert(false);
                    }
                }
            },
            None => {},
        }
        let ghost mid = *self;
        proof {
            assert(forall|t: int|
                0 <= t < n && (par is None || t != par->Some_0.index as int)
                    ==> mid.slots@[t] == pre.slots@[t]);
            assert(forall|t: int| 0 <= t < n ==> mid.is_live(t) == pre.is_live(t));
            assert(forall|t: int| 0 <= t < n ==> mid.gen_of(t) == pre.gen_of(t));
        }

        // Phase 3: free every marked slot and stale its generation.
        let mut j: usize = 0;
        while j < n
            invariant
                j <= n,
                self.slots@.len() == n,
                self.free@.len() >= mid.free@.len(),
                forall|t: int|
                    0 <= t < n && !(t < j && marks@[t]) ==> #[trigger] self.slots@[t]
                        == mid.slots@[t],
                forall|t: int|
                    0 <= t < j && marks@[t] ==> (#[trigger] self.slots@[t]).node is None
                        && self.slots@[t].generation != mid.slots@[t].generation,
                forall|k: int| 0 <= k < mid.free@.len() ==> self.free@[k] == mid.free@[k],
                forall|k: int|
                    mid.free@.len() <= k < self.free@.len() ==> (#[trigger] self.free@[k]) < j
                        && marks@[self.free@[k] as int],
                forall|k1: int, k2: int|
                    mid.free@.len() <= k1 < k2 < self.free@.len() ==> self.free@[k1]
                        < self.free@[k2],
                self.depth@ == mid.depth@,
            decreases n - j,
        {
            if marks[j] {
                let g = self.slots[j].generation;
                let g2: u64 = if g == u64::MAX {
                    0
                } else {
                    g + 1
                };
                self.slots[j] = Slot { generation: g2, node: None };
                self.free.push(j);
            }
            j += 1;
        }

        proof {
            self.lemma_remove_wf(pre, mid, id, par, marks@);
        }
        Ok(())
    }

    proof fn lemma_len_usize(self)
        ensures
            self.slots@.len() <= usize::MAX,
    {
        vstd::std_specs::vec::axiom_spec_len(&self.slots);
    }

    #[verifier::rlimit(100)]
    proof fn lemma_remove_wf(
        self,
        pre: NodeStore,
        mid: NodeStore,
        id: NodeId,
        par: Option<NodeId>,
        marks: Seq<bool>,
    )
        requires
            pre.wf(),
            pre.valid(id),
            marks.len() == pre.slots@.len(),
            forall|t: int|
                0 <= t < marks.len() ==> #[trigger] marks[t] == (pre.is_live(t) && pre.in_subtree(
                    id,
                    t,
                )),
            par == pre.node_of(id.index as int).parent,
            mid.slots@.len() == pre.slots@.len(),
            mid.free@ == pre.free@,
            mid.depth@ == pre.depth@,
            forall|t: int|
                0 <= t < pre.slots@.len() && (par is None || t != par->Some_0.index as int)
                    ==> #[trigger] mid.slots@[t] == pre.slots@[t],
            par matches Some(p) ==> ({
                let pi = p.index as int;
                &&& mid.is_live(pi)
                &&& mid.gen_of(pi) == pre.gen_of(pi)
                &&& mid.node_of(pi).data == pre.node_of(pi).data
                &&& mid.node_of(pi).parent == pre.node_of(pi).parent
                &&& exists|k: int|
                    0 <= k < pre.node_of(pi).children@.len() && pre.node_of(pi).children@[k] == id
                        && mid.node_of(pi).children@ == pre.node_of(pi).children@.remove(k)
            }),
            self.slots@.len() == pre.slots@.len(),
            self.depth@ == mid.depth@,
            self.free@.len() >= mid.free@.len(),
            forall|t: int|
                0 <= t < pre.slots@.len() && !marks[t] ==> #[trigger] self.slots@[t]
                    == mid.slots@[t],
            forall|t: int|
                0 <= t < pre.slots@.len() && marks[t] ==> (#[trigger] self.slots@[t]).node is None
                    && self.slots@[t].generation != mid.slots@[t].generation,
            forall|k: int| 0 <= k < mid.free@.len() ==> self.free@[k] == mid.free@[k],
            forall|k: int|
                mid.free@.len() <= k < self.free@.len() ==> (#[trigger] self.free@[k])
                    < pre.slots@.len() && marks[self.free@[k] as int],
            forall|k1: int, k2: int|
                mid.free@.len() <= k1 < k2 < self.free@.len() ==> self.free@[k1] < self.free@[k2],
        ensures
            self.wf(),
            forall|i: int|
                #[trigger] self.is_live(i) <==> (pre.is_live(i) && !pre.in_subtree(id, i)),
            forall|i: int|
                pre.is_live(i) && pre.in_subtree(id, i) ==> #[trigger] self.gen_of(i)
                    != pre.gen_of(i),
            forall|i: int| #[trigger] self.is_live(i) ==> self.gen_of(i) == pre.gen_of(i),
            forall|i: int|
                #[trigger] self.is_live(i) && (par is None || i != par->Some_0.index as int)
                    ==> self.node_of(i) == pre.node_of(i),
            par matches Some(p) ==> ({
                let pi = p.index as int;
                let oc = pre.node_of(pi).children@;
                &&& self.is_live(pi)
                &&& exists|k: int|
                    0 <= k < oc.len() && oc[k] == id && self.node_of(pi).children@ == oc.remove(k)
                &&& self.node_of(pi).data == pre.node_of(pi).data
                &&& self.node_of(pi).parent == pre.node_of(pi).parent
            }),
            self.slot_count() == pre.slot_count(),
    {
        let n = pre.slots@.len() as int;
        pre.lemma_len_usize();
        let pi: int = (match par {
            Some(p) => p.index as int,
            None => -1,
        });
        // The parent of the removed node is not inside the removed subtree.
        if par is Some {
            assert(pre.is_live(id.index as int));
            assert(pre.node_wf(id.index as int));
            if pre.in_subtree(id, pi) {
                pre.lemma_subtree_live(id, pi);
                assert(false);
            }
            assert(!marks[pi]);
            assert(self.slots@[pi] == mid.slots@[pi]);
        }
        // Liveness, generations, and node content of survivors.
        assert forall|i: int| #[trigger] self.is_live(i) implies (pre.is_live(i)
            && !pre.in_subtree(id, i)) by {
            assert(self.slots@[i].node is Some);
            if marks[i] {
                assert(self.slots@[i].node is None);
            }
            if i != pi {
                assert(mid.slots@[i] == pre.slots@[i]);
            }
        }
        assert forall|i: int| pre.is_live(i) && !pre.in_subtree(id, i) implies #[trigger] self
            .is_live(i) by {
            assert(!marks[i]);
            assert(self.slots@[i] == mid.slots@[i]);
            if i != pi {
                assert(mid.slots@[i] == pre.slots@[i]);
            }
        }
        assert forall|i: int| #[trigger] self.is_live(i) implies self.gen_of(i) == pre.gen_of(
            i,
        ) && (i != pi ==> self.node_of(i) == pre.node_of(i)) by {
            assert(!marks[i]);
            assert(self.slots@[i] == mid.slots@[i]);
            if i != pi {
                assert(mid.slots@[i] == pre.slots@[i]);
            }
        }
        assert forall|i: int| pre.is_live(i) && pre.in_subtree(id, i) implies #[trigger] self
            .gen_of(i) != pre.gen_of(i) by {
            assert(marks[i]);
            assert(self.slots@[i].generation != mid.slots@[i].generation);
            if i != pi {
                assert(mid.slots@[i] == pre.slots@[i]);
            }
        }
        // The free list is well-formed: old entries were dead already, new
        // entries are the freshly freed marked slots.
        assert forall|k: int|
            0 <= k < self.free@.len() implies (#[trigger] self.free@[k]) < self.slots@.len()
            && !self.is_live(self.free@[k] as int) by {
            if k < mid.free@.len() {
                assert(self.free@[k] == pre.free@[k]);
                assert(pre.free_wf());
                assert(!pre.is_live(pre.free@[k] as int));
            } else {
                let t = self.free@[k] as int;
                assert(marks[t]);
                assert(self.slots@[t].node is None);
            }
        }
        assert forall|k1: int, k2: int|
            0 <= k1 < k2 < self.free@.len() implies self.free@[k1] != self.free@[k2] by {
            if k2 < mid.free@.len() {
                assert(pre.free_wf());
            } else if k1 < mid.free@.len() {
                let e = pre.free@[k1] as int;
                let t = self.free@[k2] as int;
                assert(pre.free_wf());
                assert(!pre.is_live(e));
                assert(marks[t]);
                assert(pre.is_live(t));
            }
        }
        // Local well-formedness of every surviving node.
        assert forall|i: int| #[trigger] self.is_live(i) implies self.node_wf(i) by {
            assert(pre.is_live(i) && !pre.in_subtree(id, i));
            assert(pre.node_wf(i));
            assert(i != id.index as int);
            let npre = pre.node_of(i);
            let nfin = self.node_of(i);
            assert(nfin.parent == npre.parent);
            match npre.parent {
                None => {
                    assert(self.depth_of(i) == pre.depth_of(i));
                },
                Some(q) => {
                    let qi = q.index as int;
                    assert(pre.valid(q));
                    // the parent also survives
                    if pre.in_subtree(id, qi) {
                        assert(pre.in_subtree(id, i));
                    }
                    assert(self.is_live(qi));
                    assert(self.valid(q));
                    assert(self.depth_of(qi) == pre.depth_of(qi));
                    assert(self.depth_of(i) == pre.depth_of(i));
                    // the child entry for i survives in q's list
                    let k0 = choose|k0: int|
                        0 <= k0 < pre.node_of(qi).children@.len() && pre.node_of(qi).children@[k0]
                            == pre.id_of(i);
                    assert(self.id_of(i) == pre.id_of(i));
                    if qi == pi {
                        let oc = pre.node_of(pi).children@;
                        let kid = choose|kid: int|
                            0 <= kid < oc.len() && oc[kid] == id && mid.node_of(pi).children@
                                == oc.remove(kid);
                        assert(self.node_of(pi).children@ == oc.remove(kid));
                        assert(oc[k0] == pre.id_of(i));
                        assert(0 <= i < n);
                        assert(pre.id_of(i).index == i as usize);
                        assert(i as usize != id.index);
                        assert(pre.id_of(i) != id);
                        assert(k0 != kid);
                        if k0 < kid {
                            assert(oc.remove(kid)[k0] == oc[k0]);
                            assert(self.node_of(qi).children@[k0] == self.id_of(i));
                        } else {
                            assert(oc.remove(kid)[k0 - 1] == oc[k0]);
                            assert(self.node_of(qi).children@[k0 - 1] == self.id_of(i));
                        }
                    } else {
                        assert(self.node_of(qi) == pre.node_of(qi));
                        assert(self.node_of(qi).children@[k0] == self.id_of(i));
                    }
                },
            }
            // children entries of i survive and still point back
            let ghost kid0: int = (if i == pi {
                choose|kid: int|
                    0 <= kid < pre.node_of(pi).children@.len() && pre.node_of(pi).children@[kid]
                        == id && mid.node_of(pi).children@ == pre.node_of(pi).children@.remove(kid)
            } else {
                0
            });
            assert forall|k: int| 0 <= k < nfin.children@.len() implies self.valid(
                #[trigger] nfin.children@[k],
            ) && self.node_of(nfin.children@[k].index as int).parent == Some(self.id_of(i)) by {
                let korig: int = (if i == pi {
                    if k < kid0 {
                        k
                    } else {
                        k + 1
                    }
                } else {
                    k
                });
                if i == pi {
                    let oc = pre.node_of(pi).children@;
                    assert(nfin.children@ == oc.remove(kid0));
                    assert(nfin.children@[k] == oc[korig]);
                }
                let c = npre.children@[korig];
                assert(nfin.children@[k] == c);
                assert(pre.valid(c));
                assert(pre.node_of(c.index as int).parent == Some(pre.id_of(i)));
                // c is not the removed node
                if c.index as int == id.index as int {
                    assert(c == pre.id_of(id.index as int));
                    assert(c == id);
                    assert(pre.node_of(id.index as int).parent == Some(pre.id_of(i)));
                    assert(pi == i);
                    if i == pi {
                        let oc = pre.node_of(pi).children@;
                        assert(oc[korig] == id && oc[kid0] == id);
                        assert(korig != kid0);
                        assert(oc[korig].index == oc[kid0].index);
                        assert(false);
                    }
                }
                // c survives
                if pre.in_subtree(id, c.index as int) {
                    assert(pre.is_live(c.index as int));
                    assert(pre.node_wf(c.index as int));
                    assert(c.index as int != id.index as int);
                    assert(pre.node_of(c.index as int).parent == Some(pre.id_of(i)));
                    assert(pre.id_of(i).index as int == i);
                    assert(pre.is_live(i));
                    assert(pre.depth_of(i) < pre.depth_of(c.index as int));
                    assert(pre.in_subtree(id, c.index as int) == pre.in_subtree(id, i));
                    assert(pre.in_subtree(id, i));
                }
                assert(self.is_live(c.index as int));
                assert(self.valid(c));
                assert(self.node_of(c.index as int).parent == pre.node_of(
                    c.index as int,
                ).parent);
                assert(self.id_of(i) == pre.id_of(i));
            }
            assert forall|k1: int, k2: int|
                0 <= k1 < k2 < nfin.children@.len() implies nfin.children@[k1].index
                != nfin.children@[k2].index by {
                if i == pi {
                    let oc = pre.node_of(pi).children@;
                    let j1: int = if k1 < kid0 {
                        k1
                    } else {
                        k1 + 1
                    };
                    let j2: int = if k2 < kid0 {
                        k2
                    } else {
                        k2 + 1
                    };
                    assert(nfin.children@ == oc.remove(kid0));
                    assert(nfin.children@[k1] == oc[j1]);
                    assert(nfin.children@[k2] == oc[j2]);
                    assert(j1 < j2);
                }
            }
        }
    }

    fn find_child(&self, pi: usize, id: NodeId) -> (k: usize)
        requires
            self.wf(),
            self.is_live(pi as int),
            exists|k: int|
                0 <= k < self.node_of(pi as int).children@.len() && self.node_of(
                    pi as int,
                ).children@[k] == id,
        ensures
            k < self.node_of(pi as int).children@.len(),
            self.node_of(pi as int).children@[k as int] == id,
    {
        let node = self.node_ref(pi);
        let len = node.children.len();
        let mut k: usize = 0;
        while k < len
            invariant
                k <= len,
                len == self.node_of(pi as int).children@.len(),
                *node == self.node_of(pi as int),
                forall|t: int| 0 <= t < k ==> self.node_of(pi as int).children@[t] != id,
            decreases len - k,
        {
            if node.children[k] == id {
                return k;
            }
            k += 1;
        }
        proof {
            assert(false);
        }
        0
    }
}

} // verus!
