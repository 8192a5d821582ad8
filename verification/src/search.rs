//! The bookkeeping of the tree search: a pool of nodes of fixed size that is
//! addressed by position hash, the visit counts of the branches, and the
//! decisions that a search takes on them.
//!
//! The priors and values of the branches are the caller's: this module
//! holds what a search counts and links, and says where a descent ends,
//! when nodes are given up, which branch is best and which move is played.

use std::collections::HashMap;
use vstd::prelude::*;
use vstd::slice::slice_subrange;
use vstd::std_specs::hash::*;
use crate::board::Board;
use crate::constants::{BVCNT, PASS, VNULL};
use crate::coord_convert::{rv2ev, spec_rv2ev};
use crate::numpy::{argmax, argsort, in_order, is_permutation, lemma_permutation_onto, lemma_sorted_usize};
use crate::search_model::{
    branches, cp_percent, next_slot, poll_due, time_divisor, NodeView, TreeView,
};
use crate::utils::fill;

verus! {

broadcast use group_hash_axioms;

/// Number of slots of the node pool.
pub const MAX_NODE_CNT: usize = 16384;

/// Visits that a branch needs before the descent goes beyond it.
pub const EXPAND_CNT: usize = 8;

/// Number of branches of a node: one for each playable point and one for
/// the pass move.
pub const BRANCH_CNT: usize = 82;

/// Stale nodes are given up once more nodes than this were created.
pub const SWEEP_CNT: usize = 13926;

/// One position of the tree with its branches.
#[derive(Clone, Copy)]
pub struct Node {
    mov: [usize; BRANCH_CNT],
    visit_cnt: [usize; BRANCH_CNT],
    next_id: [usize; BRANCH_CNT],
    next_hash: [u64; BRANCH_CNT],
    evaluated: [bool; BRANCH_CNT],
    branch_cnt: usize,
    total_cnt: usize,
    hash: u64,
    move_cnt: usize,
}

impl View for Node {
    type V = NodeView;

    closed spec fn view(&self) -> NodeView {
        NodeView {
            mov: self.mov@,
            visit_cnt: self.visit_cnt@,
            next_id: self.next_id@,
            next_hash: self.next_hash@,
            evaluated: self.evaluated@,
            branch_cnt: self.branch_cnt,
            total_cnt: self.total_cnt,
            hash: self.hash,
            move_cnt: self.move_cnt,
        }
    }
}

impl Node {
    /// A free slot with blank branches.
    pub fn new() -> (r: Node)
        ensures
            r@ == NodeView::unused(),
    {
        let mut node = Node {
            mov: [0;BRANCH_CNT],
            visit_cnt: [0;BRANCH_CNT],
            next_id: [0;BRANCH_CNT],
            next_hash: [0;BRANCH_CNT],
            evaluated: [false;BRANCH_CNT],
            branch_cnt: 0,
            total_cnt: 0,
            hash: 0,
            move_cnt: 0,
        };
        node.init_branch();
        node.clear();
        node
    }

    /// Resets every branch: no move, no visits, no link, not evaluated.
    pub fn init_branch(&mut self)
        ensures
            final(self)@ == old(self)@.blank(),
    {
        fill(&mut self.mov, VNULL);
        fill(&mut self.visit_cnt, 0);
        fill(&mut self.next_id, usize::MAX);
        fill(&mut self.next_hash, 0);
        fill(&mut self.evaluated, false);
        proof {
            let b = old(self)@.blank();
            assert(self@.mov =~= b.mov);
            assert(self@.visit_cnt =~= b.visit_cnt);
            assert(self@.next_id =~= b.next_id);
            assert(self@.next_hash =~= b.next_hash);
            assert(self@.evaluated =~= b.evaluated);
        }
    }

    /// Gives the slot up. The branches stay as they are.
    pub fn clear(&mut self)
        ensures
            final(self)@ == old(self)@.emptied(),
    {
        self.branch_cnt = 0;
        self.total_cnt = 0;
        self.hash = 0;
        self.move_cnt = usize::MAX;
    }
    /// The two most visited branches, the most visited first; among branches
    /// with equal visits the one that comes first counts as more visited.
    pub fn best2(&self) -> (r: (usize, usize))
        requires
            2 <= self@.branch_cnt <= BRANCH_CNT,
        ensures
            self@.is_best(r.0 as int),
            self@.is_second(r.0 as int, r.1 as int),
    {
        let cnt: usize = self.branch_cnt;
        let counts: &[usize] = slice_subrange(self.visit_cnt.as_slice(), 0, cnt);
        let order_: Vec<usize> = argsort(counts, true);
        let best: usize = order_[0];
        let second: usize = order_[1];
        proof {
            let s = counts@;
            let r = order_@;
            assert forall|c: int| 0 <= c < cnt implies s[c] == self@.visit_cnt[c] by {}
            assert forall|c: int| 0 <= c < cnt && c != best implies #[trigger] self@.visit_cnt[c]
                <= self@.visit_cnt[best as int] && (c < best ==> self@.visit_cnt[c]
                < self@.visit_cnt[best as int]) && self@.visit_cnt[c]
                <= self@.visit_cnt[second as int] && (c < second ==> self@.visit_cnt[c]
                < self@.visit_cnt[second as int]) by {
                lemma_permutation_onto(r, cnt as nat, c as usize);
                let j = choose|j: int| 0 <= j < cnt && r[j] == c as usize;
                lemma_sorted_usize(s, r, true, 0, j);
                if j > 1 {
                    lemma_sorted_usize(s, r, true, 1, j);
                }
            }
            lemma_sorted_usize(s, r, true, 0, 1);
        }
        (best, second)
    }
}

/// Whether `list` holds `x`.
fn holds(list: &Vec<usize>, x: usize) -> (r: bool)
    ensures
        r == list@.contains(x),
{
    let mut i: usize = 0;
    while i < list.len()
        invariant
            i <= list@.len(),
            forall|j: int| 0 <= j < i ==> list@[j] != x,
        decreases list@.len() - i,
    {
        if list[i] == x {
            return true;
        }
        i += 1;
    }
    false
}

/// The pool of nodes with the map from position hash to slot.
pub struct Tree {
    node: Vec<Node>,
    node_cnt: usize,
    pub root_id: usize,
    root_move_cnt: usize,
    node_hashs: HashMap<u64, usize>,
    eval_cnt: usize,
}

/// The views of a sequence of nodes.
pub open spec fn node_views(s: Seq<Node>) -> Seq<NodeView> {
    Seq::new(s.len(), |i: int| s[i]@)
}

impl View for Tree {
    type V = TreeView;

    closed spec fn view(&self) -> TreeView {
        TreeView {
            node: node_views(self.node@),
            node_cnt: self.node_cnt as nat,
            root_id: self.root_id,
            root_move_cnt: self.root_move_cnt,
            node_hashs: self.node_hashs@,
            eval_cnt: self.eval_cnt as nat,
        }
    }
}

impl Tree {
    /// A tree without nodes.
    pub fn new() -> (r: Tree)
        ensures
            r@ == TreeView::empty(),
            r@.wf(),
    {
        let mut node: Vec<Node> = Vec::with_capacity(MAX_NODE_CNT);
        let mut i: usize = 0;
        while i < MAX_NODE_CNT
            invariant
                i <= MAX_NODE_CNT,
                node@.len() == i,
                forall|j: int| 0 <= j < i ==> (#[trigger] node@[j])@ == NodeView::unused(),
            decreases MAX_NODE_CNT - i,
        {
            node.push(Node::new());
            i += 1;
        }
        let r = Tree {
            node,
            node_cnt: 0,
            root_id: 0,
            root_move_cnt: 0,
            node_hashs: HashMap::new(),
            eval_cnt: 0,
        };
        proof {
            assert(r@.node =~= TreeView::empty().node);
            lemma_empty_wf();
        }
        r
    }

    /// Gives every slot up and forgets every hash and count.
    pub fn clear(&mut self)
        requires
            old(self)@.node.len() == MAX_NODE_CNT,
        ensures
            final(self)@.node.len() == MAX_NODE_CNT,
            forall|i: int|
                0 <= i < MAX_NODE_CNT ==> #[trigger] final(self)@.node[i] == old(
                    self,
                )@.node[i].emptied(),
            final(self)@.node_cnt == 0,
            final(self)@.root_id == 0,
            final(self)@.root_move_cnt == 0,
            final(self)@.node_hashs == Map::<u64, usize>::empty(),
            final(self)@.eval_cnt == 0,
            old(self)@.wf() ==> final(self)@.wf() && final(self)@.indexed(),
    {
        let ghost t0 = self@;
        let mut i: usize = 0;
        while i < MAX_NODE_CNT
            invariant
                i <= MAX_NODE_CNT,
                self.node@.len() == MAX_NODE_CNT,
                t0.node.len() == MAX_NODE_CNT,
                forall|j: int| 0 <= j < i ==> (#[trigger] self.node@[j])@ == t0.node[j].emptied(),
                forall|j: int| i <= j < MAX_NODE_CNT ==> (#[trigger] self.node@[j])@ == t0.node[j],
            decreases MAX_NODE_CNT - i,
        {
            self.node[i].clear();
            i += 1;
        }
        self.node_cnt = 0;
        self.root_id = 0;
        self.root_move_cnt = 0;
        self.node_hashs.clear();
        self.eval_cnt = 0;
        proof {
            if t0.wf() {
                assert forall|j: int| 0 <= j < 16384 implies (#[trigger] self@.node[j]).wf() by {
                    assert(t0.node[j].wf());
                    assert(self.node@[j]@ == t0.node[j].emptied());
                }
            }
        }
    }

    /// Nodes created since the tree was cleared.
    pub fn get_node_cnt(&self) -> (r: usize)
        ensures
            r == self@.node_cnt,
    {
        self.node_cnt
    }

    /// Evaluations since the count was last reset.
    pub fn get_eval_cnt(&self) -> (r: usize)
        ensures
            r == self@.eval_cnt,
    {
        self.eval_cnt
    }

    /// Starts counting evaluations anew.
    pub fn reset_eval_cnt(&mut self)
        ensures
            final(self)@ == (TreeView { eval_cnt: 0, ..old(self)@ }),
    {
        self.eval_cnt = 0;
    }

    /// The move count of the root's position.
    pub fn get_root_move_cnt(&self) -> (r: usize)
        ensures
            r == self@.root_move_cnt,
    {
        self.root_move_cnt
    }

    /// Whether some slot of the pool is free.
    pub fn has_free_slot(&self) -> (r: bool)
        requires
            self@.node.len() == MAX_NODE_CNT,
        ensures
            r == self@.has_free(),
    {
        let mut i: usize = 0;
        while i < MAX_NODE_CNT
            invariant
                i <= MAX_NODE_CNT,
                self@.node.len() == MAX_NODE_CNT,
                forall|j: int| 0 <= j < i ==> !(#[trigger] self@.node[j]).is_free(),
            decreases MAX_NODE_CNT - i,
        {
            if self.node[i].move_cnt == usize::MAX {
                assert(self@.node[i as int].is_free());
                return true;
            }
            i += 1;
        }
        false
    }

    /// Gives up the nodes that lie behind the root's position, once half as
    /// many nodes as the pool has slots were created: their slots become
    /// free and their hashes leave the map.
    pub fn delete_node(&mut self)
        requires
            old(self)@.wf(),
        ensures
            final(self)@ == old(self)@.delete_node(),
            final(self)@.wf(),
            old(self)@.indexed() ==> final(self)@.indexed(),
            old(self)@.has_free() ==> final(self)@.has_free(),
            old(self)@.node_cnt >= MAX_NODE_CNT / 2 && (exists|i: int|
                0 <= i < MAX_NODE_CNT && old(self)@.stale(i)) ==> final(self)@.has_free(),
    {
        let ghost t0 = self@;
        proof {
            lemma_swept(t0, 16384);
        }
        if self.node_cnt < MAX_NODE_CNT / 2 {
            return;
        }
        let mut i: usize = 0;
        assert(self@.node =~= t0.swept(0).node);
        assert(self@.node_hashs =~= t0.swept(0).node_hashs);
        while i < MAX_NODE_CNT
            invariant
                i <= MAX_NODE_CNT,
                t0.wf(),
                self.node@.len() == MAX_NODE_CNT,
                self@ == t0.swept(i as int),
            decreases MAX_NODE_CNT - i,
        {
            let ghost t = self@;
            assert(t.node[i as int] == t0.node[i as int]);
            assert(self.node@[i as int]@ == t.node[i as int]);
            let mc: usize = self.node[i].move_cnt;
            if mc < usize::MAX && mc < self.root_move_cnt {
                let h: u64 = self.node[i].hash;
                self.node_hashs.remove(&h);
                self.node[i].clear();
                assert(t0.stale(i as int));
                assert(self@.node =~= t.node.update(i as int, t.node[i as int].emptied()));
                assert(self@.node_hashs == t.node_hashs.remove(h));
            } else {
                assert(!t0.stale(i as int));
                assert(self@ == t);
            }
            proof {
                let goal = t0.swept(i + 1);
                assert(self@.node =~= goal.node);
                assert forall|h: u64| t0.stale_hash(h, i + 1) <==> t0.stale_hash(h, i as int) || (
                t0.stale(i as int) && t0.node[i as int].hash == h) by {
                    if t0.stale_hash(h, i + 1) {
                        let j = choose|j: int|
                            0 <= j < i + 1 && #[trigger] t0.stale(j) && t0.node[j].hash == h;
                        if j < i {
                            assert(t0.stale_hash(h, i as int));
                        }
                    }
                    if t0.stale_hash(h, i as int) {
                        let j = choose|j: int|
                            0 <= j < i && #[trigger] t0.stale(j) && t0.node[j].hash == h;
                        assert(0 <= j < i + 1);
                    }
                }
                assert(self@.node_hashs =~= goal.node_hashs);
            }
            i += 1;
        }
    }
    /// Finds or creates the node of the position on `b`.
    ///
    /// Where the map knows a node for the position's hash and that node has
    /// the position's hash and move count, it is the node. Else a fresh node
    /// takes the first free slot from the hash's own on, the map records
    /// it, and its branches are the candidate moves of the position in the
    /// order that `order` gives to the board-linear vertices.
    pub fn create_node(&mut self, b: &Board, order: &Vec<usize>) -> (node_id: usize)
        requires
            old(self)@.wf(),
            old(self)@.has_free(),
            old(self)@.node_cnt < usize::MAX,
            b@.shaped(),
            b@.move_cnt < usize::MAX,
            order@.len() <= BRANCH_CNT,
            forall|i: int| 0 <= i < order@.len() ==> #[trigger] order@[i] <= BVCNT,
        ensures
            node_id == old(self)@.node_for(b@.hash(), b@.move_cnt as usize),
            node_id < MAX_NODE_CNT,
            final(self)@ == old(self)@.create_node(
                b@.hash(),
                b@.move_cnt as usize,
                branches(order@, b@.candidates(), order@.len()),
            ),
            final(self)@.wf(),
            old(self)@.indexed() && !old(self)@.collides(b@.hash(), b@.move_cnt as usize)
                ==> final(self)@.indexed(),
            !final(self)@.node[node_id as int].is_free(),
            final(self)@.node[node_id as int].hash == b@.hash(),
            final(self)@.node[node_id as int].move_cnt == b@.move_cnt,
    {
        let ghost t0 = self@;
        let (hs, mc, cands) = b.info();
        let ghost moves = branches(order@, cands@, order@.len());
        proof {
            lemma_branches_len(order@, cands@, order@.len());
            lemma_create(t0, hs, mc, moves);
        }
        let known: Option<&usize> = self.node_hashs.get(&hs);
        if let Some(id) = known {
            let id: usize = *id;
            assert(t0.node_hashs.contains_key(hs) && t0.node_hashs[hs] == id);
            assert(self.node@[id as int]@ == t0.node[id as int]);
            if self.node[id].hash == hs && self.node[id].move_cnt == mc {
                return id;
            }
        }
        assert(!t0.hits(hs, mc));
        let ghost free = choose|i: int| 0 <= i < 16384 && (#[trigger] t0.node[i]).is_free();
        let start: usize = (hs % 16384) as usize;
        let mut node_id: usize = start;
        let ghost mut k: nat = 0;
        while self.node[node_id].move_cnt != usize::MAX
            invariant
                self@ == t0,
                self.node@.len() == MAX_NODE_CNT,
                node_id < MAX_NODE_CNT,
                0 <= free < 16384,
                t0.node[free].is_free(),
                k + slot_dist(node_id as int, free) <= 16383,
                t0.slot_for(hs) == t0.probe(node_id as int, (16384 - k) as nat),
            decreases slot_dist(node_id as int, free),
        {
            assert(self.node@[node_id as int]@ == t0.node[node_id as int]);
            node_id = if node_id + 1 < MAX_NODE_CNT {
                node_id + 1
            } else {
                0
            };
            proof {
                k = k + 1;
            }
        }
        assert(self.node@[node_id as int]@ == t0.node[node_id as int]);
        assert(node_id == t0.slot_for(hs));
        self.node_hashs.insert(hs, node_id);
        self.node_cnt += 1;
        let mut nd = Node::new();
        nd.move_cnt = mc;
        nd.hash = hs;
        let mut i: usize = 0;
        proof {
            let none = NodeView::created(hs, mc, branches(order@, cands@, 0));
            assert(nd@.mov =~= none.mov);
            assert(nd@ == none);
        }
        while i < order.len()
            invariant
                i <= order@.len(),
                order@.len() <= BRANCH_CNT,
                forall|j: int| 0 <= j < order@.len() ==> #[trigger] order@[j] <= BVCNT,
                nd@ == NodeView::created(hs, mc, branches(order@, cands@, i as nat)),
                branches(order@, cands@, i as nat).len() <= i,
            decreases order@.len() - i,
        {
            let rv: usize = order[i];
            let ghost sofar = branches(order@, cands@, i as nat);
            if holds(&cands, rv) {
                let at: usize = nd.branch_cnt;
                nd.mov[at] = rv2ev(rv);
                nd.branch_cnt += 1;
                proof {
                    let grown = branches(order@, cands@, (i + 1) as nat);
                    assert(grown == sofar.push(spec_rv2ev(rv as int) as usize));
                    assert(nd@.mov =~= NodeView::created(hs, mc, grown).mov);
                }
            }
            i += 1;
        }
        self.node[node_id] = nd;
        proof {
            let goal = t0.create_node(hs, mc, moves);
            assert(self@.node =~= goal.node);
            assert(self@ == goal);
        }
        node_id
    }
    /// Makes the node of the position on `b` the root of the search.
    /// Returns the root's slot.
    pub fn set_root(&mut self, b: &Board, order: &Vec<usize>) -> (root_id: usize)
        requires
            old(self)@.wf(),
            old(self)@.has_free(),
            old(self)@.node_cnt < usize::MAX,
            b@.shaped(),
            b@.move_cnt < usize::MAX,
            order@.len() <= BRANCH_CNT,
            forall|i: int| 0 <= i < order@.len() ==> #[trigger] order@[i] <= BVCNT,
        ensures
            root_id == old(self)@.node_for(b@.hash(), b@.move_cnt as usize),
            final(self)@ == (TreeView {
                root_id,
                root_move_cnt: b@.move_cnt as usize,
                ..old(self)@.create_node(
                    b@.hash(),
                    b@.move_cnt as usize,
                    branches(order@, b@.candidates(), order@.len()),
                )
            }),
            final(self)@.wf(),
            old(self)@.indexed() && !old(self)@.collides(b@.hash(), b@.move_cnt as usize)
                ==> final(self)@.indexed(),
    {
        let root_id: usize = self.create_node(b, order);
        self.root_id = root_id;
        self.root_move_cnt = b.get_move_cnt();
        root_id
    }

    /// The number of branches of node `id`.
    pub fn branch_cnt(&self, id: usize) -> (r: usize)
        requires
            self@.wf(),
            id < MAX_NODE_CNT,
        ensures
            r == self@.node[id as int].branch_cnt,
            r <= BRANCH_CNT,
    {
        assert(self@.node[id as int].wf());
        self.node[id].branch_cnt
    }

    /// How often node `id` was visited.
    pub fn total_cnt(&self, id: usize) -> (r: usize)
        requires
            self@.wf(),
            id < MAX_NODE_CNT,
        ensures
            r == self@.node[id as int].total_cnt,
    {
        self.node[id].total_cnt
    }

    /// The move count of the position of node `id`, or `usize::MAX` where
    /// the slot is free.
    pub fn node_move_cnt(&self, id: usize) -> (r: usize)
        requires
            self@.wf(),
            id < MAX_NODE_CNT,
        ensures
            r == self@.node[id as int].move_cnt,
    {
        self.node[id].move_cnt
    }

    /// The move of branch `br` of node `id`.
    pub fn mov(&self, id: usize, br: usize) -> (r: usize)
        requires
            self@.wf(),
            id < MAX_NODE_CNT,
            br < BRANCH_CNT,
        ensures
            r == self@.node[id as int].mov[br as int],
    {
        assert(self@.node[id as int].wf());
        self.node[id].mov[br]
    }

    /// How often branch `br` of node `id` was taken.
    pub fn visit_cnt(&self, id: usize, br: usize) -> (r: usize)
        requires
            self@.wf(),
            id < MAX_NODE_CNT,
            br < BRANCH_CNT,
        ensures
            r == self@.node[id as int].visit_cnt[br as int],
    {
        assert(self@.node[id as int].wf());
        self.node[id].visit_cnt[br]
    }

    /// The node that branch `br` of node `id` is linked to, or `usize::MAX`.
    pub fn next_id(&self, id: usize, br: usize) -> (r: usize)
        requires
            self@.wf(),
            id < MAX_NODE_CNT,
            br < BRANCH_CNT,
        ensures
            r == self@.node[id as int].next_id[br as int],
            r == usize::MAX || r < MAX_NODE_CNT,
    {
        assert(self@.node[id as int].wf());
        self.node[id].next_id[br]
    }

    /// Whether the position behind branch `br` of node `id` has been
    /// evaluated.
    pub fn is_evaluated(&self, id: usize, br: usize) -> (r: bool)
        requires
            self@.wf(),
            id < MAX_NODE_CNT,
            br < BRANCH_CNT,
        ensures
            r == self@.node[id as int].evaluated[br as int],
    {
        assert(self@.node[id as int].wf());
        self.node[id].evaluated[br]
    }

    /// Whether branch `br_id` of node `node_id` leads to a node of a
    /// position with the hash recorded in the branch and the move count
    /// `move_cnt`.
    pub fn has_next(&self, node_id: usize, br_id: usize, move_cnt: usize) -> (r: bool)
        requires
            self@.wf(),
            node_id < MAX_NODE_CNT,
            br_id < BRANCH_CNT,
        ensures
            r == self@.has_next(node_id as int, br_id as int, move_cnt as int),
    {
        assert(self@.node[node_id as int].wf());
        let next_id: usize = self.node[node_id].next_id[br_id];
        if next_id == usize::MAX {
            return false;
        }
        assert(self.node@[next_id as int]@ == self@.node[next_id as int]);
        self.node[node_id].next_hash[br_id] == self.node[next_id].hash
            && self.node[next_id].move_cnt == move_cnt
    }

    /// Where the descent goes from node `node_id` on the board `b` when the
    /// branch `best` was selected: the node and the move of the branch, and
    /// whether the descent ends here.
    pub fn descend(&self, b: &Board, node_id: usize, best: usize) -> (r: (usize, usize, bool))
        requires
            self@.wf(),
            node_id < MAX_NODE_CNT,
            best < BRANCH_CNT,
            b@.move_cnt < usize::MAX,
        ensures
            r.0 == self@.node[node_id as int].next_id[best as int],
            r.1 == self@.node[node_id as int].mov[best as int],
            r.2 == self@.is_head(node_id as int, best as int, b@.move_cnt, b@.prev_move),
    {
        assert(self@.node[node_id as int].wf());
        let next_id: usize = self.node[node_id].next_id[best];
        let next_move: usize = self.node[node_id].mov[best];
        let is_head_node: bool = !self.has_next(node_id, best, b.get_move_cnt() + 1)
            || self.node[node_id].visit_cnt[best] < EXPAND_CNT || b.get_move_cnt() > BVCNT * 2 || (
        next_move == PASS && b.get_prev_move() == PASS);
        (next_id, next_move, is_head_node)
    }

    /// Counts one more visit of node `node_id` through its branch `best`.
    pub fn record_visit(&mut self, node_id: usize, best: usize)
        requires
            old(self)@.wf(),
            node_id < MAX_NODE_CNT,
            best < BRANCH_CNT,
            old(self)@.node[node_id as int].total_cnt < usize::MAX,
            old(self)@.node[node_id as int].visit_cnt[best as int] < usize::MAX,
        ensures
            final(self)@ == old(self)@.with_node(
                node_id as int,
                old(self)@.node[node_id as int].visited(best as int),
            ),
            final(self)@.wf(),
            old(self)@.indexed() ==> final(self)@.indexed(),
    {
        let ghost t0 = self@;
        let ghost n0 = t0.node[node_id as int];
        assert(n0.wf());
        assert(self.node@[node_id as int]@ == n0);
        self.node[node_id].total_cnt += 1;
        self.node[node_id].visit_cnt[best] += 1;
        proof {
            let n1 = n0.visited(best as int);
            assert(self.node@[node_id as int]@.visit_cnt =~= n1.visit_cnt);
            assert(self@.node =~= t0.node.update(node_id as int, n1));
            lemma_visited(n0, best as int, 82);
            lemma_with_node(t0, node_id as int, n1);
        }
    }

    /// Records that the position behind branch `child` of node `node_id`,
    /// which is the position on `b`, was evaluated, and expands the branch:
    /// the evaluation is counted and the branch marked, stale nodes are
    /// given up where the pool is getting full, the node of the position is
    /// found or created with its branches in the order `order`, and the
    /// branch is linked to it. Returns the node's slot.
    pub fn expand(&mut self, b: &Board, node_id: usize, child: usize, order: &Vec<usize>) -> (next_id:
        usize)
        requires
            old(self)@.wf(),
            old(self)@.has_free(),
            old(self)@.node_cnt < usize::MAX,
            old(self)@.eval_cnt < usize::MAX,
            node_id < MAX_NODE_CNT,
            child < BRANCH_CNT,
            old(self)@.node[node_id as int].total_cnt + old(self)@.node[node_id as int].visit_cnt[child as int]
                <= usize::MAX,
            b@.shaped(),
            b@.move_cnt < usize::MAX,
            order@.len() <= BRANCH_CNT,
            forall|i: int| 0 <= i < order@.len() ==> #[trigger] order@[i] <= BVCNT,
        ensures
            final(self)@ == old(self)@.expand(
                node_id as int,
                child as int,
                b@.hash(),
                b@.move_cnt as usize,
                branches(order@, b@.candidates(), order@.len()),
            ),
            final(self)@.wf(),
            next_id < MAX_NODE_CNT,
            next_id == final(self)@.node[node_id as int].next_id[child as int],
            final(self)@.node[node_id as int].next_hash[child as int] == b@.hash(),
            old(self)@.indexed() && !old(self)@.collides(b@.hash(), b@.move_cnt as usize)
                ==> final(self)@.indexed(),
    {
        let ghost t0 = self@;
        let ghost n0 = t0.node[node_id as int];
        assert(n0.wf());
        assert(self.node@[node_id as int]@ == n0);
        self.eval_cnt += 1;
        self.node[node_id].evaluated[child] = true;
        let ghost t1 = self@;
        proof {
            let n1 = n0.marked(child as int);
            assert(self.node@[node_id as int]@.evaluated =~= n1.evaluated);
            assert(t1.node =~= t0.node.update(node_id as int, n1));
            lemma_visits_same(n0, n1, 82);
            lemma_with_node(t0, node_id as int, n1);
            assert(t1.has_free()) by {
                let f = choose|i: int| 0 <= i < 16384 && (#[trigger] t0.node[i]).is_free();
                assert(t1.node[f].is_free());
            }
        }
        if self.node_cnt > SWEEP_CNT {
            self.delete_node();
        }
        let ghost t2 = self@;
        let next_id: usize = self.create_node(b, order);
        let ghost t3 = self@;
        let ghost n3 = t3.node[node_id as int];
        proof {
            assert(n3.wf());
            assert(self.node@[node_id as int]@ == n3);
            assert(t2.node[node_id as int] == t1.node[node_id as int] || t2.node[node_id as int]
                == t1.node[node_id as int].emptied());
            assert(n3.total_cnt + n3.visit_cnt[child as int] <= usize::MAX);
        }
        let hash: u64 = b.hash();
        self.node[node_id].next_id[child] = next_id;
        self.node[node_id].next_hash[child] = hash;
        let add: usize = self.node[node_id].visit_cnt[child];
        self.node[node_id].total_cnt += add;
        proof {
            let n4 = n3.linked(child as int, next_id, hash);
            assert(self.node@[node_id as int]@.next_id =~= n4.next_id);
            assert(self.node@[node_id as int]@.next_hash =~= n4.next_hash);
            assert(self@.node =~= t3.node.update(node_id as int, n4));
            lemma_visits_same(n3, n4, 82);
            lemma_with_node(t3, node_id as int, n4);
            if t0.indexed() && !t0.collides(hash, b@.move_cnt as usize) {
                assert(t1.indexed());
                assert(t2.indexed());
                assert(!t2.collides(hash, b@.move_cnt as usize)) by {
                    if t2.node_hashs.contains_key(hash) {
                        assert(t1.node_hashs.contains_key(hash));
                        let j = t1.node_hashs[hash] as int;
                        assert(t0.node_hashs[hash] == j);
                        assert(!t2.node[j].is_free());
                    }
                }
            }
        }
        next_id
    }

    /// Whether the search should go on with playouts, `undecided` saying
    /// that the best branch's win rate is neither very low nor very high:
    /// it should while the root has few visits, and later as long as the
    /// best branch has no more than a hundred times the visits of the second
    /// and the game is undecided.
    pub fn should_search(&self, best: usize, second: usize, undecided: bool) -> (r: bool)
        requires
            self@.wf(),
            best < BRANCH_CNT,
            second < BRANCH_CNT,
        ensures
            r == self@.node[self@.root_id as int].should_search(
                best as int,
                second as int,
                undecided,
            ),
    {
        assert(self@.node[self@.root_id as int].wf());
        assert(self.node@[self.root_id as int]@ == self@.node[self@.root_id as int]);
        let nd: &Node = &self.node[self.root_id];
        if nd.total_cnt <= 5000 {
            return true;
        }
        let few: usize = nd.visit_cnt[second];
        let stands_out: bool = if few > usize::MAX / 100 {
            false
        } else {
            nd.visit_cnt[best] > few * 100
        };
        !stands_out && undecided
    }

    /// The branch of the root whose move is played, `alike` saying that the
    /// values of the two branches have the same sign: the best branch, but
    /// the second where `clean` is set, the best move is to pass and the two
    /// are alike.
    pub fn choose_move(&self, best: usize, second: usize, clean: bool, alike: bool) -> (r: usize)
        requires
            self@.wf(),
            best < BRANCH_CNT,
            second < BRANCH_CNT,
        ensures
            r == self@.node[self@.root_id as int].chosen(best as int, second as int, clean, alike),
    {
        assert(self@.node[self@.root_id as int].wf());
        assert(self.node@[self.root_id as int]@ == self@.node[self@.root_id as int]);
        if clean && self.node[self.root_id].mov[best] == PASS && alike {
            second
        } else {
            best
        }
    }

    /// The two most visited branches of the root.
    pub fn root_best2(&self) -> (r: (usize, usize))
        requires
            self@.wf(),
            self@.node[self@.root_id as int].branch_cnt >= 2,
        ensures
            self@.node[self@.root_id as int].is_best(r.0 as int),
            self@.node[self@.root_id as int].is_second(r.0 as int, r.1 as int),
    {
        assert(self@.node[self@.root_id as int].wf());
        assert(self.node@[self.root_id as int]@ == self@.node[self@.root_id as int]);
        self.node[self.root_id].best2()
    }
    /// Begins a search at the position on `b`: the node of the position
    /// becomes the root. Where the root has no more than one branch, there
    /// is nothing to search and `None` is returned. Else stale nodes are
    /// given up, and the two most visited branches of the root are
    /// returned.
    pub fn begin_search(&mut self, b: &Board, order: &Vec<usize>) -> (r: Option<(usize, usize)>)
        requires
            old(self)@.wf(),
            old(self)@.has_free(),
            old(self)@.node_cnt < usize::MAX,
            b@.shaped(),
            b@.move_cnt < usize::MAX,
            order@.len() <= BRANCH_CNT,
            forall|i: int| 0 <= i < order@.len() ==> #[trigger] order@[i] <= BVCNT,
        ensures
            final(self)@ == old(self)@.begin_search(
                b@.hash(),
                b@.move_cnt as usize,
                branches(order@, b@.candidates(), order@.len()),
            ),
            final(self)@.wf(),
            final(self)@.root_id == old(self)@.node_for(b@.hash(), b@.move_cnt as usize),
            match r {
                Some(pair) => final(self)@.node[final(self)@.root_id as int].branch_cnt > 1
                    && final(self)@.node[final(self)@.root_id as int].is_best(pair.0 as int)
                    && final(self)@.node[final(self)@.root_id as int].is_second(
                    pair.0 as int,
                    pair.1 as int,
                ),
                None => final(self)@.node[final(self)@.root_id as int].branch_cnt <= 1,
            },
            old(self)@.indexed() && !old(self)@.collides(b@.hash(), b@.move_cnt as usize)
                ==> final(self)@.indexed(),
    {
        let root_id: usize = self.set_root(b, order);
        assert(self@.node[root_id as int].wf());
        assert(self.node@[root_id as int]@ == self@.node[root_id as int]);
        if self.node[root_id].branch_cnt <= 1 {
            return None;
        }
        let ghost t = self@;
        self.delete_node();
        proof {
            assert(!t.stale(root_id as int));
            assert(self@.node[root_id as int] == t.node[root_id as int]);
        }
        Some(self.root_best2())
    }

    /// The moves of the line that the most visited branches lead through
    /// from node `node_id` on, after the move `head_move` that led to the
    /// node: `head_move` first, then no more than seven moves.
    pub fn best_sequence(&self, node_id: usize, head_move: usize) -> (r: Vec<usize>)
        requires
            self@.wf(),
            node_id < MAX_NODE_CNT,
        ensures
            r@ == seq![head_move] + self@.line(node_id as int, head_move, 7),
    {
        let mut seq: Vec<usize> = Vec::new();
        seq.push(head_move);
        let mut node_id: usize = node_id;
        let mut next_move: usize = head_move;
        let ghost goal = seq![head_move] + self@.line(node_id as int, head_move, 7);
        let mut left: usize = 7;
        while left > 0
            invariant_except_break
                goal == seq@ + self@.line(node_id as int, next_move, left as nat),
            invariant
                self@.wf(),
                node_id < MAX_NODE_CNT,
                left <= 7,
            ensures
                goal == seq@,
            decreases left,
        {
            assert(self@.node[node_id as int].wf());
            assert(self.node@[node_id as int]@ == self@.node[node_id as int]);
            let nd: &Node = &self.node[node_id];
            let ghost here = self@.line(node_id as int, next_move, left as nat);
            if next_move == PASS || nd.branch_cnt < 1 {
                assert(here =~= Seq::<usize>::empty());
                assert(seq@ + here =~= seq@);
                break;
            }
            let counts: &[usize] = slice_subrange(nd.visit_cnt.as_slice(), 0, nd.branch_cnt);
            let best: usize = argmax(counts);
            assert(best == self@.favourite(node_id as int));
            if nd.visit_cnt[best] == 0 {
                assert(here =~= Seq::<usize>::empty());
                assert(seq@ + here =~= seq@);
                break;
            }
            let ghost before = seq@;
            next_move = nd.mov[best];
            seq.push(next_move);
            if nd.move_cnt == usize::MAX || !self.has_next(node_id, best, nd.move_cnt + 1) {
                assert(here =~= seq![next_move]);
                assert(before + here =~= seq@);
                break;
            }
            let ghost rest = self@.line(nd.next_id[best as int] as int, next_move, (left - 1) as nat);
            assert(here =~= seq![next_move] + rest);
            assert(before + here =~= seq@ + rest);
            node_id = nd.next_id[best];
            left -= 1;
            proof {
                if left == 0 {
                    assert(rest =~= Seq::<usize>::empty());
                    assert(seq@ + rest =~= seq@);
                }
            }
        }
        seq
    }
    /// The branches of node `node_id` that a report shows: no more than
    /// nine, by falling visits, and none without visits.
    pub fn top_branches(&self, node_id: usize) -> (r: Vec<usize>)
        requires
            self@.wf(),
            node_id < MAX_NODE_CNT,
        ensures
            r@.len() <= 9,
            exists|order: Seq<usize>|
                {
                    &&& is_permutation(order, self@.node[node_id as int].branch_cnt as nat)
                    &&& forall|i: int|
                        0 <= i < order.len() - 1 ==> in_order(
                            self@.node[node_id as int].visit_cnt.subrange(
                                0,
                                self@.node[node_id as int].branch_cnt as int,
                            ),
                            #[trigger] order[i] as int,
                            order[i + 1] as int,
                            true,
                        )
                    &&& r@ == self@.shown(
                        node_id as int,
                        order,
                        if order.len() < 9 { order.len() } else { 9 },
                    )
                },
    {
        assert(self@.node[node_id as int].wf());
        assert(self.node@[node_id as int]@ == self@.node[node_id as int]);
        let nd: &Node = &self.node[node_id];
        let counts: &[usize] = slice_subrange(nd.visit_cnt.as_slice(), 0, nd.branch_cnt);
        let order_: Vec<usize> = argsort(counts, true);
        let n: usize = if order_.len() < 9 {
            order_.len()
        } else {
            9
        };
        let mut out: Vec<usize> = Vec::new();
        let mut i: usize = 0;
        while i < n
            invariant_except_break
                out@.len() == i,
            invariant
                i <= n,
                n <= 9,
                out@.len() <= i,
                n <= order_@.len(),
                self@.wf(),
                node_id < MAX_NODE_CNT,
                nd@ == self@.node[node_id as int],
                is_permutation(order_@, nd@.branch_cnt as nat),
                out@ == self@.shown(node_id as int, order_@, i as nat),
            ensures
                out@ == self@.shown(node_id as int, order_@, n as nat),
                out@.len() <= 9,
            decreases n - i,
        {
            let m: usize = order_[i];
            assert(m < nd@.branch_cnt);
            if nd.visit_cnt[m] == 0 {
                proof {
                    lemma_shown_stops(self@, node_id as int, order_@, i as nat, n as nat);
                }
                break;
            }
            out.push(m);
            i += 1;
        }
        out
    }
}

/// A tree without nodes is well-formed and indexed, and all its slots are
/// free.
pub proof fn lemma_empty_wf()
    ensures
        TreeView::empty().wf(),
        TreeView::empty().indexed(),
        TreeView::empty().has_free(),
{
    let t = TreeView::empty();
    assert(t.node[0].is_free());
    assert forall|i: int| 0 <= i < 16384 implies (#[trigger] t.node[i]).wf() by {}
}

/// Sweeping keeps a tree well-formed and indexed, frees the slots of the
/// stale nodes and fills none.
pub proof fn lemma_swept(t: TreeView, n: int)
    requires
        t.wf(),
        0 <= n <= 16384,
    ensures
        t.swept(n).wf(),
        t.indexed() ==> t.swept(n).indexed(),
        t.has_free() ==> t.swept(n).has_free(),
        (exists|i: int| 0 <= i < n && t.stale(i)) ==> t.swept(n).has_free(),
{
    let s = t.swept(n);
    assert forall|i: int| 0 <= i < 16384 implies (#[trigger] s.node[i]).wf() by {
        assert(t.node[i].wf());
    }
    assert forall|h: u64| s.node_hashs.contains_key(h) implies #[trigger] s.node_hashs[h]
        < 16384 by {
        assert(t.node_hashs.contains_key(h));
        assert(t.node_hashs[h] < 16384);
    }
    if t.indexed() {
        assert forall|i: int|
            0 <= i < 16384 && !(#[trigger] s.node[i]).is_free() implies s.node_hashs.contains_key(
            s.node[i].hash,
        ) && s.node_hashs[s.node[i].hash] == i by {
            assert(!t.node[i].is_free());
            let h = t.node[i].hash;
            if t.stale_hash(h, n) {
                let j = choose|j: int| 0 <= j < n && #[trigger] t.stale(j) && t.node[j].hash == h;
                assert(!t.node[j].is_free());
            }
        }
        assert forall|h: u64| s.node_hashs.contains_key(h) implies !s.node[#[trigger] s.node_hashs[h] as int].is_free()
            && s.node[s.node_hashs[h] as int].hash == h by {
            assert(t.node_hashs.contains_key(h));
            let j = t.node_hashs[h] as int;
            assert(!t.node[j].is_free());
            if j < n && t.stale(j) {
                assert(t.stale_hash(h, n));
            }
        }
    }
    if t.has_free() {
        let i = choose|i: int| 0 <= i < 16384 && (#[trigger] t.node[i]).is_free();
        assert(s.node[i].is_free());
    }
    if exists|i: int| 0 <= i < n && t.stale(i) {
        let i = choose|i: int| 0 <= i < n && t.stale(i);
        assert(s.node[i].is_free());
    }
}

/// How many slots lie between `s` and `f` in the ring of the pool.
pub open spec fn slot_dist(s: int, f: int) -> int {
    if f >= s { f - s } else { f + 16384 - s }
}

/// No more moves come out of an order than it has entries.
pub proof fn lemma_branches_len(order: Seq<usize>, cands: Seq<usize>, n: nat)
    ensures
        branches(order, cands, n).len() <= n,
    decreases n,
{
    if n > 0 {
        lemma_branches_len(order, cands, (n - 1) as nat);
    }
}

/// Branches without visits have no visits together.
pub proof fn lemma_no_visits(nd: NodeView, n: nat)
    requires
        n <= nd.visit_cnt.len(),
        forall|i: int| 0 <= i < n ==> #[trigger] nd.visit_cnt[i] == 0,
    ensures
        nd.visits(n) == 0,
    decreases n,
{
    if n > 0 {
        lemma_no_visits(nd, (n - 1) as nat);
    }
}

/// Where a slot is free within reach, the probe ends on a free slot.
pub proof fn lemma_probe(t: TreeView, s: int, k: nat, f: int)
    requires
        t.node.len() == 16384,
        0 <= s < 16384,
        0 <= f < 16384,
        t.node[f].is_free(),
        slot_dist(s, f) < k,
    ensures
        0 <= t.probe(s, k) < 16384,
        t.node[t.probe(s, k)].is_free(),
    decreases k,
{
    if !t.node[s].is_free() {
        lemma_probe(t, next_slot(s), (k - 1) as nat, f);
    }
}

/// Asking for a node keeps a tree well-formed. A node that is created takes
/// a free slot; and where the map did not lead to another position under
/// the hash, the map still leads from every node's hash to its slot and to
/// nothing else.
pub proof fn lemma_create(t: TreeView, hash: u64, move_cnt: usize, moves: Seq<usize>)
    requires
        t.wf(),
        t.has_free(),
        move_cnt < usize::MAX,
        moves.len() <= 82,
    ensures
        t.create_node(hash, move_cnt, moves).wf(),
        0 <= t.node_for(hash, move_cnt) < 16384,
        0 <= t.slot_for(hash) < 16384,
        t.node[t.slot_for(hash)].is_free(),
        t.indexed() && !t.collides(hash, move_cnt) ==> t.create_node(hash, move_cnt, moves).indexed(),
        !t.create_node(hash, move_cnt, moves).node[t.node_for(hash, move_cnt)].is_free(),
        t.create_node(hash, move_cnt, moves).node[t.node_for(hash, move_cnt)].hash == hash,
        t.create_node(hash, move_cnt, moves).node[t.node_for(hash, move_cnt)].move_cnt == move_cnt,
{
    let f = choose|i: int| 0 <= i < 16384 && (#[trigger] t.node[i]).is_free();
    lemma_probe(t, (hash % 16384) as int, 16384, f);
    let c = t.create_node(hash, move_cnt, moves);
    let id = t.slot_for(hash);
    if t.hits(hash, move_cnt) {
        assert(t.node_hashs[hash] < 16384);
    } else {
        let nd = NodeView::created(hash, move_cnt, moves);
        lemma_no_visits(nd, 82);
        assert(nd.wf());
        assert forall|i: int| 0 <= i < 16384 implies (#[trigger] c.node[i]).wf() by {
            assert(t.node[i].wf());
        }
        assert forall|h: u64| c.node_hashs.contains_key(h) implies #[trigger] c.node_hashs[h]
            < 16384 by {
            if h != hash {
                assert(t.node_hashs.contains_key(h));
                assert(t.node_hashs[h] < 16384);
            }
        }
        if t.indexed() && !t.collides(hash, move_cnt) {
            assert(!t.node_hashs.contains_key(hash));
            assert forall|i: int|
                0 <= i < 16384 && !(#[trigger] c.node[i]).is_free() implies c.node_hashs.contains_key(
                c.node[i].hash,
            ) && c.node_hashs[c.node[i].hash] == i by {
                if i != id {
                    assert(!t.node[i].is_free());
                }
            }
            assert forall|h: u64| c.node_hashs.contains_key(h) implies !c.node[#[trigger] c.node_hashs[h] as int].is_free()
                && c.node[c.node_hashs[h] as int].hash == h by {
                if h != hash {
                    assert(t.node_hashs.contains_key(h));
                    let j = t.node_hashs[h] as int;
                    assert(!t.node[j].is_free());
                }
            }
        }
    }
}

/// The visits of the first `n` branches depend on the visit counts alone.
pub proof fn lemma_visits_same(a: NodeView, b: NodeView, n: nat)
    requires
        a.visit_cnt == b.visit_cnt,
    ensures
        a.visits(n) == b.visits(n),
    decreases n,
{
    if n > 0 {
        lemma_visits_same(a, b, (n - 1) as nat);
    }
}

/// One more visit of branch `b` is one more visit of the branches
/// together.
pub proof fn lemma_visited(nd: NodeView, b: int, n: nat)
    requires
        0 <= b < nd.visit_cnt.len(),
        n <= nd.visit_cnt.len(),
        nd.visit_cnt[b] < usize::MAX,
    ensures
        nd.visited(b).visits(n) == nd.visits(n) + if b < n { 1nat } else { 0nat },
    decreases n,
{
    if n > 0 {
        lemma_visited(nd, b, (n - 1) as nat);
    }
}

/// Replacing a node by a well-formed one that keeps its place in the map
/// keeps the tree well-formed and indexed.
pub proof fn lemma_with_node(t: TreeView, id: int, nd: NodeView)
    requires
        t.wf(),
        0 <= id < 16384,
        nd.mov.len() == 82,
        nd.visit_cnt.len() == 82,
        nd.next_id.len() == 82,
        nd.next_hash.len() == 82,
        nd.evaluated.len() == 82,
        nd.branch_cnt <= 82,
        forall|b: int|
            0 <= b < 82 ==> (#[trigger] nd.next_id[b]) == usize::MAX || nd.next_id[b] < 16384,
        !nd.is_free() ==> nd.total_cnt >= nd.visits(82),
    ensures
        t.with_node(id, nd).wf(),
        t.indexed() && nd.hash == t.node[id].hash && nd.move_cnt == t.node[id].move_cnt
            ==> t.with_node(id, nd).indexed(),
{
    let u = t.with_node(id, nd);
    assert forall|i: int| 0 <= i < 16384 implies (#[trigger] u.node[i]).wf() by {
        assert(t.node[i].wf());
    }
    if t.indexed() && nd.hash == t.node[id].hash && nd.move_cnt == t.node[id].move_cnt {
        assert forall|i: int|
            0 <= i < 16384 && !(#[trigger] u.node[i]).is_free() implies u.node_hashs.contains_key(
            u.node[i].hash,
        ) && u.node_hashs[u.node[i].hash] == i by {
            assert(!t.node[i].is_free());
        }
        assert forall|h: u64| u.node_hashs.contains_key(h) implies !u.node[#[trigger] u.node_hashs[h] as int].is_free()
            && u.node[u.node_hashs[h] as int].hash == h by {
            let j = t.node_hashs[h] as int;
            assert(!t.node[j].is_free());
        }
    }
}

/// The divisor of the time that is left at move `move_cnt`.
pub fn move_time_divisor(move_cnt: usize) -> (r: usize)
    ensures
        r == time_divisor(move_cnt as nat),
{
    if move_cnt < 50 {
        105 - move_cnt
    } else {
        55
    }
}

/// The exploration constant of a search at move `move_cnt`, in hundredths.
pub fn tree_cp_percent(move_cnt: usize) -> (r: usize)
    ensures
        r == cp_percent(move_cnt as nat),
{
    if move_cnt < 8 {
        1
    } else {
        150
    }
}

/// Behind the first branch without visits a report shows nothing more.
pub proof fn lemma_shown_stops(t: TreeView, id: int, order: Seq<usize>, i: nat, n: nat)
    requires
        i < n,
        t.shown(id, order, i).len() <= i,
        t.node[id].visit_cnt[order[i as int] as int] == 0,
    ensures
        t.shown(id, order, n) == t.shown(id, order, i),
    decreases n - i,
{
    if n > i + 1 {
        lemma_shown_stops(t, id, order, i, (n - 1) as nat);
    }
}

/// Whether the clock is looked at after `playouts` playouts.
pub fn is_poll_due(playouts: usize) -> (r: bool)
    ensures
        r == poll_due(playouts as nat),
{
    playouts % 64 == 0
}

} // verus!
