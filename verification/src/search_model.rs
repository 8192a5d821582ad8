//! The mathematical model of the search tree: a pool of nodes addressed by
//! position hash, with the visit counts of each node's branches.

use vstd::prelude::*;
use crate::constants::{PASS, VNULL};
use crate::coord_convert::spec_rv2ev;
use crate::numpy::argmax_upto;

verus! {

/// The content of one node.
pub struct NodeView {
    /// The move of each branch.
    pub mov: Seq<usize>,
    /// How often each branch was taken.
    pub visit_cnt: Seq<usize>,
    /// The node that each branch leads to, or `usize::MAX`.
    pub next_id: Seq<usize>,
    /// The hash of the position that each branch leads to.
    pub next_hash: Seq<u64>,
    /// Whether the position behind each branch has been evaluated.
    pub evaluated: Seq<bool>,
    pub branch_cnt: usize,
    pub total_cnt: usize,
    pub hash: u64,
    /// The move count of the node's position, or `usize::MAX` in a free slot.
    pub move_cnt: usize,
}

impl NodeView {
    /// The slot holds no node.
    pub open spec fn is_free(self) -> bool {
        self.move_cnt == usize::MAX
    }

    /// The visits of the first `n` branches together.
    pub open spec fn visits(self, n: nat) -> nat
        decreases n,
    {
        if n == 0 {
            0
        } else {
            self.visits((n - 1) as nat) + self.visit_cnt[n - 1] as nat
        }
    }

    /// Every branch array has a place for each playable point and for the
    /// pass move, links stay in the pool, and a node in use has been visited
    /// at least as often as its branches together.
    pub open spec fn wf(self) -> bool {
        &&& self.mov.len() == 82
        &&& self.visit_cnt.len() == 82
        &&& self.next_id.len() == 82
        &&& self.next_hash.len() == 82
        &&& self.evaluated.len() == 82
        &&& self.branch_cnt <= 82
        &&& forall|b: int|
            0 <= b < 82 ==> (#[trigger] self.next_id[b]) == usize::MAX || self.next_id[b] < 16384
        &&& !self.is_free() ==> self.total_cnt >= self.visits(82)
    }

    /// The node with its branches reset: no moves, no visits, no links.
    pub open spec fn blank(self) -> NodeView {
        NodeView {
            mov: Seq::new(82, |i: int| VNULL),
            visit_cnt: Seq::new(82, |i: int| 0usize),
            next_id: Seq::new(82, |i: int| usize::MAX),
            next_hash: Seq::new(82, |i: int| 0u64),
            evaluated: Seq::new(82, |i: int| false),
            ..self
        }
    }

    /// The node with its slot given up; the branch arrays stay as they are.
    pub open spec fn emptied(self) -> NodeView {
        NodeView { branch_cnt: 0, total_cnt: 0, hash: 0, move_cnt: usize::MAX, ..self }
    }

    /// A free slot with blank branches.
    pub open spec fn unused() -> NodeView {
        NodeView {
            mov: Seq::empty(),
            visit_cnt: Seq::empty(),
            next_id: Seq::empty(),
            next_hash: Seq::empty(),
            evaluated: Seq::empty(),
            branch_cnt: 0,
            total_cnt: 0,
            hash: 0,
            move_cnt: usize::MAX,
        }.blank()
    }

    /// A fresh node for a position with the given hash and move count whose
    /// branches are `moves`, in that order.
    pub open spec fn created(hash: u64, move_cnt: usize, moves: Seq<usize>) -> NodeView {
        NodeView {
            mov: Seq::new(82, |i: int| if i < moves.len() { moves[i] } else { VNULL }),
            branch_cnt: moves.len() as usize,
            hash,
            move_cnt,
            ..NodeView::unused()
        }
    }

    /// The node after branch `b` was taken once more.
    pub open spec fn visited(self, b: int) -> NodeView {
        NodeView {
            total_cnt: (self.total_cnt + 1) as usize,
            visit_cnt: self.visit_cnt.update(b, (self.visit_cnt[b] + 1) as usize),
            ..self
        }
    }

    /// The node after the position behind branch `b` was marked as
    /// evaluated.
    pub open spec fn marked(self, b: int) -> NodeView {
        NodeView { evaluated: self.evaluated.update(b, true), ..self }
    }

    /// The node after branch `b` was linked to the node `next_id` of a
    /// position with hash `next_hash`; the visits that the branch has had
    /// are added to the node's total.
    pub open spec fn linked(self, b: int, next_id: usize, next_hash: u64) -> NodeView {
        NodeView {
            next_id: self.next_id.update(b, next_id),
            next_hash: self.next_hash.update(b, next_hash),
            total_cnt: (self.total_cnt + self.visit_cnt[b]) as usize,
            ..self
        }
    }

    /// `b` is the most visited branch, the first one among equals.
    pub open spec fn is_best(self, b: int) -> bool {
        &&& 0 <= b < self.branch_cnt
        &&& forall|c: int|
            0 <= c < self.branch_cnt ==> #[trigger] self.visit_cnt[c] <= self.visit_cnt[b]
        &&& forall|c: int| 0 <= c < b ==> #[trigger] self.visit_cnt[c] < self.visit_cnt[b]
    }

    /// `s` is the most visited branch but for `b`, the first one among
    /// equals.
    pub open spec fn is_second(self, b: int, s: int) -> bool {
        &&& 0 <= s < self.branch_cnt
        &&& s != b
        &&& forall|c: int|
            0 <= c < self.branch_cnt && c != b ==> #[trigger] self.visit_cnt[c]
                <= self.visit_cnt[s]
        &&& forall|c: int|
            0 <= c < s && c != b ==> #[trigger] self.visit_cnt[c] < self.visit_cnt[s]
    }

    /// Whether more playouts are worth their time: the node has few visits
    /// yet, or the best branch does not stand out against the second and
    /// the game is not decided.
    pub open spec fn should_search(self, best: int, second: int, undecided: bool) -> bool {
        self.total_cnt <= 5000 || (self.visit_cnt[best] <= self.visit_cnt[second] * 100
            && undecided)
    }

    /// The branch whose move is played: the best one, but the second where
    /// dead stones are to be cleaned up, the best move is to pass and both
    /// branches look alike to the side to move.
    pub open spec fn chosen(self, best: int, second: int, clean: bool, alike: bool) -> int {
        if clean && self.mov[best] == PASS && alike { second } else { best }
    }
}

/// The moves of the first `n` entries of `order` that are candidates, in
/// the order of `order`.
pub open spec fn branches(order: Seq<usize>, cands: Seq<usize>, n: nat) -> Seq<usize>
    decreases n,
{
    if n == 0 {
        Seq::empty()
    } else {
        let rest = branches(order, cands, (n - 1) as nat);
        if cands.contains(order[n - 1]) {
            rest.push(spec_rv2ev(order[n - 1] as int) as usize)
        } else {
            rest
        }
    }
}

/// The slot after `s` in the pool, which is a ring.
pub open spec fn next_slot(s: int) -> int {
    if s + 1 < 16384 { s + 1 } else { 0 }
}

/// The exploration constant of a search from a position with the given
/// move count, in hundredths: small in the opening, so that the search
/// follows the priors, and one and a half later.
pub open spec fn cp_percent(move_cnt: nat) -> nat {
    if move_cnt < 8 { 1 } else { 150 }
}

/// Whether the clock is looked at after `playouts` playouts: after every
/// 64th.
pub open spec fn poll_due(playouts: nat) -> bool {
    playouts % 64 == 0
}

/// The divisor of the time that is left: 55 moves are always reckoned
/// with, and before move 50 as many more as are missing to it.
pub open spec fn time_divisor(move_cnt: nat) -> nat {
    if move_cnt < 50 { (105 - move_cnt) as nat } else { 55 }
}

/// Everything a tree holds.
pub struct TreeView {
    pub node: Seq<NodeView>,
    /// Nodes created since the tree was cleared.
    pub node_cnt: nat,
    pub root_id: usize,
    pub root_move_cnt: usize,
    /// The slot of the node of each position hash.
    pub node_hashs: Map<u64, usize>,
    /// Evaluations since the last search began.
    pub eval_cnt: nat,
}

impl TreeView {
    /// A tree without nodes.
    pub open spec fn empty() -> TreeView {
        TreeView {
            node: Seq::new(16384, |i: int| NodeView::unused()),
            node_cnt: 0,
            root_id: 0,
            root_move_cnt: 0,
            node_hashs: Map::empty(),
            eval_cnt: 0,
        }
    }

    /// The pool has its size, every node is well-formed, and the map and the
    /// root lead into the pool.
    pub open spec fn wf(self) -> bool {
        &&& self.node.len() == 16384
        &&& forall|i: int| 0 <= i < 16384 ==> (#[trigger] self.node[i]).wf()
        &&& forall|h: u64| self.node_hashs.contains_key(h) ==> #[trigger] self.node_hashs[h] < 16384
        &&& self.root_id < 16384
    }

    /// Some slot is free.
    pub open spec fn has_free(self) -> bool {
        exists|i: int| 0 <= i < 16384 && (#[trigger] self.node[i]).is_free()
    }

    /// The map leads from the hash of every node in use to its slot, and to
    /// nothing else.
    pub open spec fn indexed(self) -> bool {
        &&& forall|i: int|
            0 <= i < 16384 && !(#[trigger] self.node[i]).is_free() ==> self.node_hashs.contains_key(
                self.node[i].hash,
            ) && self.node_hashs[self.node[i].hash] == i
        &&& forall|h: u64|
            self.node_hashs.contains_key(h) ==> !self.node[#[trigger] self.node_hashs[h] as int].is_free()
                && self.node[self.node_hashs[h] as int].hash == h
    }

    /// The map knows a node for the hash, and that node is of the position
    /// with this hash and move count.
    pub open spec fn hits(self, hash: u64, move_cnt: usize) -> bool {
        &&& self.node_hashs.contains_key(hash)
        &&& self.node[self.node_hashs[hash] as int].hash == hash
        &&& self.node[self.node_hashs[hash] as int].move_cnt == move_cnt
    }

    /// The map knows a node for the hash, but that node is of another
    /// position.
    pub open spec fn collides(self, hash: u64, move_cnt: usize) -> bool {
        self.node_hashs.contains_key(hash) && !self.hits(hash, move_cnt)
    }

    /// The first free slot from `s` on, looking at no more than `k` slots.
    pub open spec fn probe(self, s: int, k: nat) -> int
        decreases k,
    {
        if k == 0 || self.node[s].is_free() {
            s
        } else {
            self.probe(next_slot(s), (k - 1) as nat)
        }
    }

    /// The slot that a new node for a position with this hash gets.
    pub open spec fn slot_for(self, hash: u64) -> int {
        self.probe((hash % 16384) as int, 16384)
    }

    /// The slot of the node for the position after `create_node`.
    pub open spec fn node_for(self, hash: u64, move_cnt: usize) -> int {
        if self.hits(hash, move_cnt) {
            self.node_hashs[hash] as int
        } else {
            self.slot_for(hash)
        }
    }

    /// The tree after a node for the position was asked for: nothing changes
    /// where the map hits; else a fresh node with the branches `moves` takes
    /// the first free slot from the hash's own on, and the map records it.
    pub open spec fn create_node(self, hash: u64, move_cnt: usize, moves: Seq<usize>) -> TreeView {
        if self.hits(hash, move_cnt) {
            self
        } else {
            let id = self.slot_for(hash);
            TreeView {
                node: self.node.update(id, NodeView::created(hash, move_cnt, moves)),
                node_hashs: self.node_hashs.insert(hash, id as usize),
                node_cnt: self.node_cnt + 1,
                ..self
            }
        }
    }

    /// The node in slot `i` lies behind the root's position.
    pub open spec fn stale(self, i: int) -> bool {
        self.node[i].move_cnt < usize::MAX && self.node[i].move_cnt < self.root_move_cnt
    }

    /// `h` is the hash of a stale node among the first `n` slots.
    pub open spec fn stale_hash(self, h: u64, n: int) -> bool {
        exists|i: int| 0 <= i < n && #[trigger] self.stale(i) && self.node[i].hash == h
    }

    /// The tree with the stale nodes among the first `n` slots given up and
    /// their hashes struck from the map.
    pub open spec fn swept(self, n: int) -> TreeView {
        TreeView {
            node: Seq::new(
                16384,
                |i: int| if i < n && self.stale(i) { self.node[i].emptied() } else { self.node[i] },
            ),
            node_hashs: self.node_hashs.remove_keys(Set::new(|h: u64| self.stale_hash(h, n))),
            ..self
        }
    }

    /// The tree after `delete_node`: untouched while fewer than half as many
    /// nodes as the pool has slots were created, else swept.
    pub open spec fn delete_node(self) -> TreeView {
        if self.node_cnt < 8192 { self } else { self.swept(16384) }
    }

    /// Branch `br` of node `id` leads to a node of the expected position:
    /// the link is set, and the node it names has the hash recorded with the
    /// link and the move count `move_cnt`.
    pub open spec fn has_next(self, id: int, br: int, move_cnt: int) -> bool {
        let next = self.node[id].next_id[br];
        &&& next < usize::MAX
        &&& self.node[id].next_hash[br] == self.node[next as int].hash
        &&& self.node[next as int].move_cnt == move_cnt
    }

    /// The descent ends at branch `best` of node `id`, for a board with the
    /// given move count and last move: no node of the next position is
    /// linked, or the branch has been taken too rarely to go deeper, or the
    /// game is too long, or the branch passes after a pass.
    pub open spec fn is_head(self, id: int, best: int, move_cnt: nat, prev_move: usize) -> bool {
        ||| !self.has_next(id, best, (move_cnt + 1) as int)
        ||| self.node[id].visit_cnt[best] < 8
        ||| move_cnt > 162
        ||| (self.node[id].mov[best] == PASS && prev_move == PASS)
    }

    /// The most visited branch of node `id`, the first one among equals.
    pub open spec fn favourite(self, id: int) -> int {
        let nd = self.node[id];
        argmax_upto(nd.visit_cnt.subrange(0, nd.branch_cnt as int), nd.branch_cnt as nat)
    }

    /// The moves that the most visited branches lead through from node `id`
    /// on, no more than `fuel` of them, `last` being the move that led to
    /// the node. The line ends after a pass, at a node without branches or
    /// visits, and where a branch is not linked to a node of the next
    /// position.
    pub open spec fn line(self, id: int, last: usize, fuel: nat) -> Seq<usize>
        decreases fuel,
    {
        let nd = self.node[id];
        let best = self.favourite(id);
        if fuel == 0 || last == PASS || nd.branch_cnt < 1 || nd.visit_cnt[best] == 0 {
            Seq::empty()
        } else if !self.has_next(id, best, nd.move_cnt + 1) {
            seq![nd.mov[best]]
        } else {
            seq![nd.mov[best]] + self.line(
                nd.next_id[best] as int,
                nd.mov[best],
                (fuel - 1) as nat,
            )
        }
    }

    /// The branches of node `id` that a report shows, `order` being the
    /// branches by falling visits: those of the first `n` places, up to the
    /// first one without visits.
    pub open spec fn shown(self, id: int, order: Seq<usize>, n: nat) -> Seq<usize>
        decreases n,
    {
        if n == 0 {
            Seq::empty()
        } else {
            let before = self.shown(id, order, (n - 1) as nat);
            if before.len() == n - 1 && self.node[id].visit_cnt[order[n - 1] as int] > 0 {
                before.push(order[n - 1])
            } else {
                before
            }
        }
    }

    /// The tree after a search was begun at a position with the given hash,
    /// move count and branches: the node of the position is the root, and
    /// where it has more than one branch, stale nodes were given up.
    pub open spec fn begin_search(self, hash: u64, move_cnt: usize, moves: Seq<usize>) -> TreeView {
        let t = TreeView {
            root_id: self.node_for(hash, move_cnt) as usize,
            root_move_cnt: move_cnt,
            ..self.create_node(hash, move_cnt, moves)
        };
        if t.node[t.root_id as int].branch_cnt <= 1 { t } else { t.delete_node() }
    }

    /// The tree with node `id` replaced by `nd`.
    pub open spec fn with_node(self, id: int, nd: NodeView) -> TreeView {
        TreeView { node: self.node.update(id, nd), ..self }
    }

    /// The tree after the position behind branch `child` of node `id` was
    /// evaluated and expanded: the evaluation is counted and the branch
    /// marked, stale nodes are given up where more nodes were created than
    /// 85 in 100 of the pool's slots, a node for the position with the given
    /// hash, move count and branches is found or created, and the branch is
    /// linked to it.
    pub open spec fn expand(
        self,
        id: int,
        child: int,
        hash: u64,
        move_cnt: usize,
        moves: Seq<usize>,
    ) -> TreeView {
        let t1 = TreeView { eval_cnt: self.eval_cnt + 1, ..self }.with_node(
            id,
            self.node[id].marked(child),
        );
        let t2 = if t1.node_cnt > 13926 { t1.delete_node() } else { t1 };
        let t3 = t2.create_node(hash, move_cnt, moves);
        let next = t2.node_for(hash, move_cnt) as usize;
        t3.with_node(id, t3.node[id].linked(child, next, hash))
    }
}

} // verus!
