//! The mathematical model of a position.
//!
//! [`BoardView`] is what a [`crate::board::Board`] holds, as sequences and
//! sets. The invariants of a position and the effect of every operation are
//! stated here as functions on that view; the executable board is proved to
//! follow them.

use std::collections::hash_map::DefaultHasher;
use vstd::prelude::*;
use vstd::std_specs::hash::DefaultHasherAdditionalSpecFns;
use crate::constants::{PASS, VNULL};
use crate::coord_convert::{on_board, spec_ev2rv, spec_rv2ev};
use crate::intersection::{Color, Intersection};
use crate::stone_group::GroupView;

verus! {

/// The position after `p` in a ring of `n` positions.
pub open spec fn succ(p: nat, n: nat) -> nat {
    if p + 1 >= n { 0 } else { p + 1 }
}

/// How far position `p` lies behind position `from` in a ring of `n`.
pub open spec fn ring_dist(from: nat, p: nat, n: nat) -> nat {
    if p >= from { (p - from) as nat } else { (p + n - from) as nat }
}

/// The vertex reached from `v` by following `next` for `k` steps.
pub open spec fn walk(next: Seq<usize>, v: int, k: nat) -> int
    decreases k,
{
    if k == 0 { v } else { walk(next, next[v] as int, (k - 1) as nat) }
}

/// `x` and `y` are neighbours.
pub open spec fn adjacent(x: int, y: int) -> bool {
    y == x + 1 || y == x - 1 || y == x + 11 || y == x - 11
}

/// The cells of a bordered board without stones.
pub open spec fn empty_cells() -> Seq<Intersection> {
    Seq::new(
        121,
        |v: int| if on_board(v) { Intersection::Empty } else { Intersection::Exterior },
    )
}

/// The cells as bytes, one for each vertex: the numeric code of what it
/// holds.
pub open spec fn encode(cells: Seq<Intersection>) -> Seq<u8> {
    Seq::new(cells.len(), |i: int| cells[i].spec_to_usize() as u8)
}

/// Everything a board holds.
pub struct BoardView {
    /// Content of each vertex of the bordered board.
    pub state: Seq<Intersection>,
    /// The representative vertex of the chain of each stone.
    pub id: Seq<usize>,
    /// The next stone in the ring of each chain.
    pub next: Seq<usize>,
    /// The group slot of each vertex; the slot of a representative is the
    /// group of its chain.
    pub sg: Seq<GroupView>,
    /// The cells before the last move and before the one preceding it.
    pub prev_state: Seq<Seq<Intersection>>,
    pub ko: usize,
    pub turn: Color,
    pub move_cnt: nat,
    pub prev_move: usize,
    /// Stones taken off by the last placement.
    pub remove_cnt: nat,
    pub history: Seq<usize>,
}

impl BoardView {
    /// The position before the first move.
    pub open spec fn initial() -> BoardView {
        BoardView {
            state: empty_cells(),
            id: Seq::new(121, |v: int| v as usize),
            next: Seq::new(121, |v: int| v as usize),
            sg: Seq::new(121, |v: int| GroupView::cleared(false)),
            prev_state: seq![empty_cells(), empty_cells()],
            ko: VNULL,
            turn: Color::Black,
            move_cnt: 0,
            prev_move: VNULL,
            remove_cnt: 0,
            history: Seq::empty(),
        }
    }

    // ------------------------------------------------------------------
    // Chains and liberties
    // ------------------------------------------------------------------
    /// `u` holds a stone of the chain whose representative is `r`.
    pub open spec fn member(self, r: usize, u: int) -> bool {
        &&& 0 <= u < 121
        &&& self.state[u] is Stone
        &&& self.id[u] == r
    }

    /// A stone of chain `r` stands next to `w`.
    pub open spec fn touches(self, r: usize, w: int) -> bool {
        ||| self.member(r, w + 1)
        ||| self.member(r, w + 11)
        ||| self.member(r, w - 1)
        ||| self.member(r, w - 11)
    }

    /// `w` is empty and next to a stone of chain `r`.
    pub open spec fn is_lib(self, r: usize, w: usize) -> bool {
        &&& w < 121
        &&& self.state[w as int] == Intersection::Empty
        &&& self.touches(r, w as int)
    }

    /// `r` holds a stone and represents its chain.
    pub open spec fn is_rep(self, r: int) -> bool {
        &&& 0 <= r < 121
        &&& self.state[r] is Stone
        &&& self.id[r] == r
    }

    // ------------------------------------------------------------------
    // Invariants
    // ------------------------------------------------------------------
    /// The border is exterior and nothing else is; links stay on the board;
    /// the group slot is well-formed.
    pub open spec fn cell_ok(self, v: int) -> bool {
        &&& (self.state[v] is Exterior <==> !on_board(v))
        &&& self.id[v] < 121
        &&& self.next[v] < 121
        &&& self.sg[v].wf()
    }

    /// All sequences have the board's length and every cell is in order.
    pub open spec fn shaped(self) -> bool {
        &&& self.state.len() == 121
        &&& self.id.len() == 121
        &&& self.next.len() == 121
        &&& self.sg.len() == 121
        &&& self.prev_state.len() == 2
        &&& self.prev_state[0].len() == 121
        &&& self.prev_state[1].len() == 121
        &&& forall|v: int| 0 <= v < 121 ==> #[trigger] self.cell_ok(v)
    }

    /// A stone's representative is a stone of its colour that represents
    /// itself, and `next` leads to the stone of the same chain one position
    /// further in the ring. A vertex without a stone is linked to itself.
    pub open spec fn link_ok(self, pos: Seq<nat>, v: int) -> bool {
        if self.state[v] is Stone {
            let r = self.id[v] as int;
            let n = self.sg[r].size;
            let w = self.next[v] as int;
            &&& self.state[r] == self.state[v]
            &&& self.id[r] == r
            &&& pos[v] < n
            &&& self.state[w] == self.state[v]
            &&& self.id[w] == r
            &&& pos[w] == succ(pos[v], n)
        } else {
            self.id[v] == v && self.next[v] == v
        }
    }

    /// Two stones of one chain at one ring position are one stone.
    pub open spec fn apart(self, pos: Seq<nat>, v: int, w: int) -> bool {
        (self.state[v] is Stone && self.state[w] is Stone && self.id[v] == self.id[w] && pos[v]
            == pos[w]) ==> v == w
    }

    /// The group of chain `r` records exactly the empty points next to the
    /// chain, and their number.
    pub open spec fn libs_ok(self, r: int) -> bool {
        self.is_rep(r) ==> {
            &&& self.sg[r].counted()
            &&& forall|w: usize|
                #![trigger self.sg[r].libs.contains(w)]
                #![trigger self.is_lib(r as usize, w)]
                self.sg[r].libs.contains(w) <==> self.is_lib(r as usize, w)
        }
    }

    /// The invariant of chains, rings and liberties, with `pos` giving each
    /// stone its position in the ring of its chain.
    pub open spec fn inv_at(self, pos: Seq<nat>) -> bool {
        &&& self.shaped()
        &&& pos.len() == 121
        &&& forall|v: int| 0 <= v < 121 ==> #[trigger] self.link_ok(pos, v)
        &&& forall|v: int, w: int|
            0 <= v < 121 && 0 <= w < 121 ==> #[trigger] self.apart(pos, v, w)
        &&& forall|r: int| 0 <= r < 121 ==> #[trigger] self.libs_ok(r)
    }

    /// Chains, rings and liberties are consistent.
    pub open spec fn inv(self) -> bool {
        exists|pos: Seq<nat>| self.inv_at(pos)
    }

    /// A stone and a stone of its colour to its right or above it are in one
    /// chain.
    pub open spec fn joined_at(self, v: int) -> bool {
        self.state[v] is Stone ==> {
            &&& self.state[v + 1] == self.state[v] ==> self.id[v + 1] == self.id[v]
            &&& self.state[v + 11] == self.state[v] ==> self.id[v + 11] == self.id[v]
        }
    }

    /// Neighbouring stones of one colour are in one chain.
    pub open spec fn maximal(self) -> bool {
        forall|v: int| 0 <= v < 110 ==> #[trigger] self.joined_at(v)
    }

    /// The chain of a stone on `v` has a liberty.
    pub open spec fn alive_at(self, v: int) -> bool {
        self.state[v] is Stone ==> self.sg[self.id[v] as int].lib_cnt > 0
    }

    /// No chain is without liberties.
    pub open spec fn alive(self) -> bool {
        forall|v: int| 0 <= v < 121 ==> #[trigger] self.alive_at(v)
    }

    /// `path` leads from stone to neighbouring stone, all of them in chain
    /// `r`.
    pub open spec fn is_path(self, r: usize, path: Seq<int>) -> bool {
        &&& path.len() > 0
        &&& forall|i: int| 0 <= i < path.len() ==> self.member(r, #[trigger] path[i])
        &&& forall|i: int| 0 <= i < path.len() - 1 ==> adjacent(#[trigger] path[i], path[i + 1])
    }

    /// A path of stones of chain `r` leads from `x` to `y`.
    pub open spec fn joined(self, r: usize, x: int, y: int) -> bool {
        exists|path: Seq<int>| #[trigger] self.is_path(r, path) && path[0] == x && path.last() == y
    }

    /// A stone on `x` is joined to the representative of its chain.
    pub open spec fn rooted_at(self, x: int) -> bool {
        self.state[x] is Stone ==> self.joined(self.id[x], x, self.id[x] as int)
    }

    /// Every stone is joined to the representative of its chain in the
    /// chain: the chains hang together.
    pub open spec fn connected(self) -> bool {
        forall|x: int| 0 <= x < 121 ==> #[trigger] self.rooted_at(x)
    }

    /// `path` leads from stone to neighbouring stone of one colour.
    pub open spec fn is_string(self, path: Seq<int>) -> bool {
        &&& path.len() > 0
        &&& forall|i: int|
            0 <= i < path.len() ==> 0 <= #[trigger] path[i] < 121 && self.state[path[i]] is Stone
                && self.state[path[i]] == self.state[path[0]]
        &&& forall|i: int| 0 <= i < path.len() - 1 ==> adjacent(#[trigger] path[i], path[i + 1])
    }

    /// A ko point is on record only where the last move put a stone that
    /// took exactly one stone and stands alone with one liberty; the ko point
    /// is that liberty, an empty point beside the stone.
    pub open spec fn ko_ok(self) -> bool {
        self.ko != VNULL ==> {
            let v = self.prev_move as int;
            let g = self.sg[self.id[v] as int];
            &&& 0 <= v < 121
            &&& self.state[v] is Stone
            &&& self.remove_cnt == 1
            &&& g.lib_cnt == 1
            &&& g.size == 1
            &&& g.v_atr == self.ko
            &&& g.libs == set![self.ko]
            &&& self.ko < 121
            &&& self.state[self.ko as int] == Intersection::Empty
            &&& adjacent(v, self.ko as int)
        }
    }

    /// A well-formed position: consistent chains that hang together, are as
    /// large as they can be and have liberties, a ko point that the last
    /// move accounts for, and a move count and a last move that agree with
    /// the history.
    pub open spec fn wf(self) -> bool {
        &&& self.inv()
        &&& self.maximal()
        &&& self.alive()
        &&& self.connected()
        &&& self.ko_ok()
        &&& self.move_cnt == self.history.len()
        &&& self.prev_move == if self.history.len() == 0 { VNULL } else { self.history.last() }
    }

    // ------------------------------------------------------------------
    // Legality and eyes
    // ------------------------------------------------------------------
    /// The neighbour `u` allows the side to move to play beside it: it is
    /// empty, or an opposing chain in atari, or a friendly chain with more
    /// than one liberty.
    pub open spec fn enables(self, u: int) -> bool {
        let c = self.state[u];
        let g = self.sg[self.id[u] as int];
        ||| c == Intersection::Empty
        ||| c == Intersection::Stone(self.turn.spec_opponent()) && g.lib_cnt == 1
        ||| c == Intersection::Stone(self.turn) && g.lib_cnt > 1
    }

    /// The side to move may play `v`.
    pub open spec fn legal(self, v: usize) -> bool {
        if v == PASS {
            true
        } else if v == self.ko || self.state[v as int] != Intersection::Empty {
            false
        } else {
            ||| self.enables(v + 1)
            ||| self.enables(v + 11)
            ||| self.enables(v - 1)
            ||| self.enables(v - 11)
        }
    }

    /// `u` is a stone of `pl` or off the board.
    pub open spec fn walls(self, u: int, pl: Color) -> bool {
        self.state[u] == Intersection::Stone(pl) || self.state[u] == Intersection::Exterior
    }

    /// 1 where `u` holds a stone of the opponent of `pl`, else 0.
    pub open spec fn hostile(self, u: int, pl: Color) -> nat {
        if self.state[u] == Intersection::Stone(pl.spec_opponent()) { 1 } else { 0 }
    }

    /// `u` is off the board.
    pub open spec fn outside(self, u: int) -> bool {
        self.state[u] == Intersection::Exterior
    }

    /// Number of wedges among the diagonals of `v`: the opposing stones, and
    /// one more where any diagonal is off the board.
    pub open spec fn wedge_cnt(self, v: int, pl: Color) -> nat {
        let edge: nat = if self.outside(v + 12) || self.outside(v + 10) || self.outside(v - 12)
            || self.outside(v - 10) { 1 } else { 0 };
        self.hostile(v + 12, pl) + self.hostile(v + 10, pl) + self.hostile(v - 12, pl)
            + self.hostile(v - 10, pl) + edge
    }

    /// `u` holds an opposing stone whose chain is in atari with the ko point
    /// recorded as its last liberty.
    pub open spec fn retaken(self, u: int, pl: Color) -> bool {
        let g = self.sg[self.id[u] as int];
        &&& self.state[u] == Intersection::Stone(pl.spec_opponent())
        &&& g.lib_cnt == 1
        &&& g.v_atr == self.ko
    }

    /// One of the diagonals of `v` is about to be retaken.
    pub open spec fn any_retaken(self, v: int, pl: Color) -> bool {
        ||| self.retaken(v + 12, pl)
        ||| self.retaken(v + 10, pl)
        ||| self.retaken(v - 12, pl)
        ||| self.retaken(v - 10, pl)
    }

    /// `v` is an eye of `pl`: walled in on all four sides, with fewer than
    /// two wedges, or with exactly two of which one is about to be retaken.
    pub open spec fn eyeshape(self, v: usize, pl: Color) -> bool {
        &&& v != PASS
        &&& self.walls(v + 1, pl)
        &&& self.walls(v + 11, pl)
        &&& self.walls(v - 1, pl)
        &&& self.walls(v - 11, pl)
        &&& (self.wedge_cnt(v as int, pl) < 2 || (self.wedge_cnt(v as int, pl) == 2
            && self.any_retaken(v as int, pl)))
    }

    // ------------------------------------------------------------------
    // Placing a stone
    // ------------------------------------------------------------------
    /// A stone of the side to move stands on `v` as a chain of its own that
    /// has no liberties recorded yet.
    pub open spec fn put(self, v: usize) -> BoardView {
        BoardView {
            state: self.state.update(v as int, Intersection::Stone(self.turn)),
            id: self.id.update(v as int, v),
            sg: self.sg.update(v as int, GroupView::cleared(true)),
            ..self
        }
    }

    /// The neighbour `nv` of the new stone `v` is taken into account: an
    /// empty one becomes a liberty of the chain of `v`, the group of any
    /// other loses the liberty `v`.
    pub open spec fn touch(self, v: usize, nv: int) -> BoardView {
        if self.state[nv] == Intersection::Empty {
            let i = self.id[v as int] as int;
            BoardView { sg: self.sg.update(i, self.sg[i].add(nv as usize)), ..self }
        } else {
            let i = self.id[nv] as int;
            BoardView { sg: self.sg.update(i, self.sg[i].sub(v)), ..self }
        }
    }

    /// The chains of `v1` and `v2` become one. The larger keeps its
    /// representative, and on equal sizes that of `v1` stays.
    pub open spec fn merge_chains(self, v1: usize, v2: usize) -> BoardView {
        let i1 = self.id[v1 as int];
        let i2 = self.id[v2 as int];
        let base = if self.sg[i1 as int].size < self.sg[i2 as int].size { i2 } else { i1 };
        let add = if self.sg[i1 as int].size < self.sg[i2 as int].size { i1 } else { i2 };
        BoardView {
            sg: self.sg.update(base as int, self.sg[base as int].merge(self.sg[add as int])),
            id: Seq::new(121, |w: int| if self.id[w] == add { base } else { self.id[w] }),
            next: self.next.update(v1 as int, self.next[v2 as int]).update(
                v2 as int,
                self.next[v1 as int],
            ),
            ..self
        }
    }

    /// The neighbour `nv` of `v` is joined to the chain of `v` where it is a
    /// stone of the same colour in another chain.
    pub open spec fn link(self, v: usize, nv: int) -> BoardView {
        if self.state[nv] == self.state[v as int] && self.id[nv] != self.id[v as int] {
            self.merge_chains(v, nv as usize)
        } else {
            self
        }
    }

    /// The stone on `u` is taken off: the point becomes empty, is linked to
    /// itself, and is added as a liberty to the group slot of each of its
    /// four neighbours.
    pub open spec fn lift(self, u: usize) -> BoardView {
        let id1 = self.id.update(u as int, u);
        let s0 = self.sg;
        let i1 = id1[u + 1] as int;
        let s1 = s0.update(i1, s0[i1].add(u));
        let i2 = id1[u + 11] as int;
        let s2 = s1.update(i2, s1[i2].add(u));
        let i3 = id1[u - 1] as int;
        let s3 = s2.update(i3, s2[i3].add(u));
        let i4 = id1[u - 11] as int;
        let s4 = s3.update(i4, s3[i4].add(u));
        BoardView {
            remove_cnt: self.remove_cnt + 1,
            state: self.state.update(u as int, Intersection::Empty),
            id: id1,
            sg: s4,
            next: self.next.update(u as int, u),
            ..self
        }
    }

    /// `k` stones are taken off, starting at `u` and following the ring.
    pub open spec fn lift_from(self, u: usize, k: nat) -> BoardView
        decreases k,
    {
        if k == 0 {
            self
        } else {
            self.lift(u).lift_from(self.next[u as int], (k - 1) as nat)
        }
    }

    /// The whole chain of `v` is taken off.
    pub open spec fn remove_chain(self, v: usize) -> BoardView {
        self.lift_from(v, self.sg[self.id[v as int] as int].size)
    }

    /// The neighbour `nv` is captured where it is an opposing stone whose
    /// chain has no liberty left.
    pub open spec fn capture(self, nv: int) -> BoardView {
        if self.state[nv] == Intersection::Stone(self.turn.spec_opponent()) && self.sg[self.id[nv] as int].lib_cnt
            == 0 {
            self.remove_chain(nv as usize)
        } else {
            self
        }
    }

    /// The new stone on `v` with the liberties of all groups brought up to
    /// date.
    pub open spec fn settle(self, v: usize) -> BoardView {
        self.put(v).touch(v, v + 1).touch(v, v + 11).touch(v, v - 1).touch(v, v - 11)
    }

    /// The settled stone joined to every neighbouring chain of its colour.
    pub open spec fn connect(self, v: usize) -> BoardView {
        self.settle(v).link(v, v + 1).link(v, v + 11).link(v, v - 1).link(v, v - 11)
    }

    /// The position after the side to move has put a stone on `v`: the stone
    /// is connected and every neighbouring opposing chain left without
    /// liberties is taken off.
    #[verifier::opaque]
    pub open spec fn place_stone(self, v: usize) -> BoardView {
        let b = BoardView { remove_cnt: 0, ..self.connect(v) };
        b.capture(v + 1).capture(v + 11).capture(v - 1).capture(v - 11)
    }

    /// The ko point after a placement on `v`: the last liberty of the new
    /// stone where it took exactly one stone and stands alone in atari.
    pub open spec fn ko_after(self, v: usize) -> usize {
        let g = self.sg[self.id[v as int] as int];
        if self.remove_cnt == 1 && g.lib_cnt == 1 && g.size == 1 { g.v_atr } else { VNULL }
    }

    /// The position after the move `v`, which is taken to be allowed.
    #[verifier::opaque]
    pub open spec fn play(self, v: usize) -> BoardView {
        let shifted = seq![self.state, self.prev_state[0]];
        let b = if v == PASS {
            BoardView { prev_state: shifted, ko: VNULL, ..self }
        } else {
            let placed = BoardView { prev_state: shifted, ..self }.place_stone(v);
            BoardView { ko: placed.ko_after(v), ..placed }
        };
        BoardView {
            prev_move: v,
            history: b.history.push(v),
            turn: b.turn.spec_opponent(),
            move_cnt: b.move_cnt + 1,
            ..b
        }
    }

    /// `play(v, not_fill_eye)` accepts the move.
    pub open spec fn accepts(self, v: usize, not_fill_eye: bool) -> bool {
        self.legal(v) && !(not_fill_eye && self.eyeshape(v, self.turn))
    }

    /// The first move of `order` that a play without eye filling accepts,
    /// or the pass move where there is none.
    pub open spec fn first_accepted(self, order: Seq<usize>) -> usize
        decreases order.len(),
    {
        if order.len() == 0 {
            PASS
        } else if self.accepts(order[0], true) {
            order[0]
        } else {
            self.first_accepted(order.drop_first())
        }
    }

    /// The position after the moves `moves`, one after the other.
    pub open spec fn played(self, moves: Seq<usize>) -> BoardView
        decreases moves.len(),
    {
        if moves.len() == 0 {
            self
        } else {
            self.played(moves.drop_last()).play(moves.last())
        }
    }

    /// Every move of `moves` is legal in the position it is made in.
    pub open spec fn legal_line(self, moves: Seq<usize>) -> bool
        decreases moves.len(),
    {
        if moves.len() == 0 {
            true
        } else {
            &&& self.legal_line(moves.drop_last())
            &&& moves.last() <= PASS
            &&& self.played(moves.drop_last()).legal(moves.last())
        }
    }

    /// `m` may be the move of a random play: a play without eye filling
    /// accepts it, it is an empty point or the pass move, and it is the pass
    /// move only where no empty point is accepted.
    pub open spec fn random_move(self, m: usize) -> bool {
        &&& self.accepts(m, true)
        &&& (m == PASS || (m < 121 && self.state[m as int] == Intersection::Empty))
        &&& (m == PASS ==> forall|v: usize|
            v < 121 && self.state[v as int] == Intersection::Empty ==> !(#[trigger] self.accepts(
                v,
                true,
            )))
    }

    /// A rollout from this position ends after the moves `moves`, where it
    /// has made them: the game is too long, or the last of them is a pass
    /// that answers a pass.
    pub open spec fn rollout_ends(self, moves: Seq<usize>) -> bool {
        ||| self.played(moves).move_cnt >= 242
        ||| moves.len() > 0 && moves.last() == PASS && self.played(moves.drop_last()).prev_move
            == PASS
    }

    /// `moves` may be the first moves of a rollout from this position: each
    /// is the move of a random play in the position it is made in, and the
    /// rollout has not ended before it.
    pub open spec fn rollout_line(self, moves: Seq<usize>) -> bool
        decreases moves.len(),
    {
        if moves.len() == 0 {
            true
        } else {
            let first = moves.drop_last();
            &&& self.rollout_line(first)
            &&& self.played(first).move_cnt < 242
            &&& (first.len() > 0 ==> !self.rollout_ends(first))
            &&& self.played(first).random_move(moves.last())
        }
    }

    // ------------------------------------------------------------------
    // Scoring, candidates, network input
    // ------------------------------------------------------------------
    /// A stone of colour `c` stands on one of the four neighbours of `v`.
    pub open spec fn beside(self, v: int, c: Color) -> bool {
        ||| self.state[v + 1] == Intersection::Stone(c)
        ||| self.state[v + 11] == Intersection::Stone(c)
        ||| self.state[v - 1] == Intersection::Stone(c)
        ||| self.state[v - 11] == Intersection::Stone(c)
    }

    /// The point `v` counts for `c`: it holds a stone of `c`, or it holds no
    /// stone and has a stone of `c` but none of the other colour beside it.
    pub open spec fn counts_for(self, v: int, c: Color) -> bool {
        match self.state[v] {
            Intersection::Stone(d) => d == c,
            _ => self.beside(v, c) && !self.beside(v, c.spec_opponent()),
        }
    }

    /// How many of the first `n` playable points count for `c`.
    pub open spec fn area(self, c: Color, n: nat) -> int
        decreases n,
    {
        if n == 0 {
            0
        } else {
            self.area(c, (n - 1) as nat) + if self.counts_for(spec_rv2ev(n - 1), c) {
                1int
            } else {
                0int
            }
        }
    }

    /// Black's area minus White's area minus the komi.
    pub open spec fn score(self) -> int {
        self.area(Color::Black, 81) - self.area(Color::White, 81) - 7
    }

    /// `v` is offered to the search: empty, legal and no eye of the side to
    /// move.
    pub open spec fn candidate(self, v: int) -> bool {
        &&& self.state[v] == Intersection::Empty
        &&& self.legal(v as usize)
        &&& !self.eyeshape(v as usize, self.turn)
    }

    /// The candidates below vertex `n`, board-linear and in rising order.
    pub open spec fn candidates_below(self, n: nat) -> Seq<usize>
        decreases n,
    {
        if n == 0 {
            Seq::empty()
        } else {
            let rest = self.candidates_below((n - 1) as nat);
            if self.candidate(n - 1) {
                rest.push(spec_ev2rv(n - 1) as usize)
            } else {
                rest
            }
        }
    }

    /// All candidates, followed by the pass move.
    pub open spec fn candidates(self) -> Seq<usize> {
        self.candidates_below(121).push(81)
    }

    /// The hash of the position: the hasher's value after the cells, combined
    /// by exclusive or with its value after the cells and the cells before
    /// the last move, and with the numeric code of the side to move.
    pub open spec fn hash(self) -> u64 {
        let h1 = DefaultHasher::spec_finish(seq![encode(self.state)]);
        let h2 = DefaultHasher::spec_finish(seq![encode(self.state), encode(self.prev_state[0])]);
        (h1 ^ h2) ^ (self.turn.spec_to_usize() as u64)
    }

    /// The value of feature plane `f` at board-linear point `p`.
    pub open spec fn feature_at(self, p: int, f: int) -> u8 {
        let v = spec_rv2ev(p);
        let mine = Intersection::Stone(self.turn);
        let theirs = Intersection::Stone(self.turn.spec_opponent());
        let hit = if f == 0 {
            self.state[v] == mine
        } else if f == 1 {
            self.state[v] == theirs
        } else if f == 2 {
            self.prev_state[0][v] == mine
        } else if f == 3 {
            self.prev_state[0][v] == theirs
        } else if f == 4 {
            self.prev_state[1][v] == mine
        } else if f == 5 {
            self.prev_state[1][v] == theirs
        } else {
            self.turn == Color::Black
        };
        if hit { 1 } else { 0 }
    }

    /// The network input: seven planes over the playable points, flattened
    /// with the point as the major index.
    pub open spec fn features(self) -> Seq<u8> {
        Seq::new(567, |i: int| self.feature_at(i / 7, i % 7))
    }
}

/// The position that a sequence of accepted moves leads to from the
/// initial one.
pub open spec fn replay(h: Seq<usize>) -> BoardView
    decreases h.len(),
{
    if h.len() == 0 {
        BoardView::initial()
    } else {
        replay(h.drop_last()).play(h.last())
    }
}

} // verus!
