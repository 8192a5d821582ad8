//! The board: position, turn, ko and history, with legality, eyes, play,
//! capture, scoring and the input planes of the network.

use rand::{thread_rng, Rng};
use std::collections::hash_map::DefaultHasher;
use std::hash::Hasher;
use vstd::prelude::*;
use crate::board_life::lemma_place_alive;
use crate::board_paths::lemma_place_connected;
use crate::board_model::{encode, replay, ring_dist, BoardView};
use crate::board_proofs::{
    lemma_capture_step, lemma_chain_size, lemma_frame, lemma_initial_wf, lemma_lift_done,
    lemma_lift_start,
    lemma_lift_step, lemma_link_step, lemma_merge, lemma_place, lemma_place_keeps, lemma_play,
    lemma_play_replays, lemma_ring_next, lemma_settle, lemma_settle_start, lemma_settle_step,
    lifting, nbr, near_ok,
};
use crate::constants::{BVCNT, EBSIZE, EBVCNT, FEATURE_CNT, KEEP_PREV_CNT, KOMI, PASS, VNULL};
use crate::coord_convert::{diagonals, ev2rv, neighbors, on_board, rv2ev};
use crate::intersection::{Color, Intersection};
use crate::stone_group::{GroupView, StoneGroup};

verus! {

/// Why a move was refused.
#[derive(Clone, Copy, PartialEq, Eq, Debug, Structural)]
pub enum Error {
    /// The point is occupied, forbidden by ko, or the move would be suicide.
    Illegal,
    /// The move would fill an eye of the side to move.
    FillEye,
}

/// A position with everything needed to play on from it.
pub struct Board {
    state: [Intersection; EBVCNT],
    id: [usize; EBVCNT],
    next: [usize; EBVCNT],
    sg: Vec<StoneGroup>,
    prev_state: [[Intersection; EBVCNT]; KEEP_PREV_CNT],
    ko: usize,
    turn: Color,
    move_cnt: usize,
    prev_move: usize,
    remove_cnt: usize,
    history: Vec<usize>,
}

/// The views of a sequence of groups.
pub open spec fn group_views(s: Seq<StoneGroup>) -> Seq<GroupView> {
    Seq::new(s.len(), |i: int| s[i]@)
}

impl View for Board {
    type V = BoardView;

    closed spec fn view(&self) -> BoardView {
        BoardView {
            state: self.state@,
            id: self.id@,
            next: self.next@,
            sg: group_views(self.sg@),
            prev_state: seq![self.prev_state[0]@, self.prev_state[1]@],
            ko: self.ko,
            turn: self.turn,
            move_cnt: self.move_cnt as nat,
            prev_move: self.prev_move,
            remove_cnt: self.remove_cnt as nat,
            history: self.history@,
        }
    }
}

/// Whether `v` is a playable point.
fn playable(v: usize) -> (r: bool)
    ensures
        r == on_board(v as int),
{
    let x: usize = v % EBSIZE;
    let y: usize = v / EBSIZE;
    1 <= x && x <= 9 && 1 <= y && y <= 9
}

/// A fresh sequence of placeholder groups, one for each vertex.
fn initialized_sg() -> (r: Vec<StoneGroup>)
    ensures
        r@.len() == EBVCNT,
        forall|i: int| 0 <= i < EBVCNT ==> (#[trigger] r@[i])@ == GroupView::cleared(false),
{
    let mut result: Vec<StoneGroup> = Vec::with_capacity(EBVCNT);
    let mut i: usize = 0;
    while i < EBVCNT
        invariant
            i <= EBVCNT,
            result@.len() == i,
            forall|j: int| 0 <= j < i ==> (#[trigger] result@[j])@ == GroupView::cleared(false),
        decreases EBVCNT - i,
    {
        result.push(StoneGroup::new());
        i += 1;
    }
    result
}

/// The cells as bytes for the hasher.
fn encode_cells(cells: &[Intersection; EBVCNT]) -> (r: Vec<u8>)
    ensures
        r@ == encode(cells@),
{
    let mut out: Vec<u8> = Vec::with_capacity(EBVCNT);
    let mut i: usize = 0;
    while i < EBVCNT
        invariant
            i <= EBVCNT,
            out@.len() == i,
            forall|j: int| 0 <= j < i ==> #[trigger] out@[j] == cells@[j].spec_to_usize() as u8,
        decreases EBVCNT - i,
    {
        out.push(cells[i].to_usize() as u8);
        i += 1;
    }
    assert(out@ =~= encode(cells@));
    out
}

/// Shuffles `list` with `Rng::shuffle` of the crate `rand`, on the generator
/// that `thread_rng` hands out. The method swaps elements of the slice and
/// does nothing else to it: the list holds afterwards what it held before,
/// in an order that nothing is said about. `thread_rng` stops the program
/// where the system offers no entropy.
#[verifier::external_body]
fn shuffle(list: &mut Vec<usize>)
    ensures
        final(list)@.to_multiset() == old(list)@.to_multiset(),
{
    thread_rng().shuffle(list.as_mut_slice());
}

impl Board {
    /// An empty board with Black to move.
    pub fn new() -> (r: Board)
        ensures
            r@ == BoardView::initial(),
            r@.wf(),
            r@ == replay(r@.history),
    {
        let mut result = Board {
            state: [Intersection::Exterior;EBVCNT],
            id: [0;EBVCNT],
            next: [0;EBVCNT],
            sg: initialized_sg(),
            prev_state: [[Intersection::Exterior;EBVCNT];KEEP_PREV_CNT],
            ko: VNULL,
            turn: Color::Black,
            move_cnt: 0,
            prev_move: VNULL,
            remove_cnt: 0,
            history: Vec::with_capacity(BVCNT * 2),
        };
        result.clear();
        result
    }

    pub fn get_move_cnt(&self) -> (r: usize)
        ensures
            r == self@.move_cnt,
    {
        self.move_cnt
    }

    pub fn get_prev_move(&self) -> (r: usize)
        ensures
            r == self@.prev_move,
    {
        self.prev_move
    }

    pub fn get_history(&self) -> (r: &Vec<usize>)
        ensures
            r@ == self@.history,
    {
        &self.history
    }

    /// The ko point, or `VNULL`.
    pub fn get_ko(&self) -> (r: usize)
        ensures
            r == self@.ko,
    {
        self.ko
    }

    /// The side to move.
    pub fn get_turn(&self) -> (r: Color)
        ensures
            r == self@.turn,
    {
        self.turn
    }

    /// How many stones the last placement took off.
    pub fn get_remove_cnt(&self) -> (r: usize)
        ensures
            r == self@.remove_cnt,
    {
        self.remove_cnt
    }

    /// What the vertex `v` holds.
    pub fn get_state(&self, v: usize) -> (r: Intersection)
        requires
            v < EBVCNT,
        ensures
            r == self@.state[v as int],
    {
        self.state[v]
    }

    /// The representative vertex of the chain that the stone on `v` belongs
    /// to; `v` itself where no stone stands on it.
    pub fn get_id(&self, v: usize) -> (r: usize)
        requires
            v < EBVCNT,
        ensures
            r == self@.id[v as int],
    {
        self.id[v]
    }

    /// The stone that follows the stone on `v` in the ring of its chain.
    pub fn get_next(&self, v: usize) -> (r: usize)
        requires
            v < EBVCNT,
        ensures
            r == self@.next[v as int],
    {
        self.next[v]
    }

    /// The group slot of the vertex `v`. The slot of a representative is
    /// the group of its chain.
    pub fn get_group(&self, v: usize) -> (r: &StoneGroup)
        requires
            v < EBVCNT,
            self@.sg.len() == EBVCNT,
        ensures
            r@ == self@.sg[v as int],
    {
        &self.sg[v]
    }

    /// Resets the board to the position before the first move.
    pub fn clear(&mut self)
        requires
            old(self)@.sg.len() == EBVCNT,
        ensures
            final(self)@ == BoardView::initial(),
            final(self)@.wf(),
            final(self)@ == replay(final(self)@.history),
    {
        proof {
            lemma_initial_wf();
        }
        let mut v: usize = 0;
        while v < EBVCNT
            invariant
                v <= EBVCNT,
                self.sg@.len() == EBVCNT,
                forall|u: int|
                    0 <= u < v ==> #[trigger] self.state@[u] == BoardView::initial().state[u],
                forall|u: int| 0 <= u < v ==> #[trigger] self.id@[u] == u,
                forall|u: int| 0 <= u < v ==> #[trigger] self.next@[u] == u,
                forall|u: int|
                    0 <= u < v ==> (#[trigger] self.sg@[u])@ == GroupView::cleared(false),
            decreases EBVCNT - v,
        {
            self.state[v] = if playable(v) {
                Intersection::Empty
            } else {
                Intersection::Exterior
            };
            self.id[v] = v;
            self.next[v] = v;
            self.sg[v].clear(false);
            v += 1;
        }
        self.prev_state[0] = self.state;
        self.prev_state[1] = self.state;
        self.ko = VNULL;
        self.turn = Color::Black;
        self.move_cnt = 0;
        self.prev_move = VNULL;
        self.remove_cnt = 0;
        self.history.clear();
        proof {
            let b = self@;
            let i = BoardView::initial();
            assert(b.state =~= i.state);
            assert(b.id =~= i.id);
            assert(b.next =~= i.next);
            assert(b.sg =~= i.sg);
            assert(b.prev_state =~= i.prev_state);
            assert(b.history =~= i.history);
        }
    }
    /// Makes `dest` a copy of this board, field by field.
    pub fn copy_to(&self, dest: &mut Board)
        requires
            self@.shaped(),
            old(dest)@.sg.len() == EBVCNT,
        ensures
            final(dest)@ == self@,
    {
        let mut i: usize = 0;
        while i < EBVCNT
            invariant
                i <= EBVCNT,
                self@.shaped(),
                dest.sg@.len() == EBVCNT,
                forall|j: int| 0 <= j < i ==> (#[trigger] dest.sg@[j])@ == self.sg@[j]@,
            decreases EBVCNT - i,
        {
            assert(self@.cell_ok(i as int));
            self.sg[i].copy_to(&mut dest.sg[i]);
            i += 1;
        }
        dest.state = self.state;
        dest.id = self.id;
        dest.next = self.next;
        dest.prev_state = self.prev_state;
        dest.ko = self.ko;
        dest.turn = self.turn;
        dest.move_cnt = self.move_cnt;
        dest.prev_move = self.prev_move;
        dest.remove_cnt = self.remove_cnt;
        dest.history = self.history.clone();
        proof {
            assert(dest@.sg =~= self@.sg);
            assert(dest@.history =~= self@.history);
        }
    }

    /// Whether the neighbour `u` allows the side to move to play beside it.
    fn enables(&self, u: usize) -> (r: bool)
        requires
            self@.shaped(),
            u < EBVCNT,
        ensures
            r == self@.enables(u as int),
    {
        assert(self@.cell_ok(u as int));
        match self.state[u] {
            Intersection::Empty => true,
            Intersection::Stone(c) => {
                let cnt: usize = self.sg[self.id[u]].get_lib_cnt();
                if c == self.turn {
                    cnt > 1
                } else {
                    cnt == 1
                }
            },
            Intersection::Exterior => false,
        }
    }

    /// Whether the side to move may play `v`: passing is always allowed; an
    /// occupied point and the ko point never are; any other point is allowed
    /// where a neighbour is empty, an opposing neighbour chain is in atari,
    /// or a friendly neighbour chain has more than one liberty.
    pub fn legal(&self, v: usize) -> (r: bool)
        requires
            self@.shaped(),
            v <= PASS,
        ensures
            r == self@.legal(v),
    {
        if v == PASS {
            return true;
        } else if v == self.ko || self.state[v] != Intersection::Empty {
            return false;
        }
        assert(self@.cell_ok(v as int));
        self.enables(v + 1) || self.enables(v + EBSIZE) || self.enables(v - 1) || self.enables(
            v - EBSIZE,
        )
    }

    /// Whether `u` holds an opposing stone whose chain is in atari with the
    /// ko point recorded as its last liberty.
    fn retaken(&self, u: usize, pl: Color) -> (r: bool)
        requires
            self@.shaped(),
            u < EBVCNT,
        ensures
            r == self@.retaken(u as int, pl),
    {
        assert(self@.cell_ok(u as int));
        if self.state[u] == Intersection::Stone(pl.opponent()) {
            let g = &self.sg[self.id[u]];
            g.get_lib_cnt() == 1 && g.get_v_atr() == self.ko
        } else {
            false
        }
    }

    /// Whether `v` is an eye of `pl`: all four neighbours are stones of `pl`
    /// or off the board, and the diagonals hold fewer than two wedges, or
    /// exactly two of which one is an opposing chain about to be retaken.
    /// The pass move is no eye.
    pub fn eyeshape(&self, v: usize, pl: Color) -> (r: bool)
        requires
            self@.shaped(),
            v == PASS || on_board(v as int),
        ensures
            r == self@.eyeshape(v, pl),
    {
        if v == PASS {
            return false;
        }
        let nbrs = neighbors(v);
        let mut i: usize = 0;
        while i < 4
            invariant
                i <= 4,
                on_board(v as int),
                nbrs[0] == v + 1,
                nbrs[1] == v + 11,
                nbrs[2] == v - 1,
                nbrs[3] == v - 11,
                forall|j: int| 0 <= j < i ==> self@.walls(#[trigger] nbrs[j] as int, pl),
            decreases 4 - i,
        {
            let c = self.state[nbrs[i]];
            if c == Intersection::Empty || c == Intersection::Stone(pl.opponent()) {
                assert(!self@.walls(nbrs[i as int] as int, pl));
                return false;
            }
            i += 1;
        }
        assert(self@.walls(nbrs[0] as int, pl) && self@.walls(nbrs[1] as int, pl) && self@.walls(
            nbrs[2] as int,
            pl,
        ) && self@.walls(nbrs[3] as int, pl));
        let diags = diagonals(v);
        let mut hostile: usize = 0;
        let mut edge: bool = false;
        let mut k: usize = 0;
        while k < 4
            invariant
                k <= 4,
                on_board(v as int),
                diags[0] == v + 12,
                diags[1] == v + 10,
                diags[2] == v - 12,
                diags[3] == v - 10,
                hostile as nat == (if k > 0 { self@.hostile(v + 12, pl) } else { 0 }) + (if k > 1 {
                    self@.hostile(v + 10, pl)
                } else {
                    0
                }) + (if k > 2 { self@.hostile(v - 12, pl) } else { 0 }) + (if k > 3 {
                    self@.hostile(v - 10, pl)
                } else {
                    0
                }),
                edge == ((k > 0 && self@.outside(v + 12)) || (k > 1 && self@.outside(v + 10)) || (k
                    > 2 && self@.outside(v - 12)) || (k > 3 && self@.outside(v - 10))),
            decreases 4 - k,
        {
            let c = self.state[diags[k]];
            if c == Intersection::Stone(pl.opponent()) {
                hostile += 1;
            } else if c == Intersection::Exterior {
                edge = true;
            }
            k += 1;
        }
        let wedge_cnt: usize = hostile + if edge { 1 } else { 0 };
        assert(wedge_cnt as nat == self@.wedge_cnt(v as int, pl));
        if wedge_cnt == 2 {
            self.retaken(v + 12, pl) || self.retaken(v + 10, pl) || self.retaken(v - 12, pl)
                || self.retaken(v - 10, pl)
        } else {
            wedge_cnt < 2
        }
    }
    /// Takes the chain of the stone on `v` off the board: every point of it
    /// becomes empty and a liberty of the chains around it, and the stones
    /// are counted.
    pub fn remove(&mut self, v: usize)
        requires
            old(self)@.inv(),
            v < EBVCNT,
            old(self)@.state[v as int] is Stone,
            old(self)@.remove_cnt + old(self)@.sg[old(self)@.id[v as int] as int].size
                <= usize::MAX,
        ensures
            final(self)@ == old(self)@.remove_chain(v),
            final(self)@.inv(),
            old(self)@.maximal() ==> final(self)@.maximal(),
            final(self)@.remove_cnt == old(self)@.remove_cnt + old(self)@.sg[old(
                self,
            )@.id[v as int] as int].size,
            forall|x: int|
                0 <= x < 121 ==> #[trigger] final(self)@.state[x] == (if old(self)@.member(
                    old(self)@.id[v as int],
                    x,
                ) {
                    Intersection::Empty
                } else {
                    old(self)@.state[x]
                }),
    {
        let ghost b0 = self@;
        let ghost pos = choose|pos: Seq<nat>| b0.inv_at(pos);
        let ghost r = b0.id[v as int];
        let ghost n = b0.sg[r as int].size;
        let ghost mut k: nat = 0;
        proof {
            lemma_lift_start(b0, pos, v);
            lemma_chain_size(b0, pos, v as int);
            assert(b0.link_ok(pos, v as int));
        }
        let mut v_tmp: usize = v;
        loop
            invariant_except_break
                k < n,
                b0.member(r, v_tmp as int),
                ring_dist(pos[v as int], pos[v_tmp as int], n) == k,
                lifting(b0, pos, self@, v, k),
                self@.lift_from(v_tmp, (n - k) as nat) == b0.remove_chain(v),
            invariant
                b0.inv_at(pos),
                v < 121,
                b0.state[v as int] is Stone,
                r == b0.id[v as int],
                n == b0.sg[r as int].size,
                b0.remove_cnt + n <= usize::MAX,
            ensures
                lifting(b0, pos, self@, v, n),
                self@ == b0.remove_chain(v),
            decreases n - k,
        {
            let ghost t = self@;
            proof {
                lemma_lift_step(b0, pos, t, v, k, v_tmp);
                assert(nbr(v_tmp as int, 0) == v_tmp + 1 && nbr(v_tmp as int, 1) == v_tmp + 11
                    && nbr(v_tmp as int, 2) == v_tmp - 1 && nbr(v_tmp as int, 3) == v_tmp - 11);
                assert(t.id[nbr(v_tmp as int, 0)] < 121);
                assert(t.id[nbr(v_tmp as int, 1)] < 121);
                assert(t.id[nbr(v_tmp as int, 2)] < 121);
                assert(t.id[nbr(v_tmp as int, 3)] < 121);
            }
            self.remove_cnt += 1;
            self.state[v_tmp] = Intersection::Empty;
            self.id[v_tmp] = v_tmp;
            let ghost s0 = self@.sg;
            assert(s0 == t.sg);
            assert(forall|i: int| 0 <= i < 121 ==> (#[trigger] s0[i]).wf());
            let i1: usize = self.id[v_tmp + 1];
            assert(s0[i1 as int].wf());
            self.sg[i1].add(v_tmp);
            let ghost s1 = self@.sg;
            assert(s1 =~= s0.update(i1 as int, s0[i1 as int].add(v_tmp)));
            assert(forall|i: int| 0 <= i < 121 ==> (#[trigger] s1[i]).wf());
            let i2: usize = self.id[v_tmp + EBSIZE];
            assert(s1[i2 as int].wf());
            self.sg[i2].add(v_tmp);
            let ghost s2 = self@.sg;
            assert(s2 =~= s1.update(i2 as int, s1[i2 as int].add(v_tmp)));
            assert(forall|i: int| 0 <= i < 121 ==> (#[trigger] s2[i]).wf());
            let i3: usize = self.id[v_tmp - 1];
            assert(s2[i3 as int].wf());
            self.sg[i3].add(v_tmp);
            let ghost s3 = self@.sg;
            assert(s3 =~= s2.update(i3 as int, s2[i3 as int].add(v_tmp)));
            assert(forall|i: int| 0 <= i < 121 ==> (#[trigger] s3[i]).wf());
            let i4: usize = self.id[v_tmp - EBSIZE];
            assert(s3[i4 as int].wf());
            self.sg[i4].add(v_tmp);
            let ghost s4 = self@.sg;
            assert(s4 =~= s3.update(i4 as int, s3[i4 as int].add(v_tmp)));
            let v_next: usize = self.next[v_tmp];
            self.next[v_tmp] = v_tmp;
            proof {
                let t2 = t.lift(v_tmp);
                assert(self@.state =~= t2.state);
                assert(self@.id =~= t2.id);
                assert(self@.next =~= t2.next);
                assert(self@.sg =~= t2.sg);
                assert(self@ == t2);
                assert(t.lift_from(v_tmp, (n - k) as nat) == t2.lift_from(
                    v_next,
                    (n - k - 1) as nat,
                ));
                k = k + 1;
            }
            v_tmp = v_next;
            if v_tmp == v {
                break;
            }
        }
        proof {
            lemma_lift_done(b0, pos, self@, v);
        }
    }

    /// Joins the chains of the stones on `v1` and `v2`: the smaller chain is
    /// folded into the larger, the liberties are united and the two rings
    /// become one.
    pub fn merge(&mut self, v1: usize, v2: usize)
        requires
            old(self)@.inv(),
            v1 < EBVCNT,
            v2 < EBVCNT,
            old(self)@.state[v1 as int] is Stone,
            old(self)@.state[v1 as int] == old(self)@.state[v2 as int],
            old(self)@.id[v1 as int] != old(self)@.id[v2 as int],
        ensures
            final(self)@ == old(self)@.merge_chains(v1, v2),
            final(self)@.inv(),
    {
        let ghost b0 = self@;
        let ghost pos = choose|pos: Seq<nat>| b0.inv_at(pos);
        proof {
            assert(b0.cell_ok(v1 as int));
            assert(b0.cell_ok(v2 as int));
            assert(b0.link_ok(pos, v1 as int));
            assert(b0.link_ok(pos, v2 as int));
            lemma_chain_size(b0, pos, v1 as int);
            lemma_chain_size(b0, pos, v2 as int);
            lemma_merge(b0, pos, v1, v2);
        }
        let mut id_base: usize = self.id[v1];
        let mut id_add: usize = self.id[v2];
        if self.sg[id_base].get_size() < self.sg[id_add].get_size() {
            let tmp: usize = id_base;
            id_base = id_add;
            id_add = tmp;
        }
        assert(b0.cell_ok(id_base as int));
        assert(b0.cell_ok(id_add as int));
        // the group that is folded in is copied out of the slots first
        let mut other = StoneGroup::new();
        self.sg[id_add].copy_to(&mut other);
        self.sg[id_base].merge(&other);
        let ghost n = b0.sg[id_add as int].size;
        let ghost mut k: nat = 0;
        let ghost goal = b0.merge_chains(v1, v2);
        assert(self@.sg =~= goal.sg);
        proof {
            assert(b0.link_ok(pos, id_add as int));
        }
        let mut v_tmp: usize = id_add;
        loop
            invariant_except_break
                k < n,
                b0.member(id_add, v_tmp as int),
                ring_dist(pos[id_add as int], pos[v_tmp as int], n) == k,
            invariant
                b0.inv_at(pos),
                id_add < 121,
                id_base < 121,
                b0.is_rep(id_add as int),
                n == b0.sg[id_add as int].size,
                k <= n,
                self@ == (BoardView { id: self@.id, sg: goal.sg, ..b0 }),
                self@.id.len() == 121,
                forall|x: int|
                    0 <= x < 121 ==> #[trigger] self@.id[x] == (if b0.member(id_add, x)
                        && ring_dist(pos[id_add as int], pos[x], n) < k {
                        id_base
                    } else {
                        b0.id[x]
                    }),
            ensures
                k == n,
            decreases n - k,
        {
            proof {
                lemma_ring_next(b0, pos, id_add as int, v_tmp as int);
                assert(b0.cell_ok(v_tmp as int));
            }
            let ghost ids = self@.id;
            self.id[v_tmp] = id_base;
            assert(self@.id =~= ids.update(v_tmp as int, id_base));
            assert forall|x: int| 0 <= x < 121 implies #[trigger] self@.id[x] == (if b0.member(
                id_add,
                x,
            ) && ring_dist(pos[id_add as int], pos[x], n) < k + 1 {
                id_base
            } else {
                b0.id[x]
            }) by {
                assert(b0.apart(pos, x, v_tmp as int));
                assert(b0.link_ok(pos, x));
                assert(b0.link_ok(pos, v_tmp as int));
                assert(b0.link_ok(pos, id_add as int));
                assert(ids[x] == (if b0.member(id_add, x) && ring_dist(
                    pos[id_add as int],
                    pos[x],
                    n,
                ) < k {
                    id_base
                } else {
                    b0.id[x]
                }));
            }
            v_tmp = self.next[v_tmp];
            proof {
                k = k + 1;
            }
            if v_tmp == id_add {
                break;
            }
        }
        let tmp: usize = self.next[v1];
        self.next[v1] = self.next[v2];
        self.next[v2] = tmp;
        proof {
            assert forall|x: int| 0 <= x < 121 implies self@.id[x] == goal.id[x] by {
                assert(b0.link_ok(pos, x));
            }
            assert(self@.id =~= goal.id);
            assert(self@.next =~= goal.next);
            assert(self@ == goal);
        }
    }
    /// Takes the neighbour `nv` of the new stone on `v` into account.
    fn touch(&mut self, v: usize, nv: usize)
        requires
            v < EBVCNT,
            nv < EBVCNT,
            old(self)@.sg.len() == 121,
            old(self)@.id[v as int] < 121,
            old(self)@.id[nv as int] < 121,
            forall|i: int| 0 <= i < 121 ==> (#[trigger] old(self)@.sg[i]).wf(),
        ensures
            final(self)@ == old(self)@.touch(v, nv as int),
    {
        let ghost t = self@;
        if self.state[nv] == Intersection::Empty {
            let i: usize = self.id[v];
            assert(t.sg[i as int].wf());
            self.sg[i].add(nv);
            assert(self@.sg =~= t.sg.update(i as int, t.sg[i as int].add(nv)));
        } else {
            let i: usize = self.id[nv];
            assert(t.sg[i as int].wf());
            self.sg[i].sub(v);
            assert(self@.sg =~= t.sg.update(i as int, t.sg[i as int].sub(v)));
        }
    }

    /// Joins the neighbour `nv` to the chain of `v` where it is a stone of
    /// the same colour in another chain.
    fn link(&mut self, v: usize, nv: usize)
        requires
            old(self)@.inv(),
            v < EBVCNT,
            nv < EBVCNT,
            old(self)@.state[v as int] is Stone,
        ensures
            final(self)@ == old(self)@.link(v, nv as int),
    {
        if self.state[nv] == self.state[v] && self.id[nv] != self.id[v] {
            self.merge(v, nv);
        }
    }

    /// Takes the chain of the neighbour `nv` off where it is an opposing
    /// stone without liberties.
    fn capture(&mut self, nv: usize)
        requires
            old(self)@.inv(),
            nv < EBVCNT,
            old(self)@.remove_cnt + 121 <= usize::MAX,
        ensures
            final(self)@ == old(self)@.capture(nv as int),
    {
        let ghost b0 = self@;
        let ghost pos = choose|pos: Seq<nat>| b0.inv_at(pos);
        assert(b0.cell_ok(nv as int));
        if self.state[nv] == Intersection::Stone(self.turn.opponent()) && self.sg[self.id[nv]].get_lib_cnt()
            == 0 {
            proof {
                lemma_chain_size(b0, pos, nv as int);
            }
            self.remove(nv);
        }
    }

    /// Puts a stone of the side to move on the empty point `v`: the stone
    /// becomes a chain with the empty neighbours as liberties, the other
    /// neighbours lose the liberty `v`, the neighbouring chains of the
    /// stone's colour are joined to it, and the neighbouring opposing chains
    /// that are left without liberties are taken off and counted.
    pub fn place_stone(&mut self, v: usize)
        requires
            old(self)@.inv(),
            old(self)@.maximal(),
            on_board(v as int),
            old(self)@.state[v as int] == Intersection::Empty,
        ensures
            final(self)@ == old(self)@.place_stone(v),
            final(self)@.inv(),
            final(self)@.maximal(),
            final(self)@.state[v as int] == Intersection::Stone(old(self)@.turn),
            final(self)@.turn == old(self)@.turn,
            old(self)@.alive() && (old(self)@.enables(v + 1) || old(self)@.enables(v + 11) || old(
                self,
            )@.enables(v - 1) || old(self)@.enables(v - 11)) ==> final(self)@.alive(),
            old(self)@.connected() ==> final(self)@.connected(),
    {
        let ghost b0 = self@;
        let ghost pos = choose|pos: Seq<nat>| b0.inv_at(pos);
        proof {
            if b0.alive() && (b0.enables(v + 1) || b0.enables(v + 11) || b0.enables(v - 1)
                || b0.enables(v - 11)) {
                lemma_place_alive(b0, v);
            }
            if b0.connected() {
                lemma_place_connected(b0, v);
            }
            assert(b0.cell_ok(v as int));
            lemma_settle_start(b0, pos, v);
            lemma_settle(b0, pos, v);
            lemma_place(b0, v);
            assert(nbr(v as int, 0) == v + 1 && nbr(v as int, 1) == v + 11 && nbr(v as int, 2) == v
                - 1 && nbr(v as int, 3) == v - 11);
            assert(b0.cell_ok(v + 1) && b0.cell_ok(v + 11) && b0.cell_ok(v - 1) && b0.cell_ok(
                v - 11,
            ));
        }
        self.state[v] = Intersection::Stone(self.turn);
        self.id[v] = v;
        self.sg[v].clear(true);
        proof {
            let t0 = b0.put(v);
            assert(self@.state =~= t0.state);
            assert(self@.id =~= t0.id);
            assert(self@.sg =~= t0.sg);
            assert(self@ == t0);
        }
        let ghost t0 = self@;
        self.touch(v, v + 1);
        proof {
            lemma_settle_step(b0, pos, t0, v, 0);
        }
        let ghost t1 = self@;
        self.touch(v, v + EBSIZE);
        proof {
            lemma_settle_step(b0, pos, t1, v, 1);
        }
        let ghost t2 = self@;
        self.touch(v, v - 1);
        proof {
            lemma_settle_step(b0, pos, t2, v, 2);
        }
        let ghost t3 = self@;
        self.touch(v, v - EBSIZE);
        let ghost s = self@;
        proof {
            assert(s == b0.settle(v));
            assert(s.inv());
            assert forall|x: int| 0 <= x < 110 implies #[trigger] near_ok(s, v as int, 0, x) by {
                assert(b0.joined_at(x));
            }
            lemma_link_step(s, v, 0);
        }
        self.link(v, v + 1);
        let ghost l1 = self@;
        proof {
            lemma_link_step(l1, v, 1);
        }
        self.link(v, v + EBSIZE);
        let ghost l2 = self@;
        proof {
            lemma_link_step(l2, v, 2);
        }
        self.link(v, v - 1);
        let ghost l3 = self@;
        proof {
            lemma_link_step(l3, v, 3);
        }
        self.link(v, v - EBSIZE);
        let ghost l4 = self@;
        assert(l4 == b0.connect(v));
        proof {
            reveal(BoardView::place_stone);
        }
        self.remove_cnt = 0;
        let ghost c0 = self@;
        proof {
            let pos4 = choose|pos4: Seq<nat>| l4.inv_at(pos4);
            lemma_frame(l4, c0, pos4);
            assert(c0 == (BoardView { remove_cnt: 0, ..l4 }));
            assert forall|x: int| 0 <= x < 110 implies #[trigger] l4.joined_at(x) by {
                assert(near_ok(l4, v as int, 4, x));
            }
            lemma_capture_step(c0, v + 1);
        }
        self.capture(v + 1);
        let ghost c1 = self@;
        proof {
            lemma_capture_step(c1, v + 11);
        }
        self.capture(v + EBSIZE);
        let ghost c2 = self@;
        proof {
            lemma_capture_step(c2, v - 1);
        }
        self.capture(v - 1);
        let ghost c3 = self@;
        proof {
            lemma_capture_step(c3, v - 11);
        }
        self.capture(v - EBSIZE);
    }
    /// Makes the move `v` for the side to move, if it is allowed.
    ///
    /// An illegal move is refused with `Illegal`; a legal move that fills an
    /// eye of the side to move is refused with `FillEye` where `not_fill_eye`
    /// is set. A refused move changes nothing. An accepted move remembers the
    /// cells of before, places the stone unless it is the pass move, sets
    /// the ko point, hands the turn over and is appended to the history.
    pub fn play(&mut self, v: usize, not_fill_eye: bool) -> (r: Result<(), Error>)
        requires
            old(self)@.wf(),
            v <= PASS,
        ensures
            r is Ok <==> old(self)@.accepts(v, not_fill_eye),
            !not_fill_eye ==> (r is Ok <==> old(self)@.legal(v)),
            r == Err::<(), Error>(Error::Illegal) <==> !old(self)@.legal(v),
            r == Err::<(), Error>(Error::FillEye) <==> old(self)@.legal(v) && not_fill_eye && old(
                self,
            )@.eyeshape(v, old(self)@.turn),
            r is Ok ==> final(self)@ == old(self)@.play(v),
            r is Err ==> final(self)@ == old(self)@,
            final(self)@.wf(),
            old(self)@ == replay(old(self)@.history) ==> final(self)@ == replay(
                final(self)@.history,
            ),
    {
        let ghost b0 = self@;
        let ghost pos = choose|pos: Seq<nat>| b0.inv_at(pos);
        if !self.legal(v) {
            return Err(Error::Illegal);
        }
        proof {
            if v != PASS {
                assert(b0.cell_ok(v as int));
            }
        }
        if not_fill_eye && self.eyeshape(v, self.turn) {
            return Err(Error::FillEye);
        }
        proof {
            lemma_play(b0, v);
            if b0 == replay(b0.history) {
                lemma_play_replays(b0, v);
            }
        }
        self.prev_state[1] = self.prev_state[0];
        self.prev_state[0] = self.state;
        let ghost b1 = self@;
        proof {
            assert(b1.prev_state =~= seq![b0.state, b0.prev_state[0]]);
            assert(b1 == (BoardView { prev_state: seq![b0.state, b0.prev_state[0]], ..b0 }));
            lemma_frame(b0, b1, pos);
        }
        if v == PASS {
            self.ko = VNULL;
        } else {
            proof {
                lemma_place_keeps(b1, v);
            }
            self.place_stone(v);
            let id: usize = self.id[v];
            assert(self@.cell_ok(v as int));
            self.ko = VNULL;
            if self.remove_cnt == 1 && self.sg[id].get_lib_cnt() == 1 && self.sg[id].get_size()
                == 1 {
                self.ko = self.sg[id].get_v_atr();
            }
        }
        self.prev_move = v;
        self.history.push(v);
        self.turn = self.turn.opponent();
        assert(self.history@.len() == self.history.len());
        self.move_cnt += 1;
        proof {
            reveal(BoardView::play);
            assert(self@.history =~= b0.play(v).history);
            assert(self@ == b0.play(v));
        }
        Ok(())
    }

    /// Tries the moves of `order` one after the other, without filling
    /// eyes, and passes where none is accepted. Returns the move made.
    pub fn play_first(&mut self, order: &Vec<usize>) -> (r: usize)
        requires
            old(self)@.wf(),
            forall|i: int| 0 <= i < order@.len() ==> #[trigger] order@[i] <= PASS,
        ensures
            r == old(self)@.first_accepted(order@),
            old(self)@.accepts(r, true),
            final(self)@ == old(self)@.play(r),
            final(self)@.wf(),
            old(self)@ == replay(old(self)@.history) ==> final(self)@ == replay(
                final(self)@.history,
            ),
    {
        let ghost b0 = self@;
        let mut i: usize = 0;
        assert(order@.subrange(0, order@.len() as int) =~= order@);
        while i < order.len()
            invariant
                i <= order@.len(),
                self@ == b0,
                b0 == old(self)@,
                b0.wf(),
                forall|j: int| 0 <= j < order@.len() ==> #[trigger] order@[j] <= PASS,
                b0.first_accepted(order@) == b0.first_accepted(
                    order@.subrange(i as int, order@.len() as int),
                ),
            decreases order@.len() - i,
        {
            let v: usize = order[i];
            let ghost rest = order@.subrange(i as int, order@.len() as int);
            assert(rest[0] == v);
            assert(rest.drop_first() =~= order@.subrange(i + 1, order@.len() as int));
            let res = self.play(v, true);
            if res.is_ok() {
                assert(b0.accepts(v, true));
                assert(self@ == b0.play(v));
                assert(b0.first_accepted(rest) == v);
                return v;
            }
            assert(!b0.accepts(v, true));
            assert(b0.first_accepted(rest) == b0.first_accepted(rest.drop_first()));
            i += 1;
        }
        assert(order@.subrange(i as int, order@.len() as int).len() == 0);
        let _ = self.play(PASS, true);
        PASS
    }

    /// Makes a move chosen at random among the empty points that may be
    /// played without filling an eye of the side to move; passes where there
    /// is none. Returns the move.
    pub fn random_play(&mut self) -> (r: usize)
        requires
            old(self)@.wf(),
        ensures
            r == PASS || (r < EBVCNT && old(self)@.state[r as int] == Intersection::Empty),
            old(self)@.accepts(r, true),
            r == PASS ==> forall|v: usize|
                v < EBVCNT && old(self)@.state[v as int] == Intersection::Empty ==> !(#[trigger] old(self)@.accepts(v, true)),
            final(self)@ == old(self)@.play(r),
            final(self)@.wf(),
            old(self)@ == replay(old(self)@.history) ==> final(self)@ == replay(
                final(self)@.history,
            ),
    {
        let ghost b0 = self@;
        let mut empty_list: Vec<usize> = Vec::new();
        let mut v: usize = 0;
        while v < EBVCNT
            invariant
                v <= EBVCNT,
                self@ == b0,
                forall|i: int|
                    0 <= i < empty_list@.len() ==> (#[trigger] empty_list@[i]) < EBVCNT
                        && b0.state[empty_list@[i] as int] == Intersection::Empty,
                forall|u: usize|
                    u < v && b0.state[u as int] == Intersection::Empty
                        ==> #[trigger] empty_list@.contains(u),
            decreases EBVCNT - v,
        {
            if self.state[v] == Intersection::Empty {
                let ghost before = empty_list@;
                empty_list.push(v);
                assert(empty_list@[before.len() as int] == v);
                assert forall|u: usize|
                    u < v + 1 && b0.state[u as int] == Intersection::Empty
                        implies #[trigger] empty_list@.contains(u) by {
                    if u < v {
                        assert(before.contains(u));
                        let j = choose|j: int| 0 <= j < before.len() && before[j] == u;
                        assert(empty_list@[j] == u);
                    }
                }
            }
            v += 1;
        }
        let ghost sorted = empty_list@;
        shuffle(&mut empty_list);
        proof {
            sorted.to_multiset_ensures();
            empty_list@.to_multiset_ensures();
            assert forall|i: int| 0 <= i < empty_list@.len() implies (#[trigger] empty_list@[i])
                < EBVCNT && b0.state[empty_list@[i] as int] == Intersection::Empty by {
                let u = empty_list@[i];
                assert(empty_list@.contains(u));
                assert(empty_list@.to_multiset().count(u) > 0);
                assert(sorted.contains(u));
            }
            lemma_first_accepted(b0, empty_list@);
            assert forall|u: usize|
                u < EBVCNT && b0.state[u as int] == Intersection::Empty
                    && b0.first_accepted(empty_list@) == PASS implies !#[trigger] b0.accepts(
                u,
                true,
            ) by {
                assert(sorted.contains(u));
                assert(sorted.to_multiset().count(u) > 0);
                assert(empty_list@.contains(u));
            }
        }
        self.play_first(&empty_list)
    }

    /// Plays random moves until a pass answers a pass or the game has
    /// lasted two moves for each vertex of the bordered board. Nothing is
    /// played where the game has lasted that long already.
    pub fn rollout(&mut self)
        requires
            old(self)@.wf(),
        ensures
            final(self)@.wf(),
            old(self)@.history.is_prefix_of(final(self)@.history),
            final(self)@ == old(self)@.played(
                final(self)@.history.skip(old(self)@.history.len() as int),
            ),
            old(self)@.rollout_line(final(self)@.history.skip(old(self)@.history.len() as int)),
            old(self)@.move_cnt >= 2 * EBVCNT || old(self)@.rollout_ends(
                final(self)@.history.skip(old(self)@.history.len() as int),
            ),
            old(self)@.move_cnt >= 2 * EBVCNT ==> final(self)@ == old(self)@,
            final(self)@.move_cnt >= 2 * EBVCNT || ends_in_passes(final(self)@.history),
            old(self)@ == replay(old(self)@.history) ==> final(self)@ == replay(
                final(self)@.history,
            ),
    {
        let ghost b0 = self@;
        let ghost mut moves: Seq<usize> = Seq::empty();
        proof {
            assert(b0.history.skip(b0.history.len() as int) =~= moves);
        }
        while self.move_cnt < EBVCNT * 2
            invariant_except_break
                moves.len() > 0 ==> !(moves.last() == PASS && b0.played(moves.drop_last()).prev_move
                    == PASS),
            invariant
                b0 == old(self)@,
                self@.wf(),
                b0.wf(),
                self@.history == b0.history + moves,
                self@ == b0.played(moves),
                b0.rollout_line(moves),
                b0 == replay(b0.history) ==> self@ == replay(self@.history),
                b0.move_cnt >= 2 * EBVCNT ==> moves.len() == 0,
            ensures
                b0.move_cnt >= 2 * EBVCNT || b0.rollout_ends(moves),
                self@.move_cnt >= 2 * EBVCNT || ends_in_passes(self@.history),
            decreases EBVCNT * 2 - self.move_cnt,
        {
            let ghost t = self@;
            let prev_move: usize = self.prev_move;
            let mov: usize = self.random_play();
            proof {
                lemma_play(t, mov);
                let longer = moves.push(mov);
                assert(longer.drop_last() =~= moves);
                assert(self@.history =~= b0.history + longer);
                assert(self@.history.drop_last() =~= t.history);
                moves = longer;
            }
            if prev_move == PASS && mov == PASS {
                break;
            }
        }
        proof {
            assert(self@.history.skip(b0.history.len() as int) =~= moves);
            assert(b0.history.is_prefix_of(self@.history));
        }
    }

    /// Whether a stone of colour `c` stands beside `v`.
    fn beside(&self, v: usize, c: Color) -> (r: bool)
        requires
            on_board(v as int),
        ensures
            r == self@.beside(v as int, c),
    {
        let s = Intersection::Stone(c);
        self.state[v + 1] == s || self.state[v + EBSIZE] == s || self.state[v - 1] == s
            || self.state[v - EBSIZE] == s
    }

    /// The score of the position for Black: the points that count for Black
    /// minus those that count for White minus the komi. A point counts for
    /// a colour where it holds a stone of that colour, or holds none and
    /// has stones of that colour only beside it.
    pub fn score(&self) -> (r: i32)
        ensures
            r == self@.score(),
    {
        let mut black: i32 = 0;
        let mut white: i32 = 0;
        let mut rv: usize = 0;
        while rv < BVCNT
            invariant
                rv <= BVCNT,
                black == self@.area(Color::Black, rv as nat),
                white == self@.area(Color::White, rv as nat),
                0 <= black <= rv,
                0 <= white <= rv,
            decreases BVCNT - rv,
        {
            let v: usize = rv2ev(rv);
            match self.state[v] {
                Intersection::Stone(c) => {
                    match c {
                        Color::Black => {
                            black += 1;
                        },
                        Color::White => {
                            white += 1;
                        },
                    }
                },
                _ => {
                    let b: bool = self.beside(v, Color::Black);
                    let w: bool = self.beside(v, Color::White);
                    if w && !b {
                        white += 1;
                    } else if b && !w {
                        black += 1;
                    }
                },
            }
            rv += 1;
        }
        black - white - KOMI
    }

    /// The input of the network: for each playable point seven values of 0
    /// or 1, the point being the major index. Planes 0 and 1 mark the stones
    /// of the side to move and of its opponent, planes 2 and 3 the same
    /// before the last move, planes 4 and 5 before the move preceding it,
    /// and plane 6 is 1 everywhere where Black is to move.
    pub fn feature(&self) -> (r: Vec<u8>)
        ensures
            r@ == self@.features(),
    {
        let mine = Intersection::Stone(self.turn);
        let theirs = Intersection::Stone(self.turn.opponent());
        let side: u8 = match self.turn {
            Color::Black => 1,
            Color::White => 0,
        };
        let mut out: Vec<u8> = Vec::with_capacity(BVCNT * FEATURE_CNT);
        let mut p: usize = 0;
        while p < BVCNT
            invariant
                p <= BVCNT,
                mine == Intersection::Stone(self@.turn),
                theirs == Intersection::Stone(self@.turn.spec_opponent()),
                side == (if self@.turn == Color::Black { 1u8 } else { 0u8 }),
                out@.len() == p * 7,
                forall|i: int| 0 <= i < p * 7 ==> #[trigger] out@[i] == self@.feature_at(i / 7, i % 7),
            decreases BVCNT - p,
        {
            let v: usize = rv2ev(p);
            let ghost before = out@;
            out.push(if self.state[v] == mine { 1 } else { 0 });
            out.push(if self.state[v] == theirs { 1 } else { 0 });
            out.push(if self.prev_state[0][v] == mine { 1 } else { 0 });
            out.push(if self.prev_state[0][v] == theirs { 1 } else { 0 });
            out.push(if self.prev_state[1][v] == mine { 1 } else { 0 });
            out.push(if self.prev_state[1][v] == theirs { 1 } else { 0 });
            out.push(side);
            assert forall|i: int| 0 <= i < (p + 1) * 7 implies #[trigger] out@[i]
                == self@.feature_at(i / 7, i % 7) by {
                if i < p * 7 {
                    assert(out@[i] == before[i]);
                } else {
                    assert(i / 7 == p);
                }
            }
            p += 1;
        }
        assert(out@ =~= self@.features());
        out
    }

    /// The hash of the position. It depends on the cells, the cells before
    /// the last move and the side to move.
    pub fn hash(&self) -> (r: u64)
        ensures
            r == self@.hash(),
    {
        let mut hasher = DefaultHasher::new();
        let now: Vec<u8> = encode_cells(&self.state);
        hasher.write(now.as_slice());
        let h1: u64 = hasher.finish();
        let before: Vec<u8> = encode_cells(&self.prev_state[0]);
        hasher.write(before.as_slice());
        let h2: u64 = hasher.finish();
        assert(hasher@ =~= seq![encode(self@.state), encode(self@.prev_state[0])]);
        assert(seq![encode(self@.state)] =~= Seq::<Seq<u8>>::empty().push(encode(self@.state)));
        (h1 ^ h2) ^ (self.turn.to_usize() as u64)
    }

    /// Hash, move count and candidate moves of the position. The candidates
    /// are the empty points that are legal and no eye of the side to move,
    /// board-linear and in rising order, followed by the pass move.
    pub fn info(&self) -> (r: (u64, usize, Vec<usize>))
        requires
            self@.shaped(),
        ensures
            r.0 == self@.hash(),
            r.1 == self@.move_cnt,
            r.2@ == self@.candidates(),
    {
        let mut cand_list: Vec<usize> = Vec::new();
        let mut v: usize = 0;
        while v < EBVCNT
            invariant
                v <= EBVCNT,
                self@.shaped(),
                cand_list@ == self@.candidates_below(v as nat),
            decreases EBVCNT - v,
        {
            assert(self@.cell_ok(v as int));
            if self.state[v] == Intersection::Empty && self.legal(v) && !self.eyeshape(v, self.turn) {
                cand_list.push(ev2rv(v));
            }
            v += 1;
        }
        cand_list.push(ev2rv(PASS));
        (self.hash(), self.move_cnt, cand_list)
    }
}

/// The last two moves of `h` are passes.
pub open spec fn ends_in_passes(h: Seq<usize>) -> bool {
    &&& h.len() >= 2
    &&& h[h.len() - 1] == PASS
    &&& h[h.len() - 2] == PASS
}

/// The first accepted move of an order is a move of the order that is
/// accepted, or it is the pass move and no move of the order is accepted.
pub proof fn lemma_first_accepted(b: BoardView, order: Seq<usize>)
    requires
        !order.contains(PASS),
    ensures
        b.accepts(b.first_accepted(order), true),
        b.first_accepted(order) == PASS || order.contains(b.first_accepted(order)),
        b.first_accepted(order) == PASS ==> forall|u: usize|
            order.contains(u) && u != PASS ==> !#[trigger] b.accepts(u, true),
    decreases order.len(),
{
    if order.len() > 0 {
        assert(order.contains(order[0]));
        if b.accepts(order[0], true) {
        } else {
            let rest = order.drop_first();
            assert forall|j: int| 0 <= j < rest.len() implies rest[j] != PASS by {
                assert(order[j + 1] == rest[j]);
            }
            lemma_first_accepted(b, rest);
            if b.first_accepted(order) != PASS {
                let j = choose|j: int| 0 <= j < rest.len() && rest[j] == b.first_accepted(rest);
                assert(order[j + 1] == b.first_accepted(order));
            }
            assert forall|u: usize|
                order.contains(u) && u != PASS && b.first_accepted(order)
                    == PASS implies !#[trigger] b.accepts(u, true) by {
                let j = choose|j: int| 0 <= j < order.len() && order[j] == u;
                if j > 0 {
                    assert(rest[j - 1] == u);
                }
            }
        }
    }
}

} // verus!
