//! Proofs that the operations of the model keep the invariants of a
//! position.

use vstd::prelude::*;
use crate::board_ko::lemma_lone_liberty;
use crate::board_life::lemma_place_alive;
use crate::board_paths::{lemma_place_connected, lemma_same_connected};
use crate::board_model::{replay, ring_dist, succ, walk, BoardView};
use crate::constants::{PASS, VNULL};
use crate::coord_convert::on_board;
use crate::intersection::{Color, Intersection};
use crate::stone_group::{lemma_bounded_set_len, lemma_group_ops, GroupView};

verus! {

/// The `j`-th neighbour of `v`: right, up, left, down.
pub open spec fn nbr(v: int, j: int) -> int {
    if j == 0 {
        v + 1
    } else if j == 1 {
        v + 11
    } else if j == 2 {
        v - 1
    } else {
        v - 11
    }
}

/// The ring positions of an empty board.
pub open spec fn zero_pos() -> Seq<nat> {
    Seq::new(121, |v: int| 0nat)
}

/// The initial position is well-formed.
pub proof fn lemma_initial_wf()
    ensures
        BoardView::initial().inv_at(zero_pos()),
        BoardView::initial().wf(),
        BoardView::initial() == replay(Seq::empty()),
{
    let b = BoardView::initial();
    let pos = zero_pos();
    assert forall|v: int| 0 <= v < 121 implies #[trigger] b.cell_ok(v) by {
        assert(b.sg[v] == GroupView::cleared(false));
    }
    assert forall|v: int| 0 <= v < 121 implies #[trigger] b.link_ok(pos, v) by {}
    assert forall|v: int, w: int| 0 <= v < 121 && 0 <= w < 121 implies #[trigger] b.apart(
        pos,
        v,
        w,
    ) by {}
    assert forall|r: int| 0 <= r < 121 implies #[trigger] b.libs_ok(r) by {}
    assert(b.inv_at(pos));
    assert forall|v: int| 0 <= v < 110 implies #[trigger] b.joined_at(v) by {}
    assert forall|v: int| 0 <= v < 121 implies #[trigger] b.alive_at(v) by {}
    assert forall|v: int| 0 <= v < 121 implies #[trigger] b.rooted_at(v) by {}
}

// ----------------------------------------------------------------------
// A new stone and the liberties around it
// ----------------------------------------------------------------------
/// Among the first `k` neighbours of `v`, one is not empty and has the
/// group slot `i`.
pub open spec fn hit(b: BoardView, v: int, i: int, k: int) -> bool {
    exists|j: int|
        0 <= j < k && 0 <= j < 4 && b.state[#[trigger] nbr(v, j)] != Intersection::Empty
            && b.id[nbr(v, j)] == i
}

/// `w` is one of the first `k` neighbours of `v` and empty.
pub open spec fn free_nbr(b: BoardView, v: int, w: int, k: int) -> bool {
    exists|j: int|
        0 <= j < k && 0 <= j < 4 && w == #[trigger] nbr(v, j) && b.state[w] == Intersection::Empty
}

/// What holds after the first `k` neighbours of the new stone on `v` were
/// taken into account, `b0` being the position before the stone.
pub open spec fn settling(b0: BoardView, t: BoardView, v: usize, k: int) -> bool {
    &&& t == BoardView { sg: t.sg, ..b0.put(v) }
    &&& t.sg.len() == 121
    &&& forall|i: int| 0 <= i < 121 ==> (#[trigger] t.sg[i]).wf()
    &&& forall|i: int|
        0 <= i < 121 && i != v ==> #[trigger] t.sg[i] == (if hit(b0, v as int, i, k) {
            b0.sg[i].sub(v)
        } else {
            b0.sg[i]
        })
    &&& t.sg[v as int].size == 1
    &&& t.sg[v as int].counted()
    &&& t.sg[v as int].fresh()
    &&& forall|w: usize|
        #![trigger t.sg[v as int].libs.contains(w)]
        t.sg[v as int].libs.contains(w) <==> free_nbr(b0, v as int, w as int, k)
}

/// Taking one more neighbour of the new stone into account keeps what holds
/// while the liberties around it are brought up to date.
pub proof fn lemma_settle_step(b0: BoardView, pos: Seq<nat>, t: BoardView, v: usize, k: int)
    requires
        b0.inv_at(pos),
        on_board(v as int),
        b0.state[v as int] == Intersection::Empty,
        0 <= k < 4,
        settling(b0, t, v, k),
    ensures
        settling(b0, t.touch(v, nbr(v as int, k)), v, k + 1),
{
    let nv = nbr(v as int, k);
    let t2 = t.touch(v, nv);
    assert(0 <= nv < 121 && nv != v);
    assert(b0.cell_ok(nv));
    assert(b0.link_ok(pos, nv));
    assert(b0.link_ok(pos, v as int));
    assert(t.state[nv] == b0.state[nv]);
    assert(t.id[v as int] == v);
    assert(t.id[nv] == b0.id[nv]);
    if b0.state[nv] == Intersection::Empty {
        lemma_group_ops(t.sg[v as int], t.sg[v as int], nv as usize);
        assert forall|i: int| 0 <= i < 121 && i != v implies #[trigger] t2.sg[i] == (if hit(
            b0,
            v as int,
            i,
            k + 1,
        ) {
            b0.sg[i].sub(v)
        } else {
            b0.sg[i]
        }) by {
            assert(t2.sg[i] == t.sg[i]);
            assert(hit(b0, v as int, i, k + 1) == hit(b0, v as int, i, k));
        }
        assert forall|w: usize|
            #![trigger t2.sg[v as int].libs.contains(w)]
            t2.sg[v as int].libs.contains(w) <==> free_nbr(b0, v as int, w as int, k + 1) by {
            if w == nv {
                assert(nbr(v as int, k) == w);
            }
            if free_nbr(b0, v as int, w as int, k + 1) && w != nv {
                assert(free_nbr(b0, v as int, w as int, k));
            }
        }
        assert forall|i: int| 0 <= i < 121 implies (#[trigger] t2.sg[i]).wf() by {
            assert(t.sg[i].wf());
        }
    } else {
        let i0 = b0.id[nv] as int;
        assert(i0 != v) by {
            if b0.state[nv] is Stone {
                assert(b0.state[i0] is Stone);
            }
        }
        assert(b0.cell_ok(i0));
        lemma_group_ops(b0.sg[i0], b0.sg[i0], v);
        assert(hit(b0, v as int, i0, k + 1)) by {
            assert(b0.state[nbr(v as int, k)] != Intersection::Empty);
        }
        assert forall|i: int| 0 <= i < 121 && i != v implies #[trigger] t2.sg[i] == (if hit(
            b0,
            v as int,
            i,
            k + 1,
        ) {
            b0.sg[i].sub(v)
        } else {
            b0.sg[i]
        }) by {
            if i == i0 {
                assert(t.sg[i0] == b0.sg[i0] || t.sg[i0] == b0.sg[i0].sub(v));
                assert(t2.sg[i0] == t.sg[i0].sub(v));
                assert(b0.sg[i0].sub(v).sub(v) == b0.sg[i0].sub(v));
            } else {
                assert(t2.sg[i] == t.sg[i]);
                if hit(b0, v as int, i, k + 1) {
                    let j = choose|j: int|
                        0 <= j < k + 1 && 0 <= j < 4 && b0.state[#[trigger] nbr(v as int, j)]
                            != Intersection::Empty && b0.id[nbr(v as int, j)] == i;
                    assert(j != k);
                    assert(hit(b0, v as int, i, k));
                }
            }
        }
        assert forall|w: usize|
            #![trigger t2.sg[v as int].libs.contains(w)]
            t2.sg[v as int].libs.contains(w) <==> free_nbr(b0, v as int, w as int, k + 1) by {
            assert(t2.sg[v as int] == t.sg[v as int]);
            if free_nbr(b0, v as int, w as int, k + 1) {
                assert(free_nbr(b0, v as int, w as int, k));
            }
        }
        assert forall|i: int| 0 <= i < 121 implies (#[trigger] t2.sg[i]).wf() by {
            assert(t.sg[i].wf());
            if i == i0 {
                lemma_group_ops(t.sg[i0], t.sg[i0], v);
            }
        }
    }
}

/// Right after the stone was put down, no neighbour has been taken into
/// account.
pub proof fn lemma_settle_start(b0: BoardView, pos: Seq<nat>, v: usize)
    requires
        b0.inv_at(pos),
        on_board(v as int),
        b0.state[v as int] == Intersection::Empty,
    ensures
        settling(b0, b0.put(v), v, 0),
{
    let t0 = b0.put(v);
    assert(b0.cell_ok(v as int));
    assert forall|i: int| 0 <= i < 121 implies (#[trigger] t0.sg[i]).wf() by {
        assert(b0.cell_ok(i));
    }
    assert(t0.sg[v as int].libs =~= Set::empty());
}

/// The ring positions after a stone was put on `v`.
pub open spec fn settled_pos(pos: Seq<nat>, v: usize) -> Seq<nat> {
    pos.update(v as int, 0)
}

/// A stone put on an empty point, with the liberties around it brought up to
/// date, leaves chains, rings and liberties consistent. Nothing but the new
/// stone's cell, its representative and the groups changes.
pub proof fn lemma_settle(b0: BoardView, pos: Seq<nat>, v: usize)
    requires
        b0.inv_at(pos),
        on_board(v as int),
        b0.state[v as int] == Intersection::Empty,
    ensures
        b0.settle(v).inv_at(settled_pos(pos, v)),
        settling(b0, b0.settle(v), v, 4),
        b0.settle(v) == (BoardView { sg: b0.settle(v).sg, ..b0.put(v) }),
        b0.settle(v).id[v as int] == v,
        b0.settle(v).sg[v as int].size == 1,
{
    let t0 = b0.put(v);
    assert(b0.shaped());
    assert(b0.cell_ok(v as int));
    lemma_settle_start(b0, pos, v);
    let t1 = t0.touch(v, nbr(v as int, 0));
    lemma_settle_step(b0, pos, t0, v, 0);
    let t2 = t1.touch(v, nbr(v as int, 1));
    lemma_settle_step(b0, pos, t1, v, 1);
    let t3 = t2.touch(v, nbr(v as int, 2));
    lemma_settle_step(b0, pos, t2, v, 2);
    let t4 = t3.touch(v, nbr(v as int, 3));
    lemma_settle_step(b0, pos, t3, v, 3);
    assert(t4 == b0.settle(v));
    let b = t4;
    let pos2 = settled_pos(pos, v);
    assert(b0.link_ok(pos, v as int));
    assert forall|x: int| 0 <= x < 121 implies #[trigger] b.cell_ok(x) by {
        assert(b0.cell_ok(x));
        assert(b.sg[x].wf());
    }
    assert(b.shaped());
    assert forall|x: int| 0 <= x < 121 implies #[trigger] b.link_ok(pos2, x) by {
        assert(b0.link_ok(pos, x));
        if x != v && b0.state[x] is Stone {
            let r = b0.id[x] as int;
            assert(b0.cell_ok(x));
            assert(r != v);
            assert(b.sg[r].size == b0.sg[r].size);
        }
    }
    assert forall|x: int, w: int| 0 <= x < 121 && 0 <= w < 121 implies #[trigger] b.apart(
        pos2,
        x,
        w,
    ) by {
        assert(b0.apart(pos, x, w));
        assert(b0.link_ok(pos, x));
        assert(b0.link_ok(pos, w));
    }
    assert forall|r: int| 0 <= r < 121 implies #[trigger] b.libs_ok(r) by {
        if b.is_rep(r) {
            if r == v {
                assert forall|w: usize|
                    #![trigger b.sg[r].libs.contains(w)]
                    #![trigger b.is_lib(r as usize, w)]
                    b.sg[r].libs.contains(w) <==> b.is_lib(r as usize, w) by {
                    lemma_only_member(b0, pos, b, v);
                    if b.sg[r].libs.contains(w) {
                        assert(free_nbr(b0, v as int, w as int, 4));
                        let j = choose|j: int|
                            0 <= j < 4 && 0 <= j < 4 && w == #[trigger] nbr(v as int, j)
                                && b0.state[w as int] == Intersection::Empty;
                        assert(b.member(v, v as int));
                    }
                    if b.is_lib(r as usize, w) {
                        assert(w == v + 1 || w == v - 1 || w == v + 11 || w == v - 11);
                        assert(w == nbr(v as int, 0) || w == nbr(v as int, 1) || w == nbr(
                            v as int,
                            2,
                        ) || w == nbr(v as int, 3));
                        assert(free_nbr(b0, v as int, w as int, 4));
                    }
                }
            } else {
                assert(b0.libs_ok(r));
                assert(b0.is_rep(r));
                assert(b0.cell_ok(r));
                lemma_group_ops(b0.sg[r], b0.sg[r], v);
                if !hit(b0, v as int, r, 4) {
                    if b0.sg[r].libs.contains(v) {
                        assert(b0.is_lib(r as usize, v));
                        assert(b0.touches(r as usize, v as int));
                        let j: int = if b0.member(r as usize, v + 1) {
                            0
                        } else if b0.member(r as usize, v + 11) {
                            1
                        } else if b0.member(r as usize, v - 1) {
                            2
                        } else {
                            3
                        };
                        assert(b0.state[nbr(v as int, j)] != Intersection::Empty);
                        assert(hit(b0, v as int, r, 4));
                    }
                }
                assert(b.sg[r] == b0.sg[r].sub(v));
                assert forall|w: usize|
                    #![trigger b.sg[r].libs.contains(w)]
                    #![trigger b.is_lib(r as usize, w)]
                    b.sg[r].libs.contains(w) <==> b.is_lib(r as usize, w) by {
                    assert(b0.sg[r].libs.contains(w) <==> b0.is_lib(r as usize, w));
                    if w < 121 {
                        lemma_same_members(b0, b, v, r as usize, w as int);
                    }
                }
            }
        }
    }
}

/// After a stone was put on the empty point `v`, `v` is the one stone whose
/// representative is `v`.
proof fn lemma_only_member(b0: BoardView, pos: Seq<nat>, b: BoardView, v: usize)
    requires
        b0.inv_at(pos),
        on_board(v as int),
        b0.state[v as int] == Intersection::Empty,
        b.state == b0.put(v).state,
        b.id == b0.put(v).id,
    ensures
        forall|u: int| #[trigger] b.member(v, u) <==> u == v,
{
    assert forall|u: int| #[trigger] b.member(v, u) <==> u == v by {
        if 0 <= u < 121 && u != v && b.state[u] is Stone {
            assert(b0.link_ok(pos, u));
            assert(b0.state[b0.id[u] as int] is Stone);
        }
    }
}

/// A stone put on `v` changes no other chain: around any point the stones of
/// chain `r` are those of before.
proof fn lemma_same_members(b0: BoardView, b: BoardView, v: usize, r: usize, w: int)
    requires
        b0.shaped(),
        on_board(v as int),
        b0.state[v as int] == Intersection::Empty,
        b.state == b0.put(v).state,
        b.id == b0.put(v).id,
        r != v,
        0 <= w < 121,
    ensures
        b.touches(r, w) == b0.touches(r, w),
        b.is_lib(r, w as usize) == (b0.is_lib(r, w as usize) && w != v),
{
    assert forall|u: int| #[trigger] b.member(r, u) == b0.member(r, u) by {}
}

// ----------------------------------------------------------------------
// Joining two chains
// ----------------------------------------------------------------------
/// The ring positions after the chains of `v1` and `v2` were joined: the
/// ring runs from `v1` through the chain of `v2`, starting behind `v2` and
/// ending on it, and then through the rest of the chain of `v1`.
pub open spec fn merged_pos(b: BoardView, pos: Seq<nat>, v1: usize, v2: usize) -> Seq<nat> {
    let i1 = b.id[v1 as int];
    let i2 = b.id[v2 as int];
    let n1 = b.sg[i1 as int].size;
    let n2 = b.sg[i2 as int].size;
    Seq::new(
        121,
        |w: int|
            if b.member(i1, w) {
                let d = ring_dist(pos[v1 as int], pos[w], n1);
                if d == 0 { 0 } else { n2 + d }
            } else if b.member(i2, w) {
                let d = ring_dist(pos[v2 as int], pos[w], n2);
                if d == 0 { n2 } else { d }
            } else {
                pos[w]
            },
    )
}

/// Joining the chains of two stones of one colour leaves chains, rings
/// and liberties consistent.
pub proof fn lemma_merge(b: BoardView, pos: Seq<nat>, v1: usize, v2: usize)
    requires
        b.inv_at(pos),
        v1 < 121,
        v2 < 121,
        b.state[v1 as int] is Stone,
        b.state[v1 as int] == b.state[v2 as int],
        b.id[v1 as int] != b.id[v2 as int],
    ensures
        b.merge_chains(v1, v2).inv_at(merged_pos(b, pos, v1, v2)),
{
    let m = b.merge_chains(v1, v2);
    let pos2 = merged_pos(b, pos, v1, v2);
    let i1 = b.id[v1 as int];
    let i2 = b.id[v2 as int];
    let n1 = b.sg[i1 as int].size;
    let n2 = b.sg[i2 as int].size;
    let base = if n1 < n2 { i2 } else { i1 };
    let add = if n1 < n2 { i1 } else { i2 };
    assert(b.link_ok(pos, v1 as int));
    assert(b.link_ok(pos, v2 as int));
    assert(b.cell_ok(v1 as int));
    assert(b.cell_ok(v2 as int));
    assert(b.link_ok(pos, i1 as int));
    assert(b.link_ok(pos, i2 as int));
    assert(b.cell_ok(i1 as int));
    assert(b.cell_ok(i2 as int));
    lemma_group_ops(b.sg[base as int], b.sg[add as int], 0);
    assert(m.sg[base as int].size == n1 + n2);
    assert forall|x: int| 0 <= x < 121 implies #[trigger] m.cell_ok(x) by {
        assert(b.cell_ok(x));
    }
    assert(m.shaped());
    assert forall|x: int| 0 <= x < 121 implies #[trigger] m.link_ok(pos2, x) by {
        assert(b.link_ok(pos, x));
        assert(b.cell_ok(x));
        if b.state[x] is Stone {
            let r = b.id[x] as int;
            let w = b.next[x] as int;
            assert(b.link_ok(pos, w));
            assert(b.apart(pos, x, v1 as int));
            assert(b.apart(pos, x, v2 as int));
            assert(b.apart(pos, w, v1 as int));
            assert(b.apart(pos, w, v2 as int));
            let w2 = m.next[x] as int;
            assert(b.link_ok(pos, w2));
            if r == i1 {
                if x == v1 {
                    assert(w2 == b.next[v2 as int]);
                    assert(b.apart(pos, w2, v2 as int));
                } else {
                    assert(w2 == w);
                }
            } else if r == i2 {
                if x == v2 {
                    assert(w2 == b.next[v1 as int]);
                    assert(b.apart(pos, w2, v1 as int));
                } else {
                    assert(w2 == w);
                }
            } else {
                assert(w2 == w);
                assert(m.sg[r] == b.sg[r]);
            }
        }
    }
    assert forall|x: int, w: int| 0 <= x < 121 && 0 <= w < 121 implies #[trigger] m.apart(
        pos2,
        x,
        w,
    ) by {
        assert(b.apart(pos, x, w));
        assert(b.link_ok(pos, x));
        assert(b.link_ok(pos, w));
        assert(b.apart(pos, x, v1 as int));
        assert(b.apart(pos, x, v2 as int));
        assert(b.apart(pos, w, v1 as int));
        assert(b.apart(pos, w, v2 as int));
    }
    assert forall|r: int| 0 <= r < 121 implies #[trigger] m.libs_ok(r) by {
        if m.is_rep(r) {
            assert(b.libs_ok(r));
            assert(b.is_rep(r));
            assert(r != add);
            if r == base {
                assert(b.libs_ok(add as int));
                assert(b.is_rep(add as int));
                assert forall|w: usize|
                    #![trigger m.sg[r].libs.contains(w)]
                    #![trigger m.is_lib(r as usize, w)]
                    m.sg[r].libs.contains(w) <==> m.is_lib(r as usize, w) by {
                    assert(b.sg[r].libs.contains(w) <==> b.is_lib(r as usize, w));
                    assert(b.sg[add as int].libs.contains(w) <==> b.is_lib(add, w));
                    assert forall|u: int| #[trigger]
                        m.member(base, u) <==> b.member(base, u) || b.member(add, u) by {}
                }
            } else {
                assert(m.sg[r] == b.sg[r]);
                assert forall|w: usize|
                    #![trigger m.sg[r].libs.contains(w)]
                    #![trigger m.is_lib(r as usize, w)]
                    m.sg[r].libs.contains(w) <==> m.is_lib(r as usize, w) by {
                    assert(b.sg[r].libs.contains(w) <==> b.is_lib(r as usize, w));
                    assert forall|u: int| #[trigger]
                        m.member(r as usize, u) <==> b.member(r as usize, u) by {}
                }
            }
        }
    }
}

// ----------------------------------------------------------------------
// Taking a chain off
// ----------------------------------------------------------------------
/// `x` is a stone of the chain of `v0` in `b0` that lies fewer than `k`
/// steps behind `v0` in the ring.
pub open spec fn gone(b0: BoardView, pos: Seq<nat>, v0: usize, k: nat, x: int) -> bool {
    let r = b0.id[v0 as int];
    &&& b0.member(r, x)
    &&& ring_dist(pos[v0 as int], pos[x], b0.sg[r as int].size) < k
}

/// The cell `x` while a chain is taken off: emptied and linked to itself
/// where its stone is gone, untouched elsewhere.
pub open spec fn lifted_cell(
    b0: BoardView,
    pos: Seq<nat>,
    t: BoardView,
    v0: usize,
    k: nat,
    x: int,
) -> bool {
    if gone(b0, pos, v0, k, x) {
        t.state[x] == Intersection::Empty && t.id[x] == x && t.next[x] == x
    } else {
        t.state[x] == b0.state[x] && t.id[x] == b0.id[x] && t.next[x] == b0.next[x]
    }
}

/// The group of every other chain while the chain of `v0` is taken off: it
/// keeps its size and records the liberties that the chain has by now.
pub open spec fn lifted_libs(b0: BoardView, t: BoardView, v0: usize, r2: int) -> bool {
    (b0.is_rep(r2) && r2 != b0.id[v0 as int]) ==> {
        &&& t.sg[r2].size == b0.sg[r2].size
        &&& t.sg[r2].counted()
        &&& forall|w: usize|
            #![trigger t.sg[r2].libs.contains(w)]
            #![trigger t.is_lib(r2 as usize, w)]
            t.sg[r2].libs.contains(w) <==> t.is_lib(r2 as usize, w)
    }
}

/// What holds after `k` stones of the chain of `v0` were taken off, `b0`
/// being the position before.
pub open spec fn lifting(b0: BoardView, pos: Seq<nat>, t: BoardView, v0: usize, k: nat) -> bool {
    &&& t == BoardView {
        state: t.state,
        id: t.id,
        next: t.next,
        sg: t.sg,
        remove_cnt: t.remove_cnt,
        ..b0
    }
    &&& t.remove_cnt == b0.remove_cnt + k
    &&& t.state.len() == 121
    &&& t.id.len() == 121
    &&& t.next.len() == 121
    &&& t.sg.len() == 121
    &&& forall|x: int| 0 <= x < 121 ==> #[trigger] lifted_cell(b0, pos, t, v0, k, x)
    &&& forall|i: int| 0 <= i < 121 ==> (#[trigger] t.sg[i]).wf()
    &&& forall|r2: int| 0 <= r2 < 121 ==> #[trigger] lifted_libs(b0, t, v0, r2)
}

/// `s` is `s0` with the liberty `u` added to the slots listed in `idxs`.
pub open spec fn added(s0: Seq<GroupView>, s: Seq<GroupView>, u: usize, idxs: Seq<int>) -> bool {
    &&& s.len() == s0.len()
    &&& forall|i: int|
        0 <= i < s0.len() ==> #[trigger] s[i] == (if idxs.contains(i) {
            s0[i].add(u)
        } else {
            s0[i]
        })
}

/// Adding the liberty to one more slot.
proof fn lemma_added_step(s0: Seq<GroupView>, s: Seq<GroupView>, u: usize, idxs: Seq<int>, i: int)
    requires
        added(s0, s, u, idxs),
        0 <= i < s0.len(),
        u < 121,
        forall|j: int| 0 <= j < s0.len() ==> (#[trigger] s0[j]).wf(),
    ensures
        added(s0, s.update(i, s[i].add(u)), u, idxs.push(i)),
{
    let s2 = s.update(i, s[i].add(u));
    let idx2 = idxs.push(i);
    assert(idx2[idxs.len() as int] == i);
    assert(s0[i].wf());
    lemma_group_ops(s0[i], s0[i], u);
    assert forall|j: int| 0 <= j < s0.len() implies #[trigger] s2[j] == (if idx2.contains(j) {
        s0[j].add(u)
    } else {
        s0[j]
    }) by {
        if j == i {
            assert(idx2.contains(j));
        } else {
            if idxs.contains(j) {
                let q = choose|q: int| 0 <= q < idxs.len() && idxs[q] == j;
                assert(idx2[q] == j);
            }
            if idx2.contains(j) {
                let q = choose|q: int| 0 <= q < idx2.len() && idx2[q] == j;
                assert(q < idxs.len());
                assert(idxs[q] == j);
            }
        }
    }
}

/// Taking the next stone of the chain off keeps what holds of a chain that
/// is being taken off, and the ring leads on to the next stone to go, or
/// back to the first one when all have gone.
pub proof fn lemma_lift_step(b0: BoardView, pos: Seq<nat>, t: BoardView, v0: usize, k: nat, u: usize)
    requires
        b0.inv_at(pos),
        v0 < 121,
        b0.state[v0 as int] is Stone,
        lifting(b0, pos, t, v0, k),
        b0.member(b0.id[v0 as int], u as int),
        ring_dist(pos[v0 as int], pos[u as int], b0.sg[b0.id[v0 as int] as int].size) == k,
    ensures
        k < b0.sg[b0.id[v0 as int] as int].size,
        on_board(u as int),
        t.state[u as int] == b0.state[u as int],
        t.next[u as int] == b0.next[u as int],
        lifting(b0, pos, t.lift(u), v0, k + 1),
        b0.member(b0.id[v0 as int], t.next[u as int] as int),
        k + 1 < b0.sg[b0.id[v0 as int] as int].size ==> ring_dist(
            pos[v0 as int],
            pos[t.next[u as int] as int],
            b0.sg[b0.id[v0 as int] as int].size,
        ) == k + 1 && t.next[u as int] != v0,
        k + 1 == b0.sg[b0.id[v0 as int] as int].size ==> t.next[u as int] == v0,
        forall|j: int| 0 <= j < 4 ==> t.id[#[trigger] nbr(u as int, j)] < 121,
{
    let r = b0.id[v0 as int];
    let n = b0.sg[r as int].size;
    let t2 = t.lift(u);
    assert(b0.link_ok(pos, v0 as int));
    assert(b0.link_ok(pos, u as int));
    assert(b0.cell_ok(u as int));
    assert(lifted_cell(b0, pos, t, v0, k, u as int));
    assert(!gone(b0, pos, v0, k, u as int));
    let un = b0.next[u as int] as int;
    assert(b0.link_ok(pos, un));
    assert(b0.apart(pos, un, v0 as int));
    assert forall|j: int| 0 <= j < 4 implies t.id[#[trigger] nbr(u as int, j)] < 121 by {
        let y = nbr(u as int, j);
        assert(lifted_cell(b0, pos, t, v0, k, y));
        assert(b0.cell_ok(y));
    }
    // the groups
    let id1 = t.id.update(u as int, u);
    let s0 = t.sg;
    let i1 = id1[u + 1] as int;
    let s1 = s0.update(i1, s0[i1].add(u));
    let i2 = id1[u + 11] as int;
    let s2 = s1.update(i2, s1[i2].add(u));
    let i3 = id1[u - 1] as int;
    let s3 = s2.update(i3, s2[i3].add(u));
    let i4 = id1[u - 11] as int;
    let s4 = s3.update(i4, s3[i4].add(u));
    assert(nbr(u as int, 0) == u + 1 && nbr(u as int, 1) == u + 11 && nbr(u as int, 2) == u - 1
        && nbr(u as int, 3) == u - 11);
    assert(i1 == t.id[nbr(u as int, 0)]);
    assert(i2 == t.id[nbr(u as int, 1)]);
    assert(i3 == t.id[nbr(u as int, 2)]);
    assert(i4 == t.id[nbr(u as int, 3)]);
    let e0 = Seq::<int>::empty();
    assert(added(s0, s0, u, e0));
    lemma_added_step(s0, s0, u, e0, i1);
    lemma_added_step(s0, s1, u, e0.push(i1), i2);
    lemma_added_step(s0, s2, u, e0.push(i1).push(i2), i3);
    lemma_added_step(s0, s3, u, e0.push(i1).push(i2).push(i3), i4);
    let idxs = e0.push(i1).push(i2).push(i3).push(i4);
    assert(added(s0, s4, u, idxs));
    assert(t2.sg == s4);
    assert forall|i: int| idxs.contains(i) <==> (i == i1 || i == i2 || i == i3 || i == i4) by {
        assert(idxs[0] == i1 && idxs[1] == i2 && idxs[2] == i3 && idxs[3] == i4);
    }
    assert forall|i: int| 0 <= i < 121 implies (#[trigger] t2.sg[i]).wf() by {
        assert(t.sg[i].wf());
        lemma_group_ops(t.sg[i], t.sg[i], u);
    }
    assert forall|x: int| 0 <= x < 121 implies #[trigger] lifted_cell(
        b0,
        pos,
        t2,
        v0,
        k + 1,
        x,
    ) by {
        assert(lifted_cell(b0, pos, t, v0, k, x));
        assert(b0.apart(pos, x, u as int));
        assert(b0.link_ok(pos, x));
        if x == u {
            assert(gone(b0, pos, v0, k + 1, x));
        } else {
            assert(gone(b0, pos, v0, k + 1, x) == gone(b0, pos, v0, k, x));
        }
    }
    assert forall|r2: int| 0 <= r2 < 121 implies #[trigger] lifted_libs(b0, t2, v0, r2) by {
        if b0.is_rep(r2) && r2 != r {
            assert(lifted_libs(b0, t, v0, r2));
            assert(t.sg[r2].wf());
            lemma_group_ops(t.sg[r2], t.sg[r2], u);
            assert forall|y: int| 0 <= y < 121 implies (#[trigger] t.member(r2 as usize, y)
                <==> b0.member(r2 as usize, y)) && (t2.member(r2 as usize, y) <==> b0.member(
                r2 as usize,
                y,
            )) by {
                assert(lifted_cell(b0, pos, t, v0, k, y));
                assert(lifted_cell(b0, pos, t2, v0, k + 1, y));
                assert(b0.link_ok(pos, y));
            }
            assert((idxs.contains(r2)) <==> t2.touches(r2 as usize, u as int)) by {
                assert forall|j: int| 0 <= j < 4 implies (t.id[#[trigger] nbr(u as int, j)] == r2
                    <==> b0.member(r2 as usize, nbr(u as int, j))) by {
                    let y = nbr(u as int, j);
                    assert(lifted_cell(b0, pos, t, v0, k, y));
                    assert(b0.link_ok(pos, y));
                    assert(b0.cell_ok(y));
                }
                assert(t.member(r2 as usize, nbr(u as int, 0)) <==> b0.member(
                    r2 as usize,
                    nbr(u as int, 0),
                ));
                assert(t.member(r2 as usize, nbr(u as int, 1)) <==> b0.member(
                    r2 as usize,
                    nbr(u as int, 1),
                ));
                assert(t.member(r2 as usize, nbr(u as int, 2)) <==> b0.member(
                    r2 as usize,
                    nbr(u as int, 2),
                ));
                assert(t.member(r2 as usize, nbr(u as int, 3)) <==> b0.member(
                    r2 as usize,
                    nbr(u as int, 3),
                ));
            }
            assert forall|w: usize|
                #![trigger t2.sg[r2].libs.contains(w)]
                #![trigger t2.is_lib(r2 as usize, w)]
                t2.sg[r2].libs.contains(w) <==> t2.is_lib(r2 as usize, w) by {
                assert(t.sg[r2].libs.contains(w) <==> t.is_lib(r2 as usize, w));
                if w < 121 {
                    assert(t.member(r2 as usize, w + 1) <==> t2.member(r2 as usize, w + 1));
                    assert(t.member(r2 as usize, w + 11) <==> t2.member(r2 as usize, w + 11));
                    assert(t.member(r2 as usize, w - 1) <==> t2.member(r2 as usize, w - 1));
                    assert(t.member(r2 as usize, w - 11) <==> t2.member(r2 as usize, w - 11));
                }
            }
        }
    }
}

/// When every stone of the chain has gone, chains, rings and liberties are
/// consistent again.
pub proof fn lemma_lift_done(b0: BoardView, pos: Seq<nat>, t: BoardView, v0: usize)
    requires
        b0.inv_at(pos),
        v0 < 121,
        b0.state[v0 as int] is Stone,
        lifting(b0, pos, t, v0, b0.sg[b0.id[v0 as int] as int].size),
    ensures
        t.inv_at(pos),
        forall|x: int|
            0 <= x < 121 ==> #[trigger] t.state[x] == (if b0.member(b0.id[v0 as int], x) {
                Intersection::Empty
            } else {
                b0.state[x]
            }),
        forall|x: int|
            0 <= x < 121 && !b0.member(b0.id[v0 as int], x) ==> #[trigger] t.id[x] == b0.id[x],
        b0.maximal() ==> t.maximal(),
{
    let r = b0.id[v0 as int];
    let n = b0.sg[r as int].size;
    assert forall|x: int| 0 <= x < 121 implies gone(b0, pos, v0, n, x) == b0.member(r, x) by {
        assert(b0.link_ok(pos, x));
        assert(b0.link_ok(pos, v0 as int));
    }
    assert forall|x: int| 0 <= x < 121 implies #[trigger] t.cell_ok(x) by {
        assert(b0.cell_ok(x));
        assert(lifted_cell(b0, pos, t, v0, n, x));
        assert(t.sg[x].wf());
    }
    assert(b0.shaped());
    assert(t.shaped());
    assert forall|x: int| 0 <= x < 121 implies #[trigger] t.link_ok(pos, x) by {
        assert(b0.link_ok(pos, x));
        assert(b0.cell_ok(x));
        assert(lifted_cell(b0, pos, t, v0, n, x));
        if t.state[x] is Stone {
            let r2 = b0.id[x] as int;
            let w = b0.next[x] as int;
            assert(!gone(b0, pos, v0, n, x));
            assert(!b0.member(r, x));
            assert(r2 != r);
            assert(lifted_cell(b0, pos, t, v0, n, r2));
            assert(lifted_cell(b0, pos, t, v0, n, w));
            assert(b0.link_ok(pos, r2));
            assert(b0.link_ok(pos, w));
            assert(!b0.member(r, r2));
            assert(!b0.member(r, w));
            assert(!gone(b0, pos, v0, n, r2));
            assert(!gone(b0, pos, v0, n, w));
            assert(b0.is_rep(r2));
            assert(lifted_libs(b0, t, v0, r2));
        }
    }
    assert forall|x: int, w: int| 0 <= x < 121 && 0 <= w < 121 implies #[trigger] t.apart(
        pos,
        x,
        w,
    ) by {
        assert(b0.apart(pos, x, w));
        assert(lifted_cell(b0, pos, t, v0, n, x));
        assert(lifted_cell(b0, pos, t, v0, n, w));
    }
    assert forall|r2: int| 0 <= r2 < 121 implies #[trigger] t.libs_ok(r2) by {
        assert(lifted_cell(b0, pos, t, v0, n, r2));
        assert(lifted_libs(b0, t, v0, r2));
    }
    assert forall|x: int| 0 <= x < 121 implies #[trigger] t.state[x] == (if b0.member(r, x) {
        Intersection::Empty
    } else {
        b0.state[x]
    }) by {
        assert(lifted_cell(b0, pos, t, v0, n, x));
    }
    assert forall|x: int| 0 <= x < 121 && !b0.member(r, x) implies #[trigger] t.id[x]
        == b0.id[x] by {
        assert(lifted_cell(b0, pos, t, v0, n, x));
    }
    if b0.maximal() {
        assert forall|x: int| 0 <= x < 110 implies #[trigger] t.joined_at(x) by {
            assert(b0.joined_at(x));
            assert(lifted_cell(b0, pos, t, v0, n, x));
            assert(lifted_cell(b0, pos, t, v0, n, x + 1));
            assert(lifted_cell(b0, pos, t, v0, n, x + 11));
        }
    }
}

/// Before a stone is taken off, nothing has changed.
pub proof fn lemma_lift_start(b0: BoardView, pos: Seq<nat>, v0: usize)
    requires
        b0.inv_at(pos),
        v0 < 121,
        b0.state[v0 as int] is Stone,
    ensures
        lifting(b0, pos, b0, v0, 0),
{
    assert forall|x: int| 0 <= x < 121 implies #[trigger] lifted_cell(b0, pos, b0, v0, 0, x) by {}
    assert forall|i: int| 0 <= i < 121 implies (#[trigger] b0.sg[i]).wf() by {
        assert(b0.cell_ok(i));
    }
    assert forall|r2: int| 0 <= r2 < 121 implies #[trigger] lifted_libs(b0, b0, v0, r2) by {
        assert(b0.libs_ok(r2));
    }
}

/// Taking off the stones that are left, one after the other along the
/// ring, takes the whole chain off.
pub proof fn lemma_lift_rest(b0: BoardView, pos: Seq<nat>, t: BoardView, v0: usize, k: nat, u: usize)
    requires
        b0.inv_at(pos),
        v0 < 121,
        b0.state[v0 as int] is Stone,
        lifting(b0, pos, t, v0, k),
        k <= b0.sg[b0.id[v0 as int] as int].size,
        k < b0.sg[b0.id[v0 as int] as int].size ==> b0.member(b0.id[v0 as int], u as int)
            && ring_dist(pos[v0 as int], pos[u as int], b0.sg[b0.id[v0 as int] as int].size) == k,
    ensures
        lifting(
            b0,
            pos,
            t.lift_from(u, (b0.sg[b0.id[v0 as int] as int].size - k) as nat),
            v0,
            b0.sg[b0.id[v0 as int] as int].size,
        ),
    decreases b0.sg[b0.id[v0 as int] as int].size - k,
{
    let n = b0.sg[b0.id[v0 as int] as int].size;
    if k < n {
        lemma_lift_step(b0, pos, t, v0, k, u);
        let u2 = t.next[u as int];
        lemma_lift_rest(b0, pos, t.lift(u), v0, k + 1, u2);
        assert(t.lift_from(u, (n - k) as nat) == t.lift(u).lift_from(u2, (n - k - 1) as nat));
    }
}

/// Taking a chain off leaves chains, rings and liberties consistent: the
/// points of the chain are empty, every other point is as before, and the
/// neighbouring chains have gained the liberties.
pub proof fn lemma_remove(b0: BoardView, pos: Seq<nat>, v0: usize)
    requires
        b0.inv_at(pos),
        v0 < 121,
        b0.state[v0 as int] is Stone,
    ensures
        b0.remove_chain(v0).inv_at(pos),
        lifting(b0, pos, b0.remove_chain(v0), v0, b0.sg[b0.id[v0 as int] as int].size),
        b0.maximal() ==> b0.remove_chain(v0).maximal(),
{
    let n = b0.sg[b0.id[v0 as int] as int].size;
    lemma_lift_start(b0, pos, v0);
    assert(b0.link_ok(pos, v0 as int));
    lemma_lift_rest(b0, pos, b0, v0, 0, v0);
    lemma_lift_done(b0, pos, b0.remove_chain(v0), v0);
}

// ----------------------------------------------------------------------
// Rings
// ----------------------------------------------------------------------
/// The ring position `k` steps after `p` in a ring of `n`, for `k <= n`.
pub open spec fn forward(p: nat, k: nat, n: nat) -> nat {
    if p + k < n { p + k } else { (p + k - n) as nat }
}

/// The vertices met on the first `m` steps of the walk from `v`.
pub open spec fn visited(next: Seq<usize>, v: int, m: nat) -> Set<usize>
    decreases m,
{
    if m == 0 {
        Set::empty()
    } else {
        visited(next, v, (m - 1) as nat).insert(walk(next, v, (m - 1) as nat) as usize)
    }
}

/// Following `next` from a stone for `k` steps, `k` at most the size of its
/// chain, leads to the stone of the chain `k` positions further in the ring.
pub proof fn lemma_walk(b: BoardView, pos: Seq<nat>, v: int, k: nat)
    requires
        b.inv_at(pos),
        0 <= v < 121,
        b.state[v] is Stone,
        k <= b.sg[b.id[v] as int].size,
    ensures
        b.member(b.id[v], walk(b.next, v, k)),
        pos[walk(b.next, v, k)] == forward(pos[v], k, b.sg[b.id[v] as int].size),
    decreases k,
{
    assert(b.link_ok(pos, v));
    assert(b.cell_ok(v));
    if k > 0 {
        lemma_walk(b, pos, b.next[v] as int, (k - 1) as nat);
    }
}

/// The first `m` steps of the walk from a stone meet `m` stones of its
/// chain, each within `m` ring positions behind it.
proof fn lemma_visited(b: BoardView, pos: Seq<nat>, v: int, m: nat)
    requires
        b.inv_at(pos),
        0 <= v < 121,
        b.state[v] is Stone,
        m <= b.sg[b.id[v] as int].size,
    ensures
        visited(b.next, v, m).finite(),
        visited(b.next, v, m).len() == m,
        forall|e: usize| #[trigger]
            visited(b.next, v, m).contains(e) ==> b.member(b.id[v], e as int) && ring_dist(
                pos[v],
                pos[e as int],
                b.sg[b.id[v] as int].size,
            ) < m,
    decreases m,
{
    if m > 0 {
        let k = (m - 1) as nat;
        lemma_visited(b, pos, v, k);
        lemma_walk(b, pos, v, k);
        assert(b.link_ok(pos, v));
    }
}

/// A chain has at least one stone and no more than the board has vertices.
pub proof fn lemma_chain_size(b: BoardView, pos: Seq<nat>, v: int)
    requires
        b.inv_at(pos),
        0 <= v < 121,
        b.state[v] is Stone,
    ensures
        1 <= b.sg[b.id[v] as int].size <= 121,
{
    let n = b.sg[b.id[v] as int].size;
    assert(b.link_ok(pos, v));
    lemma_visited(b, pos, v, n);
    lemma_bounded_set_len(visited(b.next, v, n), 121);
}

/// Following `next` from any stone leads back to it after exactly as many
/// steps as its chain has stones and not before, and the walk meets every
/// stone of the chain.
pub proof fn lemma_ring_returns(b: BoardView, v: int)
    requires
        b.inv(),
        0 <= v < 121,
        b.state[v] is Stone,
    ensures
        walk(b.next, v, b.sg[b.id[v] as int].size) == v,
        forall|k: nat| 0 < k < b.sg[b.id[v] as int].size ==> #[trigger] walk(b.next, v, k) != v,
        forall|k: nat|
            k <= b.sg[b.id[v] as int].size ==> b.member(b.id[v], #[trigger] walk(b.next, v, k)),
        forall|w: int|
            #![trigger b.member(b.id[v], w)]
            b.member(b.id[v], w) ==> exists|k: nat|
                k < b.sg[b.id[v] as int].size && walk(b.next, v, k) == w,
{
    let pos = choose|pos: Seq<nat>| b.inv_at(pos);
    let n = b.sg[b.id[v] as int].size;
    assert(b.link_ok(pos, v));
    lemma_walk(b, pos, v, n);
    assert(b.apart(pos, walk(b.next, v, n), v));
    assert forall|k: nat| 0 < k < n implies #[trigger] walk(b.next, v, k) != v by {
        lemma_walk(b, pos, v, k);
    }
    assert forall|k: nat| k <= n implies b.member(b.id[v], #[trigger] walk(b.next, v, k)) by {
        lemma_walk(b, pos, v, k);
    }
    assert forall|w: int|
        #![trigger b.member(b.id[v], w)]
        b.member(b.id[v], w) implies exists|k: nat| k < n && walk(b.next, v, k) == w by {
        assert(b.link_ok(pos, w));
        let k = ring_dist(pos[v], pos[w], n);
        lemma_walk(b, pos, v, k);
        assert(b.apart(pos, walk(b.next, v, k), w));
        assert(k < n && walk(b.next, v, k) == w);
    }
}

// ----------------------------------------------------------------------
// Placing a stone
// ----------------------------------------------------------------------
/// Where `x` and `y` hold stones of one colour, they are in one chain.
pub open spec fn pair_ok(b: BoardView, x: int, y: int) -> bool {
    (b.state[x] is Stone && b.state[y] == b.state[x]) ==> b.id[x] == b.id[y]
}

/// The pairs of neighbours that start at `x` are in order, but for those
/// that join the new stone `v` to one of its neighbours from the `k`-th on.
pub open spec fn near_ok(b: BoardView, v: int, k: int, x: int) -> bool {
    &&& ((x == v && k <= 0) || (x == v - 1 && k <= 2) || pair_ok(b, x, x + 1))
    &&& ((x == v && k <= 1) || (x == v - 11 && k <= 3) || pair_ok(b, x, x + 11))
}

/// Neighbouring stones of one colour are in one chain, but perhaps the new
/// stone `v` and its neighbours from the `k`-th on.
pub open spec fn linked_upto(b: BoardView, v: int, k: int) -> bool {
    forall|x: int| 0 <= x < 110 ==> #[trigger] near_ok(b, v, k, x)
}

/// Joining the new stone to its `k`-th neighbour, where that is a stone of
/// its colour in another chain, keeps the chains consistent and leaves one
/// pair of neighbours fewer to join.
pub proof fn lemma_link_step(b: BoardView, v: usize, k: int)
    requires
        b.inv(),
        on_board(v as int),
        b.state[v as int] is Stone,
        0 <= k < 4,
        linked_upto(b, v as int, k),
    ensures
        b.link(v, nbr(v as int, k)).inv(),
        b.link(v, nbr(v as int, k)).state == b.state,
        b.link(v, nbr(v as int, k)).turn == b.turn,
        linked_upto(b.link(v, nbr(v as int, k)), v as int, k + 1),
{
    let pos = choose|pos: Seq<nat>| b.inv_at(pos);
    let nv = nbr(v as int, k);
    let m = b.link(v, nv);
    if b.state[nv] == b.state[v as int] && b.id[nv] != b.id[v as int] {
        lemma_merge(b, pos, v, nv as usize);
        assert(m.inv_at(merged_pos(b, pos, v, nv as usize)));
        assert(m.id[v as int] == m.id[nv]);
        assert forall|x: int| 0 <= x < 110 implies #[trigger] near_ok(m, v as int, k + 1, x) by {
            assert(near_ok(b, v as int, k, x));
        }
    } else {
        assert forall|x: int| 0 <= x < 110 implies #[trigger] near_ok(m, v as int, k + 1, x) by {
            assert(near_ok(b, v as int, k, x));
        }
    }
}

/// A stone put on an empty point of a well-formed position and joined to
/// the neighbouring chains of its colour leaves consistent chains that are
/// as large as they can be.
pub proof fn lemma_connect(b0: BoardView, v: usize)
    requires
        b0.inv(),
        b0.maximal(),
        on_board(v as int),
        b0.state[v as int] == Intersection::Empty,
    ensures
        b0.connect(v).inv(),
        b0.connect(v).maximal(),
        b0.connect(v).state == b0.put(v).state,
        b0.connect(v).turn == b0.turn,
{
    let pos = choose|pos: Seq<nat>| b0.inv_at(pos);
    lemma_settle(b0, pos, v);
    let s = b0.settle(v);
    assert(s.inv());
    assert forall|x: int| 0 <= x < 110 implies #[trigger] near_ok(s, v as int, 0, x) by {
        assert(b0.joined_at(x));
    }
    lemma_link_step(s, v, 0);
    let l1 = s.link(v, nbr(v as int, 0));
    lemma_link_step(l1, v, 1);
    let l2 = l1.link(v, nbr(v as int, 1));
    lemma_link_step(l2, v, 2);
    let l3 = l2.link(v, nbr(v as int, 2));
    lemma_link_step(l3, v, 3);
    let l4 = l3.link(v, nbr(v as int, 3));
    assert(l4 == b0.connect(v));
    assert forall|x: int| 0 <= x < 110 implies #[trigger] l4.joined_at(x) by {
        assert(near_ok(l4, v as int, 4, x));
    }
}

/// Taking off a neighbouring opposing chain without liberties keeps a
/// position well-formed, leaves the stones of the side to move alone and
/// counts at most a boardful of stones.
pub proof fn lemma_capture_step(b: BoardView, nv: int)
    requires
        b.inv(),
        b.maximal(),
        0 <= nv < 121,
    ensures
        b.capture(nv).inv(),
        b.capture(nv).maximal(),
        b.capture(nv).turn == b.turn,
        b.capture(nv).remove_cnt <= b.remove_cnt + 121,
        forall|x: int|
            0 <= x < 121 && b.state[x] == Intersection::Stone(b.turn) ==> #[trigger] b.capture(
                nv,
            ).state[x] == b.state[x],
{
    let pos = choose|pos: Seq<nat>| b.inv_at(pos);
    let c = b.capture(nv);
    if c != b {
        lemma_remove(b, pos, nv as usize);
        lemma_chain_size(b, pos, nv);
        lemma_lift_done(b, pos, c, nv as usize);
        assert forall|x: int|
            0 <= x < 121 && b.state[x] == Intersection::Stone(b.turn) implies #[trigger] c.state[x]
            == b.state[x] by {
            assert(b.link_ok(pos, x));
            assert(b.link_ok(pos, nv));
        }
    }
}

/// Placing a stone on an empty point of a well-formed position leaves
/// consistent chains that are as large as they can be; the new stone
/// stands.
pub proof fn lemma_place(b0: BoardView, v: usize)
    requires
        b0.inv(),
        b0.maximal(),
        on_board(v as int),
        b0.state[v as int] == Intersection::Empty,
    ensures
        b0.place_stone(v).inv(),
        b0.place_stone(v).maximal(),
        b0.place_stone(v).state[v as int] == Intersection::Stone(b0.turn),
        b0.place_stone(v).turn == b0.turn,
{
    reveal(BoardView::place_stone);
    lemma_connect(b0, v);
    let c = b0.connect(v);
    let pos = choose|pos: Seq<nat>| c.inv_at(pos);
    let c0 = BoardView { remove_cnt: 0, ..c };
    lemma_frame(c, c0, pos);
    lemma_capture_step(c0, nbr(v as int, 0));
    let c1 = c0.capture(nbr(v as int, 0));
    lemma_capture_step(c1, nbr(v as int, 1));
    let c2 = c1.capture(nbr(v as int, 1));
    lemma_capture_step(c2, nbr(v as int, 2));
    let c3 = c2.capture(nbr(v as int, 2));
    lemma_capture_step(c3, nbr(v as int, 3));
    let c4 = c3.capture(nbr(v as int, 3));
    assert(c4 == b0.place_stone(v));
    assert(c0.state[v as int] == Intersection::Stone(b0.turn));
    assert(c1.state[v as int] == c0.state[v as int]);
    assert(c2.state[v as int] == c1.state[v as int]);
    assert(c3.state[v as int] == c2.state[v as int]);
    assert(c4.state[v as int] == c3.state[v as int]);
}

/// The invariants speak of cells, links and groups only: a position that
/// agrees with a consistent one in these is consistent too.
pub proof fn lemma_frame(c: BoardView, c0: BoardView, pos: Seq<nat>)
    requires
        c.inv_at(pos),
        c0.state == c.state,
        c0.id == c.id,
        c0.next == c.next,
        c0.sg == c.sg,
        c0.prev_state.len() == 2,
        c0.prev_state[0].len() == 121,
        c0.prev_state[1].len() == 121,
    ensures
        c0.inv_at(pos),
        c.maximal() ==> c0.maximal(),
{
    assert forall|x: int| 0 <= x < 121 implies #[trigger] c0.cell_ok(x) by {
        assert(c.cell_ok(x));
    }
    assert forall|x: int| 0 <= x < 121 implies #[trigger] c0.link_ok(pos, x) by {
        assert(c.link_ok(pos, x));
    }
    assert forall|x: int, w: int| 0 <= x < 121 && 0 <= w < 121 implies #[trigger] c0.apart(
        pos,
        x,
        w,
    ) by {
        assert(c.apart(pos, x, w));
    }
    assert forall|r: int| 0 <= r < 121 implies #[trigger] c0.libs_ok(r) by {
        assert(c.libs_ok(r));
        if c0.is_rep(r) {
            assert forall|w: usize|
                #![trigger c0.sg[r].libs.contains(w)]
                #![trigger c0.is_lib(r as usize, w)]
                c0.sg[r].libs.contains(w) <==> c0.is_lib(r as usize, w) by {
                assert(c.sg[r].libs.contains(w) <==> c.is_lib(r as usize, w));
                assert(c0.is_lib(r as usize, w) == c.is_lib(r as usize, w)) by {
                    assert forall|u: int| #[trigger]
                        c0.member(r as usize, u) == c.member(r as usize, u) by {}
                }
            }
        }
    }
    if c.maximal() {
        assert forall|x: int| 0 <= x < 110 implies #[trigger] c0.joined_at(x) by {
            assert(c.joined_at(x));
        }
    }
}

/// In the ring of a chain, `next` leads from the stone `k` steps behind
/// `v0` to the stone one step further, and from the last one back to `v0`.
pub proof fn lemma_ring_next(b: BoardView, pos: Seq<nat>, v0: int, u: int)
    requires
        b.inv_at(pos),
        0 <= v0 < 121,
        b.state[v0] is Stone,
        b.member(b.id[v0], u),
    ensures
        b.member(b.id[v0], b.next[u] as int),
        ring_dist(pos[v0], pos[u], b.sg[b.id[v0] as int].size) < b.sg[b.id[v0] as int].size,
        ring_dist(pos[v0], pos[b.next[u] as int], b.sg[b.id[v0] as int].size) == succ(
            ring_dist(pos[v0], pos[u], b.sg[b.id[v0] as int].size),
            b.sg[b.id[v0] as int].size,
        ),
        (b.next[u] == v0) == (ring_dist(pos[v0], pos[u], b.sg[b.id[v0] as int].size) + 1
            == b.sg[b.id[v0] as int].size),
{
    assert(b.link_ok(pos, v0));
    assert(b.link_ok(pos, u));
    assert(b.cell_ok(u));
    assert(b.link_ok(pos, b.next[u] as int));
    assert(b.apart(pos, b.next[u] as int, v0));
}

// ----------------------------------------------------------------------
// Moves
// ----------------------------------------------------------------------
/// A legal move leads from a well-formed position to a well-formed
/// position, with the move appended to the history and the other side to
/// move.
pub proof fn lemma_play(b: BoardView, v: usize)
    requires
        b.wf(),
        v <= PASS,
        b.legal(v),
    ensures
        b.play(v).wf(),
        b.play(v).history == b.history.push(v),
        b.play(v).move_cnt == b.move_cnt + 1,
        b.play(v).turn == b.turn.spec_opponent(),
        b.play(v).prev_move == v,
        b.play(v).prev_state == seq![b.state, b.prev_state[0]],
{
    reveal(BoardView::play);
    let pos = choose|pos: Seq<nat>| b.inv_at(pos);
    let shifted = seq![b.state, b.prev_state[0]];
    let b1 = BoardView { prev_state: shifted, ..b };
    lemma_frame(b, b1, pos);
    if v == PASS {
        lemma_frame(b, b.play(v), pos);
        lemma_same_connected(b, b.play(v));
        assert forall|x: int| 0 <= x < 121 implies #[trigger] b.play(v).alive_at(x) by {
            assert(b.alive_at(x));
        }
    } else {
        assert(b.cell_ok(v as int));
        lemma_place(b1, v);
        let placed = b1.place_stone(v);
        let pos2 = choose|pos2: Seq<nat>| placed.inv_at(pos2);
        lemma_place_keeps(b1, v);
        lemma_frame(placed, b.play(v), pos2);
        assert forall|x: int| 0 <= x < 121 implies #[trigger] b1.alive_at(x) by {
            assert(b.alive_at(x));
        }
        assert(b1.enables(v + 1) == b.enables(v + 1));
        assert(b1.enables(v + 11) == b.enables(v + 11));
        assert(b1.enables(v - 1) == b.enables(v - 1));
        assert(b1.enables(v - 11) == b.enables(v - 11));
        lemma_place_alive(b1, v);
        assert forall|x: int| 0 <= x < 121 implies #[trigger] b.play(v).alive_at(x) by {
            assert(placed.alive_at(x));
        }
        if placed.ko_after(v) != VNULL {
            lemma_lone_liberty(b1, v);
        }
        lemma_same_connected(b, b1);
        lemma_place_connected(b1, v);
        lemma_same_connected(placed, b.play(v));
    }
}

/// Placing a stone changes neither the history nor the earlier cells nor
/// the move count.
pub proof fn lemma_place_keeps(b: BoardView, v: usize)
    requires
        b.inv(),
        b.maximal(),
        on_board(v as int),
        b.state[v as int] == Intersection::Empty,
    ensures
        b.place_stone(v).history == b.history,
        b.place_stone(v).prev_state == b.prev_state,
        b.place_stone(v).move_cnt == b.move_cnt,
        b.place_stone(v).prev_move == b.prev_move,
        b.place_stone(v).ko == b.ko,
{
    reveal(BoardView::place_stone);
    lemma_connect(b, v);
    let c = b.connect(v);
    let c0 = BoardView { remove_cnt: 0, ..c };
    let pos = choose|pos: Seq<nat>| c.inv_at(pos);
    lemma_frame(c, c0, pos);
    lemma_capture_keeps(c0, nbr(v as int, 0));
    lemma_capture_step(c0, nbr(v as int, 0));
    let c1 = c0.capture(nbr(v as int, 0));
    lemma_capture_keeps(c1, nbr(v as int, 1));
    lemma_capture_step(c1, nbr(v as int, 1));
    let c2 = c1.capture(nbr(v as int, 1));
    lemma_capture_keeps(c2, nbr(v as int, 2));
    lemma_capture_step(c2, nbr(v as int, 2));
    let c3 = c2.capture(nbr(v as int, 2));
    lemma_capture_keeps(c3, nbr(v as int, 3));
}

/// A capture changes cells, links, groups and the count of stones taken
/// off, and nothing else.
proof fn lemma_capture_keeps(b: BoardView, nv: int)
    requires
        b.inv(),
        0 <= nv < 121,
    ensures
        b.capture(nv) == (BoardView {
            state: b.capture(nv).state,
            id: b.capture(nv).id,
            next: b.capture(nv).next,
            sg: b.capture(nv).sg,
            remove_cnt: b.capture(nv).remove_cnt,
            ..b
        }),
{
    let pos = choose|pos: Seq<nat>| b.inv_at(pos);
    if b.capture(nv) != b {
        lemma_remove(b, pos, nv as usize);
    }
}

/// Replaying a history that was extended by one move is replaying the
/// history and making the move.
pub proof fn lemma_replay_push(h: Seq<usize>, v: usize)
    ensures
        replay(h.push(v)) == replay(h).play(v),
{
    assert(h.push(v).drop_last() =~= h);
}

/// A position that is the replay of its history is, after one more legal
/// move, again the replay of its history: playing the recorded moves on an
/// empty board gives the same cells, chains, rings, groups, ko point and
/// turn.
pub proof fn lemma_play_replays(b: BoardView, v: usize)
    requires
        b.wf(),
        v <= PASS,
        b.legal(v),
        b == replay(b.history),
    ensures
        b.play(v) == replay(b.play(v).history),
{
    lemma_play(b, v);
    lemma_replay_push(b.history, v);
}

// ----------------------------------------------------------------------
// Score and hash
// ----------------------------------------------------------------------
/// On a board without stones no point counts for a colour.
proof fn lemma_empty_area(c: Color, n: nat)
    requires
        n <= 81,
    ensures
        BoardView::initial().area(c, n) == 0,
    decreases n,
{
    if n > 0 {
        lemma_empty_area(c, (n - 1) as nat);
    }
}

/// On a board without stones the score is the komi against Black.
pub proof fn lemma_empty_score()
    ensures
        BoardView::initial().score() == -7,
{
    lemma_empty_area(Color::Black, 81);
    lemma_empty_area(Color::White, 81);
}

/// The hash of a position depends on the cells, the cells before the last
/// move and the side to move, and on nothing else.
pub proof fn lemma_hash_depends(a: BoardView, b: BoardView)
    requires
        a.state == b.state,
        a.prev_state[0] == b.prev_state[0],
        a.turn == b.turn,
    ensures
        a.hash() == b.hash(),
{
}

/// An eye has neither an empty point nor an opposing stone beside it.
pub proof fn lemma_eye_is_walled(b: BoardView, v: usize, pl: Color)
    requires
        b.state[v + 1] == Intersection::Empty || b.state[v + 11] == Intersection::Empty
            || b.state[v - 1] == Intersection::Empty || b.state[v - 11] == Intersection::Empty
            || b.beside(v as int, pl.spec_opponent()),
    ensures
        !b.eyeshape(v, pl),
{
}

/// In a well-formed position the group of every stone's chain records
/// exactly the empty points next to the chain, and counts them.
pub proof fn lemma_liberties(b: BoardView, v: int)
    requires
        b.inv(),
        0 <= v < 121,
        b.state[v] is Stone,
    ensures
        b.sg[b.id[v] as int].libs.finite(),
        b.sg[b.id[v] as int].lib_cnt == b.sg[b.id[v] as int].libs.len(),
        forall|w: usize|
            #![trigger b.sg[b.id[v] as int].libs.contains(w)]
            #![trigger b.is_lib(b.id[v], w)]
            b.sg[b.id[v] as int].libs.contains(w) <==> b.is_lib(b.id[v], w),
        forall|w: usize|
            #![trigger b.is_lib(b.id[v], w)]
            b.is_lib(b.id[v], w) <==> w < 121 && b.state[w as int] == Intersection::Empty && exists|
                u: int,
            |
                0 <= u < 121 && b.state[u] is Stone && b.id[u] == b.id[v] && (u == w + 1 || u == w
                    + 11 || u == w - 1 || u == w - 11),
{
    let pos = choose|pos: Seq<nat>| b.inv_at(pos);
    let r = b.id[v] as int;
    assert(b.link_ok(pos, v));
    assert(b.cell_ok(v));
    assert(b.cell_ok(r));
    assert(b.libs_ok(r));
    assert forall|w: usize|
        #![trigger b.is_lib(b.id[v], w)]
        b.is_lib(b.id[v], w) <==> w < 121 && b.state[w as int] == Intersection::Empty && exists|
            u: int,
        |
            0 <= u < 121 && b.state[u] is Stone && b.id[u] == b.id[v] && (u == w + 1 || u == w + 11
                || u == w - 1 || u == w - 11) by {
        if b.is_lib(b.id[v], w) {
            let u: int = if b.member(b.id[v], w + 1) {
                w + 1
            } else if b.member(b.id[v], w + 11) {
                w + 11
            } else if b.member(b.id[v], w - 1) {
                w - 1
            } else {
                w - 11
            };
            assert(0 <= u < 121 && b.state[u] is Stone && b.id[u] == b.id[v] && (u == w + 1 || u
                == w + 11 || u == w - 1 || u == w - 11));
        }
        if w < 121 && b.state[w as int] == Intersection::Empty && exists|u: int|
            0 <= u < 121 && b.state[u] is Stone && b.id[u] == b.id[v] && (u == w + 1 || u == w + 11
                || u == w - 1 || u == w - 11) {
            let u = choose|u: int|
                0 <= u < 121 && b.state[u] is Stone && b.id[u] == b.id[v] && (u == w + 1 || u == w
                    + 11 || u == w - 1 || u == w - 11);
            assert(b.member(b.id[v], u));
        }
    }
}

/// Every position that legal moves lead to from the empty board is
/// well-formed, is the replay of its history, and its history is the moves
/// that led to it.
pub proof fn lemma_reachable(moves: Seq<usize>)
    requires
        BoardView::initial().legal_line(moves),
    ensures
        replay(moves) == BoardView::initial().played(moves),
        replay(moves).wf(),
        replay(moves).history == moves,
    decreases moves.len(),
{
    lemma_initial_wf();
    if moves.len() > 0 {
        let first = moves.drop_last();
        lemma_reachable(first);
        lemma_play(replay(first), moves.last());
        assert(first.push(moves.last()) =~= moves);
    } else {
        assert(moves =~= Seq::<usize>::empty());
    }
}

} // verus!
