//! Proof that a ko point is the one liberty of the stone that made it.

use vstd::prelude::*;
use crate::board_model::{adjacent, ring_dist, BoardView};
use crate::board_proofs::{
    lemma_capture_step, lemma_frame, lemma_lift_done, lemma_lift_start, lemma_lift_step,
    lemma_link_step, lemma_place, lemma_remove, lemma_settle, lifting, nbr, near_ok,
};
use crate::coord_convert::on_board;
use crate::intersection::Intersection;
use crate::stone_group::GroupView;

verus! {

/// Adding a liberty keeps the size, and keeps the liberty added last a
/// liberty.
proof fn lemma_add_fresh(g: GroupView, u: usize)
    ensures
        g.fresh() ==> g.add(u).fresh(),
        g.add(u).size == g.size,
{
    if !g.libs.contains(u) {
        assert(g.add(u).libs.contains(u));
    }
}

/// Taking one stone off keeps, in every group slot, the liberty added last
/// a liberty, and the size.
proof fn lemma_lift_fresh(t: BoardView, u: usize, i: int)
    requires
        t.sg.len() == 121,
        t.id.len() == 121,
        on_board(u as int),
        forall|j: int| 0 <= j < 4 ==> t.id[#[trigger] nbr(u as int, j)] < 121,
        0 <= i < 121,
    ensures
        t.lift(u).sg.len() == 121,
        t.sg[i].fresh() ==> t.lift(u).sg[i].fresh(),
        t.lift(u).sg[i].size == t.sg[i].size,
{
    let id1 = t.id.update(u as int, u);
    let s0 = t.sg;
    assert(nbr(u as int, 0) == u + 1 && nbr(u as int, 1) == u + 11 && nbr(u as int, 2) == u - 1
        && nbr(u as int, 3) == u - 11);
    assert(t.id[nbr(u as int, 0)] < 121 && t.id[nbr(u as int, 1)] < 121 && t.id[nbr(u as int, 2)]
        < 121 && t.id[nbr(u as int, 3)] < 121);
    let i1 = id1[u + 1] as int;
    let s1 = s0.update(i1, s0[i1].add(u));
    let i2 = id1[u + 11] as int;
    let s2 = s1.update(i2, s1[i2].add(u));
    let i3 = id1[u - 1] as int;
    let s3 = s2.update(i3, s2[i3].add(u));
    let i4 = id1[u - 11] as int;
    let s4 = s3.update(i4, s3[i4].add(u));
    lemma_add_fresh(s0[i], u);
    assert(s1[i].size == s0[i].size && (s0[i].fresh() ==> s1[i].fresh()));
    lemma_add_fresh(s1[i], u);
    assert(s2[i].size == s0[i].size && (s0[i].fresh() ==> s2[i].fresh()));
    lemma_add_fresh(s2[i], u);
    assert(s3[i].size == s0[i].size && (s0[i].fresh() ==> s3[i].fresh()));
    lemma_add_fresh(s3[i], u);
    assert(s4[i].size == s0[i].size && (s0[i].fresh() ==> s4[i].fresh()));
    assert(t.lift(u).sg == s4);
}

/// Taking the rest of a chain off keeps, in every group slot, the liberty
/// added last a liberty, and the size.
proof fn lemma_lift_rest_fresh(
    b0: BoardView,
    pos: Seq<nat>,
    t: BoardView,
    v0: usize,
    k: nat,
    u: usize,
    i: int,
)
    requires
        b0.inv_at(pos),
        v0 < 121,
        b0.state[v0 as int] is Stone,
        lifting(b0, pos, t, v0, k),
        k <= b0.sg[b0.id[v0 as int] as int].size,
        k < b0.sg[b0.id[v0 as int] as int].size ==> b0.member(b0.id[v0 as int], u as int)
            && ring_dist(pos[v0 as int], pos[u as int], b0.sg[b0.id[v0 as int] as int].size) == k,
        0 <= i < 121,
    ensures
        t.sg[i].fresh() ==> t.lift_from(
            u,
            (b0.sg[b0.id[v0 as int] as int].size - k) as nat,
        ).sg[i].fresh(),
        t.lift_from(u, (b0.sg[b0.id[v0 as int] as int].size - k) as nat).sg[i].size
            == t.sg[i].size,
    decreases b0.sg[b0.id[v0 as int] as int].size - k,
{
    let n = b0.sg[b0.id[v0 as int] as int].size;
    if k < n {
        lemma_lift_step(b0, pos, t, v0, k, u);
        lemma_lift_fresh(t, u, i);
        let u2 = t.next[u as int];
        lemma_lift_rest_fresh(b0, pos, t.lift(u), v0, k + 1, u2, i);
        assert(t.lift_from(u, (n - k) as nat) == t.lift(u).lift_from(u2, (n - k - 1) as nat));
    }
}

/// A capture keeps, in every group slot, the liberty added last a liberty,
/// and the size; a stone of the side to move keeps its representative.
proof fn lemma_capture_fresh(b: BoardView, nv: int, i: int, v: int)
    requires
        b.inv(),
        0 <= nv < 121,
        0 <= i < 121,
        0 <= v < 121,
        b.state[v] == Intersection::Stone(b.turn),
    ensures
        b.sg[i].fresh() ==> b.capture(nv).sg[i].fresh(),
        b.capture(nv).sg[i].size == b.sg[i].size,
        b.capture(nv).id[v] == b.id[v],
{
    let pos = choose|pos: Seq<nat>| b.inv_at(pos);
    let c = b.capture(nv);
    if c != b {
        lemma_lift_start(b, pos, nv as usize);
        assert(b.link_ok(pos, nv));
        lemma_lift_rest_fresh(b, pos, b, nv as usize, 0, nv as usize, i);
        lemma_remove(b, pos, nv as usize);
        lemma_lift_done(b, pos, c, nv as usize);
        assert(b.link_ok(pos, v));
    }
}

/// Joining the new stone to a neighbour does not make its chain smaller,
/// and changes nothing where the chain stays a single stone.
proof fn lemma_link_size(b: BoardView, v: usize, k: int)
    requires
        b.inv(),
        on_board(v as int),
        b.state[v as int] is Stone,
        0 <= k < 4,
    ensures
        1 <= b.sg[b.id[v as int] as int].size <= b.link(v, nbr(v as int, k)).sg[b.link(
            v,
            nbr(v as int, k),
        ).id[v as int] as int].size,
        b.link(v, nbr(v as int, k)).sg[b.link(v, nbr(v as int, k)).id[v as int] as int].size == 1
            ==> b.link(v, nbr(v as int, k)) == b,
{
    let pos = choose|pos: Seq<nat>| b.inv_at(pos);
    let nv = nbr(v as int, k);
    assert(b.link_ok(pos, v as int));
    assert(b.link_ok(pos, nv));
    assert(b.cell_ok(v as int));
    assert(b.cell_ok(nv));
}

/// The stone that a placement leaves alone with one liberty has the liberty
/// on record that was added last: an empty point beside it.
pub proof fn lemma_lone_liberty(b0: BoardView, v: usize)
    requires
        b0.inv(),
        b0.maximal(),
        on_board(v as int),
        b0.state[v as int] == Intersection::Empty,
        b0.place_stone(v).sg[b0.place_stone(v).id[v as int] as int].size == 1,
        b0.place_stone(v).sg[b0.place_stone(v).id[v as int] as int].lib_cnt == 1,
    ensures
        ({
            let p = b0.place_stone(v);
            let g = p.sg[p.id[v as int] as int];
            &&& p.id[v as int] == v
            &&& g.libs == set![g.v_atr]
            &&& g.v_atr < 121
            &&& p.state[g.v_atr as int] == Intersection::Empty
            &&& adjacent(v as int, g.v_atr as int)
        }),
{
    reveal(BoardView::place_stone);
    let pos = choose|pos: Seq<nat>| b0.inv_at(pos);
    assert(nbr(v as int, 0) == v + 1 && nbr(v as int, 1) == v + 11 && nbr(v as int, 2) == v - 1
        && nbr(v as int, 3) == v - 11);
    lemma_settle(b0, pos, v);
    let s = b0.settle(v);
    assert(s.inv());
    assert forall|x: int| 0 <= x < 110 implies #[trigger] near_ok(s, v as int, 0, x) by {
        assert(b0.joined_at(x));
    }
    let l1 = s.link(v, nbr(v as int, 0));
    lemma_link_step(s, v, 0);
    lemma_link_size(s, v, 0);
    let l2 = l1.link(v, nbr(v as int, 1));
    lemma_link_step(l1, v, 1);
    lemma_link_size(l1, v, 1);
    let l3 = l2.link(v, nbr(v as int, 2));
    lemma_link_step(l2, v, 2);
    lemma_link_size(l2, v, 2);
    let l4 = l3.link(v, nbr(v as int, 3));
    lemma_link_step(l3, v, 3);
    lemma_link_size(l3, v, 3);
    assert forall|x: int| 0 <= x < 110 implies #[trigger] l4.joined_at(x) by {
        assert(near_ok(l4, v as int, 4, x));
    }
    let c0 = BoardView { remove_cnt: 0, ..l4 };
    let lpos = choose|lpos: Seq<nat>| l4.inv_at(lpos);
    lemma_frame(l4, c0, lpos);
    assert(l4.cell_ok(v as int));
    let r = l4.id[v as int] as int;
    // the captures keep the sizes and the representative of the new stone
    let me = Intersection::Stone(b0.turn);
    assert(c0.state[v as int] == me);
    let c1 = c0.capture(nbr(v as int, 0));
    lemma_capture_step(c0, nbr(v as int, 0));
    let c2 = c1.capture(nbr(v as int, 1));
    lemma_capture_step(c1, nbr(v as int, 1));
    let c3 = c2.capture(nbr(v as int, 2));
    lemma_capture_step(c2, nbr(v as int, 2));
    let c4 = c3.capture(nbr(v as int, 3));
    lemma_capture_step(c3, nbr(v as int, 3));
    let p = b0.place_stone(v);
    assert(p == c4);
    lemma_capture_fresh(c0, nbr(v as int, 0), r, v as int);
    lemma_capture_fresh(c1, nbr(v as int, 1), r, v as int);
    lemma_capture_fresh(c2, nbr(v as int, 2), r, v as int);
    lemma_capture_fresh(c3, nbr(v as int, 3), r, v as int);
    assert(p.id[v as int] == r);
    assert(l4.sg[r].size == 1);
    // so nothing was joined
    assert(l4 == l3 && l3 == l2 && l2 == l1 && l1 == s);
    assert(r == v);
    assert(s.sg[v as int].fresh());
    let g = p.sg[v as int];
    assert(g.fresh());
    lemma_place(b0, v);
    let ppos = choose|ppos: Seq<nat>| p.inv_at(ppos);
    assert(p.link_ok(ppos, v as int));
    assert(p.cell_ok(v as int));
    assert(p.libs_ok(v as int));
    assert(g.libs.len() == 1);
    assert(g.libs.contains(g.v_atr)) by {
        if g.libs == Set::<usize>::empty() {
            assert(g.libs.len() == 0);
        }
    }
    assert forall|w: usize| g.libs.contains(w) implies w == g.v_atr by {
        crate::stone_group::lemma_single_element(g.libs, w, g.v_atr);
    }
    assert(g.libs =~= set![g.v_atr]);
    let w = g.v_atr;
    assert(p.is_lib(v, w));
    assert forall|u: int| #[trigger] p.member(v, u) implies u == v by {
        assert(p.link_ok(ppos, u));
        assert(p.apart(ppos, u, v as int));
    }
}

} // verus!
