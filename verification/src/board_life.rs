//! Proof that a legal move leaves no chain without liberties.

use vstd::prelude::*;
use crate::board_model::BoardView;
use crate::board_proofs::{
    free_nbr, hit, lemma_capture_step, lemma_connect, lemma_frame, lemma_lift_done,
    lemma_link_step, lemma_place, lemma_remove, lemma_settle, lifted_libs, linked_upto, nbr,
    near_ok,
};
use crate::coord_convert::on_board;
use crate::intersection::Intersection;

verus! {

/// The group of the chain of `x` has a liberty on record.
pub open spec fn has_lib(b: BoardView, x: int) -> bool {
    exists|w: usize| #[trigger] b.sg[b.id[x] as int].libs.contains(w)
}

/// From `b` to `c` the cell `x` has not been filled, and a stone on it has
/// stayed, in a chain that has lost no liberty; an opposing stone has kept
/// its representative and its group.
pub open spec fn kept_at(b: BoardView, c: BoardView, x: int) -> bool {
    &&& (c.state[x] == b.state[x] || c.state[x] == Intersection::Empty)
    &&& (c.state[x] is Stone ==> {
        &&& b.state[x] == c.state[x]
        &&& b.sg[b.id[x] as int].libs.subset_of(c.sg[c.id[x] as int].libs)
        &&& (c.state[x] != Intersection::Stone(c.turn) ==> c.id[x] == b.id[x])
    })
}

/// Stones of one chain of `b` that stand in `c` are in one chain of `c`.
pub open spec fn tied_at(b: BoardView, c: BoardView, x: int, y: int) -> bool {
    (c.state[x] is Stone && c.state[y] is Stone && b.id[x] == b.id[y]) ==> c.id[x] == c.id[y]
}

/// From `b` to `c` nothing was filled, no chain was split and no chain
/// that stands has lost a liberty.
pub open spec fn kept(b: BoardView, c: BoardView) -> bool {
    &&& b.turn == c.turn
    &&& forall|x: int| 0 <= x < 121 ==> #[trigger] kept_at(b, c, x)
    &&& forall|x: int, y: int| 0 <= x < 121 && 0 <= y < 121 ==> #[trigger] tied_at(b, c, x, y)
}

/// The group of an opposing chain is the same in `b` and `c`.
pub open spec fn same_slot(b: BoardView, c: BoardView, r: int) -> bool {
    b.state[r] == Intersection::Stone(b.turn.spec_opponent()) ==> c.sg[r] == b.sg[r]
}

/// An opposing stone on `x` in `c` is in a chain with the liberties that it
/// had in `b`.
pub open spec fn same_libs(b: BoardView, c: BoardView, x: int) -> bool {
    c.state[x] == Intersection::Stone(c.turn.spec_opponent()) ==> {
        &&& c.sg[c.id[x] as int].libs == b.sg[b.id[x] as int].libs
        &&& c.sg[c.id[x] as int].lib_cnt == b.sg[b.id[x] as int].lib_cnt
    }
}

/// Where the stone on `y` is gone in `c`, the stone on `x` of the same chain
/// of `b` is gone too.
pub open spec fn whole_at(b: BoardView, c: BoardView, x: int, y: int) -> bool {
    (b.state[x] is Stone && b.state[y] is Stone && b.id[x] == b.id[y] && !(c.state[y] is Stone))
        ==> !(c.state[x] is Stone)
}

/// From `b` to `c` chains have gone as a whole.
pub open spec fn whole(b: BoardView, c: BoardView) -> bool {
    forall|x: int, y: int| 0 <= x < 121 && 0 <= y < 121 ==> #[trigger] whole_at(b, c, x, y)
}

/// Chains that go as a whole in two stretches go as a whole in both
/// together.
proof fn lemma_whole_trans(a: BoardView, b: BoardView, c: BoardView)
    requires
        kept(a, b),
        kept(b, c),
        whole(a, b),
        whole(b, c),
    ensures
        whole(a, c),
{
    assert forall|x: int, y: int| 0 <= x < 121 && 0 <= y < 121 implies #[trigger] whole_at(
        a,
        c,
        x,
        y,
    ) by {
        assert(whole_at(a, b, x, y));
        assert(whole_at(b, c, x, y));
        assert(tied_at(a, b, x, y));
        assert(kept_at(a, b, x));
        assert(kept_at(a, b, y));
        assert(kept_at(b, c, x));
        assert(kept_at(b, c, y));
    }
}

/// What is kept over two stretches is kept over both together.
proof fn lemma_kept_trans(a: BoardView, b: BoardView, c: BoardView)
    requires
        kept(a, b),
        kept(b, c),
    ensures
        kept(a, c),
{
    assert forall|x: int| 0 <= x < 121 implies #[trigger] kept_at(a, c, x) by {
        assert(kept_at(a, b, x));
        assert(kept_at(b, c, x));
    }
    assert forall|x: int, y: int| 0 <= x < 121 && 0 <= y < 121 implies #[trigger] tied_at(
        a,
        c,
        x,
        y,
    ) by {
        assert(kept_at(b, c, x));
        assert(kept_at(b, c, y));
        assert(tied_at(a, b, x, y));
        assert(tied_at(b, c, x, y));
    }
}

/// Between positions with the same cells, representatives and groups
/// everything is kept.
proof fn lemma_kept_self(a: BoardView, b: BoardView)
    requires
        a.state == b.state,
        a.id == b.id,
        a.sg == b.sg,
        a.turn == b.turn,
    ensures
        kept(a, b),
{
    assert forall|x: int| 0 <= x < 121 implies #[trigger] kept_at(a, b, x) by {}
    assert forall|x: int, y: int| 0 <= x < 121 && 0 <= y < 121 implies #[trigger] tied_at(
        a,
        b,
        x,
        y,
    ) by {}
}

/// In a consistent position a chain's count of liberties is positive where
/// a liberty is on record, and nowhere else.
proof fn lemma_room(b: BoardView, x: int)
    requires
        b.inv(),
        0 <= x < 121,
        b.state[x] is Stone,
    ensures
        has_lib(b, x) <==> b.sg[b.id[x] as int].lib_cnt > 0,
        0 <= b.id[x] < 121,
        b.is_rep(b.id[x] as int),
{
    let pos = choose|pos: Seq<nat>| b.inv_at(pos);
    let r = b.id[x] as int;
    assert(b.link_ok(pos, x));
    assert(b.cell_ok(x));
    assert(b.cell_ok(r));
    assert(b.libs_ok(r));
    let g = b.sg[r];
    if g.lib_cnt > 0 {
        assert(g.libs.contains(g.libs.choose()));
    }
}

/// Joining the new stone to a neighbour loses no liberty and leaves the
/// opposing chains alone.
proof fn lemma_link_kept(b: BoardView, v: usize, k: int)
    requires
        b.inv(),
        on_board(v as int),
        b.state[v as int] == Intersection::Stone(b.turn),
        0 <= k < 4,
    ensures
        kept(b, b.link(v, nbr(v as int, k))),
        forall|r: int| 0 <= r < 121 ==> #[trigger] same_slot(b, b.link(v, nbr(v as int, k)), r),
{
    let pos = choose|pos: Seq<nat>| b.inv_at(pos);
    let nv = nbr(v as int, k);
    let m = b.link(v, nv);
    if m != b {
        let i1 = b.id[v as int];
        let i2 = b.id[nv];
        assert(b.link_ok(pos, v as int));
        assert(b.link_ok(pos, nv));
        assert(b.cell_ok(v as int));
        assert(b.cell_ok(nv));
        assert forall|x: int| 0 <= x < 121 implies #[trigger] kept_at(b, m, x) by {
            assert(b.link_ok(pos, x));
            assert(b.cell_ok(x));
        }
        assert forall|x: int, y: int| 0 <= x < 121 && 0 <= y < 121 implies #[trigger] tied_at(
            b,
            m,
            x,
            y,
        ) by {}
        assert forall|r: int| 0 <= r < 121 implies #[trigger] same_slot(b, m, r) by {}
    } else {
        lemma_kept_self(b, m);
        assert forall|r: int| 0 <= r < 121 implies #[trigger] same_slot(b, m, r) by {}
    }
}

/// What taking the chain of `nv` off means for the cell `x`.
proof fn lemma_capture_at(b: BoardView, pos: Seq<nat>, nv: int, x: int)
    requires
        b.inv_at(pos),
        b.maximal(),
        0 <= nv < 121,
        0 <= x < 121,
        b.state[nv] == Intersection::Stone(b.turn.spec_opponent()),
        b.capture(nv) == b.remove_chain(nv as usize),
    ensures
        kept_at(b, b.capture(nv), x),
        same_libs(b, b.capture(nv), x),
{
    let c = b.capture(nv);
    let r = b.id[nv];
    lemma_remove(b, pos, nv as usize);
    lemma_lift_done(b, pos, c, nv as usize);
    assert(b.link_ok(pos, nv));
    assert(b.cell_ok(nv));
    assert(c.turn == b.turn);

            assert(b.link_ok(pos, x));
            assert(b.cell_ok(x));
            if c.state[x] is Stone {
                let r2 = b.id[x] as int;
                assert(!b.member(r, x));
                assert(c.id[x] == b.id[x]);
                assert(b.link_ok(pos, r2));
                assert(b.is_rep(r2));
                assert(r2 != r);
                assert(lifted_libs(b, c, nv as usize, r2));
                assert(b.libs_ok(r2));
                assert forall|y: int| 0 <= y < 121 implies (#[trigger] c.member(r2 as usize, y)
                    <==> b.member(r2 as usize, y)) by {
                    assert(b.link_ok(pos, y));
                    if b.member(r, y) {
                        assert(c.state[y] == Intersection::Empty);
                    }
                }
                assert forall|w: usize| b.sg[r2].libs.contains(w) implies c.sg[r2].libs.contains(
                    w,
                ) by {
                    assert(b.is_lib(r2 as usize, w));
                    assert(c.state[w as int] == Intersection::Empty);
                    assert(c.member(r2 as usize, w + 1) <==> b.member(r2 as usize, w + 1));
                    assert(c.member(r2 as usize, w + 11) <==> b.member(r2 as usize, w + 11));
                    assert(c.member(r2 as usize, w - 1) <==> b.member(r2 as usize, w - 1));
                    assert(c.member(r2 as usize, w - 11) <==> b.member(r2 as usize, w - 11));
                    assert(c.is_lib(r2 as usize, w));
                }
                if c.state[x] == Intersection::Stone(c.turn.spec_opponent()) {
                    assert forall|w: usize| c.sg[r2].libs.contains(w) implies b.sg[r2].libs.contains(
                        w,
                    ) by {
                        assert(c.is_lib(r2 as usize, w));
                        assert(c.member(r2 as usize, w + 1) <==> b.member(r2 as usize, w + 1));
                        assert(c.member(r2 as usize, w + 11) <==> b.member(r2 as usize, w + 11));
                        assert(c.member(r2 as usize, w - 1) <==> b.member(r2 as usize, w - 1));
                        assert(c.member(r2 as usize, w - 11) <==> b.member(r2 as usize, w - 11));
                        if b.state[w as int] != Intersection::Empty {
                            // a stone that was taken stood beside the chain
                            assert(b.member(r, w as int));
                            assert(b.cell_ok(w as int));
                            assert(b.link_ok(pos, w as int));
                            assert(b.joined_at(w as int));
                            assert(b.joined_at(w - 1));
                            assert(b.joined_at(w - 11));
                            let u: int = if b.member(r2 as usize, w + 1) {
                                w + 1
                            } else if b.member(r2 as usize, w + 11) {
                                w + 11
                            } else if b.member(r2 as usize, w - 1) {
                                w - 1
                            } else {
                                w - 11
                            };
                            assert(b.member(r2 as usize, u));
                            assert(b.link_ok(pos, u));
                            assert(b.state[u] == b.state[r2]);
                            assert(b.state[u] == b.state[w as int]);
                            assert(false);
                        }
                        assert(b.is_lib(r2 as usize, w));
                    }
                    assert(c.sg[r2].libs =~= b.sg[r2].libs);
                }
            }
        }

/// Taking an opposing chain off loses no liberty of the chains that stay,
/// leaves the liberties of the other opposing chains as they are, and takes
/// the whole chain. An opposing stone that stays on the neighbour has
/// liberties.
proof fn lemma_capture_kept(b: BoardView, nv: int)
    requires
        b.inv(),
        b.maximal(),
        0 <= nv < 121,
    ensures
        kept(b, b.capture(nv)),
        forall|x: int| 0 <= x < 121 ==> #[trigger] same_libs(b, b.capture(nv), x),
        b.capture(nv).state[nv] == Intersection::Stone(b.turn.spec_opponent()) ==> b.capture(
            nv,
        ).sg[b.capture(nv).id[nv] as int].lib_cnt > 0,
        forall|x: int, y: int|
            0 <= x < 121 && 0 <= y < 121 ==> #[trigger] whole_at(b, b.capture(nv), x, y),
        b.state[nv] == Intersection::Stone(b.turn.spec_opponent()) && b.sg[b.id[nv] as int].lib_cnt
            == 0 ==> b.capture(nv).state[nv] == Intersection::Empty,
{
    let pos = choose|pos: Seq<nat>| b.inv_at(pos);
    let c = b.capture(nv);
    let r = b.id[nv];
    assert(b.cell_ok(nv));
    if b.state[nv] == Intersection::Stone(b.turn.spec_opponent()) && b.sg[r as int].lib_cnt == 0 {
        lemma_remove(b, pos, nv as usize);
        lemma_lift_done(b, pos, c, nv as usize);
        let n = b.sg[r as int].size;
        assert(b.link_ok(pos, nv));
        assert(b.cell_ok(nv));
        assert(c.turn == b.turn);
        assert forall|x: int| 0 <= x < 121 implies #[trigger] kept_at(b, c, x) by {
            lemma_capture_at(b, pos, nv, x);
        }
        assert forall|x: int| 0 <= x < 121 implies #[trigger] same_libs(b, c, x) by {
            lemma_capture_at(b, pos, nv, x);
        }
        assert forall|x: int, y: int| 0 <= x < 121 && 0 <= y < 121 implies #[trigger] tied_at(
            b,
            c,
            x,
            y,
        ) by {
            if c.state[x] is Stone && c.state[y] is Stone {
                assert(c.id[x] == b.id[x]);
                assert(c.id[y] == b.id[y]);
            }
        }
        assert forall|x: int, y: int| 0 <= x < 121 && 0 <= y < 121 implies #[trigger] whole_at(
            b,
            c,
            x,
            y,
        ) by {}
    } else {
        lemma_kept_self(b, c);
        assert forall|x: int| 0 <= x < 121 implies #[trigger] same_libs(b, c, x) by {}
        assert forall|x: int, y: int| 0 <= x < 121 && 0 <= y < 121 implies #[trigger] whole_at(
            b,
            c,
            x,
            y,
        ) by {}
        if c.state[nv] == Intersection::Stone(b.turn.spec_opponent()) {
            lemma_room(b, nv);
            assert(b.link_ok(pos, nv));
            assert(b.cell_ok(nv));
            assert(b.libs_ok(r as int));
        }
    }
}

/// The new stone joined to all its neighbours: no chain has lost a liberty
/// and the groups of the opposing chains are as before.
proof fn lemma_links_kept(s: BoardView, v: usize)
    requires
        s.inv(),
        on_board(v as int),
        s.state[v as int] == Intersection::Stone(s.turn),
        linked_upto(s, v as int, 0),
    ensures
        ({
            let l = s.link(v, v + 1).link(v, v + 11).link(v, v - 1).link(v, v - 11);
            &&& kept(s, l)
            &&& l.state == s.state
            &&& forall|r: int| 0 <= r < 121 ==> #[trigger] same_slot(s, l, r)
        }),
{
    assert(nbr(v as int, 0) == v + 1 && nbr(v as int, 1) == v + 11 && nbr(v as int, 2) == v - 1
        && nbr(v as int, 3) == v - 11);
    let l1 = s.link(v, nbr(v as int, 0));
    lemma_link_step(s, v, 0);
    lemma_link_kept(s, v, 0);
    let l2 = l1.link(v, nbr(v as int, 1));
    lemma_link_step(l1, v, 1);
    lemma_link_kept(l1, v, 1);
    let l3 = l2.link(v, nbr(v as int, 2));
    lemma_link_step(l2, v, 2);
    lemma_link_kept(l2, v, 2);
    let l4 = l3.link(v, nbr(v as int, 3));
    lemma_link_step(l3, v, 3);
    lemma_link_kept(l3, v, 3);
    lemma_kept_trans(s, l1, l2);
    lemma_kept_trans(s, l2, l3);
    lemma_kept_trans(s, l3, l4);
    assert forall|r: int| 0 <= r < 121 implies #[trigger] same_slot(s, l4, r) by {
        assert(same_slot(s, l1, r));
        assert(same_slot(l1, l2, r));
        assert(same_slot(l2, l3, r));
        assert(same_slot(l3, l4, r));
    }
}

/// What became of the neighbour `nv` of the new stone after the captures,
/// `c` being the position before them and `p` the one after: an opposing
/// stone that stands there has a liberty, and one that had none is gone.
pub open spec fn settled_nbr(c: BoardView, p: BoardView, nv: int) -> bool {
    &&& (p.state[nv] == Intersection::Stone(p.turn.spec_opponent()) ==> has_lib(p, nv))
    &&& (c.state[nv] == Intersection::Stone(c.turn.spec_opponent()) && c.sg[c.id[nv] as int].lib_cnt
        == 0 ==> p.state[nv] == Intersection::Empty)
}

/// The neighbour `nv`, where it was an opposing stone without liberties in
/// `c0`, is gone in `c` or stands there unchanged and without liberties.
spec fn doomed(c0: BoardView, c: BoardView, nv: int) -> bool {
    (c0.state[nv] == Intersection::Stone(c0.turn.spec_opponent()) && c0.sg[c0.id[nv] as int].lib_cnt
        == 0) ==> (c.state[nv] == Intersection::Empty || (c.state[nv] == c0.state[nv]
        && c.sg[c.id[nv] as int].lib_cnt == 0))
}

/// One capture keeps a neighbour without liberties gone or without
/// liberties, and takes it where it is the one the capture is tried on.
proof fn lemma_doomed_step(c0: BoardView, b: BoardView, nv: int, at: int)
    requires
        b.inv(),
        b.maximal(),
        c0.turn == b.turn,
        0 <= nv < 121,
        0 <= at < 121,
        doomed(c0, b, nv),
    ensures
        doomed(c0, b.capture(at), nv),
        nv == at ==> (c0.state[nv] == Intersection::Stone(c0.turn.spec_opponent())
            && c0.sg[c0.id[nv] as int].lib_cnt == 0 ==> b.capture(at).state[nv]
            == Intersection::Empty),
{
    lemma_capture_kept(b, at);
    let c = b.capture(at);
    assert(kept_at(b, c, nv));
    assert(same_libs(b, c, nv));
}

/// The four captures round the new stone: no chain that stands has lost a
/// liberty, chains have gone as a whole, the stones of the side to move
/// stand, and every neighbour is settled.
proof fn lemma_captures_kept(c0: BoardView, v: usize)
    requires
        c0.inv(),
        c0.maximal(),
        on_board(v as int),
    ensures
        ({
            let p = c0.capture(v + 1).capture(v + 11).capture(v - 1).capture(v - 11);
            &&& kept(c0, p)
            &&& whole(c0, p)
            &&& p.inv()
            &&& p.maximal()
            &&& forall|j: int| 0 <= j < 4 ==> settled_nbr(c0, p, #[trigger] nbr(v as int, j))
            &&& forall|x: int|
                0 <= x < 121 && c0.state[x] == Intersection::Stone(c0.turn) ==> #[trigger] p.state[x]
                    == c0.state[x]
        }),
{
    let n0 = nbr(v as int, 0);
    let n1 = nbr(v as int, 1);
    let n2 = nbr(v as int, 2);
    let n3 = nbr(v as int, 3);
    assert(n0 == v + 1 && n1 == v + 11 && n2 == v - 1 && n3 == v - 11);
    let c1 = c0.capture(n0);
    lemma_capture_step(c0, n0);
    lemma_capture_kept(c0, n0);
    let c2 = c1.capture(n1);
    lemma_capture_step(c1, n1);
    lemma_capture_kept(c1, n1);
    let c3 = c2.capture(n2);
    lemma_capture_step(c2, n2);
    lemma_capture_kept(c2, n2);
    let c4 = c3.capture(n3);
    lemma_capture_step(c3, n3);
    lemma_capture_kept(c3, n3);
    lemma_kept_self(c0, c0);
    lemma_kept_self(c4, c4);
    lemma_kept_trans(c0, c1, c2);
    lemma_kept_trans(c0, c2, c3);
    lemma_kept_trans(c0, c3, c4);
    lemma_kept_trans(c1, c2, c3);
    lemma_kept_trans(c1, c3, c4);
    lemma_kept_trans(c2, c3, c4);
    lemma_whole_trans(c0, c1, c2);
    lemma_whole_trans(c0, c2, c3);
    lemma_whole_trans(c0, c3, c4);
    // an opposing stone that stands on a neighbour after its capture has a liberty
    lemma_fate(c1, c4, n0);
    lemma_fate(c2, c4, n1);
    lemma_fate(c3, c4, n2);
    lemma_fate(c4, c4, n3);
    // a neighbour without liberties is gone
    lemma_doomed_step(c0, c0, n0, n0);
    assert(kept_at(c1, c4, n0));
    lemma_doomed_step(c0, c0, n1, n0);
    lemma_doomed_step(c0, c1, n1, n1);
    assert(kept_at(c2, c4, n1));
    lemma_doomed_step(c0, c0, n2, n0);
    lemma_doomed_step(c0, c1, n2, n1);
    lemma_doomed_step(c0, c2, n2, n2);
    assert(kept_at(c3, c4, n2));
    lemma_doomed_step(c0, c0, n3, n0);
    lemma_doomed_step(c0, c1, n3, n1);
    lemma_doomed_step(c0, c2, n3, n2);
    lemma_doomed_step(c0, c3, n3, n3);
    assert forall|j: int| 0 <= j < 4 implies settled_nbr(c0, c4, #[trigger] nbr(v as int, j)) by {
        assert(j == 0 || j == 1 || j == 2 || j == 3);
    }
    assert forall|x: int|
        0 <= x < 121 && c0.state[x] == Intersection::Stone(c0.turn) implies #[trigger] c4.state[x]
        == c0.state[x] by {
        assert(c1.state[x] == c0.state[x]);
        assert(c2.state[x] == c1.state[x]);
        assert(c3.state[x] == c2.state[x]);
        assert(c4.state[x] == c3.state[x]);
    }
}

/// An opposing stone that stands on `nv` after its capture was tried has a
/// liberty, and keeps it.
proof fn lemma_fate(c: BoardView, p: BoardView, nv: int)
    requires
        c.inv(),
        kept(c, p),
        0 <= nv < 121,
        c.state[nv] == Intersection::Stone(c.turn.spec_opponent()) ==> c.sg[c.id[nv] as int].lib_cnt
            > 0,
    ensures
        p.state[nv] == Intersection::Stone(p.turn.spec_opponent()) ==> has_lib(p, nv),
{
    if p.state[nv] == Intersection::Stone(p.turn.spec_opponent()) {
        assert(kept_at(c, p, nv));
        lemma_room(c, nv);
        let w = choose|w: usize| #[trigger] c.sg[c.id[nv] as int].libs.contains(w);
        assert(p.sg[p.id[nv] as int].libs.contains(w));
    }
}

/// A set with more than one element has one that is not `v`.
proof fn lemma_other_element(s: Set<usize>, v: usize)
    requires
        s.finite(),
        s.len() > 1,
    ensures
        exists|w: usize| #[trigger] s.contains(w) && w != v,
{
    let t = s.remove(v);
    assert(t.len() >= 1);
    let w = t.choose();
    assert(t.contains(w));
    assert(s.contains(w) && w != v);
}

/// A legal move on a point of a well-formed position in which every chain
/// has a liberty leaves every chain with a liberty.
pub proof fn lemma_place_alive(b0: BoardView, v: usize)
    requires
        b0.inv(),
        b0.maximal(),
        b0.alive(),
        on_board(v as int),
        b0.state[v as int] == Intersection::Empty,
        b0.enables(v + 1) || b0.enables(v + 11) || b0.enables(v - 1) || b0.enables(v - 11),
    ensures
        b0.place_stone(v).alive(),
{
    reveal(BoardView::place_stone);
    let pos = choose|pos: Seq<nat>| b0.inv_at(pos);
    let me = Intersection::Stone(b0.turn);
    let opp = Intersection::Stone(b0.turn.spec_opponent());
    assert(nbr(v as int, 0) == v + 1 && nbr(v as int, 1) == v + 11 && nbr(v as int, 2) == v - 1
        && nbr(v as int, 3) == v - 11);
    // the stages
    lemma_settle(b0, pos, v);
    let s = b0.settle(v);
    assert(s.inv());
    assert(b0.link_ok(pos, v as int));
    assert(s.id =~= b0.id);
    assert forall|x: int| 0 <= x < 110 implies #[trigger] near_ok(s, v as int, 0, x) by {
        assert(b0.joined_at(x));
    }
    lemma_links_kept(s, v);
    lemma_connect(b0, v);
    let l = b0.connect(v);
    let c0 = BoardView { remove_cnt: 0, ..l };
    let lpos = choose|lpos: Seq<nat>| l.inv_at(lpos);
    lemma_frame(l, c0, lpos);
    lemma_kept_self(l, c0);
    lemma_kept_trans(s, l, c0);
    lemma_captures_kept(c0, v);
    let p = b0.place_stone(v);
    lemma_kept_trans(s, c0, p);
    lemma_place(b0, v);
    assert(p.turn == b0.turn);
    assert(kept_at(s, p, v as int));
    assert(p.joined_at(v as int));
    assert(p.joined_at(v - 1));
    assert(p.joined_at(v - 11));
    // the chain of the new stone
    assert(has_lib(p, v as int)) by {
        let j: int = if b0.enables(v + 1) {
            0
        } else if b0.enables(v + 11) {
            1
        } else if b0.enables(v - 1) {
            2
        } else {
            3
        };
        let nv = nbr(v as int, j);
        assert(b0.enables(nv));
        assert(b0.cell_ok(nv));
        assert(b0.link_ok(pos, nv));
        let r0 = b0.id[nv] as int;
        if b0.state[nv] == Intersection::Empty {
            assert(free_nbr(b0, v as int, nv, 4));
            assert(s.sg[v as int].libs.contains(nv as usize));
            assert(p.sg[p.id[v as int] as int].libs.contains(nv as usize));
        } else if b0.state[nv] == me {
            assert(b0.cell_ok(r0));
            assert(b0.libs_ok(r0));
            lemma_other_element(b0.sg[r0].libs, v);
            let w = choose|w: usize| #[trigger] b0.sg[r0].libs.contains(w) && w != v;
            assert(s.sg[r0] == b0.sg[r0] || s.sg[r0] == b0.sg[r0].sub(v));
            assert(s.sg[s.id[nv] as int].libs.contains(w));
            assert(c0.state[nv] == me);
            assert(p.state[nv] == c0.state[nv]);
            assert(kept_at(s, p, nv));
            assert(p.sg[p.id[nv] as int].libs.contains(w));
            assert(p.id[nv] == p.id[v as int]);
        } else {
            // an opposing chain in atari: the new stone takes it
            assert(b0.cell_ok(r0));
            assert(b0.libs_ok(r0));
            assert(b0.link_ok(pos, r0));
            assert(b0.is_lib(r0 as usize, v)) by {
                assert(b0.member(r0 as usize, nv));
            }
            assert(hit(b0, v as int, r0, 4)) by {
                assert(b0.state[nbr(v as int, j)] != Intersection::Empty);
            }
            assert(s.sg[r0] == b0.sg[r0].sub(v));
            assert(s.sg[r0].lib_cnt == 0);
            assert(same_slot(s, l, r0));
            assert(kept_at(s, c0, nv));
            assert(c0.id[nv] == r0);
            assert(settled_nbr(c0, p, nbr(v as int, j)));
            assert(p.state[nv] == Intersection::Empty);
            let pp = choose|pp: Seq<nat>| p.inv_at(pp);
            assert(p.link_ok(pp, v as int));
            assert(p.cell_ok(v as int));
            let rv = p.id[v as int];
            assert(p.libs_ok(rv as int));
            assert(p.member(rv, v as int));
            assert(p.is_lib(rv, nv as usize));
            assert(p.sg[rv as int].libs.contains(nv as usize));
        }
    }
    assert forall|x: int| 0 <= x < 121 implies #[trigger] p.alive_at(x) by {
        if p.state[x] is Stone {
            lemma_room(p, x);
            if p.id[x] == p.id[v as int] {
                let w = choose|w: usize| #[trigger] p.sg[p.id[v as int] as int].libs.contains(w);
                assert(p.sg[p.id[x] as int].libs.contains(w));
            } else {
                assert(kept_at(s, p, x));
                assert(x != v);
                assert(b0.state[x] == p.state[x]);
                assert(b0.alive_at(x));
                lemma_room(b0, x);
                let r0 = b0.id[x] as int;
                assert(b0.link_ok(pos, x));
                assert(b0.cell_ok(x));
                assert(b0.libs_ok(r0));
                assert(s.sg[r0] == b0.sg[r0] || s.sg[r0] == b0.sg[r0].sub(v));
                let w0 = choose|w: usize| #[trigger] b0.sg[b0.id[x] as int].libs.contains(w);
                if exists|w: usize| #[trigger] b0.sg[r0].libs.contains(w) && w != v {
                    let w = choose|w: usize| #[trigger] b0.sg[r0].libs.contains(w) && w != v;
                    assert(s.sg[s.id[x] as int].libs.contains(w));
                    assert(p.sg[p.id[x] as int].libs.contains(w));
                } else {
                    assert(w0 == v);
                    assert(b0.is_lib(r0 as usize, v));
                    let j: int = if b0.member(r0 as usize, v + 1) {
                        0
                    } else if b0.member(r0 as usize, v + 11) {
                        1
                    } else if b0.member(r0 as usize, v - 1) {
                        2
                    } else {
                        3
                    };
                    let nv = nbr(v as int, j);
                    assert(b0.member(r0 as usize, nv));
                    assert(b0.link_ok(pos, nv));
                    assert(b0.state[nv] == b0.state[x]);
                    assert(tied_at(s, p, x, nv));
                    if b0.state[x] == me {
                        assert(c0.state[nv] == me);
                        assert(p.state[nv] == c0.state[nv]);
                        assert(p.id[nv] == p.id[v as int]);
                        assert(false);
                    } else {
                        assert(b0.state[x] == opp);
                        assert(settled_nbr(c0, p, nbr(v as int, j)));
                        assert(kept_at(s, p, nv));
                        if p.state[nv] is Stone {
                            assert(p.state[nv] == opp);
                            let w = choose|w: usize| #[trigger]
                                p.sg[p.id[nv] as int].libs.contains(w);
                            assert(p.sg[p.id[x] as int].libs.contains(w));
                        } else {
                            assert(whole_at(c0, p, x, nv));
                            assert(kept_at(s, c0, x));
                            assert(kept_at(s, c0, nv));
                            assert(tied_at(s, c0, x, nv));
                            assert(false);
                        }
                    }
                }
            }
        }
    }
}

} // verus!
