//! Proof that the stones of a chain hang together, and that stones that
//! hang together are in one chain.

use vstd::prelude::*;
use crate::board_model::{adjacent, BoardView};
use crate::board_proofs::{
    lemma_capture_step, lemma_frame, lemma_lift_done, lemma_link_step, lemma_remove,
    lemma_settle, nbr, near_ok,
};
use crate::coord_convert::on_board;
use crate::intersection::Intersection;

verus! {

/// A stone is joined to itself.
proof fn lemma_joined_self(b: BoardView, r: usize, x: int)
    requires
        b.member(r, x),
    ensures
        b.joined(r, x, x),
{
    let path = seq![x];
    assert(b.is_path(r, path) && path[0] == x && path.last() == x);
}

/// Neighbouring stones of a chain are joined.
proof fn lemma_joined_step(b: BoardView, r: usize, x: int, y: int)
    requires
        b.member(r, x),
        b.member(r, y),
        adjacent(x, y),
    ensures
        b.joined(r, x, y),
{
    let path = seq![x, y];
    assert(b.is_path(r, path) && path[0] == x && path.last() == y);
}

/// A path can be walked backwards.
proof fn lemma_joined_back(b: BoardView, r: usize, x: int, y: int)
    requires
        b.joined(r, x, y),
    ensures
        b.joined(r, y, x),
{
    let path = choose|path: Seq<int>|
        #[trigger] b.is_path(r, path) && path[0] == x && path.last() == y;
    let n = path.len() as int;
    let back = Seq::new(path.len(), |i: int| path[n - 1 - i]);
    assert forall|i: int| 0 <= i < back.len() - 1 implies adjacent(#[trigger] back[i], back[i + 1]) by {
        assert(adjacent(path[n - 2 - i], path[n - 2 - i + 1]));
    }
    assert(b.is_path(r, back) && back[0] == y && back.last() == x);
}

/// Two paths that meet make one.
proof fn lemma_joined_on(b: BoardView, r: usize, x: int, y: int, z: int)
    requires
        b.joined(r, x, y),
        b.joined(r, y, z),
    ensures
        b.joined(r, x, z),
{
    let p = choose|path: Seq<int>|
        #[trigger] b.is_path(r, path) && path[0] == x && path.last() == y;
    let q = choose|path: Seq<int>|
        #[trigger] b.is_path(r, path) && path[0] == y && path.last() == z;
    let rest = q.drop_first();
    let path = p + rest;
    let n = p.len() as int;
    assert forall|i: int| 0 <= i < path.len() implies b.member(r, #[trigger] path[i]) by {
        if i < n {
            assert(path[i] == p[i]);
        } else {
            assert(path[i] == q[i - n + 1]);
        }
    }
    assert forall|i: int| 0 <= i < path.len() - 1 implies adjacent(#[trigger] path[i], path[i + 1]) by {
        if i < n - 1 {
            assert(path[i] == p[i] && path[i + 1] == p[i + 1]);
        } else if i == n - 1 {
            assert(path[i] == q[0] && path[i + 1] == q[1]);
            assert(adjacent(q[0int], q[0int + 1]));
        } else {
            assert(path[i] == q[i - n + 1] && path[i + 1] == q[i - n + 1 + 1]);
            assert(adjacent(q[i - n + 1], q[i - n + 1 + 1]));
        }
    }
    if rest.len() == 0 {
        assert(path =~= p);
    } else {
        assert(path.last() == q.last());
    }
    assert(b.is_path(r, path) && path[0] == x && path.last() == z);
}

/// A path of chain `r` in `b` is a path of chain `r2` in `c` where the
/// stones of `r` in `b` are stones of `r2` in `c`.
proof fn lemma_joined_carry(b: BoardView, r: usize, c: BoardView, r2: usize, x: int, y: int)
    requires
        b.joined(r, x, y),
        forall|u: int| #[trigger] b.member(r, u) ==> c.member(r2, u),
    ensures
        c.joined(r2, x, y),
{
    let path = choose|path: Seq<int>|
        #[trigger] b.is_path(r, path) && path[0] == x && path.last() == y;
    assert forall|i: int| 0 <= i < path.len() implies c.member(r2, #[trigger] path[i]) by {
        assert(b.member(r, path[i]));
    }
    assert(c.is_path(r2, path) && path[0] == x && path.last() == y);
}

/// A new stone with its liberties settled leaves the chains hanging
/// together.
proof fn lemma_settle_connected(b0: BoardView, pos: Seq<nat>, v: usize)
    requires
        b0.inv_at(pos),
        b0.connected(),
        on_board(v as int),
        b0.state[v as int] == Intersection::Empty,
    ensures
        b0.settle(v).connected(),
{
    lemma_settle(b0, pos, v);
    let s = b0.settle(v);
    assert(b0.link_ok(pos, v as int));
    assert forall|x: int| 0 <= x < 121 implies #[trigger] s.rooted_at(x) by {
        if s.state[x] is Stone {
            if x == v {
                lemma_joined_self(s, v, v as int);
            } else {
                assert(b0.rooted_at(x));
                let r = b0.id[x];
                assert forall|u: int| #[trigger] b0.member(r, u) implies s.member(r, u) by {}
                lemma_joined_carry(b0, r, s, r, x, r as int);
            }
        }
    }
}

/// Joining the new stone to a neighbour leaves the chains hanging together.
proof fn lemma_link_connected(b: BoardView, v: usize, k: int)
    requires
        b.inv(),
        b.connected(),
        on_board(v as int),
        b.state[v as int] is Stone,
        0 <= k < 4,
    ensures
        b.link(v, nbr(v as int, k)).connected(),
{
    let pos = choose|pos: Seq<nat>| b.inv_at(pos);
    let nv = nbr(v as int, k);
    let m = b.link(v, nv);
    if m != b {
        let i1 = b.id[v as int];
        let i2 = b.id[nv];
        let n1 = b.sg[i1 as int].size;
        let n2 = b.sg[i2 as int].size;
        let base = if n1 < n2 { i2 } else { i1 };
        let add = if n1 < n2 { i1 } else { i2 };
        assert(b.link_ok(pos, v as int));
        assert(b.link_ok(pos, nv));
        assert(b.cell_ok(v as int));
        assert(b.cell_ok(nv));
        assert(b.link_ok(pos, i1 as int));
        assert(b.link_ok(pos, i2 as int));
        assert(b.rooted_at(v as int));
        assert(b.rooted_at(nv));
        assert forall|u: int| #[trigger] b.member(i1, u) implies m.member(base, u) by {}
        assert forall|u: int| #[trigger] b.member(i2, u) implies m.member(base, u) by {}
        // the two representatives are joined through the new stone and its neighbour
        lemma_joined_carry(b, i1, m, base, v as int, i1 as int);
        lemma_joined_carry(b, i2, m, base, nv, i2 as int);
        lemma_joined_back(m, base, v as int, i1 as int);
        lemma_joined_step(m, base, v as int, nv);
        lemma_joined_on(m, base, i1 as int, v as int, nv);
        lemma_joined_on(m, base, i1 as int, nv, i2 as int);
        lemma_joined_back(m, base, i1 as int, i2 as int);
        lemma_joined_self(m, base, base as int);
        assert(m.joined(base, i1 as int, base as int));
        assert(m.joined(base, i2 as int, base as int));
        assert forall|x: int| 0 <= x < 121 implies #[trigger] m.rooted_at(x) by {
            if m.state[x] is Stone {
                assert(b.rooted_at(x));
                assert(b.link_ok(pos, x));
                let r = b.id[x];
                if r == i1 {
                    lemma_joined_carry(b, i1, m, base, x, i1 as int);
                    lemma_joined_on(m, base, x, i1 as int, base as int);
                } else if r == i2 {
                    lemma_joined_carry(b, i2, m, base, x, i2 as int);
                    lemma_joined_on(m, base, x, i2 as int, base as int);
                } else {
                    assert forall|u: int| #[trigger] b.member(r, u) implies m.member(r, u) by {}
                    lemma_joined_carry(b, r, m, r, x, r as int);
                }
            }
        }
    }
}

/// Taking a chain off leaves the other chains hanging together.
proof fn lemma_capture_connected(b: BoardView, nv: int)
    requires
        b.inv(),
        b.connected(),
        0 <= nv < 121,
    ensures
        b.capture(nv).connected(),
{
    let pos = choose|pos: Seq<nat>| b.inv_at(pos);
    let c = b.capture(nv);
    if c != b {
        lemma_remove(b, pos, nv as usize);
        lemma_lift_done(b, pos, c, nv as usize);
        let gone = b.id[nv];
        assert forall|x: int| 0 <= x < 121 implies #[trigger] c.rooted_at(x) by {
            if c.state[x] is Stone {
                assert(b.rooted_at(x));
                assert(b.link_ok(pos, x));
                assert(b.cell_ok(x));
                let r = b.id[x];
                assert(c.id[x] == r);
                assert(r != gone);
                assert forall|u: int| #[trigger] b.member(r, u) implies c.member(r, u) by {
                    assert(!b.member(gone, u));
                    assert(c.state[u] == b.state[u]);
                    assert(c.id[u] == b.id[u]);
                }
                lemma_joined_carry(b, r, c, r, x, r as int);
            }
        }
    }
}

/// Between positions with the same cells and representatives the chains
/// hang together alike.
pub proof fn lemma_same_connected(b: BoardView, c: BoardView)
    requires
        b.connected(),
        c.state == b.state,
        c.id == b.id,
    ensures
        c.connected(),
{
    assert forall|x: int| 0 <= x < 121 implies #[trigger] c.rooted_at(x) by {
        if c.state[x] is Stone {
            assert(b.rooted_at(x));
            let r = b.id[x];
            assert forall|u: int| #[trigger] b.member(r, u) implies c.member(r, u) by {}
            lemma_joined_carry(b, r, c, r, x, r as int);
        }
    }
}

/// Placing a stone on an empty point of a consistent position whose chains
/// hang together leaves the chains hanging together.
pub proof fn lemma_place_connected(b0: BoardView, v: usize)
    requires
        b0.inv(),
        b0.maximal(),
        b0.connected(),
        on_board(v as int),
        b0.state[v as int] == Intersection::Empty,
    ensures
        b0.place_stone(v).connected(),
{
    reveal(BoardView::place_stone);
    let pos = choose|pos: Seq<nat>| b0.inv_at(pos);
    assert(nbr(v as int, 0) == v + 1 && nbr(v as int, 1) == v + 11 && nbr(v as int, 2) == v - 1
        && nbr(v as int, 3) == v - 11);
    lemma_settle(b0, pos, v);
    lemma_settle_connected(b0, pos, v);
    let s = b0.settle(v);
    assert(s.inv());
    assert forall|x: int| 0 <= x < 110 implies #[trigger] near_ok(s, v as int, 0, x) by {
        assert(b0.joined_at(x));
    }
    let l1 = s.link(v, nbr(v as int, 0));
    lemma_link_step(s, v, 0);
    lemma_link_connected(s, v, 0);
    let l2 = l1.link(v, nbr(v as int, 1));
    lemma_link_step(l1, v, 1);
    lemma_link_connected(l1, v, 1);
    let l3 = l2.link(v, nbr(v as int, 2));
    lemma_link_step(l2, v, 2);
    lemma_link_connected(l2, v, 2);
    let l4 = l3.link(v, nbr(v as int, 3));
    lemma_link_step(l3, v, 3);
    lemma_link_connected(l3, v, 3);
    assert forall|x: int| 0 <= x < 110 implies #[trigger] l4.joined_at(x) by {
        assert(near_ok(l4, v as int, 4, x));
    }
    let c0 = BoardView { remove_cnt: 0, ..l4 };
    let lpos = choose|lpos: Seq<nat>| l4.inv_at(lpos);
    lemma_frame(l4, c0, lpos);
    lemma_same_connected(l4, c0);
    let c1 = c0.capture(nbr(v as int, 0));
    lemma_capture_step(c0, nbr(v as int, 0));
    lemma_capture_connected(c0, nbr(v as int, 0));
    let c2 = c1.capture(nbr(v as int, 1));
    lemma_capture_step(c1, nbr(v as int, 1));
    lemma_capture_connected(c1, nbr(v as int, 1));
    let c3 = c2.capture(nbr(v as int, 2));
    lemma_capture_step(c2, nbr(v as int, 2));
    lemma_capture_connected(c2, nbr(v as int, 2));
    lemma_capture_step(c3, nbr(v as int, 3));
    lemma_capture_connected(c3, nbr(v as int, 3));
}

/// In a position whose chains hang together, any two stones of a chain are
/// joined by a path of stones of the chain.
pub proof fn lemma_chain_hangs_together(b: BoardView, x: int, y: int)
    requires
        b.connected(),
        0 <= x < 121,
        0 <= y < 121,
        b.state[x] is Stone,
        b.state[y] is Stone,
        b.id[x] == b.id[y],
    ensures
        b.joined(b.id[x], x, y),
{
    let r = b.id[x];
    assert(b.rooted_at(x));
    assert(b.rooted_at(y));
    lemma_joined_back(b, r, y, r as int);
    lemma_joined_on(b, r, x, r as int, y);
}

/// In a position whose chains are as large as they can be, stones of one
/// colour along a path from neighbour to neighbour are all in one chain.
pub proof fn lemma_string_in_chain(b: BoardView, path: Seq<int>, i: int)
    requires
        b.shaped(),
        b.maximal(),
        b.is_string(path),
        0 <= i < path.len(),
    ensures
        b.id[path[i]] == b.id[path[0]],
    decreases i,
{
    if i > 0 {
        lemma_string_in_chain(b, path, i - 1);
        let x = path[i - 1];
        let y = path[i];
        assert(adjacent(path[i - 1], path[i - 1 + 1]));
        assert(b.cell_ok(x));
        assert(b.cell_ok(y));
        assert(b.state[x] == b.state[y]);
        if y == x + 1 || y == x + 11 {
            assert(b.joined_at(x));
        } else {
            assert(b.joined_at(y));
        }
    }
}

} // verus!
