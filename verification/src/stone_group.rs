//! The liberties of one chain of stones.
//!
//! A group records how many stones its chain has, which empty points touch
//! the chain, how many of those there are, and the liberty that was added
//! last. Which stones belong to the chain is the board's business.

use std::collections::HashSet;
use vstd::prelude::*;
use vstd::std_specs::hash::*;
use crate::constants::{EBVCNT, VNULL};

verus! {

broadcast use group_hash_axioms;

/// The mathematical content of a [`StoneGroup`].
pub struct GroupView {
    pub lib_cnt: nat,
    pub size: nat,
    pub v_atr: usize,
    pub libs: Set<usize>,
}

impl GroupView {
    /// A group in the state that [`StoneGroup::clear`] leaves: a chain of one
    /// stone without liberties, or a placeholder.
    pub open spec fn cleared(stone: bool) -> GroupView {
        GroupView {
            lib_cnt: if stone { 0 } else { VNULL as nat },
            size: if stone { 1 } else { VNULL as nat },
            v_atr: VNULL,
            libs: Set::empty(),
        }
    }

    /// The liberties are vertices of the bordered board, and the count is
    /// their number; in a placeholder the count is offset by `VNULL`.
    pub open spec fn wf(self) -> bool {
        &&& self.libs.finite()
        &&& forall|w: usize| self.libs.contains(w) ==> w < EBVCNT
        &&& (self.lib_cnt == self.libs.len() || self.lib_cnt == self.libs.len() + VNULL)
    }

    /// The count is exactly the number of liberties.
    pub open spec fn counted(self) -> bool {
        self.lib_cnt == self.libs.len()
    }

    /// The liberty added last is a liberty still, unless there is none.
    pub open spec fn fresh(self) -> bool {
        self.libs == Set::<usize>::empty() || self.libs.contains(self.v_atr)
    }

    /// The group after `v` became a liberty.
    pub open spec fn add(self, v: usize) -> GroupView {
        if self.libs.contains(v) {
            self
        } else {
            GroupView {
                lib_cnt: self.lib_cnt + 1,
                v_atr: v,
                libs: self.libs.insert(v),
                ..self
            }
        }
    }

    /// The group after `v` stopped being a liberty.
    pub open spec fn sub(self, v: usize) -> GroupView {
        if !self.libs.contains(v) {
            self
        } else {
            GroupView { lib_cnt: (self.lib_cnt - 1) as nat, libs: self.libs.remove(v), ..self }
        }
    }

    /// The group after the chain of `other` was joined to its own.
    pub open spec fn merge(self, other: GroupView) -> GroupView {
        let libs = self.libs.union(other.libs);
        GroupView {
            lib_cnt: libs.len(),
            size: self.size + other.size,
            v_atr: if libs.len() == 1 { libs.choose() } else { self.v_atr },
            libs,
        }
    }
}

/// A finite set of numbers below `n` has at most `n` elements.
pub proof fn lemma_bounded_set_len(s: Set<usize>, n: nat)
    requires
        s.finite(),
        forall|w: usize| s.contains(w) ==> w < n,
    ensures
        s.len() <= n,
    decreases n,
{
    if n == 0 {
        if s.len() > 0 {
            assert(s.contains(s.choose()));
        }
    } else {
        let last = (n - 1) as usize;
        let t = s.remove(last);
        assert forall|w: usize| t.contains(w) implies w < n - 1 by {
            assert(s.contains(w));
        }
        lemma_bounded_set_len(t, (n - 1) as nat);
    }
}

/// A set with one element has no other.
pub proof fn lemma_single_element(s: Set<usize>, a: usize, b: usize)
    requires
        s.finite(),
        s.len() == 1,
        s.contains(a),
        s.contains(b),
    ensures
        a == b,
{
    let t = s.remove(a);
    assert(t.len() == 0);
    if a != b {
        assert(t.contains(b));
    }
}

/// What the operations keep: a well-formed group stays well-formed, and
/// adding or removing a liberty twice is the same as doing it once.
pub proof fn lemma_group_ops(g: GroupView, other: GroupView, v: usize)
    requires
        g.wf(),
        other.wf(),
        v < EBVCNT,
    ensures
        g.add(v).wf(),
        g.sub(v).wf(),
        g.merge(other).wf(),
        g.merge(other).counted(),
        g.counted() ==> g.add(v).counted() && g.sub(v).counted(),
        g.add(v).add(v) == g.add(v),
        g.sub(v).sub(v) == g.sub(v),
        g.libs.len() <= EBVCNT,
        g.lib_cnt <= EBVCNT + VNULL,
        g.merge(other).lib_cnt == 1 ==> g.merge(other).libs == set![g.merge(other).v_atr],
{
    lemma_bounded_set_len(g.libs, EBVCNT as nat);
    let m = g.merge(other);
    if m.lib_cnt == 1 {
        assert(m.libs.len() > 0);
        assert(m.libs.contains(m.v_atr));
        assert forall|w: usize| m.libs.contains(w) implies w == m.v_atr by {
            lemma_single_element(m.libs, w, m.v_atr);
        }
        assert(m.libs =~= set![m.v_atr]);
    }
}

/// Size, liberty count and liberties of one chain.
pub struct StoneGroup {
    lib_cnt: usize,
    size: usize,
    /// The liberty that was added last; the last liberty left when the
    /// chain is in atari after an `add`.
    v_atr: usize,
    libs: HashSet<usize>,
}

impl View for StoneGroup {
    type V = GroupView;

    closed spec fn view(&self) -> GroupView {
        GroupView {
            lib_cnt: self.lib_cnt as nat,
            size: self.size as nat,
            v_atr: self.v_atr,
            libs: self.libs@,
        }
    }
}

impl StoneGroup {
    /// A placeholder group.
    pub fn new() -> (r: StoneGroup)
        ensures
            r@ == GroupView::cleared(false),
            r@.wf(),
    {
        StoneGroup { lib_cnt: VNULL, size: VNULL, v_atr: VNULL, libs: HashSet::new() }
    }

    pub fn get_size(&self) -> (r: usize)
        ensures
            r == self@.size,
    {
        self.size
    }

    pub fn get_lib_cnt(&self) -> (r: usize)
        ensures
            r == self@.lib_cnt,
    {
        self.lib_cnt
    }

    pub fn get_v_atr(&self) -> (r: usize)
        ensures
            r == self@.v_atr,
    {
        self.v_atr
    }

    /// Whether `v` is recorded as a liberty.
    pub fn has_lib(&self, v: usize) -> (r: bool)
        ensures
            r == self@.libs.contains(v),
    {
        self.libs.contains(&v)
    }

    /// Resets the group to a chain of one stone without liberties, or to a
    /// placeholder.
    pub fn clear(&mut self, stone: bool)
        ensures
            final(self)@ == GroupView::cleared(stone),
            final(self)@.wf(),
    {
        self.lib_cnt = if stone { 0 } else { VNULL };
        self.size = if stone { 1 } else { VNULL };
        self.v_atr = VNULL;
        self.libs.clear();
    }

    /// Records `v` as a liberty.
    pub fn add(&mut self, v: usize)
        requires
            old(self)@.wf(),
            v < EBVCNT,
        ensures
            final(self)@ == old(self)@.add(v),
            final(self)@.wf(),
    {
        if self.libs.contains(&v) {
            return;
        }
        proof {
            lemma_group_ops(self@, self@, v);
        }
        self.libs.insert(v);
        self.lib_cnt += 1;
        self.v_atr = v;
    }

    /// Strikes `v` from the liberties.
    pub fn sub(&mut self, v: usize)
        requires
            old(self)@.wf(),
        ensures
            final(self)@ == old(self)@.sub(v),
            final(self)@.wf(),
    {
        if !self.libs.contains(&v) {
            return;
        }
        self.libs.remove(&v);
        self.lib_cnt -= 1;
    }

    /// Joins the chain of `other` to this one: the liberties are united, the
    /// sizes added, and a single remaining liberty is recorded.
    pub fn merge(&mut self, other: &StoneGroup)
        requires
            old(self)@.wf(),
            other@.wf(),
            old(self)@.size + other@.size <= usize::MAX,
        ensures
            final(self)@ == old(self)@.merge(other@),
            final(self)@.wf(),
    {
        let ghost before = self@;
        let ghost target = before.libs.union(other@.libs);
        let mut witness: usize = VNULL;
        let mut w: usize = 0;
        while w < EBVCNT
            invariant
                w <= EBVCNT,
                other@.wf(),
                before.wf(),
                self.libs@.finite(),
                self.lib_cnt == before.lib_cnt,
                self.size == before.size,
                self.v_atr == before.v_atr,
                forall|u: usize| #[trigger]
                    self.libs@.contains(u) <==> before.libs.contains(u) || (other@.libs.contains(u)
                        && u < w),
                witness != VNULL ==> self.libs@.contains(witness),
                forall|u: usize| #[trigger] self.libs@.contains(u) && u < w ==> witness != VNULL,
            decreases EBVCNT - w,
        {
            if other.libs.contains(&w) {
                self.libs.insert(w);
            }
            if self.libs.contains(&w) {
                witness = w;
            }
            w += 1;
        }
        assert(self.libs@ =~= target);
        proof {
            lemma_group_ops(before, other@, 0);
        }
        self.lib_cnt = self.libs.len();
        self.size += other.size;
        if self.lib_cnt == 1 {
            proof {
                assert(target.contains(target.choose()));
                lemma_single_element(target, witness, target.choose());
            }
            self.v_atr = witness;
        }
    }

    /// Makes `dest` a copy of this group.
    pub fn copy_to(&self, dest: &mut StoneGroup)
        requires
            self@.wf(),
        ensures
            final(dest)@ == self@,
    {
        dest.lib_cnt = self.lib_cnt;
        dest.size = self.size;
        dest.v_atr = self.v_atr;
        dest.libs.clear();
        let mut w: usize = 0;
        while w < EBVCNT
            invariant
                w <= EBVCNT,
                self@.wf(),
                dest.lib_cnt == self.lib_cnt,
                dest.size == self.size,
                dest.v_atr == self.v_atr,
                forall|u: usize| #[trigger] dest.libs@.contains(u) <==> self.libs@.contains(u) && u < w,
            decreases EBVCNT - w,
        {
            if self.libs.contains(&w) {
                dest.libs.insert(w);
            }
            w += 1;
        }
        assert(dest.libs@ =~= self.libs@);
    }
}

} // verus!
