//! The unit of work: a visited-set, an explicit path stack, and running
//! counters, owned by one worker for its whole lifetime.
//!
//! Beside the data type this module holds the ghost bookkeeping the DFS
//! engine is proved against: `pending`, the number of tours the frames still
//! on the stack have yet to contribute, and `potential`, the measure that
//! shrinks with every engine step and so bounds the traversal.

use vstd::prelude::*;
use crate::count::{frame_pend, num_unvisited, terminal_count, tour_count_from};

verus! {

/// One suspended exhaustive search: the squares on the current path
/// (`visited`), a stack of (square, next-candidate-index) frames split over
/// two parallel arrays, the stack pointer, the start square, and the two
/// tour counters.
pub struct SearchData {
    pub visited: Vec<bool>,
    pub stack_sq: Vec<u8>,
    pub stack_ix: Vec<u8>,
    pub sp: usize,
    pub start: u8,
    pub open_count: u128,
    pub closed_count: u128,
}

/// The visited-set of a fresh search rooted at `start`: only the start
/// square is on the path.
pub open spec fn init_visited(size: int, start: int) -> Seq<bool> {
    Seq::new(size as nat, |i: int| i == start)
}

impl SearchData {
    /// The number of board squares.
    pub open spec fn size(self) -> int {
        self.visited@.len() as int
    }

    /// The squares of the stack frames in use, bottom first.
    pub open spec fn frames_sq(self) -> Seq<u8> {
        self.stack_sq@.take(self.sp as int + 1)
    }

    /// The next-candidate indices of the stack frames in use, bottom first.
    pub open spec fn frames_ix(self) -> Seq<u8> {
        self.stack_ix@.take(self.sp as int + 1)
    }

    /// The square at the top of the stack: where the search currently stands.
    pub open spec fn top_sq(self) -> int {
        self.stack_sq@[self.sp as int] as int
    }

    /// The next candidate index of the top frame.
    pub open spec fn top_ix(self) -> int {
        self.stack_ix@[self.sp as int] as int
    }

    /// Whether `sq` occupies some frame in use.
    pub open spec fn on_stack(self, sq: int) -> bool {
        exists|k: int| 0 <= k <= self.sp as int && #[trigger] self.stack_sq@[k] as int == sq
    }

    /// Well-formedness on a board of width `w`: the arrays span the board,
    /// the frames hold distinct board squares with candidate indices at most
    /// 8, the bottom frame holds the start square, and the visited-set is
    /// exactly the set of squares on the stack — so its true-count is the
    /// stack depth plus one.
    pub open spec fn inv(self, w: int) -> bool {
        &&& w * w == self.size()
        &&& self.stack_sq@.len() == self.size()
        &&& self.stack_ix@.len() == self.size()
        &&& (self.sp as int) < self.size()
        &&& (self.start as int) < self.size()
        &&& self.stack_sq@[0] == self.start
        &&& forall|k: int| 0 <= k <= self.sp as int ==> (#[trigger] self.stack_sq@[k] as int) < self.size()
        &&& forall|k: int| 0 <= k <= self.sp as int ==> (#[trigger] self.stack_ix@[k] as int) <= 8
        &&& forall|k1: int, k2: int|
            0 <= k1 < k2 <= self.sp as int ==> #[trigger] self.stack_sq@[k1] != #[trigger] self.stack_sq@[k2]
        &&& forall|sq: int|
            0 <= sq < self.size() ==> (#[trigger] self.visited@[sq] <==> self.on_stack(sq))
        &&& num_unvisited(self.visited@) + self.sp as int + 1 == self.size()
    }

    /// A fresh search rooted at `start`: the start square visited, one stack
    /// frame (start, 0), counters zero.
    pub fn new_root(w: u8, size: u8, start: u8) -> (r: SearchData)
        requires
            size == w * w,
            3 <= w <= 15,
            start < size,
        ensures
            r.inv(w as int),
            r.sp == 0,
            r.start == start,
            r.top_ix() == 0,
            r.top_sq() == start as int,
            r.visited@ == init_visited(size as int, start as int),
            r.open_count == 0,
            r.closed_count == 0,
            knight_path(w as int, r.frames_sq()),
    {
        let mut visited: Vec<bool> = Vec::new();
        let mut stack_sq: Vec<u8> = Vec::new();
        let mut stack_ix: Vec<u8> = Vec::new();
        let mut i: u8 = 0;
        while i < size
            invariant
                i <= size,
                visited@.len() == i as int,
                stack_sq@.len() == i as int,
                stack_ix@.len() == i as int,
                num_unvisited(visited@) == i as int,
                forall|k: int| 0 <= k < i as int ==> !(#[trigger] visited@[k]),
                forall|k: int| 0 <= k < i as int ==> #[trigger] stack_sq@[k] == start,
                forall|k: int| 0 <= k < i as int ==> #[trigger] stack_ix@[k] == 0,
            decreases size - i,
        {
            proof {
                assert(visited@.push(false).drop_last() =~= visited@);
            }
            visited.push(false);
            stack_sq.push(start);
            stack_ix.push(0);
            i = i + 1;
        }
        proof {
            crate::count::lemma_num_unvisited_update(visited@, start as int);
        }
        visited.set(start as usize, true);
        let r = SearchData {
            visited,
            stack_sq,
            stack_ix,
            sp: 0,
            start,
            open_count: 0,
            closed_count: 0,
        };
        proof {
            assert forall|sq: int| 0 <= sq < r.size() implies (#[trigger] r.visited@[sq]
                <==> r.on_stack(sq)) by {
                if sq == start as int {
                    assert(r.stack_sq@[0] as int == sq);
                }
            }
            assert(r.visited@ =~= init_visited(size as int, start as int));
        }
        r
    }
}

/// The tours still owed by the frames above `root`, given the visited-set
/// `v` that holds at the top of the stack. Each frame owes the completions
/// of its untried candidates plus its own terminal check; the visited-set
/// seen by a deeper frame is `v` with the squares of the frames above it
/// cleared again.
pub open spec fn pending(
    w: int,
    start: int,
    sqs: Seq<u8>,
    ixs: Seq<u8>,
    v: Seq<bool>,
    root: int,
    closed: bool,
) -> nat
    decreases sqs.len(),
{
    if sqs.len() <= root || sqs.len() == 0 {
        0
    } else {
        let p = sqs.last() as int;
        let ix = ixs[sqs.len() - 1] as int;
        frame_pend(w, start, v, p, ix, closed) + pending(
            w,
            start,
            sqs.drop_last(),
            ixs.drop_last(),
            v.update(p, false),
            root,
            closed,
        )
    }
}

/// Some knight move leads from `a` to `b`.
pub open spec fn connected(w: int, a: u8, b: u8) -> bool {
    exists|j: int| 0 <= j < 8 && crate::jumps::spec_jump(w, a as int, j) == b as int
}

/// Consecutive squares of the sequence are joined by knight moves.
pub open spec fn knight_path(w: int, sqs: Seq<u8>) -> bool {
    forall|k: int| 0 <= k < sqs.len() - 1 ==> #[trigger] connected(w, sqs[k], sqs[k + 1])
}

/// Extending a knight path by one reachable square keeps it a knight path.
pub proof fn lemma_knight_path_push(w: int, sqs: Seq<u8>, t: u8, j: int)
    requires
        knight_path(w, sqs),
        sqs.len() >= 1,
        0 <= j < 8,
        crate::jumps::spec_jump(w, sqs.last() as int, j) == t as int,
    ensures
        knight_path(w, sqs.push(t)),
{
    let n = sqs.push(t);
    assert forall|k: int| 0 <= k < n.len() - 1 implies #[trigger] connected(w, n[k], n[k + 1]) by {
        if k < sqs.len() - 1 {
            assert(connected(w, sqs[k], sqs[k + 1]));
            assert(n[k] == sqs[k] && n[k + 1] == sqs[k + 1]);
        } else {
            assert(n[k] == sqs.last() && n[k + 1] == t);
            assert(crate::jumps::spec_jump(w, n[k] as int, j) == n[k + 1] as int);
        }
    }
}

/// A clone of a state, extended by one free square `t`, is well formed
/// again: frames stay distinct and the visited-set correspondence carries
/// over to the new frame.
pub proof fn lemma_extend_inv(sd: SearchData, child: SearchData, w: int, t: u8)
    requires
        sd.inv(w),
        child.visited@ == sd.visited@.update(t as int, true),
        child.stack_sq@ == sd.stack_sq@.update(sd.sp as int + 1, t),
        child.stack_ix@ == sd.stack_ix@.update(sd.sp as int + 1, 0),
        child.sp == sd.sp + 1,
        child.start == sd.start,
        (t as int) < sd.size(),
        !sd.visited@[t as int],
        sd.sp as int + 1 < sd.size(),
    ensures
        child.inv(w),
        child.top_ix() == 0,
        child.top_sq() == t as int,
        child.frames_sq() == sd.frames_sq().push(t),
{
    assert(child.frames_sq() =~= sd.frames_sq().push(t));
    crate::count::lemma_num_unvisited_update(sd.visited@, t as int);
    assert forall|sq: int| 0 <= sq < child.size() implies (#[trigger] child.visited@[sq]
        <==> child.on_stack(sq)) by {
        if sq == t as int {
            assert(child.stack_sq@[child.sp as int] as int == sq);
        } else {
            if sd.visited@[sq] {
                let k = choose|k: int|
                    0 <= k <= sd.sp as int && #[trigger] sd.stack_sq@[k] as int == sq;
                assert(child.stack_sq@[k] as int == sq);
                assert(child.on_stack(sq));
            }
            if child.on_stack(sq) {
                let k = choose|k: int|
                    0 <= k <= child.sp as int && #[trigger] child.stack_sq@[k] as int == sq;
                assert(k < child.sp as int);
                assert(sd.stack_sq@[k] as int == sq);
                assert(sd.on_stack(sq));
            }
        }
    }
    assert forall|k1: int, k2: int| 0 <= k1 < k2 <= child.sp as int implies
        #[trigger] child.stack_sq@[k1] != #[trigger] child.stack_sq@[k2] by {
        if k2 == child.sp as int {
            assert(child.stack_sq@[k2] == t);
            assert(sd.stack_sq@[k1] == child.stack_sq@[k1]);
            assert(sd.on_stack(sd.stack_sq@[k1] as int));
            assert(sd.visited@[sd.stack_sq@[k1] as int]);
        }
    }
}

/// Stepping the top frame past a candidate that is off-board or already
/// visited leaves the pending work unchanged.
pub proof fn lemma_pending_skip(
    w: int,
    start: int,
    sqs: Seq<u8>,
    ixs: Seq<u8>,
    v: Seq<bool>,
    root: int,
    closed: bool,
)
    requires
        sqs.len() == ixs.len(),
        root < sqs.len(),
        0 <= root,
        ixs.last() < 8,
        ({
            let t = crate::jumps::spec_jump(w, sqs.last() as int, ixs.last() as int);
            t == crate::jumps::SENTINEL as int || !(0 <= t < v.len()) || v[t]
        }),
    ensures
        pending(w, start, sqs, ixs.update(ixs.len() - 1, (ixs.last() + 1) as u8), v, root, closed)
            == pending(w, start, sqs, ixs, v, root, closed),
{
    let l = ixs.len() as int;
    let p = sqs.last() as int;
    let ix = ixs.last() as int;
    let nixs = ixs.update(l - 1, (ixs.last() + 1) as u8);
    assert(nixs.drop_last() =~= ixs.drop_last());
    assert(nixs.last() as int == ix + 1);
    assert(tour_count_from(w, start, v, p, ix, closed) == tour_count_from(w, start, v, p, ix + 1, closed));
    assert(frame_pend(w, start, v, p, ix, closed) == frame_pend(w, start, v, p, ix + 1, closed));
}

/// Stepping the top frame past a candidate that is free, and entering it as
/// a fresh frame, leaves the pending work unchanged: what the old frame no
/// longer owes, the new frame owes.
pub proof fn lemma_pending_push(
    w: int,
    start: int,
    sqs: Seq<u8>,
    ixs: Seq<u8>,
    v: Seq<bool>,
    root: int,
    closed: bool,
    t: u8,
)
    requires
        sqs.len() == ixs.len(),
        root < sqs.len(),
        0 <= root,
        ixs.last() < 8,
        crate::jumps::spec_jump(w, sqs.last() as int, ixs.last() as int) == t as int,
        t as int != crate::jumps::SENTINEL as int,
        (t as int) < v.len(),
        !v[t as int],
    ensures
        pending(
            w,
            start,
            sqs.push(t),
            ixs.update(ixs.len() - 1, (ixs.last() + 1) as u8).push(0),
            v.update(t as int, true),
            root,
            closed,
        ) == pending(w, start, sqs, ixs, v, root, closed),
{
    let l = ixs.len() as int;
    let p = sqs.last() as int;
    let ix = ixs.last() as int;
    let v2 = v.update(t as int, true);
    let nsqs = sqs.push(t);
    let nixs = ixs.update(l - 1, (ixs.last() + 1) as u8).push(0);
    assert(nsqs.len() == l + 1 && nixs.len() == l + 1);
    assert(nsqs.last() == t && nixs.last() == 0);
    assert(nsqs.drop_last() =~= sqs);
    assert(nixs.drop_last() =~= ixs.update(l - 1, (ixs.last() + 1) as u8));
    assert(v2.update(t as int, false) =~= v);
    // Unfold the new stack once: the fresh frame owes tour_count of the
    // extended path.
    assert(pending(w, start, nsqs, nixs, v2, root, closed) == frame_pend(w, start, v2, t as int, 0, closed)
        + pending(w, start, sqs, ixs.update(l - 1, (ixs.last() + 1) as u8), v, root, closed));
    assert(frame_pend(w, start, v2, t as int, 0, closed) == crate::count::tour_count(w, start, v2, t as int, closed));
    // Unfold the stepped old stack.
    let sixs = ixs.update(l - 1, (ixs.last() + 1) as u8);
    assert(sixs.drop_last() =~= ixs.drop_last());
    assert(pending(w, start, sqs, sixs, v, root, closed) == frame_pend(w, start, v, p, ix + 1, closed)
        + pending(w, start, sqs.drop_last(), ixs.drop_last(), v.update(p, false), root, closed));
    // Unfold the unstepped stack, and the candidate step of tour_count_from.
    assert(pending(w, start, sqs, ixs, v, root, closed) == frame_pend(w, start, v, p, ix, closed)
        + pending(w, start, sqs.drop_last(), ixs.drop_last(), v.update(p, false), root, closed));
    assert(tour_count_from(w, start, v, p, ix, closed) == crate::count::tour_count(w, start, v2, t as int, closed)
        + tour_count_from(w, start, v, p, ix + 1, closed));
}

/// 10 to the `e`.
pub open spec fn pow10(e: nat) -> nat
    decreases e,
{
    if e == 0 {
        1
    } else {
        10 * pow10((e - 1) as nat)
    }
}

/// Powers of ten are positive.
pub proof fn lemma_pow10_pos(e: nat)
    ensures
        pow10(e) >= 1,
    decreases e,
{
    if e > 0 {
        lemma_pow10_pos((e - 1) as nat);
    }
}

/// The engine's termination measure: each frame contributes its remaining
/// candidate budget, weighted so that one step at any depth outweighs a
/// whole fresh frame below it.
pub open spec fn potential(ixs: Seq<u8>, size: nat) -> nat
    decreases ixs.len(),
{
    if ixs.len() == 0 {
        0
    } else {
        let c: nat = if ixs.last() < 9 {
            (9 - ixs.last()) as nat
        } else {
            0
        };
        let e: nat = if ixs.len() <= size {
            (size - ixs.len()) as nat
        } else {
            0
        };
        potential(ixs.drop_last(), size) + c * pow10(e)
    }
}

/// Trying the next candidate of the top frame lowers the potential.
pub proof fn lemma_potential_step(ixs: Seq<u8>, size: nat)
    requires
        1 <= ixs.len() <= size,
        ixs.last() < 9,
    ensures
        potential(ixs.update(ixs.len() - 1, (ixs.last() + 1) as u8), size) + pow10(
            (size - ixs.len()) as nat,
        ) == potential(ixs, size),
{
    let l = ixs.len() as int;
    let n = ixs.update(l - 1, (ixs.last() + 1) as u8);
    assert(n.drop_last() =~= ixs.drop_last());
    assert(n.last() == ixs.last() + 1);
    let e = (size - ixs.len()) as nat;
    let c: nat = (9 - ixs.last()) as nat;
    assert(potential(ixs, size) == potential(ixs.drop_last(), size) + c * pow10(e));
    if n.last() < 9 {
        assert(potential(n, size) == potential(ixs.drop_last(), size) + ((9 - n.last()) as nat) * pow10(e));
        assert(((9 - n.last()) as nat) * pow10(e) + pow10(e) == c * pow10(e)) by (nonlinear_arith)
            requires c == (9 - n.last()) as nat + 1;
    } else {
        assert(potential(n, size) == potential(ixs.drop_last(), size) + 0 * pow10(e));
        assert(c == 1);
    }
}

/// Entering a fresh frame (after stepping the old top) lowers the potential.
pub proof fn lemma_potential_push(ixs: Seq<u8>, size: nat)
    requires
        1 <= ixs.len(),
        ixs.len() + 1 <= size,
        ixs.last() < 9,
    ensures
        potential(ixs.update(ixs.len() - 1, (ixs.last() + 1) as u8).push(0), size) + pow10(
            (size - ixs.len() - 1) as nat,
        ) == potential(ixs, size),
{
    let l = ixs.len() as int;
    let stepped = ixs.update(l - 1, (ixs.last() + 1) as u8);
    let n = stepped.push(0);
    lemma_potential_step(ixs, size);
    assert(n.drop_last() =~= stepped);
    assert(n.last() == 0);
    let e1 = (size - ixs.len() - 1) as nat;
    assert(n.len() == ixs.len() + 1);
    assert(potential(n, size) == potential(stepped, size) + 9 * pow10(e1));
    assert(pow10((size - ixs.len()) as nat) == 10 * pow10(e1));
}

/// Abandoning an exhausted top frame lowers the potential.
pub proof fn lemma_potential_pop(ixs: Seq<u8>, size: nat)
    requires
        1 <= ixs.len() <= size,
        ixs.last() == 8,
    ensures
        potential(ixs.drop_last(), size) + pow10((size - ixs.len()) as nat) == potential(ixs, size),
{
    let e = (size - ixs.len()) as nat;
    assert(potential(ixs, size) == potential(ixs.drop_last(), size) + 1 * pow10(e));
}

} // verus!
