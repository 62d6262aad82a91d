//! The frontier expander: breadth-first unrolling of a root search state to
//! a fixed depth.
//!
//! One round replaces every state in the working collection by a clone per
//! not-yet-visited candidate move of its top square. After `depth` rounds
//! the collection holds one state per simple path of that length from the
//! root — and, the contracts state, the tours still owed by the collection
//! are exactly the tours owed by the root: splitting the search duplicates
//! and loses nothing.

use vstd::prelude::*;
use crate::count::{
    lemma_all_visited_num, path_count, path_count_from, tour_count, tour_count_from,
};
use crate::jumps::{lemma_spec_jump_injective, spec_jump, JumpTable, SENTINEL};
use crate::state::{
    init_visited, knight_path, lemma_extend_inv, lemma_knight_path_push, SearchData,
};

verus! {

/// The tours (open or closed, by the flag) that a search of `sd` will count.
pub open spec fn state_count(sd: SearchData, w: int, closed: bool) -> nat {
    tour_count(w, sd.start as int, sd.visited@, sd.top_sq(), closed)
}

/// The tours a whole collection of search states will count.
pub open spec fn sum_counts(states: Seq<SearchData>, w: int, closed: bool) -> nat
    decreases states.len(),
{
    if states.len() == 0 {
        0
    } else {
        sum_counts(states.drop_last(), w, closed) + state_count(states.last(), w, closed)
    }
}

/// The simple paths of `d` further moves that extend one state.
pub open spec fn state_paths(sd: SearchData, w: int, d: nat) -> nat {
    path_count(w, sd.visited@, sd.top_sq(), d)
}

/// The simple paths of `d` further moves that extend a whole collection.
pub open spec fn sum_paths(states: Seq<SearchData>, w: int, d: nat) -> nat
    decreases states.len(),
{
    if states.len() == 0 {
        0
    } else {
        sum_paths(states.drop_last(), w, d) + state_paths(states.last(), w, d)
    }
}

/// With no further moves each state extends itself alone.
pub proof fn lemma_sum_paths_zero(states: Seq<SearchData>, w: int)
    ensures
        sum_paths(states, w, 0) == states.len(),
    decreases states.len(),
{
    if states.len() > 0 {
        lemma_sum_paths_zero(states.drop_last(), w);
    }
}

/// Appending a state adds its path count.
pub proof fn lemma_sum_paths_push(states: Seq<SearchData>, w: int, d: nat, sd: SearchData)
    ensures
        sum_paths(states.push(sd), w, d) == sum_paths(states, w, d) + state_paths(sd, w, d),
{
    assert(states.push(sd).drop_last() =~= states);
}

/// One more element of a prefix adds that element's path count.
pub proof fn lemma_sum_paths_take(states: Seq<SearchData>, w: int, d: nat, i: int)
    requires
        0 <= i < states.len(),
    ensures
        sum_paths(states.take(i + 1), w, d) == sum_paths(states.take(i), w, d) + state_paths(
            states[i],
            w,
            d,
        ),
{
    assert(states.take(i + 1).drop_last() =~= states.take(i));
    assert(states.take(i + 1).last() == states[i]);
}

/// No two states of the collection record the same path.
pub open spec fn distinct_paths(states: Seq<SearchData>) -> bool {
    forall|k1: int, k2: int|
        0 <= k1 < k2 < states.len() ==> (#[trigger] states[k1]).frames_sq()
            != (#[trigger] states[k2]).frames_sq()
}

/// Appending a state adds its count.
pub proof fn lemma_sum_counts_push(states: Seq<SearchData>, w: int, closed: bool, sd: SearchData)
    ensures
        sum_counts(states.push(sd), w, closed) == sum_counts(states, w, closed) + state_count(
            sd,
            w,
            closed,
        ),
{
    assert(states.push(sd).drop_last() =~= states);
}

/// One more element of a prefix adds that element's count.
pub proof fn lemma_sum_counts_take(states: Seq<SearchData>, w: int, closed: bool, i: int)
    requires
        0 <= i < states.len(),
    ensures
        sum_counts(states.take(i + 1), w, closed) == sum_counts(states.take(i), w, closed)
            + state_count(states[i], w, closed),
{
    assert(states.take(i + 1).drop_last() =~= states.take(i));
    assert(states.take(i + 1).last() == states[i]);
}

/// An element-wise copy of a byte vector.
fn copy_vec_u8(v: &Vec<u8>) -> (r: Vec<u8>)
    ensures
        r@ == v@,
{
    let mut r: Vec<u8> = Vec::new();
    let mut i: usize = 0;
    while i < v.len()
        invariant
            i <= v@.len(),
            r@ == v@.take(i as int),
        decreases v@.len() - i,
    {
        r.push(v[i]);
        proof {
            assert(v@.take(i as int).push(v@[i as int]) =~= v@.take(i as int + 1));
        }
        i = i + 1;
    }
    proof {
        assert(v@.take(v@.len() as int) =~= v@);
    }
    r
}

/// An element-wise copy of a boolean vector.
fn copy_vec_bool(v: &Vec<bool>) -> (r: Vec<bool>)
    ensures
        r@ == v@,
{
    let mut r: Vec<bool> = Vec::new();
    let mut i: usize = 0;
    while i < v.len()
        invariant
            i <= v@.len(),
            r@ == v@.take(i as int),
        decreases v@.len() - i,
    {
        r.push(v[i]);
        proof {
            assert(v@.take(i as int).push(v@[i as int]) =~= v@.take(i as int + 1));
        }
        i = i + 1;
    }
    proof {
        assert(v@.take(v@.len() as int) =~= v@);
    }
    r
}

/// One breadth-first round: replace every state at depth `depth` by one
/// clone per free candidate move of its top square. The collection's owed
/// tours are unchanged: every state's own terminal check contributes nothing
/// yet (the board cannot be full at this depth), and its candidates' counts
/// are split over its clones.
pub fn expand_round(table: &JumpTable, states: &Vec<SearchData>, depth: usize) -> (r: Vec<
    SearchData,
>)
    requires
        table.wf(),
        forall|i: int| 0 <= i < states@.len() ==> (#[trigger] states@[i]).inv(table.w()),
        forall|i: int| 0 <= i < states@.len() ==> (#[trigger] states@[i]).sp == depth,
        forall|i: int| 0 <= i < states@.len() ==> (#[trigger] states@[i]).top_ix() == 0,
        forall|i: int| 0 <= i < states@.len() ==> (#[trigger] states@[i]).open_count == 0,
        forall|i: int| 0 <= i < states@.len() ==> (#[trigger] states@[i]).closed_count == 0,
        forall|i: int|
            0 <= i < states@.len() ==> knight_path(table.w(), (#[trigger] states@[i]).frames_sq()),
        distinct_paths(states@),
        depth as int + 2 <= table.size as int,
    ensures
        forall|i: int| 0 <= i < r@.len() ==> (#[trigger] r@[i]).inv(table.w()),
        forall|i: int| 0 <= i < r@.len() ==> (#[trigger] r@[i]).sp == depth + 1,
        forall|i: int| 0 <= i < r@.len() ==> (#[trigger] r@[i]).top_ix() == 0,
        forall|i: int| 0 <= i < r@.len() ==> (#[trigger] r@[i]).open_count == 0,
        forall|i: int| 0 <= i < r@.len() ==> (#[trigger] r@[i]).closed_count == 0,
        forall|i: int|
            0 <= i < r@.len() ==> knight_path(table.w(), (#[trigger] r@[i]).frames_sq()),
        forall|i: int|
            0 <= i < r@.len() ==> exists|k: int|
                0 <= k < states@.len() && (#[trigger] r@[i]).start == states@[k].start,
        distinct_paths(r@),
        sum_counts(r@, table.w(), false) == sum_counts(states@, table.w(), false),
        sum_counts(r@, table.w(), true) == sum_counts(states@, table.w(), true),
        forall|d: nat|
            #[trigger] sum_paths(r@, table.w(), d) == sum_paths(states@, table.w(), d + 1),
{
    let ghost w = table.w();
    let mut out: Vec<SearchData> = Vec::new();
    let mut i: usize = 0;
    while i < states.len()
        invariant
            table.wf(),
            w == table.w(),
            forall|k: int| 0 <= k < states@.len() ==> (#[trigger] states@[k]).inv(table.w()),
            forall|k: int| 0 <= k < states@.len() ==> (#[trigger] states@[k]).sp == depth,
            forall|k: int| 0 <= k < states@.len() ==> (#[trigger] states@[k]).top_ix() == 0,
            forall|k: int| 0 <= k < states@.len() ==> (#[trigger] states@[k]).open_count == 0,
            forall|k: int| 0 <= k < states@.len() ==> (#[trigger] states@[k]).closed_count == 0,
            forall|k: int|
                0 <= k < states@.len() ==> knight_path(w, (#[trigger] states@[k]).frames_sq()),
            distinct_paths(states@),
            distinct_paths(out@),
            forall|k: int|
                0 <= k < out@.len() ==> exists|q: int|
                    0 <= q < i as int && (#[trigger] out@[k]).frames_sq().drop_last()
                        == states@[q].frames_sq(),
            depth as int + 2 <= table.size as int,
            i <= states@.len(),
            forall|k: int| 0 <= k < out@.len() ==> (#[trigger] out@[k]).inv(table.w()),
            forall|k: int| 0 <= k < out@.len() ==> (#[trigger] out@[k]).sp == depth + 1,
            forall|k: int| 0 <= k < out@.len() ==> (#[trigger] out@[k]).top_ix() == 0,
            forall|k: int| 0 <= k < out@.len() ==> (#[trigger] out@[k]).open_count == 0,
            forall|k: int| 0 <= k < out@.len() ==> (#[trigger] out@[k]).closed_count == 0,
            forall|k: int|
                0 <= k < out@.len() ==> knight_path(w, (#[trigger] out@[k]).frames_sq()),
            forall|k: int|
                0 <= k < out@.len() ==> exists|kk: int|
                    0 <= kk < states@.len() && (#[trigger] out@[k]).start == states@[kk].start,
            sum_counts(out@, w, false) == sum_counts(states@.take(i as int), w, false),
            sum_counts(out@, w, true) == sum_counts(states@.take(i as int), w, true),
            forall|d: nat|
                #[trigger] sum_paths(out@, w, d) == sum_paths(states@.take(i as int), w, d + 1),
        decreases states@.len() - i,
    {
        let sd = &states[i];
        let pos = sd.stack_sq[sd.sp];
        let ghost v = sd.visited@;
        let ghost p = pos as int;
        let ghost si = sd.start as int;
        proof {
            // The state's own terminal check contributes nothing: the board
            // cannot be fully visited at this depth.
            if crate::count::all_visited(v) {
                lemma_all_visited_num(v);
            }
            assert(crate::count::terminal_count(w, si, v, p, false) == 0);
            assert(crate::count::terminal_count(w, si, v, p, true) == 0);
            assert(state_count(states@[i as int], w, false) == tour_count_from(w, si, v, p, 0, false));
            assert(state_count(states@[i as int], w, true) == tour_count_from(w, si, v, p, 0, true));
        }
        let ghost mark = out@.len() as int;
        let mut j: u8 = 0;
        while j < 8
            invariant
                table.wf(),
                w == table.w(),
                sd == states@[i as int],
                (i as int) < states@.len(),
                sd.inv(w),
                sd.sp == depth,
                sd.top_ix() == 0,
                sd.open_count == 0,
                sd.closed_count == 0,
                knight_path(w, sd.frames_sq()),
                depth as int + 2 <= table.size as int,
                v == sd.visited@,
                p == pos as int,
                p == sd.top_sq(),
                si == sd.start as int,
                pos < table.size,
                j <= 8,
                forall|k: int| 0 <= k < out@.len() ==> (#[trigger] out@[k]).inv(table.w()),
                forall|k: int| 0 <= k < out@.len() ==> (#[trigger] out@[k]).sp == depth + 1,
                forall|k: int| 0 <= k < out@.len() ==> (#[trigger] out@[k]).top_ix() == 0,
                forall|k: int| 0 <= k < out@.len() ==> (#[trigger] out@[k]).open_count == 0,
                forall|k: int| 0 <= k < out@.len() ==> (#[trigger] out@[k]).closed_count == 0,
                forall|k: int|
                    0 <= k < out@.len() ==> knight_path(w, (#[trigger] out@[k]).frames_sq()),
                forall|k: int|
                    0 <= k < out@.len() ==> exists|kk: int|
                        0 <= kk < states@.len() && (#[trigger] out@[k]).start == states@[kk].start,
                distinct_paths(states@),
                distinct_paths(out@),
                0 <= mark <= out@.len(),
                forall|k: int|
                    0 <= k < mark ==> exists|q: int|
                        0 <= q < i as int && (#[trigger] out@[k]).frames_sq().drop_last()
                            == states@[q].frames_sq(),
                forall|k: int|
                    mark <= k < out@.len() ==> (#[trigger] out@[k]).frames_sq().drop_last()
                        == states@[i as int].frames_sq(),
                forall|k: int|
                    mark <= k < out@.len() ==> exists|jj: int|
                        0 <= jj < j as int && spec_jump(w, p, jj) != SENTINEL as int
                            && ((#[trigger] out@[k]).frames_sq().last() as int) == spec_jump(
                            w,
                            p,
                            jj,
                        ),
                sum_counts(out@, w, false) + tour_count_from(w, si, v, p, j as int, false)
                    == sum_counts(states@.take(i as int), w, false) + tour_count_from(
                    w, si, v, p, 0, false),
                sum_counts(out@, w, true) + tour_count_from(w, si, v, p, j as int, true)
                    == sum_counts(states@.take(i as int), w, true) + tour_count_from(
                    w, si, v, p, 0, true),
                forall|d: nat|
                    #[trigger] sum_paths(out@, w, d) + path_count_from(w, v, p, j as int, d + 1)
                        == sum_paths(states@.take(i as int), w, d + 1) + path_count_from(
                        w, v, p, 0, d + 1),
            decreases 8 - j,
        {
            let t = table.jump_at(pos, j);
            if t != SENTINEL && !sd.visited[t as usize] {
                let mut child_visited = copy_vec_bool(&sd.visited);
                child_visited.set(t as usize, true);
                let mut child_sq = copy_vec_u8(&sd.stack_sq);
                child_sq.set(sd.sp + 1, t);
                let mut child_ix = copy_vec_u8(&sd.stack_ix);
                child_ix.set(sd.sp + 1, 0);
                let child = SearchData {
                    visited: child_visited,
                    stack_sq: child_sq,
                    stack_ix: child_ix,
                    sp: sd.sp + 1,
                    start: sd.start,
                    open_count: 0,
                    closed_count: 0,
                };
                proof {
                    lemma_extend_inv(*sd, child, w, t);
                    assert(sd.frames_sq().last() == pos);
                    lemma_knight_path_push(w, sd.frames_sq(), t, j as int);
                    assert(child.start == states@[i as int].start);
                    // The new path collides with no earlier one: children of
                    // earlier parents differ in their prefix, earlier
                    // children of this parent in their final square.
                    assert(child.frames_sq().drop_last() =~= sd.frames_sq());
                    assert(child.frames_sq().last() == t);
                    assert forall|k: int| 0 <= k < out@.len() implies (#[trigger] out@[k]).frames_sq()
                        != child.frames_sq() by {
                        if k < mark {
                            let q = choose|q: int|
                                0 <= q < i as int && out@[k].frames_sq().drop_last()
                                    == states@[q].frames_sq();
                            assert(states@[q].frames_sq() != states@[i as int].frames_sq());
                            if out@[k].frames_sq() == child.frames_sq() {
                                assert(out@[k].frames_sq().drop_last()
                                    == child.frames_sq().drop_last());
                                assert(false);
                            }
                        } else {
                            let jj = choose|jj: int|
                                0 <= jj < j as int && spec_jump(w, p, jj) != SENTINEL as int && (
                                out@[k].frames_sq().last() as int) == spec_jump(w, p, jj);
                            lemma_spec_jump_injective(w, p, jj, j as int);
                            if out@[k].frames_sq() == child.frames_sq() {
                                assert(out@[k].frames_sq().last() == child.frames_sq().last());
                                assert(false);
                            }
                        }
                    }
                    lemma_sum_counts_push(out@, w, false, child);
                    lemma_sum_counts_push(out@, w, true, child);
                    assert(state_count(child, w, false) == tour_count(w, si, v.update(t as int, true),
                        t as int, false));
                    assert(state_count(child, w, true) == tour_count(w, si, v.update(t as int, true),
                        t as int, true));
                    assert(tour_count_from(w, si, v, p, j as int, false) == tour_count(w, si,
                        v.update(t as int, true), t as int, false) + tour_count_from(w, si, v, p,
                        j as int + 1, false));
                    assert(tour_count_from(w, si, v, p, j as int, true) == tour_count(w, si,
                        v.update(t as int, true), t as int, true) + tour_count_from(w, si, v, p,
                        j as int + 1, true));
                    assert forall|d: nat|
                        #[trigger] sum_paths(out@.push(child), w, d) + path_count_from(
                            w, v, p, j as int + 1, d + 1) == sum_paths(
                            states@.take(i as int), w, d + 1) + path_count_from(
                            w, v, p, 0, d + 1) by {
                        lemma_sum_paths_push(out@, w, d, child);
                        assert(state_paths(child, w, d) == path_count(w, v.update(t as int, true),
                            t as int, d));
                        assert(path_count_from(w, v, p, j as int, d + 1) == path_count(w, v.update(
                            t as int, true), t as int, d) + path_count_from(w, v, p, j as int + 1,
                            d + 1));
                    }
                }
                out.push(child);
            } else {
                proof {
                    let tt = spec_jump(w, p, j as int);
                    assert(tt == SENTINEL as int || !(0 <= tt < v.len()) || v[tt]);
                    assert(tour_count_from(w, si, v, p, j as int, false) == tour_count_from(
                        w, si, v, p, j as int + 1, false));
                    assert(tour_count_from(w, si, v, p, j as int, true) == tour_count_from(
                        w, si, v, p, j as int + 1, true));
                    assert forall|d: nat|
                        #[trigger] path_count_from(w, v, p, j as int, d + 1) == path_count_from(
                            w, v, p, j as int + 1, d + 1) by {
                    }
                }
            }
            j = j + 1;
        }
        proof {
            assert(tour_count_from(w, si, v, p, 8, false) == 0);
            assert(tour_count_from(w, si, v, p, 8, true) == 0);
            lemma_sum_counts_take(states@, w, false, i as int);
            lemma_sum_counts_take(states@, w, true, i as int);
            assert forall|d: nat|
                #[trigger] sum_paths(out@, w, d) == sum_paths(states@.take(i as int + 1), w, d + 1) by {
                assert(path_count_from(w, v, p, 8, d + 1) == 0);
                lemma_sum_paths_take(states@, w, d + 1, i as int);
                assert(state_paths(states@[i as int], w, d + 1) == path_count_from(w, v, p, 0, d + 1));
            }
            assert forall|k: int| 0 <= k < out@.len() implies exists|q: int|
                0 <= q < i as int + 1 && (#[trigger] out@[k]).frames_sq().drop_last()
                    == states@[q].frames_sq() by {
                if k < mark {
                    let q = choose|q: int|
                        0 <= q < i as int && out@[k].frames_sq().drop_last()
                            == states@[q].frames_sq();
                    assert(0 <= q < i as int + 1 && out@[k].frames_sq().drop_last()
                        == states@[q].frames_sq());
                } else {
                    assert(out@[k].frames_sq().drop_last() == states@[i as int].frames_sq());
                }
            }
        }
        i = i + 1;
    }
    proof {
        assert(states@.take(states@.len() as int) =~= states@);
    }
    out
}

/// Expand the search rooted at `start` to `depth` rounds: the resulting
/// collection of independent states owes, between them, exactly the tours of
/// the root search.
pub fn expand_frontier(table: &JumpTable, start: u8, depth: usize) -> (r: Vec<SearchData>)
    requires
        table.wf(),
        start < table.size,
        depth as int + 1 <= table.size as int,
    ensures
        forall|i: int| 0 <= i < r@.len() ==> (#[trigger] r@[i]).inv(table.w()),
        forall|i: int| 0 <= i < r@.len() ==> (#[trigger] r@[i]).sp == depth,
        forall|i: int| 0 <= i < r@.len() ==> (#[trigger] r@[i]).top_ix() == 0,
        forall|i: int| 0 <= i < r@.len() ==> (#[trigger] r@[i]).open_count == 0,
        forall|i: int| 0 <= i < r@.len() ==> (#[trigger] r@[i]).closed_count == 0,
        forall|i: int|
            0 <= i < r@.len() ==> knight_path(table.w(), (#[trigger] r@[i]).frames_sq()),
        forall|i: int| 0 <= i < r@.len() ==> (#[trigger] r@[i]).start == start,
        distinct_paths(r@),
        r@.len() == path_count(
            table.w(),
            init_visited(table.size as int, start as int),
            start as int,
            depth as nat,
        ),
        sum_counts(r@, table.w(), false) == tour_count(
            table.w(),
            start as int,
            init_visited(table.size as int, start as int),
            start as int,
            false,
        ),
        sum_counts(r@, table.w(), true) == tour_count(
            table.w(),
            start as int,
            init_visited(table.size as int, start as int),
            start as int,
            true,
        ),
{
    let ghost w = table.w();
    let root = SearchData::new_root(table.width, table.size, start);
    let mut states: Vec<SearchData> = Vec::new();
    proof {
        assert(state_count(root, w, false) == tour_count(w, start as int, init_visited(
            table.size as int, start as int), start as int, false));
    }
    states.push(root);
    proof {
        assert(states@.drop_last() =~= Seq::<SearchData>::empty());
        assert(sum_counts(states@.drop_last(), w, false) == 0);
        assert(sum_counts(states@.drop_last(), w, true) == 0);
        assert forall|rem: nat|
            #[trigger] sum_paths(states@, w, rem) == path_count(w, init_visited(
                table.size as int, start as int), start as int, rem) by {
            assert(sum_paths(states@.drop_last(), w, rem) == 0);
            assert(states@.last() == root);
            assert(state_paths(root, w, rem) == path_count(w, init_visited(table.size as int,
                start as int), start as int, rem));
        }
    }
    let mut d: usize = 0;
    while d < depth
        invariant
            table.wf(),
            w == table.w(),
            start < table.size,
            depth as int + 1 <= table.size as int,
            d <= depth,
            forall|i: int| 0 <= i < states@.len() ==> (#[trigger] states@[i]).inv(table.w()),
            forall|i: int| 0 <= i < states@.len() ==> (#[trigger] states@[i]).sp == d,
            forall|i: int| 0 <= i < states@.len() ==> (#[trigger] states@[i]).top_ix() == 0,
            forall|i: int| 0 <= i < states@.len() ==> (#[trigger] states@[i]).open_count == 0,
            forall|i: int| 0 <= i < states@.len() ==> (#[trigger] states@[i]).closed_count == 0,
            forall|i: int|
                0 <= i < states@.len() ==> knight_path(w, (#[trigger] states@[i]).frames_sq()),
            forall|i: int| 0 <= i < states@.len() ==> (#[trigger] states@[i]).start == start,
            distinct_paths(states@),
            forall|rem: nat|
                #[trigger] sum_paths(states@, w, rem) == path_count(w, init_visited(
                    table.size as int, start as int), start as int, rem + d as nat),
            sum_counts(states@, w, false) == tour_count(w, start as int, init_visited(
                table.size as int, start as int), start as int, false),
            sum_counts(states@, w, true) == tour_count(w, start as int, init_visited(
                table.size as int, start as int), start as int, true),
        decreases depth - d,
    {
        states = expand_round(table, &states, d);
        d = d + 1;
    }
    proof {
        lemma_sum_paths_zero(states@, w);
        assert(sum_paths(states@, w, 0) == path_count(w, init_visited(table.size as int,
            start as int), start as int, 0 + depth as nat));
    }
    states
}

} // verus!
