//! The mathematical model of the search: how many tours extend a given
//! partial path.
//!
//! `tour_count` counts, for a board state `v` (the squares on the current
//! path) and current square `pos`, the tours reachable by extending that
//! path: a completion counts once when every square is visited (an open
//! tour), and for the closed variant only when the final square can also
//! jump back to the start. The DFS engine's contract is stated against these
//! functions.

use vstd::prelude::*;
use crate::jumps::{spec_jump, SENTINEL};

verus! {

/// Every square is on the path.
pub open spec fn all_visited(v: Seq<bool>) -> bool {
    forall|i: int| 0 <= i < v.len() ==> v[i]
}

/// Some knight move from `pos` lands on `start`.
pub open spec fn can_return(w: int, pos: int, start: int) -> bool {
    exists|j: int| 0 <= j < 8 && spec_jump(w, pos, j) == start
}

/// The number of squares not yet on the path.
pub open spec fn num_unvisited(v: Seq<bool>) -> nat
    decreases v.len(),
{
    if v.len() == 0 {
        0
    } else {
        num_unvisited(v.drop_last()) + (if v.last() {
            0nat
        } else {
            1nat
        })
    }
}

/// Whether the path ending at `pos` is itself a complete tour: 1 when every
/// square is visited (and, for the closed count, `pos` can jump back to
/// `start`), else 0.
pub open spec fn terminal_count(w: int, start: int, v: Seq<bool>, pos: int, closed: bool) -> nat {
    if all_visited(v) && (!closed || can_return(w, pos, start)) {
        1
    } else {
        0
    }
}

/// Tours that extend the path ending at `pos`, the path itself included.
pub open spec fn tour_count(w: int, start: int, v: Seq<bool>, pos: int, closed: bool) -> nat
    decreases num_unvisited(v), 9int,
{
    terminal_count(w, start, v, pos, closed) + tour_count_from(w, start, v, pos, 0, closed)
}

/// Tours that extend the path ending at `pos` through a candidate move with
/// index `j` or later; the path itself is not counted here.
pub open spec fn tour_count_from(
    w: int,
    start: int,
    v: Seq<bool>,
    pos: int,
    j: int,
    closed: bool,
) -> nat
    decreases num_unvisited(v), 8 - j,
    via tour_count_from_decreases
{
    if j >= 8 {
        0
    } else {
        let t = spec_jump(w, pos, j);
        (if t != SENTINEL as int && 0 <= t < v.len() && !v[t] {
            tour_count(w, start, v.update(t, true), t, closed)
        } else {
            0nat
        }) + tour_count_from(w, start, v, pos, j + 1, closed)
    }
}

#[via_fn]
proof fn tour_count_from_decreases(w: int, start: int, v: Seq<bool>, pos: int, j: int, closed: bool) {
    if j < 8 {
        let t = spec_jump(w, pos, j);
        if t != SENTINEL as int && 0 <= t < v.len() && !v[t] {
            lemma_num_unvisited_update(v, t);
        }
    }
}

/// The number of simple paths that extend the path ending at `pos` by
/// exactly `d` further knight moves.
pub open spec fn path_count(w: int, v: Seq<bool>, pos: int, d: nat) -> nat
    decreases d, 9int,
{
    if d == 0 {
        1
    } else {
        path_count_from(w, v, pos, 0, d)
    }
}

/// As `path_count` for positive `d`, restricted to extensions through a
/// candidate move with index `j` or later.
pub open spec fn path_count_from(w: int, v: Seq<bool>, pos: int, j: int, d: nat) -> nat
    decreases d, 8 - j,
{
    if j >= 8 || d == 0 {
        0
    } else {
        let t = spec_jump(w, pos, j);
        (if t != SENTINEL as int && 0 <= t < v.len() && !v[t] {
            path_count(w, v.update(t, true), t, (d - 1) as nat)
        } else {
            0nat
        }) + path_count_from(w, v, pos, j + 1, d)
    }
}

/// What one stack frame still owes: the completions through its untried
/// candidates (index `ix` on) plus its own terminal check.
pub open spec fn frame_pend(w: int, start: int, v: Seq<bool>, p: int, ix: int, closed: bool) -> nat {
    terminal_count(w, start, v, p, closed) + tour_count_from(w, start, v, p, ix, closed)
}

/// Marking one unvisited square visited lowers the unvisited count by one.
pub proof fn lemma_num_unvisited_update(v: Seq<bool>, t: int)
    requires
        0 <= t < v.len(),
        !v[t],
    ensures
        num_unvisited(v.update(t, true)) + 1 == num_unvisited(v),
    decreases v.len(),
{
    let v2 = v.update(t, true);
    if t == v.len() - 1 {
        assert(v2.drop_last() =~= v.drop_last());
    } else {
        assert(v2.drop_last() =~= v.drop_last().update(t, true));
        assert(v2.last() == v.last());
        lemma_num_unvisited_update(v.drop_last(), t);
    }
}

/// On a fully visited board nothing is unvisited.
pub proof fn lemma_all_visited_num(v: Seq<bool>)
    requires
        all_visited(v),
    ensures
        num_unvisited(v) == 0,
    decreases v.len(),
{
    if v.len() > 0 {
        assert(forall|i: int| 0 <= i < v.drop_last().len() ==> v.drop_last()[i] == v[i]);
        lemma_all_visited_num(v.drop_last());
    }
}

/// A path can be completed to a closed tour in at most as many ways as to an
/// open tour: the closed condition strengthens the open one.
pub proof fn lemma_closed_le_open(w: int, start: int, v: Seq<bool>, pos: int)
    ensures
        tour_count(w, start, v, pos, true) <= tour_count(w, start, v, pos, false),
    decreases num_unvisited(v), 9int,
{
    lemma_closed_le_open_from(w, start, v, pos, 0);
}

/// As `lemma_closed_le_open`, for the counts from candidate index `j` on.
pub proof fn lemma_closed_le_open_from(w: int, start: int, v: Seq<bool>, pos: int, j: int)
    requires
        0 <= j <= 8,
    ensures
        tour_count_from(w, start, v, pos, j, true) <= tour_count_from(w, start, v, pos, j, false),
    decreases num_unvisited(v), 8 - j,
{
    if j < 8 {
        let t = spec_jump(w, pos, j);
        if t != SENTINEL as int && 0 <= t < v.len() && !v[t] {
            lemma_num_unvisited_update(v, t);
            lemma_closed_le_open(w, start, v.update(t, true), t);
        }
        lemma_closed_le_open_from(w, start, v, pos, j + 1);
    }
}

} // verus!
