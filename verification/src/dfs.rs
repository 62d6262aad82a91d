//! The DFS engine: an iterative backtracking traversal over one
//! `SearchData`, driven by the move table.
//!
//! Each step reads the top stack frame (square, next candidate index). When
//! candidates remain, the index is stepped and the candidate entered if it
//! is on the board and not yet visited. When all eight are exhausted, the
//! terminal condition is evaluated — a fully visited board counts as an open
//! tour, and as a directed closed tour when the final square can jump back
//! to the start — and the frame is popped; popping past the frame that was
//! on top at entry ends the run. The counters are exact: the run adds
//! precisely `tour_count` of the entry state to each.

use vstd::prelude::*;
use crate::Error;
use crate::count::{
    all_visited, can_return, frame_pend, lemma_num_unvisited_update, terminal_count, tour_count,
    tour_count_from,
};
use crate::jumps::{spec_jump, JumpTable, SENTINEL};
use crate::state::{
    lemma_pending_push, lemma_pending_skip, lemma_potential_pop, lemma_potential_push,
    lemma_potential_step, lemma_pow10_pos, pending, potential, SearchData,
};

verus! {

/// Whether every board square is on the current path.
fn check_all_visited(v: &Vec<bool>) -> (r: bool)
    ensures
        r == all_visited(v@),
{
    let mut i: usize = 0;
    while i < v.len()
        invariant
            i <= v@.len(),
            forall|k: int| 0 <= k < i as int ==> v@[k],
        decreases v@.len() - i,
    {
        if !v[i] {
            return false;
        }
        i = i + 1;
    }
    true
}

/// Whether some knight move from `pos` lands on `start`.
fn check_can_return(table: &JumpTable, pos: u8, start: u8) -> (r: bool)
    requires
        table.wf(),
        pos < table.size,
        start < table.size,
    ensures
        r == can_return(table.w(), pos as int, start as int),
{
    let mut j: u8 = 0;
    while j < 8
        invariant
            table.wf(),
            pos < table.size,
            start < table.size,
            j <= 8,
            forall|jj: int| 0 <= jj < j as int ==> spec_jump(table.w(), pos as int, jj) != start as int,
        decreases 8 - j,
    {
        let t = table.jump_at(pos, j);
        if t == start {
            proof {
                assert(spec_jump(table.w(), pos as int, j as int) == start as int);
            }
            return true;
        }
        j = j + 1;
    }
    false
}

/// Run the backtracking search of `sd` to completion.
///
/// The engine treats the entry stack depth as its root: it explores every
/// extension of the path recorded there and unwinds no further. On success
/// the counters have grown by exactly the number of open and directed closed
/// tours extending the entry path, the stack pointer and the visited-set are
/// back to their entry values, and only the entries of the top frame's
/// candidate index (and the scratch space above the stack pointer) have
/// changed. The run fails — with no other effect promised — exactly when a
/// counter would have to exceed its range.
#[verifier::rlimit(60)]
pub fn dfs(table: &JumpTable, sd: &mut SearchData) -> (r: Result<(), Error>)
    requires
        table.wf(),
        old(sd).inv(table.w()),
        old(sd).top_ix() == 0,
    ensures
        final(sd).start == old(sd).start,
        r is Ok <==> (old(sd).open_count + tour_count(
            table.w(),
            old(sd).start as int,
            old(sd).visited@,
            old(sd).top_sq(),
            false,
        ) <= u128::MAX && old(sd).closed_count + tour_count(
            table.w(),
            old(sd).start as int,
            old(sd).visited@,
            old(sd).top_sq(),
            true,
        ) <= u128::MAX),
        r is Ok ==> {
            &&& final(sd).inv(table.w())
            &&& final(sd).sp == old(sd).sp
            &&& final(sd).visited@ == old(sd).visited@
            &&& final(sd).open_count == old(sd).open_count + tour_count(
                table.w(),
                old(sd).start as int,
                old(sd).visited@,
                old(sd).top_sq(),
                false,
            )
            &&& final(sd).closed_count == old(sd).closed_count + tour_count(
                table.w(),
                old(sd).start as int,
                old(sd).visited@,
                old(sd).top_sq(),
                true,
            )
        },
        r is Err ==> r == Result::<(), Error>::Err(Error::CounterOverflow),
{
    let ghost w = table.w();
    let ghost s = old(sd).start as int;
    let ghost size_g = old(sd).visited@.len() as nat;
    let ghost root = old(sd).sp as int;
    let ghost v0 = old(sd).visited@;
    let ghost p0 = old(sd).top_sq();
    let ghost t_open = tour_count(w, s, v0, p0, false);
    let ghost t_closed = tour_count(w, s, v0, p0, true);
    let root_sp = sd.sp;
    proof {
        // The initial pending work is exactly tour_count of the entry state.
        assert(sd.frames_sq().len() == root + 1);
        assert(sd.frames_sq().last() as int == p0);
        assert(sd.frames_ix().last() == 0);
        assert(sd.frames_sq().drop_last().len() == root);
        assert(pending(w, s, sd.frames_sq().drop_last(), sd.frames_ix().drop_last(), v0.update(
            p0, false), root, false) == 0);
        assert(pending(w, s, sd.frames_sq().drop_last(), sd.frames_ix().drop_last(), v0.update(
            p0, false), root, true) == 0);
        assert(pending(w, s, sd.frames_sq(), sd.frames_ix(), v0, root, false) == frame_pend(
            w, s, v0, p0, 0, false));
        assert(pending(w, s, sd.frames_sq(), sd.frames_ix(), v0, root, true) == frame_pend(
            w, s, v0, p0, 0, true));
        assert(frame_pend(w, s, v0, p0, 0, false) == t_open);
        assert(frame_pend(w, s, v0, p0, 0, true) == t_closed);
    }
    loop
        invariant_except_break
            table.wf(),
            sd.inv(w),
            w == table.w(),
            size_g == sd.visited@.len(),
            sd.start == old(sd).start,
            root == root_sp as int,
            root_sp <= sd.sp,
            old(sd).inv(w),
            root == old(sd).sp as int,
            s == old(sd).start as int,
            v0 == old(sd).visited@,
            p0 == old(sd).top_sq(),
            t_open == tour_count(w, s, v0, p0, false),
            t_closed == tour_count(w, s, v0, p0, true),
            sd.stack_sq@.take(root + 1) == old(sd).stack_sq@.take(root + 1),
            sd.open_count + pending(w, s, sd.frames_sq(), sd.frames_ix(), sd.visited@, root, false)
                == old(sd).open_count + t_open,
            sd.closed_count + pending(w, s, sd.frames_sq(), sd.frames_ix(), sd.visited@, root, true)
                == old(sd).closed_count + t_closed,
        ensures
            sd.inv(w),
            sd.sp == root_sp,
            sd.start == old(sd).start,
            sd.visited@ == old(sd).visited@,
            sd.open_count == old(sd).open_count + t_open,
            sd.closed_count == old(sd).closed_count + t_closed,
        decreases potential(sd.frames_ix(), size_g),
    {
        let pos = sd.stack_sq[sd.sp];
        let ix = sd.stack_ix[sd.sp];
        let ghost sd0 = *sd;
        let ghost fs = sd.frames_sq();
        let ghost fx = sd.frames_ix();
        let ghost v = sd.visited@;
        proof {
            assert(fs.last() == pos && fx.last() == ix);
        }
        if ix > 7 {
            // All candidates from pos are exhausted: evaluate the terminal
            // condition, then backtrack.
            proof {
                assert(ix == 8);
                assert(tour_count_from(w, s, v, pos as int, 8, false) == 0);
                assert(tour_count_from(w, s, v, pos as int, 8, true) == 0);
                assert(pending(w, s, fs, fx, v, root, false) == frame_pend(w, s, v, pos as int, 8, false)
                    + pending(w, s, fs.drop_last(), fx.drop_last(), v.update(pos as int, false), root, false));
                assert(pending(w, s, fs, fx, v, root, true) == frame_pend(w, s, v, pos as int, 8, true)
                    + pending(w, s, fs.drop_last(), fx.drop_last(), v.update(pos as int, false), root, true));
            }
            let all = check_all_visited(&sd.visited);
            let can = check_can_return(table, pos, sd.start);
            proof {
                assert(frame_pend(w, s, v, pos as int, 8, false) == terminal_count(w, s, v, pos as int, false));
                assert(frame_pend(w, s, v, pos as int, 8, true) == terminal_count(w, s, v, pos as int, true));
            }
            if all {
                if sd.open_count == u128::MAX {
                    proof {
                        assert(terminal_count(w, s, v, pos as int, false) == 1);
                        assert(pending(w, s, fs, fx, v, root, false) >= 1);
                    }
                    return Err(Error::CounterOverflow);
                }
                sd.open_count = sd.open_count + 1;
                if can {
                    if sd.closed_count == u128::MAX {
                        proof {
                            assert(terminal_count(w, s, v, pos as int, true) == 1);
                        }
                        return Err(Error::CounterOverflow);
                    }
                    sd.closed_count = sd.closed_count + 1;
                }
            }
            if sd.sp == root_sp {
                proof {
                    assert(fs.drop_last().len() <= root);
                    assert(pending(w, s, fs.drop_last(), fx.drop_last(), v.update(pos as int, false), root, false) == 0);
                    assert(pending(w, s, fs.drop_last(), fx.drop_last(), v.update(pos as int, false), root, true) == 0);
                    // The stack prefix is back to its entry value, so the
                    // visited-set is too.
                    assert forall|sq: int| 0 <= sq < sd0.size() implies sd0.visited@[sq]
                        == old(sd).visited@[sq] by {
                        assert(old(sd).inv(w));
                        assert(old(sd).stack_sq@.len() == old(sd).size());
                        assert forall|k: int|
                            0 <= k < root + 1 implies #[trigger] sd0.stack_sq@[k]
                                == old(sd).stack_sq@[k] by {
                            assert(sd0.stack_sq@.take(root + 1)[k] == old(sd).stack_sq@.take(
                                root + 1)[k]);
                        }
                        if sd0.visited@[sq] {
                            let k = choose|k: int|
                                0 <= k <= sd0.sp as int && #[trigger] sd0.stack_sq@[k] as int == sq;
                            assert(old(sd).stack_sq@[k] as int == sq);
                            assert(old(sd).on_stack(sq));
                        }
                        if old(sd).visited@[sq] {
                            let k = choose|k: int|
                                0 <= k <= old(sd).sp as int && #[trigger] old(sd).stack_sq@[k] as int
                                    == sq;
                            assert(sd0.stack_sq@[k] as int == sq);
                            assert(sd0.on_stack(sq));
                        }
                    }
                    assert(sd.visited@ =~= old(sd).visited@);
                }
                break;
            }
            // Unwind one frame.
            let ghost vb = sd.visited@;
            proof {
                assert(sd.on_stack(pos as int));
                assert(vb[pos as int]);
                assert(vb.update(pos as int, false).update(pos as int, true) =~= vb);
                lemma_num_unvisited_update(vb.update(pos as int, false), pos as int);
            }
            sd.visited.set(pos as usize, false);
            sd.sp = sd.sp - 1;
            proof {
                assert(sd.frames_sq() =~= fs.drop_last());
                assert(sd.frames_ix() =~= fx.drop_last());
                assert(sd.stack_sq@.take(root + 1) =~= old(sd).stack_sq@.take(root + 1));
                // Well-formedness after the pop: the popped square leaves the
                // visited-set, everything else stays.
                assert forall|sq: int| 0 <= sq < sd.size() implies (#[trigger] sd.visited@[sq]
                    <==> sd.on_stack(sq)) by {
                    if sq == pos as int {
                        assert(!sd.visited@[sq]);
                        if sd.on_stack(sq) {
                            let k = choose|k: int|
                                0 <= k <= sd.sp as int && #[trigger] sd.stack_sq@[k] as int == sq;
                            assert(sd0.stack_sq@[k] as int == sq);
                            assert(sd0.stack_sq@[fs.len() - 1] as int == sq);
                            assert(false);
                        }
                    } else {
                        assert(sd.visited@[sq] == vb[sq]);
                        if vb[sq] {
                            assert(sd0.on_stack(sq));
                            let k = choose|k: int|
                                0 <= k <= sd0.sp as int && #[trigger] sd0.stack_sq@[k] as int == sq;
                            assert(k != fs.len() - 1);
                            assert(sd.stack_sq@[k] as int == sq);
                            assert(sd.on_stack(sq));
                        }
                        if sd.on_stack(sq) {
                            let k = choose|k: int|
                                0 <= k <= sd.sp as int && #[trigger] sd.stack_sq@[k] as int == sq;
                            assert(sd0.stack_sq@[k] as int == sq);
                            assert(sd0.on_stack(sq));
                            assert(vb[sq]);
                        }
                    }
                }
                lemma_potential_pop(fx, size_g);
                lemma_pow10_pos((size_g - fx.len()) as nat);
            }
        } else {
            // Step the candidate index, then enter the candidate if it is on
            // the board and free.
            sd.stack_ix.set(sd.sp, ix + 1);
            let t = table.jump_at(pos, ix);
            proof {
                assert(sd.frames_ix() =~= fx.update(fx.len() - 1, (ix + 1) as u8));
                assert(sd.stack_sq@.take(root + 1) == old(sd).stack_sq@.take(root + 1));
            }
            if t != SENTINEL && !sd.visited[t as usize] {
                let ghost vb = sd.visited@;
                proof {
                    lemma_num_unvisited_update(vb, t as int);
                    assert(sd.sp + 1 < sd.size());
                    lemma_pending_push(w, s, fs, fx, vb, root, false, t);
                    lemma_pending_push(w, s, fs, fx, vb, root, true, t);
                    lemma_potential_push(fx, size_g);
                    lemma_pow10_pos((size_g - fx.len() - 1) as nat);
                }
                sd.visited.set(t as usize, true);
                sd.sp = sd.sp + 1;
                sd.stack_sq.set(sd.sp, t);
                sd.stack_ix.set(sd.sp, 0);
                proof {
                    assert(sd.frames_sq() =~= fs.push(t));
                    assert(sd.frames_ix() =~= fx.update(fx.len() - 1, (ix + 1) as u8).push(0));
                    assert(sd.stack_sq@.take(root + 1) =~= old(sd).stack_sq@.take(root + 1));
                    // Well-formedness after the push: the entered square was
                    // not on the stack, so distinctness and the visited
                    // correspondence extend to the new frame.
                    assert forall|sq: int| 0 <= sq < sd.size() implies (#[trigger] sd.visited@[sq]
                        <==> sd.on_stack(sq)) by {
                        if sq == t as int {
                            assert(sd.stack_sq@[sd.sp as int] as int == sq);
                        } else {
                            if vb[sq] {
                                assert(sd0.on_stack(sq));
                                let k = choose|k: int|
                                    0 <= k <= sd0.sp as int && #[trigger] sd0.stack_sq@[k] as int == sq;
                                assert(sd.stack_sq@[k] as int == sq);
                                assert(sd.on_stack(sq));
                            }
                            if sd.on_stack(sq) {
                                let k = choose|k: int|
                                    0 <= k <= sd.sp as int && #[trigger] sd.stack_sq@[k] as int == sq;
                                assert(k < fs.len());
                                assert(sd0.stack_sq@[k] as int == sq);
                                assert(sd0.on_stack(sq));
                                assert(vb[sq]);
                            }
                        }
                    }
                    assert forall|k1: int, k2: int| 0 <= k1 < k2 <= sd.sp as int implies
                        #[trigger] sd.stack_sq@[k1] != #[trigger] sd.stack_sq@[k2] by {
                        if k2 == sd.sp as int {
                            assert(sd.stack_sq@[k2] == t);
                            assert(sd.stack_sq@[k1] == sd0.stack_sq@[k1]);
                            assert(sd0.on_stack(sd0.stack_sq@[k1] as int));
                            assert(vb[sd0.stack_sq@[k1] as int]);
                        }
                    }
                }
            } else {
                proof {
                    let tt = spec_jump(w, pos as int, ix as int);
                    assert(tt == SENTINEL as int || !(0 <= tt < v.len()) || v[tt]);
                    lemma_pending_skip(w, s, fs, fx, v, root, false);
                    lemma_pending_skip(w, s, fs, fx, v, root, true);
                    lemma_potential_step(fx, size_g);
                    lemma_pow10_pos((size_g - fx.len()) as nat);
                }
            }
        }
    }
    Ok(())
}

} // verus!
