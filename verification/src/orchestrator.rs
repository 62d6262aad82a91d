//! The orchestrator: select a distribution mode, run the search units, and
//! reduce their counters.
//!
//! Mode A runs one independent search per starting square and sums the
//! counters board-wide. Mode B fixes one start square, splits its search by
//! frontier expansion, and sums over the resulting units; its open count is
//! scoped to that start and is not comparable with mode A's board-wide
//! total. Both report the directed closed count and its half, the undirected
//! count. The reduction is a plain sum of per-unit counters, so the totals
//! are pinned by the contracts to pure functions of the configuration —
//! independent of workers and scheduling.

use vstd::prelude::*;
use crate::Error;
use crate::count::{lemma_closed_le_open, tour_count};
use crate::dfs::dfs;
use crate::frontier::{expand_frontier, state_count, sum_counts};
use crate::jumps::JumpTable;
use crate::state::{init_visited, SearchData};

verus! {

/// The reduced result of a run.
#[derive(Clone, Copy, Debug, PartialEq, Eq, Structural)]
pub struct Totals {
    /// Open tours in the run's scope: board-wide for mode A, start-scoped
    /// for mode B.
    pub open: u128,
    /// Closed tours, counted once per traversal direction.
    pub directed_closed: u128,
    /// Closed tours with the two traversal directions identified: the
    /// directed count halved.
    pub undirected_closed: u128,
}

/// The open (or closed) tours of the searches rooted at the first `n`
/// starting squares, summed.
pub open spec fn sum_over_starts(w: int, n: int, closed: bool) -> nat
    decreases n,
{
    if n <= 0 {
        0
    } else {
        sum_over_starts(w, n - 1, closed) + tour_count(
            w,
            n - 1,
            init_visited(w * w, n - 1),
            n - 1,
            closed,
        )
    }
}

/// A board-wide sum is at least any prefix plus any one start's count.
pub proof fn lemma_sum_over_starts_prefix(w: int, i: int, n: int, closed: bool)
    requires
        0 <= i < n,
    ensures
        sum_over_starts(w, n, closed) >= sum_over_starts(w, i, closed) + tour_count(
            w,
            i,
            init_visited(w * w, i),
            i,
            closed,
        ),
    decreases n,
{
    if i < n - 1 {
        lemma_sum_over_starts_prefix(w, i, n - 1, closed);
    }
}

/// Board-wide, closed tours never outnumber open tours: every closed tour is
/// an open tour from the same start.
pub proof fn lemma_closed_le_open_starts(w: int, n: int)
    ensures
        sum_over_starts(w, n, true) <= sum_over_starts(w, n, false),
    decreases n,
{
    if n > 0 {
        lemma_closed_le_open_starts(w, n - 1);
        lemma_closed_le_open(w, n - 1, init_visited(w * w, n - 1), n - 1);
    }
}

/// Mode A: one independent search per starting square, counters summed
/// board-wide, the directed closed count halved into the undirected count.
///
/// The totals are pinned to `sum_over_starts`, a pure function of the board
/// width — however the per-start units are scheduled, a correct run returns
/// these numbers. A width below 3 is rejected before any search, one above
/// the square encoding likewise; counter overflow is reported, never
/// wrapped.
pub fn run_mode_a(width: u8) -> (r: Result<Totals, Error>)
    ensures
        width < 3 ==> r == Result::<Totals, Error>::Err(Error::WidthTooSmall),
        width > 15 ==> r == Result::<Totals, Error>::Err(Error::WidthTooLarge),
        3 <= width <= 15 ==> {
            let w = width as int;
            let so = sum_over_starts(w, w * w, false);
            let sc = sum_over_starts(w, w * w, true);
            if so <= u128::MAX && sc <= u128::MAX {
                &&& r is Ok
                &&& r->Ok_0.open == so
                &&& r->Ok_0.directed_closed == sc
                &&& r->Ok_0.undirected_closed == sc / 2
            } else {
                r == Result::<Totals, Error>::Err(Error::CounterOverflow)
            }
        },
{
    let ghost w = width as int;
    let table = match JumpTable::new(width) {
        Err(e) => {
            return Err(e);
        },
        Ok(t) => t,
    };
    let size = table.size;
    let mut open_acc: u128 = 0;
    let mut closed_acc: u128 = 0;
    let mut s: u8 = 0;
    while s < size
        invariant
            table.wf(),
            table.width == width,
            w == width as int,
            size == table.size,
            s <= size,
            open_acc == sum_over_starts(w, s as int, false),
            closed_acc == sum_over_starts(w, s as int, true),
        decreases size - s,
    {
        let mut sd = SearchData::new_root(width, size, s);
        let ghost t_open = tour_count(w, s as int, init_visited(size as int, s as int), s as int, false);
        let ghost t_closed = tour_count(w, s as int, init_visited(size as int, s as int), s as int, true);
        match dfs(&table, &mut sd) {
            Err(_) => {
                proof {
                    lemma_sum_over_starts_prefix(w, s as int, w * w, false);
                    lemma_sum_over_starts_prefix(w, s as int, w * w, true);
                }
                return Err(Error::CounterOverflow);
            },
            Ok(()) => {},
        }
        proof {
            lemma_sum_over_starts_prefix(w, s as int, w * w, false);
            lemma_sum_over_starts_prefix(w, s as int, w * w, true);
        }
        if open_acc > u128::MAX - sd.open_count {
            return Err(Error::CounterOverflow);
        }
        open_acc = open_acc + sd.open_count;
        if closed_acc > u128::MAX - sd.closed_count {
            return Err(Error::CounterOverflow);
        }
        closed_acc = closed_acc + sd.closed_count;
        s = s + 1;
    }
    Ok(Totals { open: open_acc, directed_closed: closed_acc, undirected_closed: closed_acc / 2 })
}

/// Mode B: fix one start square, split its search into independent units by
/// frontier expansion to `depth`, run every unit, and sum.
///
/// The open count is scoped to the single start. The totals equal
/// `tour_count` of the root state — the frontier split neither duplicates
/// nor drops work — so they too are independent of scheduling. A depth that
/// reaches the number of squares would drop complete paths from the
/// expansion and is rejected.
pub fn run_mode_b(width: u8, start: u8, depth: usize) -> (r: Result<Totals, Error>)
    ensures
        width < 3 ==> r == Result::<Totals, Error>::Err(Error::WidthTooSmall),
        width > 15 ==> r == Result::<Totals, Error>::Err(Error::WidthTooLarge),
        3 <= width <= 15 && start as int >= (width as int) * (width as int) ==> r
            == Result::<Totals, Error>::Err(Error::StartOutOfRange),
        3 <= width <= 15 && (start as int) < (width as int) * (width as int) && depth as int + 1
            > (width as int) * (width as int) ==> r == Result::<Totals, Error>::Err(
            Error::DepthTooLarge,
        ),
        3 <= width <= 15 && (start as int) < (width as int) * (width as int) && depth as int + 1
            <= (width as int) * (width as int) ==> {
            let w = width as int;
            let to = tour_count(w, start as int, init_visited(w * w, start as int), start as int, false);
            let tc = tour_count(w, start as int, init_visited(w * w, start as int), start as int, true);
            if to <= u128::MAX && tc <= u128::MAX {
                &&& r is Ok
                &&& r->Ok_0.open == to
                &&& r->Ok_0.directed_closed == tc
                &&& r->Ok_0.undirected_closed == tc / 2
            } else {
                r == Result::<Totals, Error>::Err(Error::CounterOverflow)
            }
        },
{
    let ghost w = width as int;
    let table = match JumpTable::new(width) {
        Err(e) => {
            return Err(e);
        },
        Ok(t) => t,
    };
    let size = table.size;
    if start >= size {
        return Err(Error::StartOutOfRange);
    }
    if depth >= size as usize {
        return Err(Error::DepthTooLarge);
    }
    let ghost t_open = tour_count(w, start as int, init_visited(size as int, start as int), start as int, false);
    let ghost t_closed = tour_count(w, start as int, init_visited(size as int, start as int), start as int, true);
    let mut states = expand_frontier(&table, start, depth);
    let mut open_acc: u128 = 0;
    let mut closed_acc: u128 = 0;
    while states.len() > 0
        invariant
            table.wf(),
            table.width == width,
            w == width as int,
            size == table.size,
            3 <= width <= 15,
            start < size,
            depth as int + 1 <= size as int,
            t_open == tour_count(w, start as int, init_visited(size as int, start as int),
                start as int, false),
            t_closed == tour_count(w, start as int, init_visited(size as int, start as int),
                start as int, true),
            forall|i: int| 0 <= i < states@.len() ==> (#[trigger] states@[i]).inv(table.w()),
            forall|i: int| 0 <= i < states@.len() ==> (#[trigger] states@[i]).top_ix() == 0,
            forall|i: int| 0 <= i < states@.len() ==> (#[trigger] states@[i]).open_count == 0,
            forall|i: int| 0 <= i < states@.len() ==> (#[trigger] states@[i]).closed_count == 0,
            open_acc + sum_counts(states@, w, false) == t_open,
            closed_acc + sum_counts(states@, w, true) == t_closed,
        decreases states@.len(),
    {
        let ghost pre = states@;
        let mut sd = match states.pop() {
            Some(sd) => sd,
            None => {
                proof {
                    assert(false);
                }
                return Err(Error::CounterOverflow);
            },
        };
        proof {
            assert(sum_counts(pre, w, false) == sum_counts(states@, w, false) + state_count(
                sd, w, false));
            assert(sum_counts(pre, w, true) == sum_counts(states@, w, true) + state_count(
                sd, w, true));
        }
        match dfs(&table, &mut sd) {
            Err(_) => {
                return Err(Error::CounterOverflow);
            },
            Ok(()) => {},
        }
        if open_acc > u128::MAX - sd.open_count {
            return Err(Error::CounterOverflow);
        }
        open_acc = open_acc + sd.open_count;
        if closed_acc > u128::MAX - sd.closed_count {
            return Err(Error::CounterOverflow);
        }
        closed_acc = closed_acc + sd.closed_count;
    }
    Ok(Totals { open: open_acc, directed_closed: closed_acc, undirected_closed: closed_acc / 2 })
}

} // verus!
