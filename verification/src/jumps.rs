//! The precomputed knight-move table.
//!
//! Each square has eight candidate targets in a fixed canonical order,
//! corresponding to the relative offsets (-2,-1), (-2,+1), (-1,-2), (-1,+2),
//! (+1,-2), (+1,+2), (+2,-1), (+2,+1) in row-major numbering. A slot holds
//! either the target square or the sentinel meaning "off-board". Boundary
//! guards are evaluated before any target arithmetic, so no index ever
//! underflows or overflows.

use vstd::prelude::*;
use crate::Error;

verus! {

/// Reserved slot value meaning "no valid move from this square in this
/// direction".
pub const SENTINEL: u8 = 255;

/// The target square reached from `pos` by the candidate move `j` on a board
/// of width `w`, or the sentinel when that move leaves the board.
///
/// The guards mirror the board geometry: a move two rows up is impossible
/// from the top two rows, and so on; column guards use the distance from the
/// left and right edges. Guards come before the arithmetic, so the arithmetic
/// is only defined on in-range inputs.
pub open spec fn spec_jump(w: int, pos: int, j: int) -> int {
    let size = w * w;
    let col = pos % w;
    if pos < 2 * w && j <= 1 {
        SENTINEL as int
    } else if pos < w && j <= 3 {
        SENTINEL as int
    } else if pos >= size - 2 * w && j >= 6 {
        SENTINEL as int
    } else if pos >= size - w && j >= 4 {
        SENTINEL as int
    } else if col >= w - 2 && (j == 3 || j == 5) {
        SENTINEL as int
    } else if col >= w - 1 && (j == 1 || j == 7) {
        SENTINEL as int
    } else if col <= 1 && (j == 2 || j == 4) {
        SENTINEL as int
    } else if col <= 0 && (j == 0 || j == 6) {
        SENTINEL as int
    } else if j == 0 {
        pos - 2 * w - 1
    } else if j == 1 {
        pos - 2 * w + 1
    } else if j == 2 {
        pos - w - 2
    } else if j == 3 {
        pos - w + 2
    } else if j == 4 {
        pos + w - 2
    } else if j == 5 {
        pos + w + 2
    } else if j == 6 {
        pos + 2 * w - 1
    } else if j == 7 {
        pos + 2 * w + 1
    } else {
        SENTINEL as int
    }
}

/// A valid (non-sentinel) target is always a square of the board.
pub proof fn lemma_spec_jump_range(w: int, pos: int, j: int)
    requires
        3 <= w <= 15,
        0 <= pos < w * w,
        0 <= j < 8,
    ensures
        spec_jump(w, pos, j) == SENTINEL as int || (0 <= spec_jump(w, pos, j) < w * w),
{
    let size = w * w;
    let col = pos % w;
    let row = pos / w;
    vstd::arithmetic::div_mod::lemma_fundamental_div_mod(pos, w);
    vstd::arithmetic::div_mod::lemma_mod_bound(pos, w);
    assert(pos == w * row + col && 0 <= col < w);
    assert(w * row == row * w) by (nonlinear_arith);
    assert(pos == row * w + col);
    assert(0 <= row && row < w) by (nonlinear_arith)
        requires 3 <= w && pos == row * w + col && 0 <= col < w && 0 <= pos < w * w;
    if spec_jump(w, pos, j) != SENTINEL as int {
        if j == 0 || j == 1 {
            assert(pos >= 2 * w);
            if j == 0 {
                assert(col >= 1);
                assert(pos >= 2 * w + 1) by (nonlinear_arith)
                    requires pos == row * w + col && pos >= 2 * w && col >= 1 && 0 <= col < w && 0 <= row && w >= 3;
            }
        } else if j == 2 || j == 3 {
            assert(pos >= w);
            if j == 2 {
                assert(col >= 2);
                assert(row >= 1) by (nonlinear_arith)
                    requires pos == row * w + col && pos >= w && 0 <= col < w && 0 <= row;
                assert(pos >= w + 2) by (nonlinear_arith)
                    requires pos == row * w + col && row >= 1 && col >= 2 && w >= 3;
            } else {
                assert(col <= w - 3);
                assert(pos - w + 2 < size) by (nonlinear_arith)
                    requires pos == row * w + col && row < w && col <= w - 3 && w >= 3 && size == w * w;
            }
        } else if j == 4 || j == 5 {
            assert(pos < size - w);
            if j == 5 {
                assert(col <= w - 3);
                assert(row <= w - 2) by (nonlinear_arith)
                    requires pos == row * w + col && pos < size - w && size == w * w && 0 <= col < w && w >= 3 && row >= 0;
                assert(pos + w + 2 < size) by (nonlinear_arith)
                    requires pos == row * w + col && row <= w - 2 && col <= w - 3 && w >= 3 && size == w * w;
            }
        } else if j == 6 || j == 7 {
            assert(pos < size - 2 * w);
            if j == 7 {
                assert(col <= w - 2);
                assert(row <= w - 3) by (nonlinear_arith)
                    requires pos == row * w + col && pos < size - 2 * w && size == w * w && 0 <= col < w && w >= 3 && row >= 0;
                assert(pos + 2 * w + 1 < size) by (nonlinear_arith)
                    requires pos == row * w + col && row <= w - 3 && col <= w - 2 && w >= 3 && size == w * w;
            }
        }
    }
}

/// Two distinct candidate moves from one square never land on the same
/// target: the eight offsets differ, except for two pairs that coincide on
/// the 3-wide board, where the column guards never admit both.
pub proof fn lemma_spec_jump_injective(w: int, pos: int, j1: int, j2: int)
    requires
        3 <= w <= 15,
        0 <= pos < w * w,
        0 <= j1 < 8,
        0 <= j2 < 8,
        j1 != j2,
        spec_jump(w, pos, j1) != SENTINEL as int,
        spec_jump(w, pos, j2) != SENTINEL as int,
    ensures
        spec_jump(w, pos, j1) != spec_jump(w, pos, j2),
{
    lemma_spec_jump_range(w, pos, j1);
    lemma_spec_jump_range(w, pos, j2);
}

/// Compute one slot of the move table. Guards are tested before the target
/// arithmetic, which keeps every subtraction in range.
fn find_jump(w: u8, size: u8, pos: u8, j: u8) -> (r: u8)
    requires
        3 <= w <= 15,
        size == w * w,
        pos < size,
        j < 8,
    ensures
        r as int == spec_jump(w as int, pos as int, j as int),
        r == SENTINEL || r < size,
{
    proof {
        lemma_spec_jump_range(w as int, pos as int, j as int);
        let wi = w as int;
        let pi = pos as int;
        assert(0 <= pi % wi < wi && pi == (pi / wi) * wi + pi % wi) by (nonlinear_arith)
            requires 3 <= wi <= 15 && 0 <= pi < wi * wi;
        assert(wi * wi >= 2 * wi) by (nonlinear_arith)
            requires 3 <= wi;
    }
    let col = pos % w;
    if pos < 2 * w && j <= 1 {
        return SENTINEL;
    }
    if pos < w && j <= 3 {
        return SENTINEL;
    }
    if pos >= size - 2 * w && j >= 6 {
        return SENTINEL;
    }
    if pos >= size - w && j >= 4 {
        return SENTINEL;
    }
    if col >= w - 2 && (j == 3 || j == 5) {
        return SENTINEL;
    }
    if col >= w - 1 && (j == 1 || j == 7) {
        return SENTINEL;
    }
    if col <= 1 && (j == 2 || j == 4) {
        return SENTINEL;
    }
    if col == 0 && (j == 0 || j == 6) {
        return SENTINEL;
    }
    match j {
        0 => pos - 2 * w - 1,
        1 => pos - 2 * w + 1,
        2 => pos - w - 2,
        3 => pos - w + 2,
        4 => pos + w - 2,
        5 => pos + w + 2,
        6 => pos + 2 * w - 1,
        _ => pos + 2 * w + 1,
    }
}

/// The immutable move table: for every square, the eight candidate targets in
/// canonical order, flattened row-major. Built once, read-only thereafter.
pub struct JumpTable {
    pub width: u8,
    pub size: u8,
    pub slots: Vec<u8>,
}

impl JumpTable {
    /// The board width as a mathematical integer.
    pub open spec fn w(self) -> int {
        self.width as int
    }

    /// Every slot agrees with `spec_jump` and is either the sentinel or a
    /// board square.
    pub open spec fn wf(self) -> bool {
        &&& 3 <= self.width <= 15
        &&& self.size == self.w() * self.w()
        &&& self.slots@.len() == self.size as int * 8
        &&& forall|pos: int, j: int|
            0 <= pos < self.size as int && 0 <= j < 8 ==> #[trigger] self.slots@[pos * 8 + j] as int
                == spec_jump(self.w(), pos, j)
        &&& forall|k: int|
            0 <= k < self.slots@.len() ==> #[trigger] self.slots@[k] == SENTINEL
                || self.slots@[k] < self.size
    }

    /// Build the table for board width `w`.
    ///
    /// Succeeds exactly on the widths the square encoding admits; a width
    /// below 3 is a configuration error, rejected before any search starts.
    pub fn new(w: u8) -> (r: Result<JumpTable, Error>)
        ensures
            w < 3 ==> r == Result::<JumpTable, Error>::Err(Error::WidthTooSmall),
            w > 15 ==> r == Result::<JumpTable, Error>::Err(Error::WidthTooLarge),
            3 <= w <= 15 ==> r is Ok && r->Ok_0.wf() && r->Ok_0.width == w,
    {
        if w < 3 {
            return Err(Error::WidthTooSmall);
        }
        if w > 15 {
            return Err(Error::WidthTooLarge);
        }
        proof {
            let wi = w as int;
            assert(wi * wi <= 225 && wi * wi >= 9) by (nonlinear_arith)
                requires 3 <= wi <= 15;
        }
        let size: u8 = w * w;
        let mut slots: Vec<u8> = Vec::new();
        let mut pos: u8 = 0;
        while pos < size
            invariant
                3 <= w <= 15,
                size == w * w,
                pos <= size,
                slots@.len() == pos as int * 8,
                forall|p: int, j: int|
                    0 <= p < pos as int && 0 <= j < 8 ==> #[trigger] slots@[p * 8 + j] as int
                        == spec_jump(w as int, p, j),
                forall|k: int|
                    0 <= k < slots@.len() ==> #[trigger] slots@[k] == SENTINEL || slots@[k] < size,
            decreases size - pos,
        {
            let mut j: u8 = 0;
            while j < 8
                invariant
                    3 <= w <= 15,
                    size == w * w,
                    pos < size,
                    j <= 8,
                    slots@.len() == pos as int * 8 + j as int,
                    forall|p: int, jj: int|
                        0 <= p < pos as int && 0 <= jj < 8 ==> #[trigger] slots@[p * 8 + jj] as int
                            == spec_jump(w as int, p, jj),
                    forall|jj: int|
                        0 <= jj < j as int ==> #[trigger] slots@[pos as int * 8 + jj] as int
                            == spec_jump(w as int, pos as int, jj),
                    forall|k: int|
                        0 <= k < slots@.len() ==> #[trigger] slots@[k] == SENTINEL
                            || slots@[k] < size,
                decreases 8 - j,
            {
                let t = find_jump(w, size, pos, j);
                slots.push(t);
                j = j + 1;
            }
            pos = pos + 1;
        }
        let table = JumpTable { width: w, size, slots };
        proof {
            let si = table.size as int;
            assert forall|p: int, j: int|
                0 <= p < si && 0 <= j < 8 implies #[trigger] table.slots@[p * 8 + j] as int
                == spec_jump(table.w(), p, j) by {
                assert(p * 8 + j < si * 8) by (nonlinear_arith)
                    requires 0 <= p && p < si && 0 <= j && j < 8;
            }
        }
        Ok(table)
    }

    /// Read one slot: the candidate target from `pos` in direction `j`, or
    /// the sentinel.
    pub fn jump_at(&self, pos: u8, j: u8) -> (r: u8)
        requires
            self.wf(),
            pos < self.size,
            j < 8,
        ensures
            r as int == spec_jump(self.w(), pos as int, j as int),
            r == SENTINEL || r < self.size,
    {
        proof {
            let pi = pos as int;
            let ji = j as int;
            let si = self.size as int;
            assert(pi * 8 + ji < si * 8) by (nonlinear_arith)
                requires 0 <= pi && pi < si && 0 <= ji && ji < 8;
        }
        self.slots[pos as usize * 8 + j as usize]
    }
}

} // verus!
