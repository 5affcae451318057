//! The scanning cursor: a persistent traversal state machine that sweeps the
//! grid cell by cell in a direction-dependent boustrophedon, applying the
//! current cell's effects to its neighbourhood on every step and the global
//! effects once per completed sweep.

use vstd::prelude::*;

use crate::map::grid::Grid;
use crate::map::grid::apply_effects_to_region;
use crate::map::grid::cell_index;
use crate::map::grid::EntityRecord;
use crate::production::exchange::CommodityExchange;

verus! {

/// The axis and sense of a cursor's travel.
#[derive(Clone, Copy, PartialEq, Eq, Structural, Debug)]
pub enum Direction {
    Up,
    Down,
    Left,
    Right,
}

/// Reserved for future fallible processing steps, such as actor dispatch; no
/// step performed today ever produces it.
#[derive(Clone, Copy, PartialEq, Eq, Structural, Debug)]
pub enum CursorError {
    Dispatch,
}

/// The traversal cursor: its current cell, its travel direction and the
/// Chebyshev radius of the neighbourhood it processes per step.
pub struct Cursor {
    cell: (usize, usize),
    direction: Direction,
    range: usize,
}

/// The wrap rule: one step of the direction-dependent boustrophedon over a
/// `w` by `h` grid.
pub open spec fn spec_next_cell(cell: (usize, usize), dir: Direction, w: usize, h: usize) -> (
    usize,
    usize,
) {
    match dir {
        Direction::Up => if cell.1 == 0 {
            (
                if cell.0 == 0 {
                    (w - 1) as usize
                } else {
                    (cell.0 - 1) as usize
                },
                (h - 1) as usize,
            )
        } else {
            (cell.0, (cell.1 - 1) as usize)
        },
        Direction::Down => if cell.1 + 1 == h {
            (
                if cell.0 + 1 == w {
                    0usize
                } else {
                    (cell.0 + 1) as usize
                },
                0usize,
            )
        } else {
            (cell.0, (cell.1 + 1) as usize)
        },
        Direction::Left => if cell.0 == 0 {
            (
                (w - 1) as usize,
                if cell.1 == 0 {
                    (h - 1) as usize
                } else {
                    (cell.1 - 1) as usize
                },
            )
        } else {
            ((cell.0 - 1) as usize, cell.1)
        },
        Direction::Right => if cell.0 + 1 == w {
            (
                0usize,
                if cell.1 + 1 == h {
                    0usize
                } else {
                    (cell.1 + 1) as usize
                },
            )
        } else {
            ((cell.0 + 1) as usize, cell.1)
        },
    }
}

/// The lower clamp of the processed neighbourhood on one axis.
pub open spec fn region_lo(c: usize, range: usize) -> usize {
    if c >= range {
        (c - range) as usize
    } else {
        0usize
    }
}

/// The upper clamp of the processed neighbourhood on one axis.
pub open spec fn region_hi(c: usize, range: usize, limit: usize) -> usize {
    if c + range + 1 <= limit {
        (c + range + 1) as usize
    } else {
        limit
    }
}

/// The arena after the effects of `cell` have been applied to its clamped
/// Chebyshev neighbourhood of radius `range`.
pub open spec fn spec_locally_processed_arena(
    g: Grid,
    cell: (usize, usize),
    range: usize,
) -> Seq<Option<EntityRecord>> {
    apply_effects_to_region(
        g.arena_seq(),
        g.cells_seq(),
        g.spec_width() as int,
        g.cells_seq()[cell_index(g.spec_width() as int, cell.0 as int, cell.1 as int)].effects@,
        region_lo(cell.0, range) as int,
        region_hi(cell.0, range, g.spec_width()) as int,
        region_lo(cell.1, range) as int,
        region_hi(cell.1, range, g.spec_height()) as int,
    )
}

/// The position of a cell along the traversal that `dir` induces: cell
/// number `k` is visited `k` steps after cell number zero.
pub open spec fn traversal_ord(p: (usize, usize), dir: Direction, w: usize, h: usize) -> int {
    match dir {
        Direction::Right => p.1 * w + p.0,
        Direction::Down => p.0 * h + p.1,
        Direction::Up => (w - 1 - p.0) * h + (h - 1 - p.1),
        Direction::Left => (h - 1 - p.1) * w + (w - 1 - p.0),
    }
}

/// The cell the cursor stands on after `k` steps of the wrap rule.
pub open spec fn iterate_next(
    p: (usize, usize),
    dir: Direction,
    w: usize,
    h: usize,
    k: nat,
) -> (usize, usize)
    decreases k,
{
    if k == 0 {
        p
    } else {
        spec_next_cell(iterate_next(p, dir, w, h, (k - 1) as nat), dir, w, h)
    }
}

/// A traversal position is a number below the cell count, and distinct cells
/// hold distinct positions.
proof fn lemma_traversal_ord_bounds(p: (usize, usize), dir: Direction, w: usize, h: usize)
    requires
        w >= 1,
        h >= 1,
        p.0 < w,
        p.1 < h,
    ensures
        0 <= traversal_ord(p, dir, w, h) < w * h,
{
    match dir {
        Direction::Right => {
            crate::map::grid::lemma_cell_index_bound(w as int, h as int, p.0 as int, p.1 as int);
        },
        Direction::Down => {
            crate::map::grid::lemma_cell_index_bound(h as int, w as int, p.1 as int, p.0 as int);
            assert(w * h == h * w) by (nonlinear_arith);
        },
        Direction::Up => {
            crate::map::grid::lemma_cell_index_bound(
                h as int,
                w as int,
                h - 1 - p.1,
                w - 1 - p.0,
            );
            assert(w * h == h * w) by (nonlinear_arith);
        },
        Direction::Left => {
            crate::map::grid::lemma_cell_index_bound(
                w as int,
                h as int,
                w - 1 - p.0,
                h - 1 - p.1,
            );
        },
    }
}

/// Distinct in-bounds cells occupy distinct traversal positions.
proof fn lemma_traversal_ord_injective(
    p: (usize, usize),
    q: (usize, usize),
    dir: Direction,
    w: usize,
    h: usize,
)
    requires
        w >= 1,
        h >= 1,
        p.0 < w,
        p.1 < h,
        q.0 < w,
        q.1 < h,
        traversal_ord(p, dir, w, h) == traversal_ord(q, dir, w, h),
    ensures
        p == q,
{
    match dir {
        Direction::Right => {
            crate::map::grid::lemma_cell_index_injective(
                w as int,
                h as int,
                p.0 as int,
                p.1 as int,
                q.0 as int,
                q.1 as int,
            );
        },
        Direction::Down => {
            crate::map::grid::lemma_cell_index_injective(
                h as int,
                w as int,
                p.1 as int,
                p.0 as int,
                q.1 as int,
                q.0 as int,
            );
        },
        Direction::Up => {
            crate::map::grid::lemma_cell_index_injective(
                h as int,
                w as int,
                h - 1 - p.1,
                w - 1 - p.0,
                h - 1 - q.1,
                w - 1 - q.0,
            );
        },
        Direction::Left => {
            crate::map::grid::lemma_cell_index_injective(
                w as int,
                h as int,
                w - 1 - p.0,
                h - 1 - p.1,
                w - 1 - q.0,
                h - 1 - q.1,
            );
        },
    }
}

/// One step of the wrap rule advances the traversal position by one, wrapping
/// to zero after the last cell.
proof fn lemma_next_cell_ord(p: (usize, usize), dir: Direction, w: usize, h: usize)
    requires
        w >= 1,
        h >= 1,
        p.0 < w,
        p.1 < h,
    ensures
        spec_next_cell(p, dir, w, h).0 < w,
        spec_next_cell(p, dir, w, h).1 < h,
        traversal_ord(spec_next_cell(p, dir, w, h), dir, w, h) == (if traversal_ord(p, dir, w, h)
            + 1 < w * h {
            traversal_ord(p, dir, w, h) + 1
        } else {
            0int
        }),
{
    lemma_traversal_ord_bounds(p, dir, w, h);
    let nx = spec_next_cell(p, dir, w, h);
    match dir {
        Direction::Right => {
            if p.0 + 1 == w {
                if p.1 + 1 == h {
                    assert((h - 1) * w + w - 1 + 1 == w * h) by (nonlinear_arith)
                        requires
                            w >= 1 && h >= 1,
                    ;
                } else {
                    assert((p.1 + 1) * w == p.1 * w + w) by (nonlinear_arith);
                    assert(p.1 * w + p.0 + 1 < w * h) by (nonlinear_arith)
                        requires
                            p.0 + 1 == w && p.1 + 1 < h,
                    ;
                }
            } else {
                assert(p.1 * w + p.0 + 1 < w * h) by (nonlinear_arith)
                    requires
                        p.0 + 1 < w && p.1 < h,
                ;
            }
        },
        Direction::Down => {
            if p.1 + 1 == h {
                if p.0 + 1 == w {
                    assert((w - 1) * h + h - 1 + 1 == w * h) by (nonlinear_arith)
                        requires
                            w >= 1 && h >= 1,
                    ;
                } else {
                    assert((p.0 + 1) * h == p.0 * h + h) by (nonlinear_arith);
                    assert(p.0 * h + p.1 + 1 < w * h) by (nonlinear_arith)
                        requires
                            p.1 + 1 == h && p.0 + 1 < w,
                    ;
                }
            } else {
                assert(p.0 * h + p.1 + 1 < w * h) by (nonlinear_arith)
                    requires
                        p.1 + 1 < h && p.0 < w,
                ;
            }
        },
        Direction::Up => {
            if p.1 == 0 {
                if p.0 == 0 {
                    assert((w - 1 - 0) * h + (h - 1 - 0) + 1 == w * h) by (nonlinear_arith)
                        requires
                            w >= 1 && h >= 1,
                    ;
                    let a: int = w - 1 - (nx.0 as int);
                    let b: int = h - 1 - (nx.1 as int);
                    assert(a == 0 && b == 0);
                    assert(a * h + b == 0) by (nonlinear_arith)
                        requires
                            a == 0 && b == 0,
                    ;
                } else {
                    assert((w - 1 - (p.0 - 1)) * h == (w - 1 - p.0) * h + h) by (nonlinear_arith);
                    assert((w - 1 - p.0) * h + (h - 1 - 0) + 1 < w * h) by (nonlinear_arith)
                        requires
                            1 <= p.0 < w && h >= 1,
                    ;
                }
            } else {
                assert((w - 1 - p.0) * h + (h - 1 - p.1) + 1 < w * h) by (nonlinear_arith)
                    requires
                        p.0 < w && 1 <= p.1 < h,
                ;
            }
        },
        Direction::Left => {
            if p.0 == 0 {
                if p.1 == 0 {
                    assert((h - 1 - 0) * w + (w - 1 - 0) + 1 == w * h) by (nonlinear_arith)
                        requires
                            w >= 1 && h >= 1,
                    ;
                    let a: int = h - 1 - (nx.1 as int);
                    let b: int = w - 1 - (nx.0 as int);
                    assert(a == 0 && b == 0);
                    assert(a * w + b == 0) by (nonlinear_arith)
                        requires
                            a == 0 && b == 0,
                    ;
                } else {
                    assert((h - 1 - (p.1 - 1)) * w == (h - 1 - p.1) * w + w) by (nonlinear_arith);
                    assert((h - 1 - p.1) * w + (w - 1 - 0) + 1 < w * h) by (nonlinear_arith)
                        requires
                            1 <= p.1 < h && w >= 1,
                    ;
                }
            } else {
                assert((h - 1 - p.1) * w + (w - 1 - p.0) + 1 < w * h) by (nonlinear_arith)
                    requires
                        p.1 < h && 1 <= p.0 < w,
                ;
            }
        },
    }
}

/// After `k` steps the traversal position has advanced by `k`, wrapped once
/// past the end.
proof fn lemma_iterate_ord(p: (usize, usize), dir: Direction, w: usize, h: usize, k: nat)
    requires
        w >= 1,
        h >= 1,
        p.0 < w,
        p.1 < h,
        k <= w * h,
    ensures
        iterate_next(p, dir, w, h, k).0 < w,
        iterate_next(p, dir, w, h, k).1 < h,
        traversal_ord(iterate_next(p, dir, w, h, k), dir, w, h) == (if traversal_ord(p, dir, w, h)
            + k < w * h {
            traversal_ord(p, dir, w, h) + k
        } else {
            traversal_ord(p, dir, w, h) + k - w * h
        }),
    decreases k,
{
    lemma_traversal_ord_bounds(p, dir, w, h);
    if k > 0 {
        lemma_iterate_ord(p, dir, w, h, (k - 1) as nat);
        let prev = iterate_next(p, dir, w, h, (k - 1) as nat);
        lemma_next_cell_ord(prev, dir, w, h);
    }
}

/// Sweep periodicity: exactly `w * h` steps of the wrap rule return the
/// cursor to its starting cell, and exactly one of those steps lands on the
/// origin — so a full sweep applies the global effects exactly once.
pub proof fn lemma_sweep_periodicity(p: (usize, usize), dir: Direction, w: usize, h: usize)
    requires
        w >= 1,
        h >= 1,
        p.0 < w,
        p.1 < h,
    ensures
        iterate_next(p, dir, w, h, (w * h) as nat) == p,
        forall|i: int, j: int|
            0 <= i < j < w * h && spec_next_cell(
                #[trigger] iterate_next(p, dir, w, h, i as nat),
                dir,
                w,
                h,
            ) == (0usize, 0usize) ==> spec_next_cell(
                #[trigger] iterate_next(p, dir, w, h, j as nat),
                dir,
                w,
                h,
            ) != (0usize, 0usize),
        exists|i: int|
            0 <= i < w * h && spec_next_cell(
                #[trigger] iterate_next(p, dir, w, h, i as nat),
                dir,
                w,
                h,
            ) == (0usize, 0usize),
{
    let n = (w * h) as int;
    let o = traversal_ord(p, dir, w, h);
    lemma_traversal_ord_bounds(p, dir, w, h);
    // a full cycle returns to the start
    lemma_iterate_ord(p, dir, w, h, (w * h) as nat);
    lemma_traversal_ord_injective(iterate_next(p, dir, w, h, (w * h) as nat), p, dir, w, h);
    // the origin's traversal position
    let origin = (0usize, 0usize);
    lemma_traversal_ord_bounds(origin, dir, w, h);
    let z = traversal_ord(origin, dir, w, h);
    // at most one step per sweep lands on the origin
    assert forall|i: int, j: int|
        0 <= i < j < n && spec_next_cell(
            #[trigger] iterate_next(p, dir, w, h, i as nat),
            dir,
            w,
            h,
        ) == (0usize, 0usize) implies spec_next_cell(
        #[trigger] iterate_next(p, dir, w, h, j as nat),
        dir,
        w,
        h,
    ) != (0usize, 0usize) by {
        lemma_iterate_ord(p, dir, w, h, (i + 1) as nat);
        lemma_iterate_ord(p, dir, w, h, (j + 1) as nat);
        assert(iterate_next(p, dir, w, h, (i + 1) as nat) == spec_next_cell(
            iterate_next(p, dir, w, h, i as nat),
            dir,
            w,
            h,
        ));
        assert(iterate_next(p, dir, w, h, (j + 1) as nat) == spec_next_cell(
            iterate_next(p, dir, w, h, j as nat),
            dir,
            w,
            h,
        ));
        if spec_next_cell(iterate_next(p, dir, w, h, j as nat), dir, w, h) == origin {
            assert(traversal_ord(iterate_next(p, dir, w, h, (i + 1) as nat), dir, w, h) == z);
            assert(traversal_ord(iterate_next(p, dir, w, h, (j + 1) as nat), dir, w, h) == z);
        }
    }
    // and at least one does
    let i0: int = if z > o {
        z - o - 1
    } else {
        z + n - o - 1
    };
    assert(0 <= i0 < n);
    lemma_iterate_ord(p, dir, w, h, (i0 + 1) as nat);
    assert(iterate_next(p, dir, w, h, (i0 + 1) as nat) == spec_next_cell(
        iterate_next(p, dir, w, h, i0 as nat),
        dir,
        w,
        h,
    ));
    assert(traversal_ord(iterate_next(p, dir, w, h, (i0 + 1) as nat), dir, w, h) == z);
    lemma_traversal_ord_injective(
        iterate_next(p, dir, w, h, (i0 + 1) as nat),
        origin,
        dir,
        w,
        h,
    );
    assert(spec_next_cell(#[trigger] iterate_next(p, dir, w, h, i0 as nat), dir, w, h) == (
    0usize,
    0usize,
    ));
}

impl Cursor {
    /// The cursor's current cell.
    pub closed spec fn spec_cell(&self) -> (usize, usize) {
        self.cell
    }

    /// The cursor's travel direction.
    pub closed spec fn spec_direction(&self) -> Direction {
        self.direction
    }

    /// The cursor's effect radius.
    pub closed spec fn spec_range(&self) -> usize {
        self.range
    }

    /// A cursor with effect radius `range`, travelling in `direction`,
    /// standing on `start`.
    pub fn new(range: usize, direction: Direction, start: (usize, usize)) -> (r: Cursor)
        ensures
            r.spec_cell() == start,
            r.spec_direction() == direction,
            r.spec_range() == range,
    {
        Cursor { cell: start, direction, range }
    }

    /// The cursor's current cell.
    pub fn position(&self) -> (r: (usize, usize))
        ensures
            r == self.spec_cell(),
    {
        (self.cell.0, self.cell.1)
    }

    /// One step of the wrap rule; agrees with `spec_next_cell`.
    fn calculate_next_cell(
        cell_x: usize,
        cell_y: usize,
        grid_width: usize,
        grid_height: usize,
        direction: &Direction,
    ) -> (r: (usize, usize))
        requires
            grid_width >= 1,
            grid_height >= 1,
            cell_x < grid_width,
            cell_y < grid_height,
        ensures
            r == spec_next_cell((cell_x, cell_y), *direction, grid_width, grid_height),
            r.0 < grid_width,
            r.1 < grid_height,
    {
        match direction {
            // cursor moves up and left
            Direction::Up => {
                if cell_y == 0 {
                    // reached top row: reset to the bottom row, one column to
                    // the left, wrapping at the left edge
                    (
                        if cell_x == 0 {
                            grid_width - 1
                        } else {
                            cell_x - 1
                        },
                        grid_height - 1,
                    )
                } else {
                    // moves one row up
                    (cell_x, cell_y - 1)
                }
            },
            // cursor moves down and right
            Direction::Down => {
                if cell_y + 1 == grid_height {
                    // reached bottom row: reset to the top row, one column to
                    // the right, wrapping at the right edge
                    (
                        if cell_x + 1 == grid_width {
                            0
                        } else {
                            cell_x + 1
                        },
                        0,
                    )
                } else {
                    // moves one row down
                    (cell_x, cell_y + 1)
                }
            },
            // cursor moves left and up
            Direction::Left => {
                if cell_x == 0 {
                    // reached left-most column: reset to the last column, one
                    // row up, wrapping at the top edge
                    (
                        grid_width - 1,
                        if cell_y == 0 {
                            grid_height - 1
                        } else {
                            cell_y - 1
                        },
                    )
                } else {
                    // moves one column to the left on the current row
                    (cell_x - 1, cell_y)
                }
            },
            // cursor moves right and down
            Direction::Right => {
                if cell_x + 1 == grid_width {
                    // reached right-most column: reset to the first column,
                    // one row down, wrapping at the bottom edge
                    (
                        0,
                        if cell_y + 1 == grid_height {
                            0
                        } else {
                            cell_y + 1
                        },
                    )
                } else {
                    // moves one column to the right on the current row
                    (cell_x + 1, cell_y)
                }
            },
        }
    }

    /// Processes all effects for the current cell and moves to the next cell
    /// of the traversal: the cell's effects are applied to every entity in
    /// its clamped neighbourhood; then, when this step completes a full sweep
    /// — that is, when the next cell is the origin — every global effect is
    /// applied to every entity on the grid; finally the cursor advances. The
    /// exchange collaborator rides along for the production and consumption
    /// the sweep is meant to exercise; that ledger arithmetic is owned by the
    /// collaborator, so this contract deliberately leaves the exchange's new
    /// state open rather than pinning a formula that is not this core's.
    pub fn process_and_advance(&mut self, grid: &mut Grid, exchange: &mut CommodityExchange) -> (r:
        Result<(), CursorError>)
        requires
            old(grid).wf(),
            old(self).spec_cell().0 < old(grid).spec_width(),
            old(self).spec_cell().1 < old(grid).spec_height(),
        ensures
            r == Result::<(), CursorError>::Ok(()),
            final(self).spec_direction() == old(self).spec_direction(),
            final(self).spec_range() == old(self).spec_range(),
            final(self).spec_cell() == spec_next_cell(
                old(self).spec_cell(),
                old(self).spec_direction(),
                old(grid).spec_width(),
                old(grid).spec_height(),
            ),
            final(self).spec_cell().0 < old(grid).spec_width(),
            final(self).spec_cell().1 < old(grid).spec_height(),
            final(grid).wf(),
            final(grid).spec_width() == old(grid).spec_width(),
            final(grid).spec_height() == old(grid).spec_height(),
            final(grid).cells_seq() == old(grid).cells_seq(),
            final(grid).globals_seq() == old(grid).globals_seq(),
            final(grid).arena_seq() == {
                let local = spec_locally_processed_arena(
                    *old(grid),
                    old(self).spec_cell(),
                    old(self).spec_range(),
                );
                if spec_next_cell(
                    old(self).spec_cell(),
                    old(self).spec_direction(),
                    old(grid).spec_width(),
                    old(grid).spec_height(),
                ) == (0usize, 0usize) {
                    apply_effects_to_region(
                        local,
                        old(grid).cells_seq(),
                        old(grid).spec_width() as int,
                        old(grid).globals_seq(),
                        0,
                        old(grid).spec_width() as int,
                        0,
                        old(grid).spec_height() as int,
                    )
                } else {
                    local
                }
            },
    {
        let cell_x = self.cell.0;
        let cell_y = self.cell.1;
        let effect_range = self.range;
        let grid_width = grid.width();
        let grid_height = grid.height();

        let row_start = if cell_x >= effect_range {
            cell_x - effect_range
        } else {
            0
        };
        let row_end = if grid_width - cell_x > effect_range {
            cell_x + effect_range + 1
        } else {
            grid_width
        };
        let col_start = if cell_y >= effect_range {
            cell_y - effect_range
        } else {
            0
        };
        let col_end = if grid_height - cell_y > effect_range {
            cell_y + effect_range + 1
        } else {
            grid_height
        };
        proof {
            assert(row_start == region_lo(cell_x, effect_range));
            assert(row_end == region_hi(cell_x, effect_range, grid_width));
            assert(col_start == region_lo(cell_y, effect_range));
            assert(col_end == region_hi(cell_y, effect_range, grid_height));
        }

        let next_cell = Self::calculate_next_cell(
            cell_x,
            cell_y,
            grid_width,
            grid_height,
            &self.direction,
        );

        // applies cell effects to the clamped neighbourhood
        grid.apply_cell_effects(cell_x, cell_y, row_start, row_end, col_start, col_end);

        if next_cell.0 == 0 && next_cell.1 == 0 {
            // this step completes a sweep: applies global effects everywhere
            grid.apply_global_effects();
        }

        // resets the cursor position
        self.cell = next_cell;

        Ok(())
    }
}

} // verus!
