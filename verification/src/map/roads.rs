//! Road adjacency: a deterministic perimeter scan around an entity's
//! footprint. The four edges are searched in the fixed order north, west,
//! east, south — each in increasing coordinate order — and the first cell
//! hosting a road wins. Diagonal corners are never inspected.

use vstd::prelude::*;

use crate::entities::Entity;
use crate::map::grid::Grid;
use crate::map::grid::arena_at;
use crate::map::grid::cell_index;
use crate::map::grid::cell_wf;
use crate::map::grid::lemma_cell_index_bound;
use crate::map::grid::pos_in_bounds;
use crate::map::grid::record_wf;

verus! {

/// Whether the cell at `(x, y)` hosts a road entity.
pub open spec fn road_at(g: Grid, x: int, y: int) -> bool {
    &&& pos_in_bounds(g.spec_width() as int, g.spec_height() as int, x, y)
    &&& exists|p: int|
        0 <= p < g.cells_seq()[cell_index(g.spec_width() as int, x, y)].occupants@.len() && (
        arena_at(
            g.arena_seq(),
            #[trigger] g.cells_seq()[cell_index(g.spec_width() as int, x, y)].occupants@[p],
        ) matches Some(rec) && rec.entity is Road)
}

/// The first road cell in row `y`, for `x` from `xs` up to `xe` exclusive.
pub open spec fn first_road_in_row(g: Grid, xs: int, xe: int, y: int) -> Option<(usize, usize)>
    decreases xe - xs,
{
    if xs >= xe {
        None
    } else if road_at(g, xs, y) {
        Some((xs as usize, y as usize))
    } else {
        first_road_in_row(g, xs + 1, xe, y)
    }
}

/// The first road cell in column `x`, for `y` from `ys` up to `ye` exclusive.
pub open spec fn first_road_in_col(g: Grid, x: int, ys: int, ye: int) -> Option<(usize, usize)>
    decreases ye - ys,
{
    if ys >= ye {
        None
    } else if road_at(g, x, ys) {
        Some((x as usize, ys as usize))
    } else {
        first_road_in_col(g, x, ys + 1, ye)
    }
}

/// The perimeter scan around the footprint rectangle from `(x0, y0)` to
/// `(x1, y1)` inclusive: north edge, then west, east and south, each skipped
/// wholly when it falls outside the grid.
pub open spec fn spec_perimeter_road(g: Grid, x0: int, y0: int, x1: int, y1: int) -> Option<
    (usize, usize),
> {
    let w = g.spec_width() as int;
    let h = g.spec_height() as int;
    let north = if y0 > 0 {
        first_road_in_row(g, x0, x1 + 1, y0 - 1)
    } else {
        None
    };
    if north is Some {
        north
    } else {
        let west = if x0 > 0 {
            first_road_in_col(g, x0 - 1, y0, y1 + 1)
        } else {
            None
        };
        if west is Some {
            west
        } else {
            let east = if x1 + 1 < w {
                first_road_in_col(g, x1 + 1, y0, y1 + 1)
            } else {
                None
            };
            if east is Some {
                east
            } else {
                if y1 + 1 < h {
                    first_road_in_row(g, x0, x1 + 1, y1 + 1)
                } else {
                    None
                }
            }
        }
    }
}

/// What `find_first_adjacent_road` answers: the perimeter scan around the
/// footprint of the entity that `id` resolves to, provided `id` occupies the
/// queried cell; `None` otherwise.
pub open spec fn spec_first_adjacent_road(g: Grid, pos: (usize, usize), id: u64) -> Option<
    (usize, usize),
> {
    if pos_in_bounds(g.spec_width() as int, g.spec_height() as int, pos.0 as int, pos.1 as int)
        && g.cells_seq()[cell_index(g.spec_width() as int, pos.0 as int, pos.1 as int)].occupants@.contains(
        id,
    ) && (arena_at(g.arena_seq(), id) matches Some(rec)) {
        let rec = arena_at(g.arena_seq(), id)->Some_0;
        let sz = crate::entities::spec_entity_size(rec.entity);
        spec_perimeter_road(
            g,
            rec.anchor.0 as int,
            rec.anchor.1 as int,
            rec.anchor.0 + sz.0 - 1,
            rec.anchor.1 + sz.1 - 1,
        )
    } else {
        None
    }
}

impl Grid {
    /// Whether some occupant of the in-bounds cell `(x, y)` is a road.
    fn cell_has_road(&self, x: usize, y: usize) -> (r: bool)
        requires
            self.wf(),
            pos_in_bounds(self.spec_width() as int, self.spec_height() as int, x as int, y as int),
        ensures
            r == road_at(*self, x as int, y as int),
    {
        proof {
            lemma_cell_index_bound(
                self.spec_width() as int,
                self.spec_height() as int,
                x as int,
                y as int,
            );
        }
        let ghost ci = cell_index(self.spec_width() as int, x as int, y as int);
        let cell = self.cell_at(x, y);
        let n = cell.occupants.len();
        let mut p: usize = 0;
        while p < n
            invariant
                self.wf(),
                pos_in_bounds(
                    self.spec_width() as int,
                    self.spec_height() as int,
                    x as int,
                    y as int,
                ),
                ci == cell_index(self.spec_width() as int, x as int, y as int),
                0 <= ci < self.cells_seq().len(),
                *cell == self.cells_seq()[ci],
                n == cell.occupants@.len(),
                p <= n,
                forall|q: int|
                    0 <= q < p ==> !(arena_at(
                        self.arena_seq(),
                        #[trigger] cell.occupants@[q],
                    ) matches Some(rec) && rec.entity is Road),
            decreases n - p,
        {
            let id = cell.occupants[p];
            proof {
                assert(cell_wf(
                    self.spec_width() as int,
                    self.cells_seq(),
                    self.arena_seq(),
                    x as int,
                    y as int,
                ));
                assert(self.cells_seq()[ci].occupants@[p as int] == id);
                assert(arena_at(self.arena_seq(), id) is Some);
                assert(id < self.arena_seq().len());
            }
            let alen = self.arena_len();
            let idx = id as usize;
            proof {
                assert(id < alen);
                assert(idx as int == id as int);
            }
            match self.arena_get(idx) {
                Some(rec) => {
                    if let Entity::Road = &rec.entity {
                        proof {
                            assert(arena_at(
                                self.arena_seq(),
                                self.cells_seq()[ci].occupants@[p as int],
                            ) matches Some(r2) && r2.entity is Road);
                        }
                        return true;
                    }
                },
                None => {},
            }
            p += 1;
        }
        false
    }

    /// The first cardinally adjacent road around the footprint of the entity
    /// that `id` resolves to, scanning the north, west, east and south edges
    /// in that order; `None` when no edge cell hosts a road, or when `id`
    /// does not occupy the cell at `pos`.
    pub fn find_first_adjacent_road(&self, pos: (usize, usize), id: &u64) -> (r: Option<
        (usize, usize),
    >)
        requires
            self.wf(),
        ensures
            r == spec_first_adjacent_road(*self, pos, *id),
    {
        if pos.0 >= self.width() || pos.1 >= self.height() {
            return None;
        }
        proof {
            lemma_cell_index_bound(
                self.spec_width() as int,
                self.spec_height() as int,
                pos.0 as int,
                pos.1 as int,
            );
        }
        let cell = self.cell_at(pos.0, pos.1);
        if !crate::map::grid::occupants_contain(&cell.occupants, *id) {
            return None;
        }
        proof {
            assert(cell_wf(
                self.spec_width() as int,
                self.cells_seq(),
                self.arena_seq(),
                pos.0 as int,
                pos.1 as int,
            ));
            let k = choose|k: int|
                0 <= k < cell.occupants@.len() && cell.occupants@[k] == *id;
            assert(arena_at(self.arena_seq(), *id) is Some);
            assert(*id < self.arena_seq().len());
        }
        let alen = self.arena_len();
        let idx = *id as usize;
        proof {
            assert(*id < alen);
            assert(idx as int == *id as int);
        }
        let (x0, y0, x1, y1) = match self.arena_get(idx) {
            Some(rec) => {
                let sz = crate::entities::entity_size(&rec.entity);
                proof {
                    assert(record_wf(
                        self.spec_width() as int,
                        self.spec_height() as int,
                        self.cells_seq(),
                        self.arena_seq(),
                        *id as int,
                    ));
                }
                (rec.anchor.0, rec.anchor.1, rec.anchor.0 + sz.0 - 1, rec.anchor.1 + sz.1 - 1)
            },
            None => {
                proof {
                    assert(false);
                }
                (0, 0, 0, 0)
            },
        };
        proof {
            assert(spec_first_adjacent_road(*self, pos, *id) == spec_perimeter_road(
                *self,
                x0 as int,
                y0 as int,
                x1 as int,
                y1 as int,
            ));
        }
        // North edge.
        if y0 > 0 {
            let yn = y0 - 1;
            let mut x = x0;
            while x <= x1
                invariant
                    self.wf(),
                    x0 <= x <= x1 + 1,
                    x1 < self.spec_width(),
                    y0 >= 1,
                    yn == y0 - 1,
                    yn < self.spec_height(),
                    spec_first_adjacent_road(*self, pos, *id) == spec_perimeter_road(
                        *self,
                        x0 as int,
                        y0 as int,
                        x1 as int,
                        y1 as int,
                    ),
                    first_road_in_row(*self, x0 as int, x1 + 1, yn as int) == first_road_in_row(
                        *self,
                        x as int,
                        x1 + 1,
                        yn as int,
                    ),
                decreases x1 + 1 - x,
            {
                if self.cell_has_road(x, yn) {
                    return Some((x, yn));
                }
                x += 1;
            }
        }
        // West edge.
        if x0 > 0 {
            let xw = x0 - 1;
            let mut y = y0;
            while y <= y1
                invariant
                    self.wf(),
                    y0 <= y <= y1 + 1,
                    y1 < self.spec_height(),
                    x0 >= 1,
                    xw == x0 - 1,
                    xw < self.spec_width(),
                    spec_first_adjacent_road(*self, pos, *id) == spec_perimeter_road(
                        *self,
                        x0 as int,
                        y0 as int,
                        x1 as int,
                        y1 as int,
                    ),
                    y0 == 0 || first_road_in_row(*self, x0 as int, x1 + 1, y0 - 1) is None,
                    first_road_in_col(*self, xw as int, y0 as int, y1 + 1) == first_road_in_col(
                        *self,
                        xw as int,
                        y as int,
                        y1 + 1,
                    ),
                decreases y1 + 1 - y,
            {
                if self.cell_has_road(xw, y) {
                    return Some((xw, y));
                }
                y += 1;
            }
        }
        // East edge.
        if x1 + 1 < self.width() {
            let xe = x1 + 1;
            let mut y = y0;
            while y <= y1
                invariant
                    self.wf(),
                    y0 <= y <= y1 + 1,
                    y1 < self.spec_height(),
                    xe == x1 + 1,
                    xe < self.spec_width(),
                    spec_first_adjacent_road(*self, pos, *id) == spec_perimeter_road(
                        *self,
                        x0 as int,
                        y0 as int,
                        x1 as int,
                        y1 as int,
                    ),
                    y0 == 0 || first_road_in_row(*self, x0 as int, x1 + 1, y0 - 1) is None,
                    x0 == 0 || first_road_in_col(*self, x0 - 1, y0 as int, y1 + 1) is None,
                    first_road_in_col(*self, xe as int, y0 as int, y1 + 1) == first_road_in_col(
                        *self,
                        xe as int,
                        y as int,
                        y1 + 1,
                    ),
                decreases y1 + 1 - y,
            {
                if self.cell_has_road(xe, y) {
                    return Some((xe, y));
                }
                y += 1;
            }
        }
        // South edge.
        if y1 + 1 < self.height() {
            let ys = y1 + 1;
            let mut x = x0;
            while x <= x1
                invariant
                    self.wf(),
                    x0 <= x <= x1 + 1,
                    x1 < self.spec_width(),
                    ys == y1 + 1,
                    ys < self.spec_height(),
                    spec_first_adjacent_road(*self, pos, *id) == spec_perimeter_road(
                        *self,
                        x0 as int,
                        y0 as int,
                        x1 as int,
                        y1 as int,
                    ),
                    y0 == 0 || first_road_in_row(*self, x0 as int, x1 + 1, y0 - 1) is None,
                    x0 == 0 || first_road_in_col(*self, x0 - 1, y0 as int, y1 + 1) is None,
                    x1 + 1 >= self.spec_width() || first_road_in_col(
                        *self,
                        x1 + 1,
                        y0 as int,
                        y1 + 1,
                    ) is None,
                    first_road_in_row(*self, x0 as int, x1 + 1, ys as int) == first_road_in_row(
                        *self,
                        x as int,
                        x1 + 1,
                        ys as int,
                    ),
                decreases x1 + 1 - x,
            {
                if self.cell_has_road(x, ys) {
                    return Some((x, ys));
                }
                x += 1;
            }
        }
        None
    }
}

} // verus!
