//! Cell storage, footprint-aware occupancy bookkeeping and effect sets.
//!
//! The grid owns an arena of entity records keyed by unique ids; cells hold
//! only ids. An entity's footprint is the rectangle of cells anchored at its
//! placement position; every footprint cell lists the id among its occupants,
//! and the record at the id is the single authoritative copy of the entity.

use vstd::prelude::*;

use crate::effects::Effect;
use crate::effects::effect_eq;
use crate::effects::spec_apply_effect;
use crate::entities::Entity;
use crate::entities::entity_is_blocking;
use crate::entities::entity_size;
use crate::entities::spec_entity_size;
use crate::entities::spec_is_blocking;

verus! {

/// The derived availability of one cell.
#[derive(Clone, Copy, PartialEq, Eq, Structural, Debug)]
pub enum CellState {
    /// Passable and hosting nothing.
    AvailableEmpty,
    /// Passable, hosting only non-blocking occupants.
    AvailableOccupied,
    /// Impassable: a blocking footprint cell.
    UnavailableOccupied,
}

/// Every way a grid operation can fail. All are recoverable by the caller.
#[derive(Clone, Copy, PartialEq, Eq, Structural, Debug)]
pub enum GridError {
    /// The position is out of bounds, or a footprint cell is already claimed
    /// by a blocking entity.
    CellUnavailable,
    /// No entity with the given id occupies the named cell.
    EntityMissing,
    /// The effect value is already in the targeted set.
    EffectPresent,
    /// The effect value is not in the targeted set.
    EffectMissing,
}

/// The arena's record of one placed entity: its anchor cell and the single
/// authoritative copy of its data.
pub struct EntityRecord {
    pub anchor: (usize, usize),
    pub entity: Entity,
}

/// One cell: the ids of the entities whose footprints cover it, and the
/// locally active effects, both in insertion order.
pub struct Cell {
    pub occupants: Vec<u64>,
    pub effects: Vec<Effect>,
}

/// The world grid: fixed dimensions, dense row-major cells, an entity arena
/// and the globally active effects.
pub struct Grid {
    width: usize,
    height: usize,
    cells: Vec<Cell>,
    arena: Vec<Option<EntityRecord>>,
    global_effects: Vec<Effect>,
}

/// The row-major index of cell `(x, y)`.
pub open spec fn cell_index(w: int, x: int, y: int) -> int {
    y * w + x
}

/// Whether `(x, y)` lies inside a `w` by `h` grid.
pub open spec fn pos_in_bounds(w: int, h: int, x: int, y: int) -> bool {
    0 <= x < w && 0 <= y < h
}

/// Whether the footprint of `rec` covers cell `(x, y)`.
pub open spec fn covers(rec: EntityRecord, x: int, y: int) -> bool {
    let sz = spec_entity_size(rec.entity);
    &&& rec.anchor.0 <= x < rec.anchor.0 + sz.0
    &&& rec.anchor.1 <= y < rec.anchor.1 + sz.1
}

/// The record an id resolves to, or nothing after removal or for a foreign id.
pub open spec fn arena_at(arena: Seq<Option<EntityRecord>>, id: u64) -> Option<EntityRecord> {
    if id < arena.len() {
        arena[id as int]
    } else {
        None
    }
}

/// Whether `id` resolves to a blocking entity.
pub open spec fn blocking_at(arena: Seq<Option<EntityRecord>>, id: u64) -> bool {
    arena_at(arena, id) matches Some(rec) && spec_is_blocking(rec.entity)
}

/// Whether the effect value `e` is in `effects`, comparing by value.
pub open spec fn effect_in(effects: Seq<Effect>, e: Effect) -> bool {
    exists|k: int| 0 <= k < effects.len() && effect_eq(effects[k], e)
}

/// Whether `effects` holds no two equal effect values.
pub open spec fn effects_unique(effects: Seq<Effect>) -> bool {
    forall|p: int, q: int|
        0 <= p < q < effects.len() ==> !effect_eq(#[trigger] effects[p], #[trigger] effects[q])
}

/// Well-formedness of one cell: occupant ids are distinct, each resolves to a
/// live record whose footprint covers this cell, at most one occupant blocks,
/// and the effect set holds no duplicates.
pub open spec fn cell_wf(
    w: int,
    cells: Seq<Cell>,
    arena: Seq<Option<EntityRecord>>,
    x: int,
    y: int,
) -> bool {
    let c = cells[cell_index(w, x, y)];
    &&& forall|p: int, q: int|
        0 <= p < q < c.occupants@.len() ==> c.occupants@[p] != c.occupants@[q]
    &&& forall|p: int|
        0 <= p < c.occupants@.len() ==> (arena_at(arena, #[trigger] c.occupants@[p]) matches Some(
            rec,
        ) && covers(rec, x, y))
    &&& forall|p: int, q: int|
        0 <= p < q < c.occupants@.len() ==> !(blocking_at(arena, #[trigger] c.occupants@[p])
            && blocking_at(arena, #[trigger] c.occupants@[q]))
    &&& effects_unique(c.effects@)
}

/// Well-formedness of one arena slot: a live record's footprint is non-empty,
/// lies in bounds, and every covered cell lists the id among its occupants.
pub open spec fn record_wf(
    w: int,
    h: int,
    cells: Seq<Cell>,
    arena: Seq<Option<EntityRecord>>,
    id: int,
) -> bool {
    arena[id] matches Some(rec) ==> {
        let sz = spec_entity_size(rec.entity);
        &&& sz.0 >= 1 && sz.1 >= 1
        &&& rec.anchor.0 + sz.0 <= w
        &&& rec.anchor.1 + sz.1 <= h
        &&& forall|x: int, y: int|
            covers(rec, x, y) ==> cells[#[trigger] cell_index(w, x, y)].occupants@.contains(
                id as u64,
            )
    }
}

/// Well-formedness of a whole grid value.
pub open spec fn grid_wf(
    w: usize,
    h: usize,
    cells: Seq<Cell>,
    arena: Seq<Option<EntityRecord>>,
    globals: Seq<Effect>,
) -> bool {
    &&& w >= 1 && h >= 1
    &&& w * h <= usize::MAX
    &&& cells.len() == w * h
    &&& forall|x: int, y: int| pos_in_bounds(w as int, h as int, x, y) ==> #[trigger] cell_wf(
        w as int,
        cells,
        arena,
        x,
        y,
    )
    &&& forall|id: int| 0 <= id < arena.len() ==> #[trigger] record_wf(
        w as int,
        h as int,
        cells,
        arena,
        id,
    )
    &&& effects_unique(globals)
}

/// The derived state of cell `(x, y)`: blocked by a blocking occupant,
/// occupied by non-blocking ones only, or empty. Out-of-bounds positions read
/// as empty by convention.
pub open spec fn cell_state_spec(
    w: int,
    h: int,
    cells: Seq<Cell>,
    arena: Seq<Option<EntityRecord>>,
    x: int,
    y: int,
) -> CellState {
    if !pos_in_bounds(w, h, x, y) {
        CellState::AvailableEmpty
    } else {
        let c = cells[cell_index(w, x, y)];
        if exists|p: int| 0 <= p < c.occupants@.len() && blocking_at(arena, #[trigger] c.occupants@[p]) {
            CellState::UnavailableOccupied
        } else if c.occupants@.len() > 0 {
            CellState::AvailableOccupied
        } else {
            CellState::AvailableEmpty
        }
    }
}

/// A cell index stays below the cell count.
pub proof fn lemma_cell_index_bound(w: int, h: int, x: int, y: int)
    requires
        0 <= x < w,
        0 <= y < h,
    ensures
        0 <= cell_index(w, x, y) < w * h,
{
    assert(0 <= y * w + x < w * h) by (nonlinear_arith)
        requires
            0 <= x < w,
            0 <= y < h,
    ;
}

/// Distinct in-bounds positions have distinct cell indices.
pub proof fn lemma_cell_index_injective(w: int, h: int, x1: int, y1: int, x2: int, y2: int)
    requires
        0 <= x1 < w,
        0 <= y1 < h,
        0 <= x2 < w,
        0 <= y2 < h,
        cell_index(w, x1, y1) == cell_index(w, x2, y2),
    ensures
        x1 == x2 && y1 == y2,
{
    assert(x1 == x2 && y1 == y2) by (nonlinear_arith)
        requires
            0 <= x1 < w,
            0 <= y1 < h,
            0 <= x2 < w,
            0 <= y2 < h,
            y1 * w + x1 == y2 * w + x2,
    ;
}

impl Grid {
    /// The grid's width, in cells.
    pub closed spec fn spec_width(&self) -> usize {
        self.width
    }

    /// The grid's height, in cells.
    pub closed spec fn spec_height(&self) -> usize {
        self.height
    }

    /// The cells, in row-major order.
    pub closed spec fn cells_seq(&self) -> Seq<Cell> {
        self.cells@
    }

    /// The entity arena: one slot per id ever granted, live or removed.
    pub closed spec fn arena_seq(&self) -> Seq<Option<EntityRecord>> {
        self.arena@
    }

    /// The globally active effects, in insertion order.
    pub closed spec fn globals_seq(&self) -> Seq<Effect> {
        self.global_effects@
    }

    /// The grid's structural invariant.
    pub open spec fn wf(&self) -> bool {
        grid_wf(
            self.spec_width(),
            self.spec_height(),
            self.cells_seq(),
            self.arena_seq(),
            self.globals_seq(),
        )
    }

    /// The derived state of the cell at `pos`.
    pub open spec fn spec_cell_state(&self, pos: (usize, usize)) -> CellState {
        cell_state_spec(
            self.spec_width() as int,
            self.spec_height() as int,
            self.cells_seq(),
            self.arena_seq(),
            pos.0 as int,
            pos.1 as int,
        )
    }

    /// A fresh grid of the given dimensions: all cells empty, no entities, no
    /// effects.
    pub fn new(width: usize, height: usize) -> (r: Grid)
        requires
            width >= 1,
            height >= 1,
            width * height <= usize::MAX,
        ensures
            r.wf(),
            r.spec_width() == width,
            r.spec_height() == height,
            r.arena_seq() == Seq::<Option<EntityRecord>>::empty(),
            r.globals_seq() == Seq::<Effect>::empty(),
            forall|ci: int|
                0 <= ci < r.cells_seq().len() ==> (#[trigger] r.cells_seq()[ci]).occupants@
                    == Seq::<u64>::empty() && r.cells_seq()[ci].effects@ == Seq::<Effect>::empty(),
    {
        let count = width * height;
        let mut cells: Vec<Cell> = Vec::new();
        let mut i: usize = 0;
        while i < count
            invariant
                i <= count,
                cells@.len() == i,
                forall|ci: int|
                    0 <= ci < i ==> (#[trigger] cells@[ci]).occupants@ == Seq::<u64>::empty()
                        && cells@[ci].effects@ == Seq::<Effect>::empty(),
            decreases count - i,
        {
            cells.push(Cell { occupants: Vec::new(), effects: Vec::new() });
            i += 1;
        }
        let g = Grid {
            width,
            height,
            cells,
            arena: Vec::new(),
            global_effects: Vec::new(),
        };
        proof {
            assert forall|x: int, y: int|
                pos_in_bounds(width as int, height as int, x, y) implies #[trigger] cell_wf(
                width as int,
                g.cells_seq(),
                g.arena_seq(),
                x,
                y,
            ) by {
                lemma_cell_index_bound(width as int, height as int, x, y);
            }
        }
        g
    }

    /// The grid's width, in cells.
    pub fn width(&self) -> (r: usize)
        ensures
            r == self.spec_width(),
    {
        self.width
    }

    /// The grid's height, in cells.
    pub fn height(&self) -> (r: usize)
        ensures
            r == self.spec_height(),
    {
        self.height
    }

    /// Whether `pos` lies inside the grid.
    pub fn in_bounds(&self, pos: (usize, usize)) -> (r: bool)
        ensures
            r == pos_in_bounds(
                self.spec_width() as int,
                self.spec_height() as int,
                pos.0 as int,
                pos.1 as int,
            ),
    {
        pos.0 < self.width && pos.1 < self.height
    }

    /// A shared view of the cell at in-bounds position `(x, y)`.
    pub(crate) fn cell_at(&self, x: usize, y: usize) -> (r: &Cell)
        requires
            self.wf(),
            pos_in_bounds(self.spec_width() as int, self.spec_height() as int, x as int, y as int),
        ensures
            *r == self.cells_seq()[cell_index(self.spec_width() as int, x as int, y as int)],
    {
        proof {
            lemma_cell_index_bound(
                self.spec_width() as int,
                self.spec_height() as int,
                x as int,
                y as int,
            );
        }
        &self.cells[y * self.width + x]
    }

    /// How many ids have ever been granted.
    pub(crate) fn arena_len(&self) -> (r: usize)
        ensures
            r == self.arena_seq().len(),
    {
        self.arena.len()
    }

    /// The arena slot of id `i`.
    pub(crate) fn arena_get(&self, i: usize) -> (r: &Option<EntityRecord>)
        requires
            i < self.arena_seq().len(),
        ensures
            *r == self.arena_seq()[i as int],
    {
        &self.arena[i]
    }

    /// Whether some occupant of the in-bounds cell `(x, y)` blocks it.
    fn cell_has_blocking(&self, x: usize, y: usize) -> (r: bool)
        requires
            self.wf(),
            pos_in_bounds(self.spec_width() as int, self.spec_height() as int, x as int, y as int),
        ensures
            r == exists|p: int|
                0 <= p < self.cells_seq()[cell_index(
                    self.spec_width() as int,
                    x as int,
                    y as int,
                )].occupants@.len() && blocking_at(
                self.arena_seq(),
                #[trigger] self.cells_seq()[cell_index(
                    self.spec_width() as int,
                    x as int,
                    y as int,
                )].occupants@[p],
            ),
    {
        proof {
            lemma_cell_index_bound(
                self.spec_width() as int,
                self.spec_height() as int,
                x as int,
                y as int,
            );
        }
        let ghost ci = cell_index(self.spec_width() as int, x as int, y as int);
        let cell = &self.cells[y * self.width + x];
        let n = cell.occupants.len();
        let mut p: usize = 0;
        while p < n
            invariant
                self.wf(),
                pos_in_bounds(
                    self.spec_width() as int,
                    self.spec_height() as int,
                    x as int,
                    y as int,
                ),
                ci == cell_index(self.spec_width() as int, x as int, y as int),
                0 <= ci < self.cells_seq().len(),
                *cell == self.cells_seq()[ci],
                n == cell.occupants@.len(),
                p <= n,
                forall|q: int|
                    0 <= q < p ==> !blocking_at(self.arena_seq(), #[trigger] cell.occupants@[q]),
            decreases n - p,
        {
            let id = cell.occupants[p];
            proof {
                assert(cell_wf(
                    self.spec_width() as int,
                    self.cells_seq(),
                    self.arena_seq(),
                    x as int,
                    y as int,
                ));
                assert(self.cells_seq()[ci].occupants@[p as int] == id);
                assert(arena_at(self.arena_seq(), id) is Some);
                assert(id < self.arena_seq().len());
            }
            let alen = self.arena.len();
            let idx = id as usize;
            proof {
                assert(id < alen);
                assert(idx as int == id as int);
            }
            if let Some(rec) = &self.arena[idx] {
                if entity_is_blocking(&rec.entity) {
                    proof {
                        assert(blocking_at(
                            self.arena_seq(),
                            self.cells_seq()[ci].occupants@[p as int],
                        ));
                    }
                    return true;
                }
            }
            proof {
                assert(!blocking_at(self.arena_seq(), cell.occupants@[p as int]));
            }
            p += 1;
        }
        false
    }

    /// The derived state of the cell at `pos`; out-of-bounds positions read as
    /// `AvailableEmpty`.
    pub fn cell_state(&self, pos: (usize, usize)) -> (r: CellState)
        requires
            self.wf(),
        ensures
            r == self.spec_cell_state(pos),
    {
        if pos.0 >= self.width || pos.1 >= self.height {
            return CellState::AvailableEmpty;
        }
        proof {
            lemma_cell_index_bound(
                self.spec_width() as int,
                self.spec_height() as int,
                pos.0 as int,
                pos.1 as int,
            );
        }
        if self.cell_has_blocking(pos.0, pos.1) {
            CellState::UnavailableOccupied
        } else if self.cells[pos.1 * self.width + pos.0].occupants.len() > 0 {
            CellState::AvailableOccupied
        } else {
            CellState::AvailableEmpty
        }
    }

    /// A read-only view of the entity that `id` resolves to, if its footprint
    /// covers `pos`.
    pub fn entity(&self, pos: (usize, usize), id: &u64) -> (r: Option<&Entity>)
        requires
            self.wf(),
        ensures
            match r {
                Some(e) => pos_in_bounds(
                    self.spec_width() as int,
                    self.spec_height() as int,
                    pos.0 as int,
                    pos.1 as int,
                ) && self.cells_seq()[cell_index(
                    self.spec_width() as int,
                    pos.0 as int,
                    pos.1 as int,
                )].occupants@.contains(*id) && (arena_at(self.arena_seq(), *id) matches Some(rec)
                    && *e == rec.entity),
                None => !(pos_in_bounds(
                    self.spec_width() as int,
                    self.spec_height() as int,
                    pos.0 as int,
                    pos.1 as int,
                ) && self.cells_seq()[cell_index(
                    self.spec_width() as int,
                    pos.0 as int,
                    pos.1 as int,
                )].occupants@.contains(*id)),
            },
    {
        if pos.0 >= self.width || pos.1 >= self.height {
            return None;
        }
        proof {
            lemma_cell_index_bound(
                self.spec_width() as int,
                self.spec_height() as int,
                pos.0 as int,
                pos.1 as int,
            );
        }
        let ghost ci = cell_index(self.spec_width() as int, pos.0 as int, pos.1 as int);
        let cell = &self.cells[pos.1 * self.width + pos.0];
        let n = cell.occupants.len();
        let mut p: usize = 0;
        while p < n
            invariant
                self.wf(),
                pos_in_bounds(
                    self.spec_width() as int,
                    self.spec_height() as int,
                    pos.0 as int,
                    pos.1 as int,
                ),
                ci == cell_index(self.spec_width() as int, pos.0 as int, pos.1 as int),
                0 <= ci < self.cells_seq().len(),
                *cell == self.cells_seq()[ci],
                n == cell.occupants@.len(),
                p <= n,
                forall|q: int| 0 <= q < p ==> cell.occupants@[q] != *id,
            decreases n - p,
        {
            if cell.occupants[p] == *id {
                proof {
                    assert(cell_wf(
                        self.spec_width() as int,
                        self.cells_seq(),
                        self.arena_seq(),
                        pos.0 as int,
                        pos.1 as int,
                    ));
                    assert(self.cells_seq()[ci].occupants@[p as int] == *id);
                    assert(cell.occupants@.contains(*id));
                    assert(arena_at(self.arena_seq(), *id) is Some);
                    assert(*id < self.arena_seq().len());
                }
                let alen = self.arena.len();
                let idx = *id as usize;
                proof {
                    assert(*id < alen);
                    assert(idx as int == *id as int);
                }
                match &self.arena[idx] {
                    Some(rec) => {
                        proof {
                            assert(arena_at(self.arena_seq(), *id) == self.arena_seq()[*id as int]);
                        }
                        return Some(&rec.entity);
                    },
                    None => {
                        proof {
                            assert(false);
                        }
                    },
                }
            }
            p += 1;
        }
        proof {
            assert(!cell.occupants@.contains(*id));
        }
        None
    }

    /// Whether the effect value `e` is active on the cell at `pos`;
    /// out-of-bounds positions hold no effects.
    pub fn is_effect_in_cell(&self, pos: (usize, usize), e: &Effect) -> (r: bool)
        requires
            self.wf(),
        ensures
            r == (pos_in_bounds(
                self.spec_width() as int,
                self.spec_height() as int,
                pos.0 as int,
                pos.1 as int,
            ) && effect_in(
                self.cells_seq()[cell_index(
                    self.spec_width() as int,
                    pos.0 as int,
                    pos.1 as int,
                )].effects@,
                *e,
            )),
    {
        if pos.0 >= self.width || pos.1 >= self.height {
            return false;
        }
        proof {
            lemma_cell_index_bound(
                self.spec_width() as int,
                self.spec_height() as int,
                pos.0 as int,
                pos.1 as int,
            );
        }
        effects_contain(&self.cells[pos.1 * self.width + pos.0].effects, e)
    }

    /// Whether the effect value `e` is active grid-wide.
    pub fn is_effect_global(&self, e: &Effect) -> (r: bool)
        ensures
            r == effect_in(self.globals_seq(), *e),
    {
        effects_contain(&self.global_effects, e)
    }

    /// Activates `effect` on the cell at `pos` and reports the cell's state.
    /// Fails with `CellUnavailable` out of bounds and with `EffectPresent` if
    /// an equal effect value is already active there.
    pub fn add_cell_effect(&mut self, pos: (usize, usize), effect: Effect) -> (r: Result<
        CellState,
        GridError,
    >)
        requires
            old(self).wf(),
        ensures
            final(self).wf(),
            !pos_in_bounds(
                old(self).spec_width() as int,
                old(self).spec_height() as int,
                pos.0 as int,
                pos.1 as int,
            ) ==> r == Result::<CellState, GridError>::Err(GridError::CellUnavailable) && *final(self) == *old(self),
            pos_in_bounds(
                old(self).spec_width() as int,
                old(self).spec_height() as int,
                pos.0 as int,
                pos.1 as int,
            ) ==> {
                let ci = cell_index(old(self).spec_width() as int, pos.0 as int, pos.1 as int);
                if effect_in(old(self).cells_seq()[ci].effects@, effect) {
                    r == Result::<CellState, GridError>::Err(GridError::EffectPresent) && *final(self) == *old(self)
                } else {
                    &&& r == Result::<CellState, GridError>::Ok(old(self).spec_cell_state(pos))
                    &&& final(self).cells_seq().len() == old(self).cells_seq().len()
                    &&& final(self).cells_seq()[ci].occupants@ == old(
                        self,
                    ).cells_seq()[ci].occupants@
                    &&& final(self).cells_seq()[ci].effects@ == old(
                        self,
                    ).cells_seq()[ci].effects@.push(effect)
                    &&& final(self).spec_width() == old(self).spec_width()
                    &&& final(self).spec_height() == old(self).spec_height()
                    &&& final(self).arena_seq() == old(self).arena_seq()
                    &&& final(self).globals_seq() == old(self).globals_seq()
                    &&& forall|other: int|
                        0 <= other < old(self).cells_seq().len() && other != ci ==> final(self).cells_seq()[other] == old(self).cells_seq()[other]
                }
            },
    {
        if pos.0 >= self.width || pos.1 >= self.height {
            return Err(GridError::CellUnavailable);
        }
        proof {
            lemma_cell_index_bound(
                self.spec_width() as int,
                self.spec_height() as int,
                pos.0 as int,
                pos.1 as int,
            );
        }
        let ci = pos.1 * self.width + pos.0;
        if effects_contain(&self.cells[ci].effects, &effect) {
            return Err(GridError::EffectPresent);
        }
        let st = self.cell_state(pos);
        let ghost pre = *self;
        let cell = &mut self.cells[ci];
        cell.effects.push(effect);
        proof {
            assert(cell_wf(
                pre.spec_width() as int,
                pre.cells_seq(),
                pre.arena_seq(),
                pos.0 as int,
                pos.1 as int,
            ));
            lemma_effects_unique_push(pre.cells_seq()[ci as int].effects@, effect);
            assert forall|c2: int| 0 <= c2 < pre.cells_seq().len() implies #[trigger] self.cells_seq()[c2]
                == pre.cells_seq()[c2] || (self.cells_seq()[c2].occupants@
                == pre.cells_seq()[c2].occupants@ && effects_unique(self.cells_seq()[c2].effects@)) by {
                if c2 != ci as int {
                    assert(self.cells_seq()[c2] == pre.cells_seq()[c2]);
                }
            }
            lemma_wf_effects_changed(
                pre.spec_width(),
                pre.spec_height(),
                pre.cells_seq(),
                self.cells_seq(),
                pre.arena_seq(),
                pre.globals_seq(),
            );
        }
        Ok(st)
    }

    /// Deactivates the effect value `e` on the cell at `pos` and reports the
    /// cell's state. Fails with `CellUnavailable` out of bounds and with
    /// `EffectMissing` if no equal effect value is active there.
    pub fn remove_cell_effect(&mut self, pos: (usize, usize), e: &Effect) -> (r: Result<
        CellState,
        GridError,
    >)
        requires
            old(self).wf(),
        ensures
            final(self).wf(),
            !pos_in_bounds(
                old(self).spec_width() as int,
                old(self).spec_height() as int,
                pos.0 as int,
                pos.1 as int,
            ) ==> r == Result::<CellState, GridError>::Err(GridError::CellUnavailable) && *final(self) == *old(self),
            pos_in_bounds(
                old(self).spec_width() as int,
                old(self).spec_height() as int,
                pos.0 as int,
                pos.1 as int,
            ) ==> {
                let ci = cell_index(old(self).spec_width() as int, pos.0 as int, pos.1 as int);
                if !effect_in(old(self).cells_seq()[ci].effects@, *e) {
                    r == Result::<CellState, GridError>::Err(GridError::EffectMissing) && *final(self) == *old(self)
                } else {
                    &&& r == Result::<CellState, GridError>::Ok(old(self).spec_cell_state(pos))
                    &&& exists|k: int|
                        0 <= k < old(self).cells_seq()[ci].effects@.len() && effect_eq(
                            old(self).cells_seq()[ci].effects@[k],
                            *e,
                        ) && (forall|q: int|
                            0 <= q < k ==> !effect_eq(old(self).cells_seq()[ci].effects@[q], *e))
                            && final(self).cells_seq()[ci].effects@ == old(
                            self,
                        ).cells_seq()[ci].effects@.remove(k)
                    &&& final(self).cells_seq()[ci].occupants@ == old(
                        self,
                    ).cells_seq()[ci].occupants@
                    &&& final(self).spec_width() == old(self).spec_width()
                    &&& final(self).spec_height() == old(self).spec_height()
                    &&& final(self).arena_seq() == old(self).arena_seq()
                    &&& final(self).globals_seq() == old(self).globals_seq()
                    &&& final(self).cells_seq().len() == old(self).cells_seq().len()
                    &&& forall|other: int|
                        0 <= other < old(self).cells_seq().len() && other != ci ==> final(self).cells_seq()[other] == old(self).cells_seq()[other]
                }
            },
    {
        if pos.0 >= self.width || pos.1 >= self.height {
            return Err(GridError::CellUnavailable);
        }
        proof {
            lemma_cell_index_bound(
                self.spec_width() as int,
                self.spec_height() as int,
                pos.0 as int,
                pos.1 as int,
            );
        }
        let ci = pos.1 * self.width + pos.0;
        let k_opt = find_effect_index(&self.cells[ci].effects, e);
        match k_opt {
            None => Err(GridError::EffectMissing),
            Some(k) => {
                let st = self.cell_state(pos);
                let ghost pre = *self;
                let cell = &mut self.cells[ci];
                cell.effects.remove(k);
                proof {
                    assert(cell_wf(
                        pre.spec_width() as int,
                        pre.cells_seq(),
                        pre.arena_seq(),
                        pos.0 as int,
                        pos.1 as int,
                    ));
                    lemma_effects_unique_remove(pre.cells_seq()[ci as int].effects@, k as int);
                    assert forall|c2: int| 0 <= c2 < pre.cells_seq().len() implies #[trigger] self.cells_seq()[c2]
                        == pre.cells_seq()[c2] || (self.cells_seq()[c2].occupants@
                        == pre.cells_seq()[c2].occupants@ && effects_unique(
                        self.cells_seq()[c2].effects@,
                    )) by {
                        if c2 != ci as int {
                            assert(self.cells_seq()[c2] == pre.cells_seq()[c2]);
                        }
                    }
                    lemma_wf_effects_changed(
                        pre.spec_width(),
                        pre.spec_height(),
                        pre.cells_seq(),
                        self.cells_seq(),
                        pre.arena_seq(),
                        pre.globals_seq(),
                    );
                }
                Ok(st)
            },
        }
    }

    /// Deactivates every effect on the cell at `pos` and reports the cell's
    /// state; fails with `CellUnavailable` out of bounds.
    pub fn clear_cell_effects(&mut self, pos: (usize, usize)) -> (r: Result<CellState, GridError>)
        requires
            old(self).wf(),
        ensures
            final(self).wf(),
            !pos_in_bounds(
                old(self).spec_width() as int,
                old(self).spec_height() as int,
                pos.0 as int,
                pos.1 as int,
            ) ==> r == Result::<CellState, GridError>::Err(GridError::CellUnavailable) && *final(self) == *old(self),
            pos_in_bounds(
                old(self).spec_width() as int,
                old(self).spec_height() as int,
                pos.0 as int,
                pos.1 as int,
            ) ==> {
                let ci = cell_index(old(self).spec_width() as int, pos.0 as int, pos.1 as int);
                &&& r == Result::<CellState, GridError>::Ok(old(self).spec_cell_state(pos))
                &&& final(self).cells_seq()[ci].effects@ == Seq::<Effect>::empty()
                &&& final(self).cells_seq()[ci].occupants@ == old(self).cells_seq()[ci].occupants@
                &&& final(self).spec_width() == old(self).spec_width()
                &&& final(self).spec_height() == old(self).spec_height()
                &&& final(self).arena_seq() == old(self).arena_seq()
                &&& final(self).globals_seq() == old(self).globals_seq()
                &&& final(self).cells_seq().len() == old(self).cells_seq().len()
                &&& forall|other: int|
                    0 <= other < old(self).cells_seq().len() && other != ci ==> final(self).cells_seq()[other] == old(self).cells_seq()[other]
            },
    {
        if pos.0 >= self.width || pos.1 >= self.height {
            return Err(GridError::CellUnavailable);
        }
        proof {
            lemma_cell_index_bound(
                self.spec_width() as int,
                self.spec_height() as int,
                pos.0 as int,
                pos.1 as int,
            );
        }
        let ci = pos.1 * self.width + pos.0;
        let st = self.cell_state(pos);
        let ghost pre = *self;
        let cell = &mut self.cells[ci];
        cell.effects.clear();
        proof {
            assert forall|c2: int| 0 <= c2 < pre.cells_seq().len() implies #[trigger] self.cells_seq()[c2]
                == pre.cells_seq()[c2] || (self.cells_seq()[c2].occupants@
                == pre.cells_seq()[c2].occupants@ && effects_unique(self.cells_seq()[c2].effects@)) by {
                if c2 != ci as int {
                    assert(self.cells_seq()[c2] == pre.cells_seq()[c2]);
                }
            }
            lemma_wf_effects_changed(
                pre.spec_width(),
                pre.spec_height(),
                pre.cells_seq(),
                self.cells_seq(),
                pre.arena_seq(),
                pre.globals_seq(),
            );
        }
        Ok(st)
    }

    /// Activates `effect` grid-wide; fails with `EffectPresent` if an equal
    /// effect value is already active globally.
    pub fn add_global_effect(&mut self, effect: Effect) -> (r: Result<(), GridError>)
        requires
            old(self).wf(),
        ensures
            final(self).wf(),
            final(self).spec_width() == old(self).spec_width(),
            final(self).spec_height() == old(self).spec_height(),
            final(self).cells_seq() == old(self).cells_seq(),
            final(self).arena_seq() == old(self).arena_seq(),
            if effect_in(old(self).globals_seq(), effect) {
                r == Result::<(), GridError>::Err(GridError::EffectPresent) && final(self).globals_seq() == old(self).globals_seq()
            } else {
                r == Result::<(), GridError>::Ok(()) && final(self).globals_seq() == old(
                    self,
                ).globals_seq().push(effect)
            },
    {
        if effects_contain(&self.global_effects, &effect) {
            return Err(GridError::EffectPresent);
        }
        self.global_effects.push(effect);
        Ok(())
    }

    /// Deactivates the effect value `e` grid-wide; fails with `EffectMissing`
    /// if no equal effect value is active globally.
    pub fn remove_global_effect(&mut self, e: &Effect) -> (r: Result<(), GridError>)
        requires
            old(self).wf(),
        ensures
            final(self).wf(),
            final(self).spec_width() == old(self).spec_width(),
            final(self).spec_height() == old(self).spec_height(),
            final(self).cells_seq() == old(self).cells_seq(),
            final(self).arena_seq() == old(self).arena_seq(),
            if !effect_in(old(self).globals_seq(), *e) {
                r == Result::<(), GridError>::Err(GridError::EffectMissing) && final(self).globals_seq() == old(self).globals_seq()
            } else {
                r == Result::<(), GridError>::Ok(()) && exists|k: int|
                    0 <= k < old(self).globals_seq().len() && effect_eq(
                        old(self).globals_seq()[k],
                        *e,
                    ) && (forall|q: int|
                        0 <= q < k ==> !effect_eq(old(self).globals_seq()[q], *e)) && final(self).globals_seq() == old(self).globals_seq().remove(k)
            },
    {
        let k_opt = find_effect_index(&self.global_effects, e);
        match k_opt {
            None => Err(GridError::EffectMissing),
            Some(k) => {
                proof {
                    lemma_effects_unique_remove(self.globals_seq(), k as int);
                }
                self.global_effects.remove(k);
                Ok(())
            },
        }
    }

    /// Deactivates every grid-wide effect.
    pub fn clear_global_effects(&mut self)
        requires
            old(self).wf(),
        ensures
            final(self).wf(),
            final(self).spec_width() == old(self).spec_width(),
            final(self).spec_height() == old(self).spec_height(),
            final(self).cells_seq() == old(self).cells_seq(),
            final(self).arena_seq() == old(self).arena_seq(),
            final(self).globals_seq() == Seq::<Effect>::empty(),
    {
        self.global_effects.clear();
    }

    /// Places `entity` with its footprint anchored at `pos`, granting it a
    /// fresh id, and reports the anchor cell's state as it was found. Fails
    /// with `CellUnavailable` if and only if the placement is invalid: an
    /// empty footprint, a footprint cell out of bounds, or one already claimed
    /// by a blocking entity.
    pub fn add_entity(&mut self, pos: (usize, usize), entity: Entity) -> (r: Result<
        (u64, CellState),
        GridError,
    >)
        requires
            old(self).wf(),
        ensures
            final(self).wf(),
            !placement_ok(*old(self), pos, entity) ==> r == Result::<
                (u64, CellState),
                GridError,
            >::Err(GridError::CellUnavailable) && *final(self) == *old(self),
            placement_ok(*old(self), pos, entity) ==> r == Result::<
                (u64, CellState),
                GridError,
            >::Ok(
                (old(self).arena_seq().len() as u64, old(self).spec_cell_state(pos)),
            ) && add_transition(
                *old(self),
                *final(self),
                pos,
                entity,
                old(self).arena_seq().len() as u64,
            ),
    {
        let sz = entity_size(&entity);
        if sz.0 == 0 || sz.1 == 0 {
            return Err(GridError::CellUnavailable);
        }
        if sz.0 > self.width || pos.0 > self.width - sz.0 {
            return Err(GridError::CellUnavailable);
        }
        if sz.1 > self.height || pos.1 > self.height - sz.1 {
            return Err(GridError::CellUnavailable);
        }
        // Every footprint cell must be free of blocking occupants.
        let mut dx: usize = 0;
        while dx < sz.0
            invariant
                self.wf(),
                *self == *old(self),
                sz == spec_entity_size(entity),
                sz.0 >= 1 && sz.1 >= 1,
                pos.0 + sz.0 <= self.spec_width(),
                pos.1 + sz.1 <= self.spec_height(),
                dx <= sz.0,
                forall|x: int, y: int|
                    pos.0 <= x < pos.0 + dx && pos.1 <= y < pos.1 + sz.1
                        ==> cell_state_spec(
                        self.spec_width() as int,
                        self.spec_height() as int,
                        self.cells_seq(),
                        self.arena_seq(),
                        x,
                        y,
                    ) != CellState::UnavailableOccupied,
            decreases sz.0 - dx,
        {
            let mut dy: usize = 0;
            while dy < sz.1
                invariant
                    self.wf(),
                    *self == *old(self),
                    sz == spec_entity_size(entity),
                    sz.0 >= 1 && sz.1 >= 1,
                    pos.0 + sz.0 <= self.spec_width(),
                    pos.1 + sz.1 <= self.spec_height(),
                    dx < sz.0,
                    dy <= sz.1,
                    forall|x: int, y: int|
                        pos.0 <= x < pos.0 + dx && pos.1 <= y < pos.1 + sz.1
                            ==> cell_state_spec(
                            self.spec_width() as int,
                            self.spec_height() as int,
                            self.cells_seq(),
                            self.arena_seq(),
                            x,
                            y,
                        ) != CellState::UnavailableOccupied,
                    forall|y: int|
                        pos.1 <= y < pos.1 + dy ==> #[trigger] cell_state_spec(
                            self.spec_width() as int,
                            self.spec_height() as int,
                            self.cells_seq(),
                            self.arena_seq(),
                            pos.0 + dx as int,
                            y,
                        ) != CellState::UnavailableOccupied,
                decreases sz.1 - dy,
            {
                let cx = pos.0 + dx;
                let cy = pos.1 + dy;
                if self.cell_has_blocking(cx, cy) {
                    proof {
                        assert(cell_state_spec(
                            self.spec_width() as int,
                            self.spec_height() as int,
                            self.cells_seq(),
                            self.arena_seq(),
                            cx as int,
                            cy as int,
                        ) == CellState::UnavailableOccupied);
                        assert(!placement_ok(*old(self), pos, entity));
                    }
                    return Err(GridError::CellUnavailable);
                }
                dy += 1;
            }
            dx += 1;
        }
        let st = self.cell_state(pos);
        let id = self.arena.len() as u64;
        let ghost pre = *self;
        self.arena.push(Some(EntityRecord { anchor: pos, entity }));
        // Register the new id at every footprint cell.
        let mut dx: usize = 0;
        while dx < sz.0
            invariant
                pre.wf(),
                placement_ok(pre, pos, entity),
                sz == spec_entity_size(entity),
                self.arena_seq() == pre.arena_seq().push(
                    Some(EntityRecord { anchor: pos, entity: entity }),
                ),
                id == pre.arena_seq().len(),
                sz.0 >= 1 && sz.1 >= 1,
                pos.0 + sz.0 <= pre.spec_width(),
                pos.1 + sz.1 <= pre.spec_height(),
                self.spec_width() == pre.spec_width(),
                self.spec_height() == pre.spec_height(),
                self.globals_seq() == pre.globals_seq(),
                self.cells_seq().len() == pre.cells_seq().len(),
                dx <= sz.0,
                forall|x: int, y: int|
                    pos_in_bounds(
                        pre.spec_width() as int,
                        pre.spec_height() as int,
                        x,
                        y,
                    ) ==> {
                        let ci = #[trigger] cell_index(pre.spec_width() as int, x, y);
                        if pos.0 <= x < pos.0 + dx && pos.1 <= y < pos.1 + sz.1 {
                            self.cells_seq()[ci].occupants@ == pre.cells_seq()[ci].occupants@.push(
                                id,
                            ) && self.cells_seq()[ci].effects@ == pre.cells_seq()[ci].effects@
                        } else {
                            self.cells_seq()[ci] == pre.cells_seq()[ci]
                        }
                    },
            decreases sz.0 - dx,
        {
            let mut dy: usize = 0;
            while dy < sz.1
                invariant
                    pre.wf(),
                    placement_ok(pre, pos, entity),
                    sz == spec_entity_size(entity),
                    self.arena_seq() == pre.arena_seq().push(
                        Some(EntityRecord { anchor: pos, entity: entity }),
                    ),
                    id == pre.arena_seq().len(),
                    sz.0 >= 1 && sz.1 >= 1,
                    pos.0 + sz.0 <= pre.spec_width(),
                    pos.1 + sz.1 <= pre.spec_height(),
                    self.spec_width() == pre.spec_width(),
                    self.spec_height() == pre.spec_height(),
                    self.globals_seq() == pre.globals_seq(),
                    self.cells_seq().len() == pre.cells_seq().len(),
                    dx < sz.0,
                    dy <= sz.1,
                    forall|x: int, y: int|
                        pos_in_bounds(
                            pre.spec_width() as int,
                            pre.spec_height() as int,
                            x,
                            y,
                        ) ==> {
                            let ci = #[trigger] cell_index(pre.spec_width() as int, x, y);
                            if (pos.0 <= x < pos.0 + dx && pos.1 <= y < pos.1 + sz.1) || (x
                                == pos.0 + dx && pos.1 <= y < pos.1 + dy) {
                                self.cells_seq()[ci].occupants@
                                    == pre.cells_seq()[ci].occupants@.push(id)
                                    && self.cells_seq()[ci].effects@
                                    == pre.cells_seq()[ci].effects@
                            } else {
                                self.cells_seq()[ci] == pre.cells_seq()[ci]
                            }
                        },
                decreases sz.1 - dy,
            {
                let cx = pos.0 + dx;
                let cy = pos.1 + dy;
                proof {
                    lemma_cell_index_bound(
                        pre.spec_width() as int,
                        pre.spec_height() as int,
                        cx as int,
                        cy as int,
                    );
                }
                let ci = cy * self.width + cx;
                let ghost before = self.cells_seq();
                let c = &mut self.cells[ci];
                c.occupants.push(id);
                proof {
                    assert forall|x: int, y: int|
                        pos_in_bounds(
                            pre.spec_width() as int,
                            pre.spec_height() as int,
                            x,
                            y,
                        ) implies {
                        let cj = #[trigger] cell_index(pre.spec_width() as int, x, y);
                        if (pos.0 <= x < pos.0 + dx && pos.1 <= y < pos.1 + sz.1) || (x == pos.0
                            + dx && pos.1 <= y < pos.1 + dy + 1) {
                            self.cells_seq()[cj].occupants@ == pre.cells_seq()[cj].occupants@.push(
                                id,
                            ) && self.cells_seq()[cj].effects@ == pre.cells_seq()[cj].effects@
                        } else {
                            self.cells_seq()[cj] == pre.cells_seq()[cj]
                        }
                    } by {
                        let cj = cell_index(pre.spec_width() as int, x, y);
                        lemma_cell_index_bound(
                            pre.spec_width() as int,
                            pre.spec_height() as int,
                            x,
                            y,
                        );
                        if cj == ci as int {
                            lemma_cell_index_injective(
                                pre.spec_width() as int,
                                pre.spec_height() as int,
                                x,
                                y,
                                cx as int,
                                cy as int,
                            );
                        } else {
                            assert(self.cells_seq()[cj] == before[cj]);
                        }
                    }
                }
                dy += 1;
            }
            dx += 1;
        }
        proof {
            lemma_add_registration_wf(pre, *self, pos, entity, id);
        }
        Ok((id, st))
    }

    /// Removes the entity behind `id`, clearing it from every footprint cell
    /// it occupies, and reports the state the cell at `pos` had before the
    /// removal. Fails with `CellUnavailable` out of bounds and with
    /// `EntityMissing` if no entity with `id` occupies the cell at `pos`.
    pub fn remove_entity(&mut self, pos: (usize, usize), id: &u64) -> (r: Result<
        CellState,
        GridError,
    >)
        requires
            old(self).wf(),
        ensures
            final(self).wf(),
            !pos_in_bounds(
                old(self).spec_width() as int,
                old(self).spec_height() as int,
                pos.0 as int,
                pos.1 as int,
            ) ==> r == Result::<CellState, GridError>::Err(GridError::CellUnavailable) && *final(self) == *old(self),
            pos_in_bounds(
                old(self).spec_width() as int,
                old(self).spec_height() as int,
                pos.0 as int,
                pos.1 as int,
            ) ==> {
                let ci = cell_index(old(self).spec_width() as int, pos.0 as int, pos.1 as int);
                if !old(self).cells_seq()[ci].occupants@.contains(*id) {
                    r == Result::<CellState, GridError>::Err(GridError::EntityMissing) && *final(self) == *old(self)
                } else {
                    r == Result::<CellState, GridError>::Ok(old(self).spec_cell_state(pos))
                        && remove_transition(*old(self), *final(self), *id)
                }
            },
    {
        if pos.0 >= self.width || pos.1 >= self.height {
            return Err(GridError::CellUnavailable);
        }
        proof {
            lemma_cell_index_bound(
                self.spec_width() as int,
                self.spec_height() as int,
                pos.0 as int,
                pos.1 as int,
            );
        }
        let qci = pos.1 * self.width + pos.0;
        if !occupants_contain(&self.cells[qci].occupants, *id) {
            return Err(GridError::EntityMissing);
        }
        proof {
            assert(cell_wf(
                self.spec_width() as int,
                self.cells_seq(),
                self.arena_seq(),
                pos.0 as int,
                pos.1 as int,
            ));
            let k = choose|k: int|
                0 <= k < self.cells_seq()[qci as int].occupants@.len()
                    && self.cells_seq()[qci as int].occupants@[k] == *id;
            assert(arena_at(self.arena_seq(), *id) is Some);
            assert(*id < self.arena_seq().len());
        }
        let st = self.cell_state(pos);
        let alen = self.arena.len();
        let idx = *id as usize;
        proof {
            assert(*id < alen);
            assert(idx as int == *id as int);
        }
        let (ax, ay, sw, sh) = match &self.arena[idx] {
            Some(rec) => {
                let s = entity_size(&rec.entity);
                (rec.anchor.0, rec.anchor.1, s.0, s.1)
            },
            None => {
                proof {
                    assert(false);
                }
                (0, 0, 0, 0)
            },
        };
        let ghost pre = *self;
        let ghost rec = arena_at(pre.arena_seq(), *id)->Some_0;
        proof {
            assert(record_wf(
                pre.spec_width() as int,
                pre.spec_height() as int,
                pre.cells_seq(),
                pre.arena_seq(),
                *id as int,
            ));
        }
        // Clear the id from every footprint cell.
        let mut dx: usize = 0;
        while dx < sw
            invariant
                pre.wf(),
                rec == arena_at(pre.arena_seq(), *id)->Some_0,
                arena_at(pre.arena_seq(), *id) is Some,
                rec.anchor == (ax, ay),
                spec_entity_size(rec.entity) == (sw, sh),
                sw >= 1 && sh >= 1,
                ax + sw <= pre.spec_width(),
                ay + sh <= pre.spec_height(),
                *id < pre.arena_seq().len(),
                self.spec_width() == pre.spec_width(),
                self.spec_height() == pre.spec_height(),
                self.arena_seq() == pre.arena_seq(),
                self.globals_seq() == pre.globals_seq(),
                self.cells_seq().len() == pre.cells_seq().len(),
                dx <= sw,
                forall|x: int, y: int|
                    pos_in_bounds(
                        pre.spec_width() as int,
                        pre.spec_height() as int,
                        x,
                        y,
                    ) ==> {
                        let ci = #[trigger] cell_index(pre.spec_width() as int, x, y);
                        if ax <= x < ax + dx && ay <= y < ay + sh {
                            pre.cells_seq()[ci].occupants@.contains(*id)
                                && self.cells_seq()[ci].occupants@ == seq_remove_id(
                                pre.cells_seq()[ci].occupants@,
                                *id,
                            ) && self.cells_seq()[ci].effects@ == pre.cells_seq()[ci].effects@
                        } else {
                            self.cells_seq()[ci] == pre.cells_seq()[ci]
                        }
                    },
            decreases sw - dx,
        {
            let mut dy: usize = 0;
            while dy < sh
                invariant
                    pre.wf(),
                    rec == arena_at(pre.arena_seq(), *id)->Some_0,
                    arena_at(pre.arena_seq(), *id) is Some,
                    rec.anchor == (ax, ay),
                    spec_entity_size(rec.entity) == (sw, sh),
                    sw >= 1 && sh >= 1,
                    ax + sw <= pre.spec_width(),
                    ay + sh <= pre.spec_height(),
                    *id < pre.arena_seq().len(),
                    self.spec_width() == pre.spec_width(),
                    self.spec_height() == pre.spec_height(),
                    self.arena_seq() == pre.arena_seq(),
                    self.globals_seq() == pre.globals_seq(),
                    self.cells_seq().len() == pre.cells_seq().len(),
                    dx < sw,
                    dy <= sh,
                    forall|x: int, y: int|
                        pos_in_bounds(
                            pre.spec_width() as int,
                            pre.spec_height() as int,
                            x,
                            y,
                        ) ==> {
                            let ci = #[trigger] cell_index(pre.spec_width() as int, x, y);
                            if (ax <= x < ax + dx && ay <= y < ay + sh) || (x == ax + dx && ay <= y
                                < ay + dy) {
                                pre.cells_seq()[ci].occupants@.contains(*id)
                                    && self.cells_seq()[ci].occupants@ == seq_remove_id(
                                    pre.cells_seq()[ci].occupants@,
                                    *id,
                                ) && self.cells_seq()[ci].effects@
                                    == pre.cells_seq()[ci].effects@
                            } else {
                                self.cells_seq()[ci] == pre.cells_seq()[ci]
                            }
                        },
                decreases sh - dy,
            {
                let cx = ax + dx;
                let cy = ay + dy;
                proof {
                    lemma_cell_index_bound(
                        pre.spec_width() as int,
                        pre.spec_height() as int,
                        cx as int,
                        cy as int,
                    );
                    assert(covers(rec, cx as int, cy as int));
                    assert(record_wf(
                        pre.spec_width() as int,
                        pre.spec_height() as int,
                        pre.cells_seq(),
                        pre.arena_seq(),
                        *id as int,
                    ));
                    assert(pre.cells_seq()[cell_index(
                        pre.spec_width() as int,
                        cx as int,
                        cy as int,
                    )].occupants@.contains(*id));
                }
                let ci = cy * self.width + cx;
                let k = match find_id_index(&self.cells[ci].occupants, *id) {
                    Some(k) => k,
                    None => {
                        proof {
                            assert(false);
                        }
                        0
                    },
                };
                let ghost before = self.cells_seq();
                let c = &mut self.cells[ci];
                c.occupants.remove(k);
                proof {
                    assert forall|x: int, y: int|
                        pos_in_bounds(
                            pre.spec_width() as int,
                            pre.spec_height() as int,
                            x,
                            y,
                        ) implies {
                        let cj = #[trigger] cell_index(pre.spec_width() as int, x, y);
                        if (ax <= x < ax + dx && ay <= y < ay + sh) || (x == ax + dx && ay <= y < ay
                            + dy + 1) {
                            pre.cells_seq()[cj].occupants@.contains(*id)
                                && self.cells_seq()[cj].occupants@ == seq_remove_id(
                                pre.cells_seq()[cj].occupants@,
                                *id,
                            ) && self.cells_seq()[cj].effects@ == pre.cells_seq()[cj].effects@
                        } else {
                            self.cells_seq()[cj] == pre.cells_seq()[cj]
                        }
                    } by {
                        let cj = cell_index(pre.spec_width() as int, x, y);
                        lemma_cell_index_bound(
                            pre.spec_width() as int,
                            pre.spec_height() as int,
                            x,
                            y,
                        );
                        if cj == ci as int {
                            lemma_cell_index_injective(
                                pre.spec_width() as int,
                                pre.spec_height() as int,
                                x,
                                y,
                                cx as int,
                                cy as int,
                            );
                            assert(before[cj] == pre.cells_seq()[cj]);
                            lemma_remove_at_first(pre.cells_seq()[cj].occupants@, *id, k as int);
                            assert(self.cells_seq()[cj].occupants@ == seq_remove_id(
                                pre.cells_seq()[cj].occupants@,
                                *id,
                            ));
                        } else {
                            assert(self.cells_seq()[cj] == before[cj]);
                        }
                    }
                }
                dy += 1;
            }
            proof {
                assert forall|x: int, y: int|
                    pos_in_bounds(
                        pre.spec_width() as int,
                        pre.spec_height() as int,
                        x,
                        y,
                    ) implies {
                    let ci = #[trigger] cell_index(pre.spec_width() as int, x, y);
                    if ax <= x < ax + (dx + 1) && ay <= y < ay + sh {
                        pre.cells_seq()[ci].occupants@.contains(*id)
                            && self.cells_seq()[ci].occupants@ == seq_remove_id(
                            pre.cells_seq()[ci].occupants@,
                            *id,
                        ) && self.cells_seq()[ci].effects@ == pre.cells_seq()[ci].effects@
                    } else {
                        self.cells_seq()[ci] == pre.cells_seq()[ci]
                    }
                } by {
                    let ci = cell_index(pre.spec_width() as int, x, y);
                    assert(pos_in_bounds(pre.spec_width() as int, pre.spec_height() as int, x, y));
                }
            }
            dx += 1;
        }
        self.arena[idx] = None;
        proof {
            assert(pre.arena_seq().len() <= usize::MAX);
            lemma_remove_wf(pre, *self, *id);
        }
        Ok(st)
    }

    /// Whether the cell at `(x, y)` can be traversed: in bounds and not
    /// blocked.
    pub open spec fn spec_passable(&self, x: int, y: int) -> bool {
        pos_in_bounds(self.spec_width() as int, self.spec_height() as int, x, y)
            && cell_state_spec(
            self.spec_width() as int,
            self.spec_height() as int,
            self.cells_seq(),
            self.arena_seq(),
            x,
            y,
        ) != CellState::UnavailableOccupied
    }

    /// Executable passability test; agrees with `spec_passable`.
    pub(crate) fn passable_at(&self, x: usize, y: usize) -> (r: bool)
        requires
            self.wf(),
        ensures
            r == self.spec_passable(x as int, y as int),
    {
        if x >= self.width || y >= self.height {
            return false;
        }
        !self.cell_has_blocking(x, y)
    }

    /// The in-bounds, passable cells among the eight neighbours of `pos`, in
    /// the fixed order north, west, east, south, north-west, north-east,
    /// south-west, south-east.
    pub fn passable_neighbours_of(&self, pos: &(usize, usize)) -> (r: Vec<(usize, usize)>)
        requires
            self.wf(),
            pos_in_bounds(
                self.spec_width() as int,
                self.spec_height() as int,
                pos.0 as int,
                pos.1 as int,
            ),
        ensures
            r@ == spec_passable_neighbours(*self, *pos),
            forall|i: int|
                0 <= i < r@.len() ==> self.spec_passable(
                    (#[trigger] r@[i]).0 as int,
                    r@[i].1 as int,
                ) && r@[i] != *pos && chebyshev(
                    r@[i].0 as int,
                    r@[i].1 as int,
                    pos.0 as int,
                    pos.1 as int,
                ) == 1,
            forall|q: (usize, usize)|
                self.spec_passable(q.0 as int, q.1 as int) && chebyshev(
                    q.0 as int,
                    q.1 as int,
                    pos.0 as int,
                    pos.1 as int,
                ) == 1 ==> r@.contains(q),
    {
        let x = pos.0;
        let y = pos.1;
        let mut r: Vec<(usize, usize)> = Vec::new();
        if y > 0 && self.passable_at(x, y - 1) {
            r.push((x, y - 1));
        }
        proof {
            assert(r@ == pn_upto(*self, *pos, 1)) by {
                reveal_with_fuel(pn_upto, 2);
            }
        }
        if x > 0 && self.passable_at(x - 1, y) {
            r.push((x - 1, y));
        }
        proof {
            assert(r@ == pn_upto(*self, *pos, 2)) by {
                reveal_with_fuel(pn_upto, 3);
            }
        }
        if self.passable_at(x + 1, y) {
            r.push((x + 1, y));
        }
        proof {
            assert(r@ == pn_upto(*self, *pos, 3)) by {
                reveal_with_fuel(pn_upto, 4);
            }
        }
        if self.passable_at(x, y + 1) {
            r.push((x, y + 1));
        }
        proof {
            assert(r@ == pn_upto(*self, *pos, 4)) by {
                reveal_with_fuel(pn_upto, 5);
            }
        }
        if x > 0 && y > 0 && self.passable_at(x - 1, y - 1) {
            r.push((x - 1, y - 1));
        }
        proof {
            assert(r@ == pn_upto(*self, *pos, 5)) by {
                reveal_with_fuel(pn_upto, 6);
            }
        }
        if y > 0 && self.passable_at(x + 1, y - 1) {
            r.push((x + 1, y - 1));
        }
        proof {
            assert(r@ == pn_upto(*self, *pos, 6)) by {
                reveal_with_fuel(pn_upto, 7);
            }
        }
        if x > 0 && self.passable_at(x - 1, y + 1) {
            r.push((x - 1, y + 1));
        }
        proof {
            assert(r@ == pn_upto(*self, *pos, 7)) by {
                reveal_with_fuel(pn_upto, 8);
            }
        }
        if self.passable_at(x + 1, y + 1) {
            r.push((x + 1, y + 1));
        }
        proof {
            assert(r@ == pn_upto(*self, *pos, 8)) by {
                reveal_with_fuel(pn_upto, 9);
            }
            lemma_pn_correct(*self, *pos);
            assert forall|q: (usize, usize)|
                self.spec_passable(q.0 as int, q.1 as int) && chebyshev(
                    q.0 as int,
                    q.1 as int,
                    pos.0 as int,
                    pos.1 as int,
                ) == 1 implies r@.contains(q) by {
                assert(spec_passable_neighbours(*self, *pos).contains(q));
            }
        }
        r
    }
}

impl Grid {
    /// Applies one effect to every entity occupying a cell of the rectangle
    /// `sx <= x < ex`, `sy <= y < ey`, column by column, occupants in order;
    /// each entity's state is read, transformed and committed.
    fn apply_one_effect_to_region(
        &mut self,
        src_ci: usize,
        k: usize,
        sx: usize,
        ex: usize,
        sy: usize,
        ey: usize,
    )
        requires
            src_ci < old(self).cells_seq().len(),
            k < old(self).cells_seq()[src_ci as int].effects@.len(),
            old(self).cells_seq().len() == old(self).spec_width() * old(self).spec_height(),
            old(self).spec_width() * old(self).spec_height() <= usize::MAX,
            sx <= ex && ex <= old(self).spec_width(),
            sy <= ey && ey <= old(self).spec_height(),
        ensures
            final(self).spec_width() == old(self).spec_width(),
            final(self).spec_height() == old(self).spec_height(),
            final(self).cells_seq() == old(self).cells_seq(),
            final(self).globals_seq() == old(self).globals_seq(),
            final(self).arena_seq() == apply_to_region(
                old(self).arena_seq(),
                old(self).cells_seq(),
                old(self).spec_width() as int,
                sx as int,
                ex as int,
                sy as int,
                ey as int,
                old(self).cells_seq()[src_ci as int].effects@[k as int],
            ),
    {
        let ghost wi = self.spec_width() as int;
        let ghost cells0 = self.cells_seq();
        let ghost ak = self.arena_seq();
        let ghost ek = self.cells_seq()[src_ci as int].effects@[k as int];
        let w = self.width;
        let mut x = sx;
        while x < ex
            invariant
                src_ci < self.cells_seq().len(),
                k < self.cells_seq()[src_ci as int].effects@.len(),
                self.cells_seq().len() == self.spec_width() * self.spec_height(),
                self.spec_width() * self.spec_height() <= usize::MAX,
                sx <= x <= ex,
                ex <= self.spec_width(),
                sy <= ey <= self.spec_height(),
                w == self.spec_width(),
                wi == self.spec_width() as int,
                cells0 == self.cells_seq(),
                ek == self.cells_seq()[src_ci as int].effects@[k as int],
                self.spec_width() == old(self).spec_width(),
                self.spec_height() == old(self).spec_height(),
                self.cells_seq() == old(self).cells_seq(),
                self.globals_seq() == old(self).globals_seq(),
                ak == old(self).arena_seq(),
                self.arena_seq() == apply_to_region(
                    ak,
                    cells0,
                    wi,
                    sx as int,
                    x as int,
                    sy as int,
                    ey as int,
                    ek,
                ),
            decreases ex - x,
        {
            let ghost bx = self.arena_seq();
            let mut y = sy;
            while y < ey
                invariant
                    src_ci < self.cells_seq().len(),
                    k < self.cells_seq()[src_ci as int].effects@.len(),
                    self.cells_seq().len() == self.spec_width() * self.spec_height(),
                    self.spec_width() * self.spec_height() <= usize::MAX,
                    sx <= x < ex,
                    ex <= self.spec_width(),
                    sy <= y <= ey,
                    ey <= self.spec_height(),
                    w == self.spec_width(),
                    wi == self.spec_width() as int,
                    cells0 == self.cells_seq(),
                    ek == self.cells_seq()[src_ci as int].effects@[k as int],
                    self.spec_width() == old(self).spec_width(),
                    self.spec_height() == old(self).spec_height(),
                    self.cells_seq() == old(self).cells_seq(),
                    self.globals_seq() == old(self).globals_seq(),
                    self.arena_seq() == apply_to_col(
                        bx,
                        cells0,
                        wi,
                        x as int,
                        sy as int,
                        y as int,
                        ek,
                    ),
                decreases ey - y,
            {
                proof {
                    lemma_cell_index_bound(
                        self.spec_width() as int,
                        self.spec_height() as int,
                        x as int,
                        y as int,
                    );
                }
                let ghost ca = self.arena_seq();
                let tci = y * w + x;
                let ghost occ = cells0[tci as int].occupants@;
                let m = self.cells[tci].occupants.len();
                let mut j: usize = 0;
                proof {
                    assert(occ.take(0) =~= Seq::<u64>::empty());
                }
                while j < m
                    invariant
                        src_ci < self.cells_seq().len(),
                        k < self.cells_seq()[src_ci as int].effects@.len(),
                        tci < self.cells_seq().len(),
                        occ == self.cells_seq()[tci as int].occupants@,
                        m == occ.len(),
                        j <= m,
                        cells0 == self.cells_seq(),
                        ek == self.cells_seq()[src_ci as int].effects@[k as int],
                        self.spec_width() == old(self).spec_width(),
                        self.spec_height() == old(self).spec_height(),
                        self.cells_seq() == old(self).cells_seq(),
                        self.globals_seq() == old(self).globals_seq(),
                        self.arena_seq() == apply_to_ids(ca, occ.take(j as int), ek),
                    decreases m - j,
                {
                    let id = self.cells[tci].occupants[j];
                    let ghost abefore = self.arena_seq();
                    let alen = self.arena.len();
                    if id < alen as u64 {
                        let idxu = id as usize;
                        proof {
                            assert(idxu as int == id as int);
                        }
                        let eff = &self.cells[src_ci].effects[k];
                        match &mut self.arena[idxu] {
                            Some(rec) => {
                                eff.apply(&mut rec.entity);
                            },
                            None => {},
                        }
                    }
                    proof {
                        assert(self.arena_seq() == apply_to_id(abefore, id, ek));
                        assert(occ.take(j + 1) =~= occ.take(j as int).push(occ[j as int]));
                        lemma_apply_to_ids_snoc(ca, occ.take(j as int), occ[j as int], ek);
                    }
                    j += 1;
                }
                proof {
                    assert(occ.take(m as int) =~= occ);
                    lemma_apply_to_col_snoc(bx, cells0, wi, x as int, sy as int, y as int, ek);
                }
                y += 1;
            }
            proof {
                lemma_apply_to_region_snoc(
                    ak,
                    cells0,
                    wi,
                    sx as int,
                    x as int,
                    sy as int,
                    ey as int,
                    ek,
                );
            }
            x += 1;
        }
    }

    /// Applies every effect active on the cell at `(cx, cy)` — snapshotted
    /// before any mutation, in insertion order — to every entity occupying a
    /// cell of the rectangle `sx <= x < ex`, `sy <= y < ey`.
    pub(crate) fn apply_cell_effects(
        &mut self,
        cx: usize,
        cy: usize,
        sx: usize,
        ex: usize,
        sy: usize,
        ey: usize,
    )
        requires
            old(self).wf(),
            cx < old(self).spec_width(),
            cy < old(self).spec_height(),
            sx <= ex && ex <= old(self).spec_width(),
            sy <= ey && ey <= old(self).spec_height(),
        ensures
            final(self).wf(),
            final(self).spec_width() == old(self).spec_width(),
            final(self).spec_height() == old(self).spec_height(),
            final(self).cells_seq() == old(self).cells_seq(),
            final(self).globals_seq() == old(self).globals_seq(),
            final(self).arena_seq() == apply_effects_to_region(
                old(self).arena_seq(),
                old(self).cells_seq(),
                old(self).spec_width() as int,
                old(self).cells_seq()[cell_index(
                    old(self).spec_width() as int,
                    cx as int,
                    cy as int,
                )].effects@,
                sx as int,
                ex as int,
                sy as int,
                ey as int,
            ),
    {
        proof {
            lemma_cell_index_bound(
                self.spec_width() as int,
                self.spec_height() as int,
                cx as int,
                cy as int,
            );
        }
        let ghost wi = self.spec_width() as int;
        let ghost cells0 = self.cells_seq();
        let ghost a0 = self.arena_seq();
        let src_ci = cy * self.width + cx;
        let ghost effs = cells0[src_ci as int].effects@;
        let n_eff = self.cells[src_ci].effects.len();
        let mut k: usize = 0;
        proof {
            assert(effs.take(0) =~= Seq::<Effect>::empty());
        }
        while k < n_eff
            invariant
                src_ci < self.cells_seq().len(),
                self.cells_seq().len() == self.spec_width() * self.spec_height(),
                self.spec_width() * self.spec_height() <= usize::MAX,
                sx <= ex && ex <= self.spec_width(),
                sy <= ey && ey <= self.spec_height(),
                wi == self.spec_width() as int,
                cells0 == self.cells_seq(),
                effs == self.cells_seq()[src_ci as int].effects@,
                n_eff == effs.len(),
                k <= n_eff,
                self.spec_width() == old(self).spec_width(),
                self.spec_height() == old(self).spec_height(),
                self.cells_seq() == old(self).cells_seq(),
                self.globals_seq() == old(self).globals_seq(),
                a0 == old(self).arena_seq(),
                self.arena_seq() == apply_effects_to_region(
                    a0,
                    cells0,
                    wi,
                    effs.take(k as int),
                    sx as int,
                    ex as int,
                    sy as int,
                    ey as int,
                ),
            decreases n_eff - k,
        {
            self.apply_one_effect_to_region(src_ci, k, sx, ex, sy, ey);
            proof {
                assert(effs.take(k + 1) =~= effs.take(k as int).push(effs[k as int]));
                lemma_apply_effects_snoc(
                    a0,
                    cells0,
                    wi,
                    effs.take(k as int),
                    effs[k as int],
                    sx as int,
                    ex as int,
                    sy as int,
                    ey as int,
                );
            }
            k += 1;
        }
        proof {
            assert(effs.take(n_eff as int) =~= effs);
            lemma_apply_effects_shape(
                a0,
                cells0,
                wi,
                effs,
                sx as int,
                ex as int,
                sy as int,
                ey as int,
            );
            lemma_wf_same_shape(
                old(self).spec_width(),
                old(self).spec_height(),
                cells0,
                a0,
                self.arena_seq(),
                self.globals_seq(),
            );
        }
    }

    /// Applies every globally active effect — in insertion order — to every
    /// entity on the grid, with the same copy-apply-commit discipline.
    pub(crate) fn apply_global_effects(&mut self)
        requires
            old(self).wf(),
        ensures
            final(self).wf(),
            final(self).spec_width() == old(self).spec_width(),
            final(self).spec_height() == old(self).spec_height(),
            final(self).cells_seq() == old(self).cells_seq(),
            final(self).globals_seq() == old(self).globals_seq(),
            final(self).arena_seq() == apply_effects_to_region(
                old(self).arena_seq(),
                old(self).cells_seq(),
                old(self).spec_width() as int,
                old(self).globals_seq(),
                0,
                old(self).spec_width() as int,
                0,
                old(self).spec_height() as int,
            ),
    {
        let ghost wi = self.spec_width() as int;
        let ghost cells0 = self.cells_seq();
        let ghost a0 = self.arena_seq();
        let ghost effs = self.globals_seq();
        let n_eff = self.global_effects.len();
        let w = self.width;
        let h = self.height;
        let mut k: usize = 0;
        proof {
            assert(effs.take(0) =~= Seq::<Effect>::empty());
        }
        while k < n_eff
            invariant
                self.cells_seq().len() == self.spec_width() * self.spec_height(),
                self.spec_width() * self.spec_height() <= usize::MAX,
                w == self.spec_width(),
                h == self.spec_height(),
                wi == self.spec_width() as int,
                cells0 == self.cells_seq(),
                effs == self.globals_seq(),
                n_eff == effs.len(),
                k <= n_eff,
                self.spec_width() == old(self).spec_width(),
                self.spec_height() == old(self).spec_height(),
                self.cells_seq() == old(self).cells_seq(),
                self.globals_seq() == old(self).globals_seq(),
                a0 == old(self).arena_seq(),
                self.arena_seq() == apply_effects_to_region(
                    a0,
                    cells0,
                    wi,
                    effs.take(k as int),
                    0,
                    wi,
                    0,
                    self.spec_height() as int,
                ),
            decreases n_eff - k,
        {
            self.apply_one_global_effect(k);
            proof {
                assert(effs.take(k + 1) =~= effs.take(k as int).push(effs[k as int]));
                lemma_apply_effects_snoc(
                    a0,
                    cells0,
                    wi,
                    effs.take(k as int),
                    effs[k as int],
                    0,
                    wi,
                    0,
                    self.spec_height() as int,
                );
            }
            k += 1;
        }
        proof {
            assert(effs.take(n_eff as int) =~= effs);
            lemma_apply_effects_shape(
                a0,
                cells0,
                wi,
                effs,
                0,
                wi,
                0,
                self.spec_height() as int,
            );
            lemma_wf_same_shape(
                old(self).spec_width(),
                old(self).spec_height(),
                cells0,
                a0,
                self.arena_seq(),
                self.globals_seq(),
            );
        }
    }

    /// Applies one globally active effect to every entity on the grid.
    fn apply_one_global_effect(&mut self, k: usize)
        requires
            k < old(self).globals_seq().len(),
            old(self).cells_seq().len() == old(self).spec_width() * old(self).spec_height(),
            old(self).spec_width() * old(self).spec_height() <= usize::MAX,
        ensures
            final(self).spec_width() == old(self).spec_width(),
            final(self).spec_height() == old(self).spec_height(),
            final(self).cells_seq() == old(self).cells_seq(),
            final(self).globals_seq() == old(self).globals_seq(),
            final(self).arena_seq() == apply_to_region(
                old(self).arena_seq(),
                old(self).cells_seq(),
                old(self).spec_width() as int,
                0,
                old(self).spec_width() as int,
                0,
                old(self).spec_height() as int,
                old(self).globals_seq()[k as int],
            ),
    {
        let ghost wi = self.spec_width() as int;
        let ghost cells0 = self.cells_seq();
        let ghost ak = self.arena_seq();
        let ghost ek = self.globals_seq()[k as int];
        let w = self.width;
        let h = self.height;
        let mut x: usize = 0;
        while x < w
            invariant
                k < self.globals_seq().len(),
                self.cells_seq().len() == self.spec_width() * self.spec_height(),
                self.spec_width() * self.spec_height() <= usize::MAX,
                x <= w,
                w == self.spec_width(),
                h == self.spec_height(),
                wi == self.spec_width() as int,
                cells0 == self.cells_seq(),
                ek == self.globals_seq()[k as int],
                self.spec_width() == old(self).spec_width(),
                self.spec_height() == old(self).spec_height(),
                self.cells_seq() == old(self).cells_seq(),
                self.globals_seq() == old(self).globals_seq(),
                ak == old(self).arena_seq(),
                self.arena_seq() == apply_to_region(
                    ak,
                    cells0,
                    wi,
                    0,
                    x as int,
                    0,
                    h as int,
                    ek,
                ),
            decreases w - x,
        {
            let ghost bx = self.arena_seq();
            let mut y: usize = 0;
            while y < h
                invariant
                    k < self.globals_seq().len(),
                    self.cells_seq().len() == self.spec_width() * self.spec_height(),
                    self.spec_width() * self.spec_height() <= usize::MAX,
                    x < w,
                    y <= h,
                    w == self.spec_width(),
                    h == self.spec_height(),
                    wi == self.spec_width() as int,
                    cells0 == self.cells_seq(),
                    ek == self.globals_seq()[k as int],
                    self.spec_width() == old(self).spec_width(),
                    self.spec_height() == old(self).spec_height(),
                    self.cells_seq() == old(self).cells_seq(),
                    self.globals_seq() == old(self).globals_seq(),
                    self.arena_seq() == apply_to_col(
                        bx,
                        cells0,
                        wi,
                        x as int,
                        0,
                        y as int,
                        ek,
                    ),
                decreases h - y,
            {
                proof {
                    lemma_cell_index_bound(
                        self.spec_width() as int,
                        self.spec_height() as int,
                        x as int,
                        y as int,
                    );
                }
                let ghost ca = self.arena_seq();
                let tci = y * w + x;
                let ghost occ = cells0[tci as int].occupants@;
                let m = self.cells[tci].occupants.len();
                let mut j: usize = 0;
                proof {
                    assert(occ.take(0) =~= Seq::<u64>::empty());
                }
                while j < m
                    invariant
                        k < self.globals_seq().len(),
                        tci < self.cells_seq().len(),
                        occ == self.cells_seq()[tci as int].occupants@,
                        m == occ.len(),
                        j <= m,
                        cells0 == self.cells_seq(),
                        ek == self.globals_seq()[k as int],
                        self.spec_width() == old(self).spec_width(),
                        self.spec_height() == old(self).spec_height(),
                        self.cells_seq() == old(self).cells_seq(),
                        self.globals_seq() == old(self).globals_seq(),
                        self.arena_seq() == apply_to_ids(ca, occ.take(j as int), ek),
                    decreases m - j,
                {
                    let id = self.cells[tci].occupants[j];
                    let ghost abefore = self.arena_seq();
                    let alen = self.arena.len();
                    if id < alen as u64 {
                        let idxu = id as usize;
                        proof {
                            assert(idxu as int == id as int);
                        }
                        let eff = &self.global_effects[k];
                        match &mut self.arena[idxu] {
                            Some(rec) => {
                                eff.apply(&mut rec.entity);
                            },
                            None => {},
                        }
                    }
                    proof {
                        assert(self.arena_seq() == apply_to_id(abefore, id, ek));
                        assert(occ.take(j + 1) =~= occ.take(j as int).push(occ[j as int]));
                        lemma_apply_to_ids_snoc(ca, occ.take(j as int), occ[j as int], ek);
                    }
                    j += 1;
                }
                proof {
                    assert(occ.take(m as int) =~= occ);
                    lemma_apply_to_col_snoc(bx, cells0, wi, x as int, 0, y as int, ek);
                }
                y += 1;
            }
            proof {
                lemma_apply_to_region_snoc(ak, cells0, wi, 0, x as int, 0, h as int, ek);
            }
            x += 1;
        }
    }
}

/// The eight neighbour offsets, in scan order: north, west, east, south, then
/// the diagonals.
pub open spec fn neighbour_offsets() -> Seq<(int, int)> {
    seq![(0, -1), (-1, 0), (1, 0), (0, 1), (-1, -1), (1, -1), (-1, 1), (1, 1)]
}

/// The Chebyshev distance between two cells.
pub open spec fn chebyshev(x1: int, y1: int, x2: int, y2: int) -> int {
    let dx = if x1 >= x2 {
        x1 - x2
    } else {
        x2 - x1
    };
    let dy = if y1 >= y2 {
        y1 - y2
    } else {
        y2 - y1
    };
    if dx >= dy {
        dx
    } else {
        dy
    }
}

/// The passable neighbours among the first `n` offsets, in offset order.
pub open spec fn pn_upto(g: Grid, pos: (usize, usize), n: int) -> Seq<(usize, usize)>
    decreases n,
{
    if n <= 0 {
        Seq::empty()
    } else {
        let p = pn_upto(g, pos, n - 1);
        let off = neighbour_offsets()[n - 1];
        let nx = pos.0 + off.0;
        let ny = pos.1 + off.1;
        if g.spec_passable(nx, ny) {
            p.push((nx as usize, ny as usize))
        } else {
            p
        }
    }
}

/// The full passable-neighbour list of `pos`.
pub open spec fn spec_passable_neighbours(g: Grid, pos: (usize, usize)) -> Seq<(usize, usize)> {
    pn_upto(g, pos, 8)
}

/// The neighbour list holds exactly the passable cells at Chebyshev distance
/// one from `pos`: never `pos` itself, never an out-of-bounds cell, and no
/// passable adjacent cell is missing.
/// Membership in a neighbour-list prefix survives extending the prefix.
proof fn lemma_pn_grow_to(g: Grid, pos: (usize, usize), n: int, m: int, q: (usize, usize))
    requires
        0 <= n <= m,
        pn_upto(g, pos, n).contains(q),
    ensures
        pn_upto(g, pos, m).contains(q),
    decreases m - n,
{
    if n < m {
        let p = pn_upto(g, pos, m - 1);
        assert(pn_upto(g, pos, m - 1).contains(q)) by {
            lemma_pn_grow_to(g, pos, n, m - 1, q);
        }
        let j = choose|j: int| 0 <= j < p.len() && p[j] == q;
        if pn_upto(g, pos, m) != p {
            assert(pn_upto(g, pos, m)[j] == q);
        }
    }
}

/// Every listed neighbour is passable, distinct from `pos`, and at Chebyshev
/// distance one.
proof fn lemma_pn_sound(g: Grid, pos: (usize, usize), n: int)
    requires
        0 <= n <= 8,
    ensures
        forall|i: int|
            0 <= i < pn_upto(g, pos, n).len() ==> g.spec_passable(
                (#[trigger] pn_upto(g, pos, n)[i]).0 as int,
                pn_upto(g, pos, n)[i].1 as int,
            ) && pn_upto(g, pos, n)[i] != pos && chebyshev(
                pn_upto(g, pos, n)[i].0 as int,
                pn_upto(g, pos, n)[i].1 as int,
                pos.0 as int,
                pos.1 as int,
            ) == 1,
    decreases n,
{
    if n > 0 {
        lemma_pn_sound(g, pos, n - 1);
        let p = pn_upto(g, pos, n - 1);
        let off = neighbour_offsets()[n - 1];
        let s = pn_upto(g, pos, n);
        assert forall|i: int| 0 <= i < s.len() implies g.spec_passable(
            (#[trigger] s[i]).0 as int,
            s[i].1 as int,
        ) && s[i] != pos && chebyshev(s[i].0 as int, s[i].1 as int, pos.0 as int, pos.1 as int)
            == 1 by {
            if i < p.len() {
                assert(s[i] == p[i]);
            } else {
                assert(s[i] == ((pos.0 + off.0) as usize, (pos.1 + off.1) as usize));
            }
        }
    }
}

/// The neighbour list holds exactly the passable cells at Chebyshev distance
/// one from `pos`: never `pos` itself, never an out-of-bounds cell, and no
/// passable adjacent cell is missing.
pub proof fn lemma_pn_correct(g: Grid, pos: (usize, usize))
    requires
        g.wf(),
        pos_in_bounds(g.spec_width() as int, g.spec_height() as int, pos.0 as int, pos.1 as int),
    ensures
        forall|i: int|
            0 <= i < spec_passable_neighbours(g, pos).len() ==> g.spec_passable(
                (#[trigger] spec_passable_neighbours(g, pos)[i]).0 as int,
                spec_passable_neighbours(g, pos)[i].1 as int,
            ) && spec_passable_neighbours(g, pos)[i] != pos && chebyshev(
                spec_passable_neighbours(g, pos)[i].0 as int,
                spec_passable_neighbours(g, pos)[i].1 as int,
                pos.0 as int,
                pos.1 as int,
            ) == 1,
        forall|q: (usize, usize)|
            g.spec_passable(q.0 as int, q.1 as int) && chebyshev(
                q.0 as int,
                q.1 as int,
                pos.0 as int,
                pos.1 as int,
            ) == 1 ==> spec_passable_neighbours(g, pos).contains(q),
{
    lemma_pn_sound(g, pos, 8);
    assert forall|q: (usize, usize)|
        g.spec_passable(q.0 as int, q.1 as int) && chebyshev(
            q.0 as int,
            q.1 as int,
            pos.0 as int,
            pos.1 as int,
        ) == 1 implies spec_passable_neighbours(g, pos).contains(q) by {
        let qx = q.0 as int;
        let qy = q.1 as int;
        let px = pos.0 as int;
        let py = pos.1 as int;
        assert(px - 1 <= qx <= px + 1 && py - 1 <= qy <= py + 1);
        let k: int = if qx == px && qy == py - 1 {
            0
        } else if qx == px - 1 && qy == py {
            1
        } else if qx == px + 1 && qy == py {
            2
        } else if qx == px && qy == py + 1 {
            3
        } else if qx == px - 1 && qy == py - 1 {
            4
        } else if qx == px + 1 && qy == py - 1 {
            5
        } else if qx == px - 1 && qy == py + 1 {
            6
        } else {
            7
        };
        let off = neighbour_offsets()[k];
        assert(qx == px + off.0 && qy == py + off.1);
        let p = pn_upto(g, pos, k);
        assert(pn_upto(g, pos, k + 1) == p.push(q));
        assert(pn_upto(g, pos, k + 1).contains(q)) by {
            assert(p.push(q)[p.len() as int] == q);
        }
        lemma_pn_grow_to(g, pos, k + 1, 8, q);
    }
}

/// One effect applied to the entity behind one id: the record's entity is
/// read, transformed, and the copy committed; dead or foreign ids change
/// nothing.
pub open spec fn apply_to_id(
    arena: Seq<Option<EntityRecord>>,
    id: u64,
    e: Effect,
) -> Seq<Option<EntityRecord>> {
    if arena_at(arena, id) is Some {
        let rec = arena_at(arena, id)->Some_0;
        arena.update(
            id as int,
            Some(EntityRecord { anchor: rec.anchor, entity: spec_apply_effect(e, rec.entity) }),
        )
    } else {
        arena
    }
}

/// One effect applied to a cell's occupants, in occupant order.
pub open spec fn apply_to_ids(
    arena: Seq<Option<EntityRecord>>,
    ids: Seq<u64>,
    e: Effect,
) -> Seq<Option<EntityRecord>>
    decreases ids.len(),
{
    if ids.len() == 0 {
        arena
    } else {
        apply_to_ids(apply_to_id(arena, ids[0], e), ids.drop_first(), e)
    }
}

/// One effect applied to the cells of column `x` with `sy <= y < ey`, in
/// increasing row order.
pub open spec fn apply_to_col(
    arena: Seq<Option<EntityRecord>>,
    cells: Seq<Cell>,
    w: int,
    x: int,
    sy: int,
    ey: int,
    e: Effect,
) -> Seq<Option<EntityRecord>>
    decreases ey - sy,
{
    if sy >= ey {
        arena
    } else {
        apply_to_col(
            apply_to_ids(arena, cells[cell_index(w, x, sy)].occupants@, e),
            cells,
            w,
            x,
            sy + 1,
            ey,
            e,
        )
    }
}

/// One effect applied to the rectangle `sx <= x < ex`, `sy <= y < ey`, column
/// by column.
pub open spec fn apply_to_region(
    arena: Seq<Option<EntityRecord>>,
    cells: Seq<Cell>,
    w: int,
    sx: int,
    ex: int,
    sy: int,
    ey: int,
    e: Effect,
) -> Seq<Option<EntityRecord>>
    decreases ex - sx,
{
    if sx >= ex {
        arena
    } else {
        apply_to_region(apply_to_col(arena, cells, w, sx, sy, ey, e), cells, w, sx + 1, ex, sy, ey, e)
    }
}

/// A whole effect list applied over a rectangle, in insertion order.
pub open spec fn apply_effects_to_region(
    arena: Seq<Option<EntityRecord>>,
    cells: Seq<Cell>,
    w: int,
    effs: Seq<Effect>,
    sx: int,
    ex: int,
    sy: int,
    ey: int,
) -> Seq<Option<EntityRecord>>
    decreases effs.len(),
{
    if effs.len() == 0 {
        arena
    } else {
        apply_effects_to_region(
            apply_to_region(arena, cells, w, sx, ex, sy, ey, effs[0]),
            cells,
            w,
            effs.drop_first(),
            sx,
            ex,
            sy,
            ey,
        )
    }
}

/// Peeling the last id off an occupant fold.
proof fn lemma_apply_to_ids_snoc(arena: Seq<Option<EntityRecord>>, ids: Seq<u64>, v: u64, e: Effect)
    ensures
        apply_to_ids(arena, ids.push(v), e) == apply_to_id(apply_to_ids(arena, ids, e), v, e),
    decreases ids.len(),
{
    reveal_with_fuel(apply_to_ids, 3);
    if ids.len() == 0 {
        assert(ids.push(v)[0] == v);
        assert(ids.push(v).drop_first() =~= Seq::<u64>::empty());
    } else {
        assert(ids.push(v)[0] == ids[0]);
        assert(ids.push(v).drop_first() =~= ids.drop_first().push(v));
        lemma_apply_to_ids_snoc(apply_to_id(arena, ids[0], e), ids.drop_first(), v, e);
    }
}

/// Peeling the last row off a column fold.
proof fn lemma_apply_to_col_snoc(
    arena: Seq<Option<EntityRecord>>,
    cells: Seq<Cell>,
    w: int,
    x: int,
    sy: int,
    y: int,
    e: Effect,
)
    requires
        sy <= y,
    ensures
        apply_to_col(arena, cells, w, x, sy, y + 1, e) == apply_to_ids(
            apply_to_col(arena, cells, w, x, sy, y, e),
            cells[cell_index(w, x, y)].occupants@,
            e,
        ),
    decreases y - sy,
{
    reveal_with_fuel(apply_to_col, 3);
    if sy == y {
    } else {
        lemma_apply_to_col_snoc(
            apply_to_ids(arena, cells[cell_index(w, x, sy)].occupants@, e),
            cells,
            w,
            x,
            sy + 1,
            y,
            e,
        );
    }
}

/// Peeling the last column off a region fold.
proof fn lemma_apply_to_region_snoc(
    arena: Seq<Option<EntityRecord>>,
    cells: Seq<Cell>,
    w: int,
    sx: int,
    x: int,
    sy: int,
    ey: int,
    e: Effect,
)
    requires
        sx <= x,
    ensures
        apply_to_region(arena, cells, w, sx, x + 1, sy, ey, e) == apply_to_col(
            apply_to_region(arena, cells, w, sx, x, sy, ey, e),
            cells,
            w,
            x,
            sy,
            ey,
            e,
        ),
    decreases x - sx,
{
    reveal_with_fuel(apply_to_region, 3);
    if sx == x {
    } else {
        lemma_apply_to_region_snoc(
            apply_to_col(arena, cells, w, sx, sy, ey, e),
            cells,
            w,
            sx + 1,
            x,
            sy,
            ey,
            e,
        );
    }
}

/// Peeling the last effect off an effect-list fold.
proof fn lemma_apply_effects_snoc(
    arena: Seq<Option<EntityRecord>>,
    cells: Seq<Cell>,
    w: int,
    effs: Seq<Effect>,
    e: Effect,
    sx: int,
    ex: int,
    sy: int,
    ey: int,
)
    ensures
        apply_effects_to_region(arena, cells, w, effs.push(e), sx, ex, sy, ey) == apply_to_region(
            apply_effects_to_region(arena, cells, w, effs, sx, ex, sy, ey),
            cells,
            w,
            sx,
            ex,
            sy,
            ey,
            e,
        ),
    decreases effs.len(),
{
    reveal_with_fuel(apply_effects_to_region, 3);
    if effs.len() == 0 {
        assert(effs.push(e)[0] == e);
        assert(effs.push(e).drop_first() =~= Seq::<Effect>::empty());
    } else {
        assert(effs.push(e)[0] == effs[0]);
        assert(effs.push(e).drop_first() =~= effs.drop_first().push(e));
        lemma_apply_effects_snoc(
            apply_to_region(arena, cells, w, sx, ex, sy, ey, effs[0]),
            cells,
            w,
            effs.drop_first(),
            e,
            sx,
            ex,
            sy,
            ey,
        );
    }
}

/// Whether two arena slots agree on everything occupancy depends on: both
/// dead, or both live with the same anchor, footprint size and blocking
/// behaviour.
pub open spec fn shape_eq(s1: Option<EntityRecord>, s2: Option<EntityRecord>) -> bool {
    match (s1, s2) {
        (None, None) => true,
        (Some(r1), Some(r2)) => r1.anchor == r2.anchor && spec_entity_size(r1.entity)
            == spec_entity_size(r2.entity) && spec_is_blocking(r1.entity) == spec_is_blocking(
            r2.entity,
        ),
        _ => false,
    }
}

/// Whether two arenas agree slot-by-slot on occupancy shape.
pub open spec fn same_shape(a1: Seq<Option<EntityRecord>>, a2: Seq<Option<EntityRecord>>) -> bool {
    a2.len() == a1.len() && forall|i: int| 0 <= i < a1.len() ==> shape_eq(#[trigger] a1[i], a2[i])
}

/// Applying effects to the arena never changes its occupancy shape.
proof fn lemma_apply_to_id_shape(arena: Seq<Option<EntityRecord>>, id: u64, e: Effect)
    ensures
        same_shape(arena, apply_to_id(arena, id, e)),
{
    if arena_at(arena, id) is Some {
        let rec = arena_at(arena, id)->Some_0;
        crate::effects::lemma_apply_preserves_shape(e, rec.entity);
    }
}

/// `same_shape` chains.
proof fn lemma_same_shape_trans(
    a1: Seq<Option<EntityRecord>>,
    a2: Seq<Option<EntityRecord>>,
    a3: Seq<Option<EntityRecord>>,
)
    requires
        same_shape(a1, a2),
        same_shape(a2, a3),
    ensures
        same_shape(a1, a3),
{
    assert forall|i: int| 0 <= i < a1.len() implies shape_eq(#[trigger] a1[i], a3[i]) by {
        assert(shape_eq(a1[i], a2[i]));
        assert(shape_eq(a2[i], a3[i]));
    }
}

/// Occupant folds keep the arena's occupancy shape.
proof fn lemma_apply_to_ids_shape(arena: Seq<Option<EntityRecord>>, ids: Seq<u64>, e: Effect)
    ensures
        same_shape(arena, apply_to_ids(arena, ids, e)),
    decreases ids.len(),
{
    if ids.len() == 0 {
    } else {
        lemma_apply_to_id_shape(arena, ids[0], e);
        lemma_apply_to_ids_shape(apply_to_id(arena, ids[0], e), ids.drop_first(), e);
        lemma_same_shape_trans(
            arena,
            apply_to_id(arena, ids[0], e),
            apply_to_ids(apply_to_id(arena, ids[0], e), ids.drop_first(), e),
        );
    }
}

/// Column folds keep the arena's occupancy shape.
proof fn lemma_apply_to_col_shape(
    arena: Seq<Option<EntityRecord>>,
    cells: Seq<Cell>,
    w: int,
    x: int,
    sy: int,
    ey: int,
    e: Effect,
)
    ensures
        same_shape(arena, apply_to_col(arena, cells, w, x, sy, ey, e)),
    decreases ey - sy,
{
    if sy >= ey {
    } else {
        let a1 = apply_to_ids(arena, cells[cell_index(w, x, sy)].occupants@, e);
        lemma_apply_to_ids_shape(arena, cells[cell_index(w, x, sy)].occupants@, e);
        lemma_apply_to_col_shape(a1, cells, w, x, sy + 1, ey, e);
        lemma_same_shape_trans(arena, a1, apply_to_col(a1, cells, w, x, sy + 1, ey, e));
    }
}

/// Region folds keep the arena's occupancy shape.
proof fn lemma_apply_to_region_shape(
    arena: Seq<Option<EntityRecord>>,
    cells: Seq<Cell>,
    w: int,
    sx: int,
    ex: int,
    sy: int,
    ey: int,
    e: Effect,
)
    ensures
        same_shape(arena, apply_to_region(arena, cells, w, sx, ex, sy, ey, e)),
    decreases ex - sx,
{
    if sx >= ex {
    } else {
        let a1 = apply_to_col(arena, cells, w, sx, sy, ey, e);
        lemma_apply_to_col_shape(arena, cells, w, sx, sy, ey, e);
        lemma_apply_to_region_shape(a1, cells, w, sx + 1, ex, sy, ey, e);
        lemma_same_shape_trans(arena, a1, apply_to_region(a1, cells, w, sx + 1, ex, sy, ey, e));
    }
}

/// Effect-list folds keep the arena's occupancy shape.
pub proof fn lemma_apply_effects_shape(
    arena: Seq<Option<EntityRecord>>,
    cells: Seq<Cell>,
    w: int,
    effs: Seq<Effect>,
    sx: int,
    ex: int,
    sy: int,
    ey: int,
)
    ensures
        same_shape(arena, apply_effects_to_region(arena, cells, w, effs, sx, ex, sy, ey)),
    decreases effs.len(),
{
    if effs.len() == 0 {
    } else {
        let a1 = apply_to_region(arena, cells, w, sx, ex, sy, ey, effs[0]);
        lemma_apply_to_region_shape(arena, cells, w, sx, ex, sy, ey, effs[0]);
        lemma_apply_effects_shape(a1, cells, w, effs.drop_first(), sx, ex, sy, ey);
        lemma_same_shape_trans(
            arena,
            a1,
            apply_effects_to_region(a1, cells, w, effs.drop_first(), sx, ex, sy, ey),
        );
    }
}

/// The grid invariant only reads the arena's occupancy shape, so it survives
/// any shape-preserving change of the arena.
pub proof fn lemma_wf_same_shape(
    w: usize,
    h: usize,
    cells: Seq<Cell>,
    arena1: Seq<Option<EntityRecord>>,
    arena2: Seq<Option<EntityRecord>>,
    globals: Seq<Effect>,
)
    requires
        grid_wf(w, h, cells, arena1, globals),
        same_shape(arena1, arena2),
    ensures
        grid_wf(w, h, cells, arena2, globals),
{
    assert forall|x: int, y: int| pos_in_bounds(w as int, h as int, x, y) implies #[trigger] cell_wf(
        w as int,
        cells,
        arena2,
        x,
        y,
    ) by {
        lemma_cell_index_bound(w as int, h as int, x, y);
        assert(cell_wf(w as int, cells, arena1, x, y));
        let c = cells[cell_index(w as int, x, y)];
        assert forall|p: int| 0 <= p < c.occupants@.len() implies (arena_at(
            arena2,
            #[trigger] c.occupants@[p],
        ) matches Some(r2) && covers(r2, x, y)) by {
            assert(arena_at(arena1, c.occupants@[p]) is Some);
            assert(c.occupants@[p] < arena1.len());
            assert(shape_eq(arena1[c.occupants@[p] as int], arena2[c.occupants@[p] as int]));
        }
        assert forall|p: int, q: int| 0 <= p < q < c.occupants@.len() implies !(blocking_at(
            arena2,
            #[trigger] c.occupants@[p],
        ) && blocking_at(arena2, #[trigger] c.occupants@[q])) by {
            assert(arena_at(arena1, c.occupants@[p]) is Some);
            assert(arena_at(arena1, c.occupants@[q]) is Some);
            assert(c.occupants@[p] < arena1.len());
            assert(c.occupants@[q] < arena1.len());
            assert(shape_eq(arena1[c.occupants@[p] as int], arena2[c.occupants@[p] as int]));
            assert(shape_eq(arena1[c.occupants@[q] as int], arena2[c.occupants@[q] as int]));
            assert(!(blocking_at(arena1, c.occupants@[p]) && blocking_at(arena1, c.occupants@[q])));
        }
    }
    assert forall|id: int| 0 <= id < arena2.len() implies #[trigger] record_wf(
        w as int,
        h as int,
        cells,
        arena2,
        id,
    ) by {
        assert(record_wf(w as int, h as int, cells, arena1, id));
        assert(shape_eq(arena1[id], arena2[id]));
        if arena2[id] is Some {
            let r1 = arena1[id]->Some_0;
            let r2 = arena2[id]->Some_0;
            assert forall|x: int, y: int| covers(r2, x, y) implies cells[#[trigger] cell_index(
                w as int,
                x,
                y,
            )].occupants@.contains(id as u64) by {
                assert(covers(r1, x, y));
            }
        }
    }
}

/// `occ` with the first occurrence of `id` taken out; `occ` itself when `id`
/// does not occur.
pub open spec fn seq_remove_id(occ: Seq<u64>, id: u64) -> Seq<u64>
    decreases occ.len(),
{
    if occ.len() == 0 {
        occ
    } else if occ[0] == id {
        occ.drop_first()
    } else {
        seq![occ[0]] + seq_remove_id(occ.drop_first(), id)
    }
}

/// Removing at the first index of `id` computes `seq_remove_id`.
proof fn lemma_remove_at_first(occ: Seq<u64>, id: u64, k: int)
    requires
        0 <= k < occ.len(),
        occ[k] == id,
        forall|q: int| 0 <= q < k ==> occ[q] != id,
    ensures
        occ.remove(k) == seq_remove_id(occ, id),
    decreases k,
{
    if k == 0 {
        assert(occ.remove(0) =~= occ.drop_first());
    } else {
        lemma_remove_at_first(occ.drop_first(), id, k - 1);
        assert(occ.remove(k) =~= seq![occ[0]] + occ.drop_first().remove(k - 1));
    }
}

/// When `id` occurs, `seq_remove_id` is a removal at its first index.
proof fn lemma_seq_remove_id_exists(occ: Seq<u64>, id: u64)
    requires
        occ.contains(id),
    ensures
        exists|k: int|
            0 <= k < occ.len() && occ[k] == id && (forall|q: int| 0 <= q < k ==> occ[q] != id)
                && seq_remove_id(occ, id) == occ.remove(k),
    decreases occ.len(),
{
    if occ[0] == id {
        lemma_remove_at_first(occ, id, 0);
        assert(0 <= 0 < occ.len() && occ[0] == id && (forall|q: int| 0 <= q < 0 ==> occ[q] != id)
            && seq_remove_id(occ, id) == occ.remove(0));
    } else {
        assert(occ.drop_first().contains(id)) by {
            let j = choose|j: int| 0 <= j < occ.len() && occ[j] == id;
            assert(occ.drop_first()[j - 1] == id);
        }
        lemma_seq_remove_id_exists(occ.drop_first(), id);
        let k0 = choose|k0: int|
            0 <= k0 < occ.drop_first().len() && occ.drop_first()[k0] == id && (forall|q: int|
                0 <= q < k0 ==> occ.drop_first()[q] != id) && seq_remove_id(occ.drop_first(), id)
                == occ.drop_first().remove(k0);
        let k = k0 + 1;
        assert(occ[k] == id);
        assert forall|q: int| 0 <= q < k implies occ[q] != id by {
            if q > 0 {
                assert(occ.drop_first()[q - 1] != id);
            }
        }
        lemma_remove_at_first(occ, id, k);
        assert(seq_remove_id(occ, id) == occ.remove(k));
    }
}

/// How removing the entity behind `id` turns `pre` into `post`: the arena
/// slot empties, every footprint cell loses `id` from its occupants, and
/// nothing else moves.
pub open spec fn remove_transition(pre: Grid, post: Grid, id: u64) -> bool {
    let w = pre.spec_width() as int;
    let h = pre.spec_height() as int;
    &&& arena_at(pre.arena_seq(), id) is Some
    &&& post.spec_width() == pre.spec_width()
    &&& post.spec_height() == pre.spec_height()
    &&& post.arena_seq() == pre.arena_seq().update(id as int, None)
    &&& post.globals_seq() == pre.globals_seq()
    &&& post.cells_seq().len() == pre.cells_seq().len()
    &&& forall|x: int, y: int|
        pos_in_bounds(w, h, x, y) ==> {
            let ci = #[trigger] cell_index(w, x, y);
            let rec = arena_at(pre.arena_seq(), id)->Some_0;
            if covers(rec, x, y) {
                pre.cells_seq()[ci].occupants@.contains(id) && post.cells_seq()[ci].occupants@
                    == seq_remove_id(pre.cells_seq()[ci].occupants@, id)
                    && post.cells_seq()[ci].effects@ == pre.cells_seq()[ci].effects@
            } else {
                post.cells_seq()[ci] == pre.cells_seq()[ci]
            }
        }
}

/// Whether the placement of `entity` anchored at `pos` is valid on `g`: a
/// non-empty footprint, wholly in bounds, with no footprint cell already
/// claimed by a blocking entity.
pub open spec fn placement_ok(g: Grid, pos: (usize, usize), ent: Entity) -> bool {
    let w = g.spec_width() as int;
    let h = g.spec_height() as int;
    let sz = spec_entity_size(ent);
    &&& sz.0 >= 1 && sz.1 >= 1
    &&& pos.0 + sz.0 <= w
    &&& pos.1 + sz.1 <= h
    &&& forall|x: int, y: int|
        pos.0 <= x < pos.0 + sz.0 && pos.1 <= y < pos.1 + sz.1 ==> cell_state_spec(
            w,
            h,
            g.cells_seq(),
            g.arena_seq(),
            x,
            y,
        ) != CellState::UnavailableOccupied
}

/// How a successful placement turns `pre` into `post`: the arena grows by the
/// new record, the footprint cells gain `id` as their last occupant, and
/// nothing else moves.
pub open spec fn add_transition(
    pre: Grid,
    post: Grid,
    pos: (usize, usize),
    ent: Entity,
    id: u64,
) -> bool {
    let w = pre.spec_width() as int;
    let h = pre.spec_height() as int;
    let sz = spec_entity_size(ent);
    &&& id == pre.arena_seq().len()
    &&& post.spec_width() == pre.spec_width()
    &&& post.spec_height() == pre.spec_height()
    &&& post.arena_seq() == pre.arena_seq().push(
        Some(EntityRecord { anchor: pos, entity: ent }),
    )
    &&& post.globals_seq() == pre.globals_seq()
    &&& post.cells_seq().len() == pre.cells_seq().len()
    &&& forall|x: int, y: int|
        pos_in_bounds(w, h, x, y) ==> {
            let ci = #[trigger] cell_index(w, x, y);
            if pos.0 <= x < pos.0 + sz.0 && pos.1 <= y < pos.1 + sz.1 {
                post.cells_seq()[ci].occupants@ == pre.cells_seq()[ci].occupants@.push(id)
                    && post.cells_seq()[ci].effects@ == pre.cells_seq()[ci].effects@
            } else {
                post.cells_seq()[ci] == pre.cells_seq()[ci]
            }
        }
}

/// A valid placement, once its record is in the arena and its id registered
/// at every footprint cell, restores the grid invariant.
proof fn lemma_add_registration_wf(pre: Grid, post: Grid, pos: (usize, usize), ent: Entity, id: u64)
    requires
        pre.wf(),
        placement_ok(pre, pos, ent),
        add_transition(pre, post, pos, ent, id),
    ensures
        post.wf(),
{
    let w = pre.spec_width() as int;
    let h = pre.spec_height() as int;
    let sz = spec_entity_size(ent);
    let rec = EntityRecord { anchor: pos, entity: ent };
    let arena1 = pre.arena_seq();
    let arena2 = post.arena_seq();
    let cells1 = pre.cells_seq();
    let cells2 = post.cells_seq();
    assert(arena2[id as int] == Some(rec));
    assert forall|x: int, y: int| pos_in_bounds(w, h, x, y) implies #[trigger] cell_wf(
        w,
        cells2,
        arena2,
        x,
        y,
    ) by {
        lemma_cell_index_bound(w, h, x, y);
        let ci = cell_index(w, x, y);
        assert(cell_wf(w, cells1, arena1, x, y));
        let c1 = cells1[ci];
        let c2 = cells2[ci];
        if pos.0 <= x < pos.0 + sz.0 && pos.1 <= y < pos.1 + sz.1 {
            assert(c2.occupants@ == c1.occupants@.push(id));
            let n = c1.occupants@.len() as int;
            // each old occupant still resolves to its old record
            assert forall|p: int| 0 <= p < c2.occupants@.len() implies (arena_at(
                arena2,
                #[trigger] c2.occupants@[p],
            ) matches Some(r2) && covers(r2, x, y)) by {
                if p < n {
                    assert(c2.occupants@[p] == c1.occupants@[p]);
                    assert(arena_at(arena1, c1.occupants@[p]) is Some);
                    assert(c1.occupants@[p] < arena1.len());
                    assert(arena_at(arena2, c1.occupants@[p]) == arena_at(
                        arena1,
                        c1.occupants@[p],
                    ));
                } else {
                    assert(c2.occupants@[p] == id);
                    assert(arena_at(arena2, id) == Some(rec));
                    assert(covers(rec, x, y));
                }
            }
            // distinctness: the new id exceeds every old occupant
            assert forall|p: int, q: int| 0 <= p < q < c2.occupants@.len() implies c2.occupants@[p]
                != c2.occupants@[q] by {
                if q < n {
                    assert(c1.occupants@[p] != c1.occupants@[q]);
                } else {
                    assert(c2.occupants@[q] == id);
                    assert(c2.occupants@[p] == c1.occupants@[p]);
                    assert(arena_at(arena1, c1.occupants@[p]) is Some);
                    assert(c1.occupants@[p] < arena1.len());
                }
            }
            // at most one blocking occupant: the cell had none
            assert(cell_state_spec(w, h, cells1, arena1, x, y) != CellState::UnavailableOccupied);
            assert forall|p: int, q: int| 0 <= p < q < c2.occupants@.len() implies !(blocking_at(
                arena2,
                #[trigger] c2.occupants@[p],
            ) && blocking_at(arena2, #[trigger] c2.occupants@[q])) by {
                if p < n {
                    assert(c2.occupants@[p] == c1.occupants@[p]);
                    assert(!blocking_at(arena1, c1.occupants@[p]));
                    assert(c1.occupants@[p] < arena1.len());
                    assert(arena_at(arena2, c1.occupants@[p]) == arena_at(
                        arena1,
                        c1.occupants@[p],
                    ));
                }
            }
            assert(c2.effects@ == c1.effects@);
        } else {
            assert(c2 == c1);
            assert forall|p: int| 0 <= p < c2.occupants@.len() implies (arena_at(
                arena2,
                #[trigger] c2.occupants@[p],
            ) matches Some(r2) && covers(r2, x, y)) by {
                assert(arena_at(arena1, c1.occupants@[p]) is Some);
                assert(c1.occupants@[p] < arena1.len());
                assert(arena_at(arena2, c1.occupants@[p]) == arena_at(arena1, c1.occupants@[p]));
            }
            assert forall|p: int, q: int| 0 <= p < q < c2.occupants@.len() implies !(blocking_at(
                arena2,
                #[trigger] c2.occupants@[p],
            ) && blocking_at(arena2, #[trigger] c2.occupants@[q])) by {
                assert(!(blocking_at(arena1, c1.occupants@[p]) && blocking_at(
                    arena1,
                    c1.occupants@[q],
                )));
                assert(c1.occupants@[p] < arena1.len());
                assert(c1.occupants@[q] < arena1.len());
                assert(arena_at(arena2, c1.occupants@[p]) == arena_at(arena1, c1.occupants@[p]));
                assert(arena_at(arena2, c1.occupants@[q]) == arena_at(arena1, c1.occupants@[q]));
            }
        }
    }
    assert forall|id2: int| 0 <= id2 < arena2.len() implies #[trigger] record_wf(
        w,
        h,
        cells2,
        arena2,
        id2,
    ) by {
        if id2 < arena1.len() {
            assert(record_wf(w, h, cells1, arena1, id2));
            assert(arena2[id2] == arena1[id2]);
            if arena1[id2] is Some {
                let r2 = arena1[id2]->Some_0;
                assert forall|x: int, y: int| covers(r2, x, y) implies cells2[#[trigger] cell_index(
                    w,
                    x,
                    y,
                )].occupants@.contains(id2 as u64) by {
                    let ci = cell_index(w, x, y);
                    assert(cells1[ci].occupants@.contains(id2 as u64));
                    let k = choose|k: int|
                        0 <= k < cells1[ci].occupants@.len() && cells1[ci].occupants@[k] == id2
                            as u64;
                    assert(0 <= x < w && 0 <= y < h);
                    lemma_cell_index_bound(w, h, x, y);
                    if pos.0 <= x < pos.0 + sz.0 && pos.1 <= y < pos.1 + sz.1 {
                        assert(cells2[ci].occupants@ == cells1[ci].occupants@.push(id));
                        assert(cells2[ci].occupants@[k] == id2 as u64);
                    } else {
                        assert(cells2[ci] == cells1[ci]);
                    }
                }
            }
        } else {
            assert(id2 == id);
            assert(arena2[id2] == Some(rec));
            assert forall|x: int, y: int| covers(rec, x, y) implies cells2[#[trigger] cell_index(
                w,
                x,
                y,
            )].occupants@.contains(id) by {
                let ci = cell_index(w, x, y);
                assert(pos.0 <= x < pos.0 + sz.0 && pos.1 <= y < pos.1 + sz.1);
                assert(pos_in_bounds(w, h, x, y));
                lemma_cell_index_bound(w, h, x, y);
                assert(cells2[ci].occupants@ == cells1[ci].occupants@.push(id));
                assert(cells2[ci].occupants@.last() == id);
            }
        }
    }
}

/// Whether `id` is among `occupants`.
pub(crate) fn occupants_contain(occupants: &Vec<u64>, id: u64) -> (r: bool)
    ensures
        r == occupants@.contains(id),
{
    match find_id_index(occupants, id) {
        Some(_) => true,
        None => false,
    }
}

/// The first index in `occupants` holding `id`, if any.
fn find_id_index(occupants: &Vec<u64>, id: u64) -> (r: Option<usize>)
    ensures
        match r {
            Some(k) => k < occupants@.len() && occupants@[k as int] == id && (forall|q: int|
                0 <= q < k ==> occupants@[q] != id),
            None => !occupants@.contains(id),
        },
{
    let n = occupants.len();
    let mut k: usize = 0;
    while k < n
        invariant
            n == occupants@.len(),
            k <= n,
            forall|q: int| 0 <= q < k ==> occupants@[q] != id,
        decreases n - k,
    {
        if occupants[k] == id {
            return Some(k);
        }
        k += 1;
    }
    proof {
        assert(!occupants@.contains(id));
    }
    None
}

/// Emptying one arena slot and clearing its id from every footprint cell
/// restores the grid invariant.
proof fn lemma_remove_wf(pre: Grid, post: Grid, id: u64)
    requires
        pre.wf(),
        pre.arena_seq().len() <= usize::MAX,
        remove_transition(pre, post, id),
    ensures
        post.wf(),
{
    let w = pre.spec_width() as int;
    let h = pre.spec_height() as int;
    let arena1 = pre.arena_seq();
    let arena2 = post.arena_seq();
    let cells1 = pre.cells_seq();
    let cells2 = post.cells_seq();
    let rec = arena_at(arena1, id)->Some_0;
    assert(id < arena1.len());
    assert forall|x: int, y: int| pos_in_bounds(w, h, x, y) implies #[trigger] cell_wf(
        w,
        cells2,
        arena2,
        x,
        y,
    ) by {
        lemma_cell_index_bound(w, h, x, y);
        let ci = cell_index(w, x, y);
        assert(cell_wf(w, cells1, arena1, x, y));
        let c1 = cells1[ci];
        let c2 = cells2[ci];
        if covers(rec, x, y) {
            lemma_seq_remove_id_exists(c1.occupants@, id);
            let k = choose|k: int|
                0 <= k < c1.occupants@.len() && c1.occupants@[k] == id && (forall|q: int|
                    0 <= q < k ==> c1.occupants@[q] != id) && seq_remove_id(c1.occupants@, id)
                    == c1.occupants@.remove(k);
            assert(c2.occupants@ == c1.occupants@.remove(k));
            assert forall|p: int| 0 <= p < c2.occupants@.len() implies (arena_at(
                arena2,
                #[trigger] c2.occupants@[p],
            ) matches Some(r2) && covers(r2, x, y)) by {
                let p0: int = if p < k {
                    p
                } else {
                    p + 1
                };
                assert(c2.occupants@[p] == c1.occupants@[p0]);
                assert(c1.occupants@[p0] != c1.occupants@[k] || p0 == k);
                assert(c1.occupants@[p0] != id);
                assert(arena_at(arena1, c1.occupants@[p0]) is Some);
                assert(c1.occupants@[p0] < arena1.len());
                assert(arena_at(arena2, c1.occupants@[p0]) == arena_at(
                    arena1,
                    c1.occupants@[p0],
                ));
            }
            assert forall|p: int, q: int| 0 <= p < q < c2.occupants@.len() implies c2.occupants@[p]
                != c2.occupants@[q] by {
                let p0: int = if p < k {
                    p
                } else {
                    p + 1
                };
                let q0: int = if q < k {
                    q
                } else {
                    q + 1
                };
                assert(c2.occupants@[p] == c1.occupants@[p0]);
                assert(c2.occupants@[q] == c1.occupants@[q0]);
            }
            assert forall|p: int, q: int| 0 <= p < q < c2.occupants@.len() implies !(blocking_at(
                arena2,
                #[trigger] c2.occupants@[p],
            ) && blocking_at(arena2, #[trigger] c2.occupants@[q])) by {
                let p0: int = if p < k {
                    p
                } else {
                    p + 1
                };
                let q0: int = if q < k {
                    q
                } else {
                    q + 1
                };
                assert(c2.occupants@[p] == c1.occupants@[p0]);
                assert(c2.occupants@[q] == c1.occupants@[q0]);
                assert(c1.occupants@[p0] != id);
                assert(c1.occupants@[q0] != id);
                assert(c1.occupants@[p0] < arena1.len());
                assert(c1.occupants@[q0] < arena1.len());
                assert(arena_at(arena2, c1.occupants@[p0]) == arena_at(
                    arena1,
                    c1.occupants@[p0],
                ));
                assert(arena_at(arena2, c1.occupants@[q0]) == arena_at(
                    arena1,
                    c1.occupants@[q0],
                ));
                assert(!(blocking_at(arena1, c1.occupants@[p0]) && blocking_at(
                    arena1,
                    c1.occupants@[q0],
                )));
            }
            assert(c2.effects@ == c1.effects@);
        } else {
            assert(c2 == c1);
            // no occupant of an uncovered cell can be the removed id
            assert forall|p: int| 0 <= p < c2.occupants@.len() implies (arena_at(
                arena2,
                #[trigger] c2.occupants@[p],
            ) matches Some(r2) && covers(r2, x, y)) by {
                assert(arena_at(arena1, c1.occupants@[p]) is Some);
                if c1.occupants@[p] == id {
                    assert(covers(rec, x, y));
                }
                assert(c1.occupants@[p] != id);
                assert(c1.occupants@[p] < arena1.len());
                assert(arena_at(arena2, c1.occupants@[p]) == arena_at(arena1, c1.occupants@[p]));
            }
            assert forall|p: int, q: int| 0 <= p < q < c2.occupants@.len() implies !(blocking_at(
                arena2,
                #[trigger] c2.occupants@[p],
            ) && blocking_at(arena2, #[trigger] c2.occupants@[q])) by {
                assert(arena_at(arena1, c1.occupants@[p]) is Some);
                assert(arena_at(arena1, c1.occupants@[q]) is Some);
                if c1.occupants@[p] == id {
                    assert(covers(rec, x, y));
                }
                if c1.occupants@[q] == id {
                    assert(covers(rec, x, y));
                }
                assert(c1.occupants@[p] < arena1.len());
                assert(c1.occupants@[q] < arena1.len());
                assert(arena_at(arena2, c1.occupants@[p]) == arena_at(arena1, c1.occupants@[p]));
                assert(arena_at(arena2, c1.occupants@[q]) == arena_at(arena1, c1.occupants@[q]));
                assert(!(blocking_at(arena1, c1.occupants@[p]) && blocking_at(
                    arena1,
                    c1.occupants@[q],
                )));
            }
        }
    }
    assert forall|id2: int| 0 <= id2 < arena2.len() implies #[trigger] record_wf(
        w,
        h,
        cells2,
        arena2,
        id2,
    ) by {
        if id2 != id as int && arena2[id2] is Some {
            assert(arena2[id2] == arena1[id2]);
            assert(record_wf(w, h, cells1, arena1, id2));
            let r2 = arena1[id2]->Some_0;
            assert forall|x: int, y: int| covers(r2, x, y) implies cells2[#[trigger] cell_index(
                w,
                x,
                y,
            )].occupants@.contains(id2 as u64) by {
                let ci = cell_index(w, x, y);
                assert(cells1[ci].occupants@.contains(id2 as u64));
                let j = choose|j: int|
                    0 <= j < cells1[ci].occupants@.len() && cells1[ci].occupants@[j] == id2 as u64;
                assert(0 <= x < w && 0 <= y < h);
                lemma_cell_index_bound(w, h, x, y);
                if covers(rec, x, y) {
                    lemma_seq_remove_id_exists(cells1[ci].occupants@, id);
                    let k = choose|k: int|
                        0 <= k < cells1[ci].occupants@.len() && cells1[ci].occupants@[k] == id && (
                        forall|q: int| 0 <= q < k ==> cells1[ci].occupants@[q] != id)
                            && seq_remove_id(cells1[ci].occupants@, id)
                            == cells1[ci].occupants@.remove(k);
                    assert(cells2[ci].occupants@ == cells1[ci].occupants@.remove(k));
                    assert(id2 as u64 != id);
                    assert(j != k);
                    let j2: int = if j < k {
                        j
                    } else {
                        j - 1
                    };
                    assert(cells2[ci].occupants@[j2] == cells1[ci].occupants@[j]);
                } else {
                    assert(cells2[ci] == cells1[ci]);
                }
            }
        }
    }
}

/// Duplicate effect rejection: a well-formed effect set holds at most one
/// copy of any effect value, so once `e` is present it is present exactly
/// once — and, by the contracts of `add_cell_effect` and
/// `add_global_effect`, adding an equal value again must fail with
/// `EffectPresent`.
pub proof fn lemma_effect_present_exactly_once(effects: Seq<Effect>, e: Effect)
    requires
        effects_unique(effects),
        effect_in(effects, e),
    ensures
        exists|k: int|
            0 <= k < effects.len() && effect_eq(effects[k], e) && (forall|q: int|
                0 <= q < effects.len() && q != k ==> !effect_eq(effects[q], e)),
{
    let k = choose|k: int| 0 <= k < effects.len() && effect_eq(effects[k], e);
    assert forall|q: int| 0 <= q < effects.len() && q != k implies !effect_eq(effects[q], e) by {
        if effect_eq(effects[q], e) {
            assert(effect_eq(effects[k], effects[q]));
        }
    }
}

/// Footprint placement round trip: placing an entity marks exactly its
/// footprint cells as blocked (or merely occupied, for a non-blocking
/// entity), and removing it by its fresh id restores every cell — contents
/// and derived state — to what it was before the placement.
pub proof fn lemma_placement_round_trip(
    g0: Grid,
    g1: Grid,
    g2: Grid,
    pos: (usize, usize),
    ent: Entity,
    id: u64,
)
    requires
        g0.wf(),
        placement_ok(g0, pos, ent),
        add_transition(g0, g1, pos, ent, id),
        remove_transition(g1, g2, id),
    ensures
        forall|x: int, y: int|
            pos.0 <= x < pos.0 + spec_entity_size(ent).0 && pos.1 <= y < pos.1 + spec_entity_size(
                ent,
            ).1 ==> cell_state_spec(
                g0.spec_width() as int,
                g0.spec_height() as int,
                g1.cells_seq(),
                g1.arena_seq(),
                x,
                y,
            ) == (if spec_is_blocking(ent) {
                CellState::UnavailableOccupied
            } else {
                CellState::AvailableOccupied
            }),
        forall|x: int, y: int|
            pos_in_bounds(g0.spec_width() as int, g0.spec_height() as int, x, y) ==> {
                let ci = #[trigger] cell_index(g0.spec_width() as int, x, y);
                g2.cells_seq()[ci].occupants@ == g0.cells_seq()[ci].occupants@
                    && g2.cells_seq()[ci].effects@ == g0.cells_seq()[ci].effects@
            },
        forall|x: int, y: int|
            #![trigger cell_index(g0.spec_width() as int, x, y)]
            cell_state_spec(
                g0.spec_width() as int,
                g0.spec_height() as int,
                g2.cells_seq(),
                g2.arena_seq(),
                x,
                y,
            ) == cell_state_spec(
                g0.spec_width() as int,
                g0.spec_height() as int,
                g0.cells_seq(),
                g0.arena_seq(),
                x,
                y,
            ),
{
    let w = g0.spec_width() as int;
    let h = g0.spec_height() as int;
    let sz = spec_entity_size(ent);
    let rec = EntityRecord { anchor: pos, entity: ent };
    let arena0 = g0.arena_seq();
    let arena1 = g1.arena_seq();
    let arena2 = g2.arena_seq();
    assert(arena1[id as int] == Some(rec));
    assert(arena_at(arena1, id) == Some(rec));
    // placement states inside the footprint
    assert forall|x: int, y: int|
        pos.0 <= x < pos.0 + sz.0 && pos.1 <= y < pos.1 + sz.1 implies cell_state_spec(
        w,
        h,
        g1.cells_seq(),
        arena1,
        x,
        y,
    ) == (if spec_is_blocking(ent) {
        CellState::UnavailableOccupied
    } else {
        CellState::AvailableOccupied
    }) by {
        lemma_cell_index_bound(w, h, x, y);
        let ci = cell_index(w, x, y);
        assert(cell_wf(w, g0.cells_seq(), arena0, x, y));
        let occ0 = g0.cells_seq()[ci].occupants@;
        let occ1 = g1.cells_seq()[ci].occupants@;
        assert(occ1 == occ0.push(id));
        assert(occ1[occ1.len() - 1] == id);
        assert(blocking_at(arena1, id) == spec_is_blocking(ent));
        assert(cell_state_spec(w, h, g0.cells_seq(), arena0, x, y)
            != CellState::UnavailableOccupied);
        assert forall|p: int| 0 <= p < occ0.len() implies !blocking_at(
            arena1,
            #[trigger] occ0[p],
        ) by {
            assert(!blocking_at(arena0, occ0[p]));
            assert(arena_at(arena0, occ0[p]) is Some);
            assert(occ0[p] < arena0.len());
            assert(arena_at(arena1, occ0[p]) == arena_at(arena0, occ0[p]));
        }
        if spec_is_blocking(ent) {
            assert(exists|p: int|
                0 <= p < occ1.len() && blocking_at(arena1, #[trigger] occ1[p])) by {
                assert(blocking_at(arena1, occ1[occ1.len() - 1]));
            }
        } else {
            assert forall|p: int| 0 <= p < occ1.len() implies !blocking_at(
                arena1,
                #[trigger] occ1[p],
            ) by {
                if p < occ0.len() {
                    assert(occ1[p] == occ0[p]);
                } else {
                    assert(occ1[p] == id);
                }
            }
            assert(occ1.len() > 0);
        }
    }
    // removal restores every cell's contents
    assert forall|x: int, y: int|
        pos_in_bounds(w, h, x, y) implies {
        let ci = #[trigger] cell_index(w, x, y);
        g2.cells_seq()[ci].occupants@ == g0.cells_seq()[ci].occupants@ && g2.cells_seq()[ci].effects@
            == g0.cells_seq()[ci].effects@
    } by {
        lemma_cell_index_bound(w, h, x, y);
        let ci = cell_index(w, x, y);
        assert(cell_wf(w, g0.cells_seq(), arena0, x, y));
        let occ0 = g0.cells_seq()[ci].occupants@;
        if covers(rec, x, y) {
            assert(pos.0 <= x < pos.0 + sz.0 && pos.1 <= y < pos.1 + sz.1);
            let occ1 = g1.cells_seq()[ci].occupants@;
            assert(occ1 == occ0.push(id));
            assert forall|p: int| 0 <= p < occ0.len() implies occ0[p] != id by {
                assert(arena_at(arena0, occ0[p]) is Some);
                assert(occ0[p] < arena0.len());
            }
            assert forall|p: int| 0 <= p < occ1.len() - 1 implies occ1[p] != id by {
                assert(occ1[p] == occ0[p]);
            }
            lemma_remove_at_first(occ1, id, occ1.len() - 1);
            assert(g2.cells_seq()[ci].occupants@ == seq_remove_id(occ1, id));
            assert(occ1.remove(occ1.len() - 1) =~= occ0);
        } else {
            if pos.0 <= x < pos.0 + sz.0 && pos.1 <= y < pos.1 + sz.1 {
                assert(covers(rec, x, y));
            }
            assert(g1.cells_seq()[ci] == g0.cells_seq()[ci]);
            assert(g2.cells_seq()[ci] == g1.cells_seq()[ci]);
        }
    }
    // derived cell states are restored everywhere
    assert forall|x: int, y: int|
        #![trigger cell_index(g0.spec_width() as int, x, y)]
        cell_state_spec(w, h, g2.cells_seq(), arena2, x, y) == cell_state_spec(
        w,
        h,
        g0.cells_seq(),
        arena0,
        x,
        y,
    ) by {
        if pos_in_bounds(w, h, x, y) {
            lemma_cell_index_bound(w, h, x, y);
            let ci = cell_index(w, x, y);
            assert(cell_wf(w, g0.cells_seq(), arena0, x, y));
            let occ0 = g0.cells_seq()[ci].occupants@;
            assert(g2.cells_seq()[ci].occupants@ == occ0);
            assert forall|p: int| 0 <= p < occ0.len() implies blocking_at(
                arena2,
                #[trigger] occ0[p],
            ) == blocking_at(arena0, occ0[p]) by {
                assert(arena_at(arena0, occ0[p]) is Some);
                assert(occ0[p] < arena0.len());
                assert(occ0[p] != id);
                assert(arena_at(arena2, occ0[p]) == arena_at(arena0, occ0[p]));
            }
        }
    }
}

/// Whether `e` is in `effects`, comparing by value.
fn effects_contain(effects: &Vec<Effect>, e: &Effect) -> (r: bool)
    ensures
        r == effect_in(effects@, *e),
{
    match find_effect_index(effects, e) {
        Some(_) => true,
        None => false,
    }
}

/// The first index in `effects` holding a value equal to `e`, if any.
fn find_effect_index(effects: &Vec<Effect>, e: &Effect) -> (r: Option<usize>)
    ensures
        match r {
            Some(k) => k < effects@.len() && effect_eq(effects@[k as int], *e) && (forall|q: int|
                0 <= q < k ==> !effect_eq(effects@[q], *e)),
            None => !effect_in(effects@, *e),
        },
{
    let n = effects.len();
    let mut k: usize = 0;
    while k < n
        invariant
            n == effects@.len(),
            k <= n,
            forall|q: int| 0 <= q < k ==> !effect_eq(effects@[q], *e),
        decreases n - k,
    {
        if effects[k].same_as(e) {
            return Some(k);
        }
        k += 1;
    }
    None
}

/// Appending a fresh effect value keeps an effect set duplicate-free.
proof fn lemma_effects_unique_push(effects: Seq<Effect>, e: Effect)
    requires
        effects_unique(effects),
        !effect_in(effects, e),
    ensures
        effects_unique(effects.push(e)),
{
    let post = effects.push(e);
    assert forall|p: int, q: int| 0 <= p < q < post.len() implies !effect_eq(
        #[trigger] post[p],
        #[trigger] post[q],
    ) by {
        if q == effects.len() {
            assert(post[p] == effects[p]);
            assert(post[q] == e);
        } else {
            assert(post[p] == effects[p]);
            assert(post[q] == effects[q]);
        }
    }
}

/// Removing an element keeps an effect set duplicate-free.
proof fn lemma_effects_unique_remove(effects: Seq<Effect>, k: int)
    requires
        effects_unique(effects),
        0 <= k < effects.len(),
    ensures
        effects_unique(effects.remove(k)),
{
    let post = effects.remove(k);
    assert forall|p: int, q: int| 0 <= p < q < post.len() implies !effect_eq(
        #[trigger] post[p],
        #[trigger] post[q],
    ) by {
        let p0: int = if p < k {
            p
        } else {
            p + 1
        };
        let q0: int = if q < k {
            q
        } else {
            q + 1
        };
        assert(post[p] == effects[p0]);
        assert(post[q] == effects[q0]);
        assert(!effect_eq(effects[p0], effects[q0]));
    }
}

/// Changing only effect lists, while keeping them duplicate-free, preserves
/// the grid invariant: occupancy does not depend on effect sets.
proof fn lemma_wf_effects_changed(
    w: usize,
    h: usize,
    cells1: Seq<Cell>,
    cells2: Seq<Cell>,
    arena: Seq<Option<EntityRecord>>,
    globals: Seq<Effect>,
)
    requires
        grid_wf(w, h, cells1, arena, globals),
        cells2.len() == cells1.len(),
        forall|ci: int|
            0 <= ci < cells1.len() ==> #[trigger] cells2[ci] == cells1[ci] || (cells2[ci].occupants@
                == cells1[ci].occupants@ && effects_unique(cells2[ci].effects@)),
    ensures
        grid_wf(w, h, cells2, arena, globals),
{
    assert forall|x: int, y: int| pos_in_bounds(w as int, h as int, x, y) implies #[trigger] cell_wf(
        w as int,
        cells2,
        arena,
        x,
        y,
    ) by {
        lemma_cell_index_bound(w as int, h as int, x, y);
        let ci = cell_index(w as int, x, y);
        assert(cell_wf(w as int, cells1, arena, x, y));
        assert(cells2[ci].occupants@ == cells1[ci].occupants@);
        if cells2[ci] == cells1[ci] {
            assert(effects_unique(cells2[ci].effects@));
        }
    }
    assert forall|id: int| 0 <= id < arena.len() implies #[trigger] record_wf(
        w as int,
        h as int,
        cells2,
        arena,
        id,
    ) by {
        assert(record_wf(w as int, h as int, cells1, arena, id));
        if arena[id] is Some {
            let rec = arena[id]->Some_0;
            assert forall|x: int, y: int| covers(rec, x, y) implies cells2[#[trigger] cell_index(
                w as int,
                x,
                y,
            )].occupants@.contains(id as u64) by {
                assert(cells1[cell_index(w as int, x, y)].occupants@.contains(id as u64));
                assert(0 <= x < w && 0 <= y < h);
                lemma_cell_index_bound(w as int, h as int, x, y);
                assert(cells2[cell_index(w as int, x, y)].occupants@ == cells1[cell_index(
                    w as int,
                    x,
                    y,
                )].occupants@);
            }
        }
    }
}

} // verus!
