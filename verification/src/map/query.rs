//! Named-entity lookups: the linear arena scan behind `find_named_entities`
//! and the Euclidean-nearest choice behind `find_closest_named_entity`.

use vstd::prelude::*;

use crate::entities::Entity;
use crate::entities::EntityType;
use crate::entities::spec_entity_name;
use crate::entities::spec_entity_type;
use crate::map::grid::Grid;

verus! {

/// Whether the record at one arena slot is a live entity of tag `t` named
/// `name`.
pub open spec fn slot_matches(
    slot: Option<crate::map::grid::EntityRecord>,
    t: EntityType,
    name: Seq<char>,
) -> bool {
    slot matches Some(rec) && spec_entity_type(rec.entity) == Some(t) && spec_entity_name(
        rec.entity,
    ) == Some(name)
}

/// The matches among the first `n` arena slots, in id order: anchor position
/// paired with id.
pub open spec fn named_matches_upto(g: Grid, t: EntityType, name: Seq<char>, n: int) -> Seq<
    ((usize, usize), u64),
>
    decreases n,
{
    if n <= 0 {
        Seq::empty()
    } else {
        let p = named_matches_upto(g, t, name, n - 1);
        if slot_matches(g.arena_seq()[n - 1], t, name) {
            p.push((g.arena_seq()[n - 1]->Some_0.anchor, (n - 1) as u64))
        } else {
            p
        }
    }
}

/// Every live entity of tag `t` whose name equals `name`, in id order.
pub open spec fn spec_named_matches(g: Grid, t: EntityType, name: Seq<char>) -> Seq<
    ((usize, usize), u64),
> {
    named_matches_upto(g, t, name, g.arena_seq().len() as int)
}

/// The squared Euclidean distance between two cells.
pub open spec fn dist2(a: (usize, usize), b: (usize, usize)) -> int {
    (a.0 - b.0) * (a.0 - b.0) + (a.1 - b.1) * (a.1 - b.1)
}

/// The match closest to `from` among the first `n` of `s`, paired with its
/// squared distance; an earlier match wins a tie.
pub open spec fn closest_upto(
    from: (usize, usize),
    s: Seq<((usize, usize), u64)>,
    n: int,
) -> Option<((usize, usize), int)>
    decreases n,
{
    if n <= 0 {
        None
    } else {
        let prev = closest_upto(from, s, n - 1);
        let cand = (s[n - 1].0, dist2(from, s[n - 1].0));
        match prev {
            None => Some(cand),
            Some(best) => if cand.1 < best.1 {
                Some(cand)
            } else {
                Some(best)
            },
        }
    }
}

/// The closest match overall.
pub open spec fn spec_closest_named(g: Grid, t: EntityType, name: Seq<char>, from: (usize, usize)) -> Option<
    ((usize, usize), int),
> {
    let s = spec_named_matches(g, t, name);
    closest_upto(from, s, s.len() as int)
}

/// Whether `e` is a live entity of tag `t` named as `name`.
fn entity_matches(e: &Entity, t: EntityType, name: &String) -> (r: bool)
    ensures
        r == (spec_entity_type(*e) == Some(t) && spec_entity_name(*e) == Some(name@)),
{
    match e {
        Entity::Doodad { props } => t == EntityType::Doodad && props.name == *name,
        Entity::Resource { props, .. } => t == EntityType::Resource && props.name == *name,
        Entity::Structure { props, .. } => t == EntityType::Structure && props.name == *name,
        Entity::Walker { props, .. } => t == EntityType::Walker && props.name == *name,
        Entity::Road => false,
    }
}

/// Every recorded match anchors inside the grid.
proof fn lemma_matches_in_bounds(g: Grid, t: EntityType, name: Seq<char>, n: int)
    requires
        g.wf(),
        0 <= n <= g.arena_seq().len(),
    ensures
        forall|i: int|
            0 <= i < named_matches_upto(g, t, name, n).len() ==> (#[trigger] named_matches_upto(
                g,
                t,
                name,
                n,
            )[i]).0.0 < g.spec_width() && named_matches_upto(g, t, name, n)[i].0.1
                < g.spec_height(),
    decreases n,
{
    if n > 0 {
        lemma_matches_in_bounds(g, t, name, n - 1);
        let p = named_matches_upto(g, t, name, n - 1);
        let s = named_matches_upto(g, t, name, n);
        if slot_matches(g.arena_seq()[n - 1], t, name) {
            assert(crate::map::grid::record_wf(
                g.spec_width() as int,
                g.spec_height() as int,
                g.cells_seq(),
                g.arena_seq(),
                n - 1,
            ));
            assert forall|i: int| 0 <= i < s.len() implies (#[trigger] s[i]).0.0 < g.spec_width()
                && s[i].0.1 < g.spec_height() by {
                if i < p.len() {
                    assert(s[i] == p[i]);
                }
            }
        }
    }
}

impl Grid {
    /// Every live entity with tag `entity_type` whose name equals `name`
    /// exactly, as anchor-position and id pairs in id order. Entities of
    /// other tags or with other names never appear; roads are never returned.
    pub fn find_named_entities(&self, entity_type: EntityType, name: String) -> (r: Vec<
        ((usize, usize), u64),
    >)
        ensures
            r@ == spec_named_matches(*self, entity_type, name@),
    {
        let mut r: Vec<((usize, usize), u64)> = Vec::new();
        let n = self.arena_len();
        let mut i: usize = 0;
        while i < n
            invariant
                n == self.arena_seq().len(),
                i <= n,
                r@ == named_matches_upto(*self, entity_type, name@, i as int),
            decreases n - i,
        {
            match self.arena_get(i) {
                Some(rec) => {
                    if entity_matches(&rec.entity, entity_type, &name) {
                        r.push((rec.anchor, i as u64));
                    }
                },
                None => {},
            }
            i += 1;
        }
        r
    }

    /// Among the named matches, the one whose anchor minimizes the Euclidean
    /// distance from `from`, paired with the squared distance; ties go to the
    /// first match in scan order. `None` when nothing matches.
    pub fn find_closest_named_entity(
        &self,
        entity_type: EntityType,
        name: String,
        from: &(usize, usize),
    ) -> (r: Option<((usize, usize), u128)>)
        requires
            self.wf(),
            from.0 < self.spec_width(),
            from.1 < self.spec_height(),
        ensures
            match r {
                None => spec_closest_named(*self, entity_type, name@, *from) is None,
                Some((p, d)) => spec_closest_named(*self, entity_type, name@, *from) == Some(
                    (p, d as int),
                ),
            },
    {
        let matches = self.find_named_entities(entity_type, name);
        let n = matches.len();
        let mut best: Option<((usize, usize), u128)> = None;
        let mut i: usize = 0;
        while i < n
            invariant
                self.wf(),
                from.0 < self.spec_width(),
                from.1 < self.spec_height(),
                n == matches@.len(),
                i <= n,
                matches@ == spec_named_matches(*self, entity_type, name@),
                match best {
                    None => closest_upto(*from, matches@, i as int) is None,
                    Some((p, d)) => closest_upto(*from, matches@, i as int) == Some((p, d as int)),
                },
            decreases n - i,
        {
            let anchor = matches[i].0;
            proof {
                lemma_matches_in_bounds(
                    *self,
                    entity_type,
                    name@,
                    self.arena_seq().len() as int,
                );
                assert((#[trigger] named_matches_upto(
                    *self,
                    entity_type,
                    name@,
                    self.arena_seq().len() as int,
                )[i as int]) == matches@[i as int]);
                assert(anchor.0 < self.spec_width() && anchor.1 < self.spec_height());
            }
            let d = squared_distance(self, *from, anchor);
            best = match best {
                None => Some((anchor, d)),
                Some((bp, bd)) => if d < bd {
                    Some((anchor, d))
                } else {
                    Some((bp, bd))
                },
            };
            i += 1;
        }
        best
    }
}

/// The squared Euclidean distance between two grid cells, computed without
/// overflow: both coordinates lie inside the grid, whose cell count fits a
/// machine word.
fn squared_distance(g: &Grid, a: (usize, usize), b: (usize, usize)) -> (r: u128)
    requires
        g.wf(),
        a.0 < g.spec_width(),
        a.1 < g.spec_height(),
        b.0 < g.spec_width(),
        b.1 < g.spec_height(),
    ensures
        r == dist2(a, b),
{
    let dx: u128 = if a.0 >= b.0 {
        (a.0 - b.0) as u128
    } else {
        (b.0 - a.0) as u128
    };
    let dy: u128 = if a.1 >= b.1 {
        (a.1 - b.1) as u128
    } else {
        (b.1 - a.1) as u128
    };
    proof {
        lemma_dist2_fits(
            dx as int,
            dy as int,
            g.spec_width() as int,
            g.spec_height() as int,
        );
        assert((a.0 - b.0) * (a.0 - b.0) == (dx as int) * (dx as int)) by (nonlinear_arith)
            requires
                dx as int == a.0 - b.0 || dx as int == b.0 - a.0,
        ;
        assert((a.1 - b.1) * (a.1 - b.1) == (dy as int) * (dy as int)) by (nonlinear_arith)
            requires
                dy as int == a.1 - b.1 || dy as int == b.1 - a.1,
        ;
    }
    dx * dx + dy * dy
}

/// Both coordinate differences stay below the grid's extents, whose product
/// fits a machine word, so the squared distance fits twice that width.
proof fn lemma_dist2_fits(dx: int, dy: int, w: int, h: int)
    requires
        0 <= dx < w,
        0 <= dy < h,
        1 <= w,
        1 <= h,
        w * h <= usize::MAX,
    ensures
        0 <= dx * dx + dy * dy <= u128::MAX,
{
    let m = usize::MAX as int;
    assert((w - 1) + (h - 1) <= m - 1) by (nonlinear_arith)
        requires
            1 <= w,
            1 <= h,
            w * h <= m,
    ;
    assert(dx * dx + dy * dy <= (dx + dy) * (dx + dy)) by (nonlinear_arith)
        requires
            0 <= dx,
            0 <= dy,
    ;
    assert(0 <= dx * dx + dy * dy) by (nonlinear_arith);
    assert((dx + dy) * (dx + dy) <= (m - 1) * (m - 1)) by (nonlinear_arith)
        requires
            0 <= dx + dy <= m - 1,
    ;
    assert((m - 1) * (m - 1) <= u128::MAX) by (nonlinear_arith)
        requires
            0 <= m <= u64::MAX,
    ;
}

} // verus!
