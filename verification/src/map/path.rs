//! The pathfinder: 8-directional shortest-path search where every move costs
//! one, guided by the Chebyshev distance. Cells are traversable when their
//! state is not blocked; the search expands the open cell with the least
//! estimate, preferring deeper cells and then earlier insertions, so repeated
//! runs over identical input produce identical output.

use vstd::prelude::*;

use crate::map::grid::Grid;
use crate::map::grid::cell_index;
use crate::map::grid::chebyshev;
use crate::map::grid::lemma_cell_index_bound;
use crate::map::grid::lemma_cell_index_injective;
use crate::map::grid::pos_in_bounds;
use crate::map::grid::spec_passable_neighbours;

verus! {

/// Whether `p` walks from `from` to `to` over passable cells, one Chebyshev
/// step at a time.
pub open spec fn valid_path(
    g: Grid,
    p: Seq<(usize, usize)>,
    from: (usize, usize),
    to: (usize, usize),
) -> bool {
    &&& p.len() >= 1
    &&& p[0] == from
    &&& p[p.len() - 1] == to
    &&& forall|i: int|
        0 <= i < p.len() ==> g.spec_passable((#[trigger] p[i]).0 as int, p[i].1 as int)
    &&& forall|i: int|
        0 <= i < p.len() - 1 ==> chebyshev(
            (#[trigger] p[i]).0 as int,
            p[i].1 as int,
            p[i + 1].0 as int,
            p[i + 1].1 as int,
        ) == 1
}

/// How many entries of `s` are set.
pub open spec fn count_trues(s: Seq<bool>) -> int
    decreases s.len(),
{
    if s.len() == 0 {
        0
    } else {
        count_trues(s.drop_last()) + if s.last() {
            1int
        } else {
            0int
        }
    }
}

proof fn lemma_count_trues_le_len(s: Seq<bool>)
    ensures
        0 <= count_trues(s) <= s.len(),
    decreases s.len(),
{
    if s.len() > 0 {
        lemma_count_trues_le_len(s.drop_last());
    }
}

proof fn lemma_count_trues_update_true(s: Seq<bool>, i: int)
    requires
        0 <= i < s.len(),
        !s[i],
    ensures
        count_trues(s.update(i, true)) == count_trues(s) + 1,
    decreases s.len(),
{
    let t = s.update(i, true);
    if i == s.len() - 1 {
        assert(t.drop_last() =~= s.drop_last());
    } else {
        assert(t.drop_last() =~= s.drop_last().update(i, true));
        lemma_count_trues_update_true(s.drop_last(), i);
    }
}

proof fn lemma_count_trues_lt_if_false(s: Seq<bool>, i: int)
    requires
        0 <= i < s.len(),
        !s[i],
    ensures
        count_trues(s) < s.len(),
    decreases s.len(),
{
    if i == s.len() - 1 {
        lemma_count_trues_le_len(s.drop_last());
    } else {
        lemma_count_trues_lt_if_false(s.drop_last(), i);
    }
}

/// Executable Chebyshev distance; agrees with `chebyshev`.
fn cheb_dist(a: (usize, usize), b: (usize, usize)) -> (r: usize)
    ensures
        r == chebyshev(a.0 as int, a.1 as int, b.0 as int, b.1 as int),
{
    let dx = if a.0 >= b.0 {
        a.0 - b.0
    } else {
        b.0 - a.0
    };
    let dy = if a.1 >= b.1 {
        a.1 - b.1
    } else {
        b.1 - a.1
    };
    if dx >= dy {
        dx
    } else {
        dy
    }
}

/// The search state arrays all span the grid.
pub open spec fn search_lens(
    n: int,
    gcost: Seq<usize>,
    parent: Seq<(usize, usize)>,
    disc: Seq<bool>,
    closed: Seq<bool>,
    inopen: Seq<bool>,
) -> bool {
    gcost.len() == n && parent.len() == n && disc.len() == n && closed.len() == n && inopen.len()
        == n
}

/// Discovered cells are passable and their recorded costs stay below `cap`.
#[verifier::opaque]
pub open spec fn inv_disc(g: Grid, disc: Seq<bool>, gcost: Seq<usize>, cap: int) -> bool {
    forall|x: int, y: int|
        pos_in_bounds(g.spec_width() as int, g.spec_height() as int, x, y) && disc[
            #[trigger] cell_index(g.spec_width() as int, x, y)] ==> g.spec_passable(x, y) && gcost[
            cell_index(g.spec_width() as int, x, y)] <= cap
}

/// A cost cap on discovered cells still holds for any larger cap.
proof fn lemma_inv_disc_weaken(g: Grid, disc: Seq<bool>, gcost: Seq<usize>, c1: int, c2: int)
    requires
        inv_disc(g, disc, gcost, c1),
        c1 <= c2,
    ensures
        inv_disc(g, disc, gcost, c2),
{
    reveal(inv_disc);
}

/// Parent links of discovered cells other than the start walk one Chebyshev
/// step back towards strictly smaller costs.
#[verifier::opaque]
pub open spec fn inv_parent(
    g: Grid,
    disc: Seq<bool>,
    parent: Seq<(usize, usize)>,
    gcost: Seq<usize>,
    from: (usize, usize),
) -> bool {
    let w = g.spec_width() as int;
    let h = g.spec_height() as int;
    forall|x: int, y: int|
        pos_in_bounds(w, h, x, y) && disc[#[trigger] cell_index(w, x, y)] && cell_index(w, x, y)
            != cell_index(w, from.0 as int, from.1 as int) ==> {
            let pp = parent[cell_index(w, x, y)];
            &&& pos_in_bounds(w, h, pp.0 as int, pp.1 as int)
            &&& disc[cell_index(w, pp.0 as int, pp.1 as int)]
            &&& chebyshev(pp.0 as int, pp.1 as int, x, y) == 1
            &&& gcost[cell_index(w, pp.0 as int, pp.1 as int)] < gcost[cell_index(w, x, y)]
        }
}

/// The open list holds distinct, in-bounds, discovered, unclosed cells, each
/// flagged as queued.
#[verifier::opaque]
pub open spec fn inv_open(
    g: Grid,
    open: Seq<(usize, usize)>,
    disc: Seq<bool>,
    closed: Seq<bool>,
    inopen: Seq<bool>,
) -> bool {
    let w = g.spec_width() as int;
    let h = g.spec_height() as int;
    &&& forall|k: int|
        0 <= k < open.len() ==> {
            let q = #[trigger] open[k];
            &&& pos_in_bounds(w, h, q.0 as int, q.1 as int)
            &&& disc[cell_index(w, q.0 as int, q.1 as int)]
            &&& !closed[cell_index(w, q.0 as int, q.1 as int)]
            &&& inopen[cell_index(w, q.0 as int, q.1 as int)]
        }
    &&& forall|k: int, l: int| 0 <= k < l < open.len() ==> open[k] != open[l]
}

/// Closed cells are discovered.
#[verifier::opaque]
pub open spec fn inv_closed_disc(g: Grid, closed: Seq<bool>, disc: Seq<bool>) -> bool {
    forall|x: int, y: int|
        pos_in_bounds(g.spec_width() as int, g.spec_height() as int, x, y) && closed[
            #[trigger] cell_index(g.spec_width() as int, x, y)] ==> disc[cell_index(
            g.spec_width() as int,
            x,
            y,
        )]
}

/// The estimate that guides the search: recorded cost plus the Chebyshev
/// distance to the goal.
pub open spec fn fval(gcost: Seq<usize>, w: int, v: (usize, usize), to: (usize, usize)) -> int {
    gcost[cell_index(w, v.0 as int, v.1 as int)] + chebyshev(
        v.0 as int,
        v.1 as int,
        to.0 as int,
        to.1 as int,
    )
}

/// The queue flags mirror the open list: every flagged cell is listed, and
/// every discovered cell not yet closed is flagged.
#[verifier::opaque]
pub open spec fn inv_queue(
    g: Grid,
    open: Seq<(usize, usize)>,
    disc: Seq<bool>,
    closed: Seq<bool>,
    inopen: Seq<bool>,
) -> bool {
    let w = g.spec_width() as int;
    let h = g.spec_height() as int;
    &&& forall|x: int, y: int|
        pos_in_bounds(w, h, x, y) && inopen[#[trigger] cell_index(w, x, y)] ==> open.contains(
            (x as usize, y as usize),
        )
    &&& forall|x: int, y: int|
        pos_in_bounds(w, h, x, y) && disc[#[trigger] cell_index(w, x, y)] && !closed[cell_index(
            w,
            x,
            y,
        )] ==> inopen[cell_index(w, x, y)]
}

/// Every passable neighbour of a closed cell — except the cell whose index is
/// `except`, whose neighbours may still be waiting — has been discovered with
/// a recorded cost at most one above the closed cell's.
#[verifier::opaque]
pub open spec fn inv_edge(
    g: Grid,
    closed: Seq<bool>,
    disc: Seq<bool>,
    gcost: Seq<usize>,
    except: int,
) -> bool {
    let w = g.spec_width() as int;
    let h = g.spec_height() as int;
    forall|v: (usize, usize), q: (usize, usize)|
        pos_in_bounds(w, h, v.0 as int, v.1 as int) && closed[#[trigger] cell_index(
            w,
            v.0 as int,
            v.1 as int,
        )] && cell_index(w, v.0 as int, v.1 as int) != except && g.spec_passable(
            q.0 as int,
            q.1 as int,
        ) && chebyshev(q.0 as int, q.1 as int, v.0 as int, v.1 as int) == 1 ==> disc[
            #[trigger] cell_index(w, q.0 as int, q.1 as int)] && gcost[cell_index(
            w,
            q.0 as int,
            q.1 as int,
        )] <= gcost[cell_index(w, v.0 as int, v.1 as int)] + 1
}

/// The recorded cost of a closed cell undercuts every passable route from the
/// start to it: closed costs are optimal.
#[verifier::opaque]
pub open spec fn inv_reached(
    g: Grid,
    closed: Seq<bool>,
    gcost: Seq<usize>,
    from: (usize, usize),
) -> bool {
    let w = g.spec_width() as int;
    let h = g.spec_height() as int;
    forall|v: (usize, usize), p: Seq<(usize, usize)>|
        pos_in_bounds(w, h, v.0 as int, v.1 as int) && closed[cell_index(
            w,
            v.0 as int,
            v.1 as int,
        )] && #[trigger] valid_path(g, p, from, v) ==> gcost[cell_index(
            w,
            v.0 as int,
            v.1 as int,
        )] <= p.len() - 1
}

/// A path stretched by one adjacent passable cell is still a path.
proof fn lemma_valid_path_extend(
    g: Grid,
    p: Seq<(usize, usize)>,
    a: (usize, usize),
    b: (usize, usize),
    c: (usize, usize),
)
    requires
        valid_path(g, p, a, b),
        g.spec_passable(c.0 as int, c.1 as int),
        chebyshev(b.0 as int, b.1 as int, c.0 as int, c.1 as int) == 1,
    ensures
        valid_path(g, p.push(c), a, c),
{
    let p2 = p.push(c);
    assert(p2[0] == p[0]);
    assert(p2[p2.len() - 1] == c);
    assert forall|i: int| 0 <= i < p2.len() implies g.spec_passable(
        (#[trigger] p2[i]).0 as int,
        p2[i].1 as int,
    ) by {
        if i < p.len() {
            assert(p2[i] == p[i]);
        } else {
            assert(p2[i] == c);
        }
    }
    assert forall|i: int| 0 <= i < p2.len() - 1 implies chebyshev(
        (#[trigger] p2[i]).0 as int,
        p2[i].1 as int,
        p2[i + 1].0 as int,
        p2[i + 1].1 as int,
    ) == 1 by {
        if i < p.len() - 1 {
            assert(p2[i] == p[i]);
            assert(p2[i + 1] == p[i + 1]);
        } else {
            assert(p2[i] == p[p.len() - 1]);
            assert(p2[i + 1] == c);
        }
    }
}

/// Both halves of a path, cut at any of its cells, are paths.
proof fn lemma_valid_path_split(
    g: Grid,
    p: Seq<(usize, usize)>,
    a: (usize, usize),
    b: (usize, usize),
    j: int,
)
    requires
        valid_path(g, p, a, b),
        0 <= j < p.len(),
    ensures
        valid_path(g, p.take(j + 1), a, p[j]),
        valid_path(g, p.skip(j), p[j], b),
{
    let pre = p.take(j + 1);
    assert(pre[0] == p[0]);
    assert(pre[pre.len() - 1] == p[j]);
    assert forall|i: int| 0 <= i < pre.len() implies g.spec_passable(
        (#[trigger] pre[i]).0 as int,
        pre[i].1 as int,
    ) by {
        assert(pre[i] == p[i]);
    }
    assert forall|i: int| 0 <= i < pre.len() - 1 implies chebyshev(
        (#[trigger] pre[i]).0 as int,
        pre[i].1 as int,
        pre[i + 1].0 as int,
        pre[i + 1].1 as int,
    ) == 1 by {
        assert(pre[i] == p[i]);
        assert(pre[i + 1] == p[i + 1]);
    }
    let suf = p.skip(j);
    assert(suf[0] == p[j]);
    assert(suf[suf.len() - 1] == p[p.len() - 1]);
    assert forall|i: int| 0 <= i < suf.len() implies g.spec_passable(
        (#[trigger] suf[i]).0 as int,
        suf[i].1 as int,
    ) by {
        assert(suf[i] == p[i + j]);
    }
    assert forall|i: int| 0 <= i < suf.len() - 1 implies chebyshev(
        (#[trigger] suf[i]).0 as int,
        suf[i].1 as int,
        suf[i + 1].0 as int,
        suf[i + 1].1 as int,
    ) == 1 by {
        assert(suf[i] == p[i + j]);
        assert(suf[i + 1] == p[i + j + 1]);
    }
}

/// No passable route is shorter than the Chebyshev distance of its endpoints:
/// every move closes that distance by at most one.
proof fn lemma_path_at_least_chebyshev(
    g: Grid,
    p: Seq<(usize, usize)>,
    a: (usize, usize),
    b: (usize, usize),
)
    requires
        valid_path(g, p, a, b),
    ensures
        chebyshev(a.0 as int, a.1 as int, b.0 as int, b.1 as int) <= p.len() - 1,
    decreases p.len(),
{
    if p.len() == 1 {
        assert(a == b);
    } else {
        lemma_valid_path_split(g, p, a, b, 1);
        lemma_path_at_least_chebyshev(g, p.skip(1), p[1], b);
        assert(chebyshev(a.0 as int, a.1 as int, p[1].0 as int, p[1].1 as int) == 1) by {
            assert(chebyshev(p[0].0 as int, p[0].1 as int, p[1].0 as int, p[1].1 as int) == 1);
        }
    }
}

/// Any path whose last cell is not closed crosses the closed boundary at a
/// first unclosed cell.
proof fn lemma_first_unclosed(w: int, closed: Seq<bool>, p: Seq<(usize, usize)>)
    requires
        p.len() >= 1,
        !closed[cell_index(w, p[p.len() - 1].0 as int, p[p.len() - 1].1 as int)],
    ensures
        exists|j: int|
            0 <= j < p.len() && !closed[#[trigger] cell_index(
                w,
                p[j].0 as int,
                p[j].1 as int,
            )] && (forall|i: int|
                0 <= i < j ==> closed[cell_index(w, p[i].0 as int, p[i].1 as int)]),
    decreases p.len(),
{
    if !closed[cell_index(w, p[0].0 as int, p[0].1 as int)] {
        assert(0 <= 0 < p.len() && !closed[#[trigger] cell_index(
            w,
            p[0].0 as int,
            p[0].1 as int,
        )] && (forall|i: int| 0 <= i < 0 ==> closed[cell_index(w, p[i].0 as int, p[i].1 as int)]));
    } else {
        assert(p.len() >= 2);
        let p2 = p.drop_first();
        assert(p2[p2.len() - 1] == p[p.len() - 1]);
        lemma_first_unclosed(w, closed, p2);
        let j2 = choose|j2: int|
            0 <= j2 < p2.len() && !closed[#[trigger] cell_index(
                w,
                p2[j2].0 as int,
                p2[j2].1 as int,
            )] && (forall|i: int|
                0 <= i < j2 ==> closed[cell_index(w, p2[i].0 as int, p2[i].1 as int)]);
        let j = j2 + 1;
        assert(p[j] == p2[j2]);
        assert forall|i: int| 0 <= i < j implies closed[cell_index(
            w,
            p[i].0 as int,
            p[i].1 as int,
        )] by {
            if i > 0 {
                assert(p[i] == p2[i - 1]);
            }
        }
        assert(0 <= j < p.len() && !closed[#[trigger] cell_index(w, p[j].0 as int, p[j].1 as int)]
            && (forall|i: int| 0 <= i < j ==> closed[cell_index(w, p[i].0 as int, p[i].1 as int)]));
    }
}

/// Following parent links back from any discovered cell yields an explicit
/// route from the start no longer than the recorded cost.
proof fn lemma_parent_chain_path(
    g: Grid,
    disc: Seq<bool>,
    parent: Seq<(usize, usize)>,
    gcost: Seq<usize>,
    from: (usize, usize),
    v: (usize, usize),
    cap: int,
)
    requires
        g.wf(),
        disc.len() == g.spec_width() * g.spec_height(),
        parent.len() == disc.len(),
        gcost.len() == disc.len(),
        pos_in_bounds(g.spec_width() as int, g.spec_height() as int, from.0 as int, from.1 as int),
        pos_in_bounds(g.spec_width() as int, g.spec_height() as int, v.0 as int, v.1 as int),
        disc[cell_index(g.spec_width() as int, v.0 as int, v.1 as int)],
        gcost[cell_index(g.spec_width() as int, from.0 as int, from.1 as int)] == 0,
        inv_disc(g, disc, gcost, cap),
        inv_parent(g, disc, parent, gcost, from),
    ensures
        exists|p: Seq<(usize, usize)>|
            #[trigger] valid_path(g, p, from, v) && p.len() - 1 <= gcost[cell_index(
                g.spec_width() as int,
                v.0 as int,
                v.1 as int,
            )],
    decreases gcost[cell_index(g.spec_width() as int, v.0 as int, v.1 as int)],
{
    reveal(inv_disc);
    reveal(inv_parent);
    let w = g.spec_width() as int;
    let h = g.spec_height() as int;
    lemma_cell_index_bound(w, h, v.0 as int, v.1 as int);
    lemma_cell_index_bound(w, h, from.0 as int, from.1 as int);
    if cell_index(w, v.0 as int, v.1 as int) == cell_index(w, from.0 as int, from.1 as int) {
        lemma_cell_index_injective(w, h, v.0 as int, v.1 as int, from.0 as int, from.1 as int);
        let p = seq![from];
        assert(valid_path(g, p, from, v)) by {
            assert(p[0] == from);
            assert(p[p.len() - 1] == v);
            assert(g.spec_passable(from.0 as int, from.1 as int));
        }
        assert(p.len() - 1 <= gcost[cell_index(w, v.0 as int, v.1 as int)]);
    } else {
        let pp = parent[cell_index(w, v.0 as int, v.1 as int)];
        assert(pos_in_bounds(w, h, pp.0 as int, pp.1 as int) && disc[cell_index(
            w,
            pp.0 as int,
            pp.1 as int,
        )] && chebyshev(pp.0 as int, pp.1 as int, v.0 as int, v.1 as int) == 1 && gcost[cell_index(
            w,
            pp.0 as int,
            pp.1 as int,
        )] < gcost[cell_index(w, v.0 as int, v.1 as int)]);
        lemma_parent_chain_path(g, disc, parent, gcost, from, pp, cap);
        let p0 = choose|p0: Seq<(usize, usize)>|
            #[trigger] valid_path(g, p0, from, pp) && p0.len() - 1 <= gcost[cell_index(
                w,
                pp.0 as int,
                pp.1 as int,
            )];
        lemma_valid_path_extend(g, p0, from, pp, v);
        assert(valid_path(g, p0.push(v), from, v) && p0.push(v).len() - 1 <= gcost[cell_index(
            w,
            v.0 as int,
            v.1 as int,
        )]);
    }
}

/// When the open cell with the least estimate is taken, no passable route
/// from the start undercuts its recorded cost: any such route leaves the
/// closed region at a first open cell whose estimate already covers it.
#[verifier::rlimit(100)]
proof fn lemma_popped_bounds_paths(
    g: Grid,
    opre: Seq<(usize, usize)>,
    disc: Seq<bool>,
    closed: Seq<bool>,
    inopen: Seq<bool>,
    gcost: Seq<usize>,
    from: (usize, usize),
    to: (usize, usize),
    cur: (usize, usize),
    bi: int,
    cap: int,
)
    requires
        g.wf(),
        disc.len() == g.spec_width() * g.spec_height(),
        closed.len() == disc.len(),
        inopen.len() == disc.len(),
        gcost.len() == disc.len(),
        pos_in_bounds(g.spec_width() as int, g.spec_height() as int, from.0 as int, from.1 as int),
        disc[cell_index(g.spec_width() as int, from.0 as int, from.1 as int)],
        gcost[cell_index(g.spec_width() as int, from.0 as int, from.1 as int)] == 0,
        inv_disc(g, disc, gcost, cap),
        inv_open(g, opre, disc, closed, inopen),
        inv_queue(g, opre, disc, closed, inopen),
        inv_edge(g, closed, disc, gcost, -1),
        inv_reached(g, closed, gcost, from),
        0 <= bi < opre.len(),
        opre[bi] == cur,
        forall|k: int|
            0 <= k < opre.len() ==> fval(gcost, g.spec_width() as int, cur, to) <= #[trigger] fval(
                gcost,
                g.spec_width() as int,
                opre[k],
                to,
            ),
    ensures
        forall|p: Seq<(usize, usize)>|
            #[trigger] valid_path(g, p, from, cur) ==> gcost[cell_index(
                g.spec_width() as int,
                cur.0 as int,
                cur.1 as int,
            )] <= p.len() - 1,
{
    reveal(inv_disc);
    reveal(inv_open);
    reveal(inv_queue);
    reveal(inv_edge);
    reveal(inv_reached);
    let w = g.spec_width() as int;
    let h = g.spec_height() as int;
    assert(pos_in_bounds(w, h, cur.0 as int, cur.1 as int) && disc[cell_index(
        w,
        cur.0 as int,
        cur.1 as int,
    )] && !closed[cell_index(w, cur.0 as int, cur.1 as int)]) by {
        assert(opre[bi] == cur);
    }
    lemma_cell_index_bound(w, h, cur.0 as int, cur.1 as int);
    lemma_cell_index_bound(w, h, from.0 as int, from.1 as int);
    assert forall|p: Seq<(usize, usize)>| #[trigger] valid_path(g, p, from, cur) implies gcost[
        cell_index(w, cur.0 as int, cur.1 as int)] <= p.len() - 1 by {
        let m = p.len() - 1;
        assert(p[m] == cur);
        lemma_first_unclosed(w, closed, p);
        let j = choose|j: int|
            0 <= j < p.len() && !closed[#[trigger] cell_index(
                w,
                p[j].0 as int,
                p[j].1 as int,
            )] && (forall|i: int|
                0 <= i < j ==> closed[cell_index(w, p[i].0 as int, p[i].1 as int)]);
        let pj = p[j];
        assert(g.spec_passable(pj.0 as int, pj.1 as int));
        assert(pos_in_bounds(w, h, pj.0 as int, pj.1 as int));
        lemma_cell_index_bound(w, h, pj.0 as int, pj.1 as int);
        // the first open cell's recorded cost is at most its prefix length
        if j == 0 {
            assert(pj == from);
            assert(gcost[cell_index(w, pj.0 as int, pj.1 as int)] <= j);
        } else {
            let pv = p[j - 1];
            assert(closed[cell_index(w, pv.0 as int, pv.1 as int)]);
            assert(g.spec_passable(pv.0 as int, pv.1 as int));
            lemma_cell_index_bound(w, h, pv.0 as int, pv.1 as int);
            lemma_valid_path_split(g, p, from, cur, j - 1);
            assert(valid_path(g, p.take(j), from, pv));
            assert(gcost[cell_index(w, pv.0 as int, pv.1 as int)] <= j - 1);
            assert(chebyshev(pj.0 as int, pj.1 as int, pv.0 as int, pv.1 as int) == 1) by {
                assert(chebyshev(
                    p[j - 1].0 as int,
                    p[j - 1].1 as int,
                    p[j].0 as int,
                    p[j].1 as int,
                ) == 1);
            }
            assert(disc[cell_index(w, pj.0 as int, pj.1 as int)] && gcost[cell_index(
                w,
                pj.0 as int,
                pj.1 as int,
            )] <= gcost[cell_index(w, pv.0 as int, pv.1 as int)] + 1);
            assert(gcost[cell_index(w, pj.0 as int, pj.1 as int)] <= j);
        }
        // it waits in the open list, so the popped estimate covers it
        assert(disc[cell_index(w, pj.0 as int, pj.1 as int)]);
        assert(inopen[cell_index(w, pj.0 as int, pj.1 as int)]);
        assert(opre.contains((pj.0 as int as usize, pj.1 as int as usize)));
        assert(opre.contains(pj));
        let kk = choose|kk: int| 0 <= kk < opre.len() && opre[kk] == pj;
        assert(fval(gcost, w, cur, to) <= fval(gcost, w, opre[kk], to));
        // the remaining stretch bounds the heuristic gap
        lemma_valid_path_split(g, p, from, cur, j);
        lemma_path_at_least_chebyshev(g, p.skip(j), pj, cur);
        assert(chebyshev(pj.0 as int, pj.1 as int, cur.0 as int, cur.1 as int) <= m - j);
        assert(chebyshev(pj.0 as int, pj.1 as int, to.0 as int, to.1 as int) <= chebyshev(
            pj.0 as int,
            pj.1 as int,
            cur.0 as int,
            cur.1 as int,
        ) + chebyshev(cur.0 as int, cur.1 as int, to.0 as int, to.1 as int));
        assert(gcost[cell_index(w, cur.0 as int, cur.1 as int)] <= m);
    }
}

/// A closed region that contains the start and is closed under passable
/// adjacency swallows every passable route: the route's end is closed too.
proof fn lemma_path_stays_closed(
    g: Grid,
    closed: Seq<bool>,
    p: Seq<(usize, usize)>,
    from: (usize, usize),
    to: (usize, usize),
)
    requires
        g.wf(),
        valid_path(g, p, from, to),
        closed[cell_index(g.spec_width() as int, from.0 as int, from.1 as int)],
        forall|v: (usize, usize), q: (usize, usize)|
            pos_in_bounds(g.spec_width() as int, g.spec_height() as int, v.0 as int, v.1 as int)
                && closed[#[trigger] cell_index(g.spec_width() as int, v.0 as int, v.1 as int)]
                && g.spec_passable(q.0 as int, q.1 as int) && chebyshev(
                q.0 as int,
                q.1 as int,
                v.0 as int,
                v.1 as int,
            ) == 1 ==> closed[#[trigger] cell_index(g.spec_width() as int, q.0 as int, q.1 as int)],
    ensures
        closed[cell_index(g.spec_width() as int, to.0 as int, to.1 as int)],
    decreases p.len(),
{
    let w = g.spec_width() as int;
    if p.len() == 1 {
        assert(to == from);
    } else {
        let q = p[1];
        assert(g.spec_passable(q.0 as int, q.1 as int));
        assert(chebyshev(q.0 as int, q.1 as int, from.0 as int, from.1 as int) == 1) by {
            assert(chebyshev(p[0].0 as int, p[0].1 as int, p[1].0 as int, p[1].1 as int) == 1);
        }
        assert(closed[cell_index(w, q.0 as int, q.1 as int)]);
        lemma_valid_path_split(g, p, from, to, 1);
        lemma_path_stays_closed(g, closed, p.skip(1), q, to);
    }
}

/// After the popped cell leaves the open list, loses its queue flag and joins
/// the closed set, the open-list, queue and closed-set invariants hold again,
/// with the fresh cell's neighbours still owed to the frontier.
proof fn lemma_after_close(
    g: Grid,
    opre: Seq<(usize, usize)>,
    open: Seq<(usize, usize)>,
    disc: Seq<bool>,
    cpre: Seq<bool>,
    closed: Seq<bool>,
    iopre: Seq<bool>,
    inopen: Seq<bool>,
    gcost: Seq<usize>,
    cur: (usize, usize),
    bi: int,
)
    requires
        g.wf(),
        disc.len() == g.spec_width() * g.spec_height(),
        cpre.len() == disc.len(),
        closed.len() == disc.len(),
        iopre.len() == disc.len(),
        inopen.len() == disc.len(),
        gcost.len() == disc.len(),
        0 <= bi < opre.len(),
        opre[bi] == cur,
        open == opre.remove(bi),
        pos_in_bounds(g.spec_width() as int, g.spec_height() as int, cur.0 as int, cur.1 as int),
        disc[cell_index(g.spec_width() as int, cur.0 as int, cur.1 as int)],
        !cpre[cell_index(g.spec_width() as int, cur.0 as int, cur.1 as int)],
        closed == cpre.update(cell_index(g.spec_width() as int, cur.0 as int, cur.1 as int), true),
        inopen == iopre.update(
            cell_index(g.spec_width() as int, cur.0 as int, cur.1 as int),
            false,
        ),
        inv_open(g, opre, disc, cpre, iopre),
        inv_queue(g, opre, disc, cpre, iopre),
        inv_closed_disc(g, cpre, disc),
        inv_edge(g, cpre, disc, gcost, -1),
    ensures
        inv_open(g, open, disc, closed, inopen),
        inv_queue(g, open, disc, closed, inopen),
        inv_closed_disc(g, closed, disc),
        inv_edge(
            g,
            closed,
            disc,
            gcost,
            cell_index(g.spec_width() as int, cur.0 as int, cur.1 as int),
        ),
{
    reveal(inv_open);
    reveal(inv_queue);
    reveal(inv_closed_disc);
    reveal(inv_edge);
    let w = g.spec_width() as int;
    let h = g.spec_height() as int;
    let cci = cell_index(w, cur.0 as int, cur.1 as int);
    lemma_cell_index_bound(w, h, cur.0 as int, cur.1 as int);
    assert forall|k: int|
        0 <= k < open.len() implies {
        let q = #[trigger] open[k];
        &&& pos_in_bounds(w, h, q.0 as int, q.1 as int)
        &&& disc[cell_index(w, q.0 as int, q.1 as int)]
        &&& !closed[cell_index(w, q.0 as int, q.1 as int)]
        &&& inopen[cell_index(w, q.0 as int, q.1 as int)]
    } by {
        let q = open[k];
        let l: int = if k < bi {
            k
        } else {
            k + 1
        };
        assert(q == opre[l]);
        assert(l != bi);
        assert(opre[l] != opre[bi]);
        assert(q != cur);
        assert(pos_in_bounds(w, h, q.0 as int, q.1 as int));
        lemma_cell_index_bound(w, h, q.0 as int, q.1 as int);
        if cell_index(w, q.0 as int, q.1 as int) == cci {
            lemma_cell_index_injective(w, h, q.0 as int, q.1 as int, cur.0 as int, cur.1 as int);
        }
    }
    assert forall|k: int, l: int| 0 <= k < l < open.len() implies open[k] != open[l] by {
        let k0: int = if k < bi {
            k
        } else {
            k + 1
        };
        let l0: int = if l < bi {
            l
        } else {
            l + 1
        };
        assert(open[k] == opre[k0]);
        assert(open[l] == opre[l0]);
    }
    assert forall|x: int, y: int|
        pos_in_bounds(w, h, x, y) && inopen[#[trigger] cell_index(w, x, y)] implies open.contains(
        (x as usize, y as usize),
    ) by {
        lemma_cell_index_bound(w, h, x, y);
        if cell_index(w, x, y) != cci {
            assert(iopre[cell_index(w, x, y)]);
            assert(opre.contains((x as usize, y as usize)));
            let l = choose|l: int| 0 <= l < opre.len() && opre[l] == (x as usize, y as usize);
            assert((x as usize, y as usize) != cur) by {
                if (x as usize, y as usize) == cur {
                    assert(cell_index(w, x, y) == cci);
                }
            }
            assert(l != bi);
            if l < bi {
                assert(open[l] == opre[l]);
            } else {
                assert(open[l - 1] == opre[l]);
            }
        }
    }
    assert forall|x: int, y: int|
        pos_in_bounds(w, h, x, y) && disc[#[trigger] cell_index(w, x, y)] && !closed[cell_index(
            w,
            x,
            y,
        )] implies inopen[cell_index(w, x, y)] by {
        lemma_cell_index_bound(w, h, x, y);
    }
    assert forall|x: int, y: int|
        pos_in_bounds(w, h, x, y) && closed[#[trigger] cell_index(w, x, y)] implies disc[cell_index(
        w,
        x,
        y,
    )] by {
        lemma_cell_index_bound(w, h, x, y);
        if cell_index(w, x, y) == cci {
            lemma_cell_index_injective(w, h, x, y, cur.0 as int, cur.1 as int);
        }
    }
    assert forall|v: (usize, usize), q: (usize, usize)|
        pos_in_bounds(w, h, v.0 as int, v.1 as int) && closed[#[trigger] cell_index(
            w,
            v.0 as int,
            v.1 as int,
        )] && cell_index(w, v.0 as int, v.1 as int) != cci && g.spec_passable(
            q.0 as int,
            q.1 as int,
        ) && chebyshev(q.0 as int, q.1 as int, v.0 as int, v.1 as int) == 1 implies disc[
        #[trigger] cell_index(w, q.0 as int, q.1 as int)] && gcost[cell_index(
        w,
        q.0 as int,
        q.1 as int,
    )] <= gcost[cell_index(w, v.0 as int, v.1 as int)] + 1 by {
        lemma_cell_index_bound(w, h, v.0 as int, v.1 as int);
        assert(cpre[cell_index(w, v.0 as int, v.1 as int)]);
    }
}

/// Closing a cell whose recorded cost no route undercuts keeps the closed
/// costs optimal.
proof fn lemma_close_reached(
    g: Grid,
    cpre: Seq<bool>,
    closed: Seq<bool>,
    gcost: Seq<usize>,
    from: (usize, usize),
    cur: (usize, usize),
)
    requires
        g.wf(),
        cpre.len() == g.spec_width() * g.spec_height(),
        closed.len() == cpre.len(),
        gcost.len() == cpre.len(),
        pos_in_bounds(g.spec_width() as int, g.spec_height() as int, cur.0 as int, cur.1 as int),
        closed == cpre.update(cell_index(g.spec_width() as int, cur.0 as int, cur.1 as int), true),
        inv_reached(g, cpre, gcost, from),
        forall|p: Seq<(usize, usize)>|
            #[trigger] valid_path(g, p, from, cur) ==> gcost[cell_index(
                g.spec_width() as int,
                cur.0 as int,
                cur.1 as int,
            )] <= p.len() - 1,
    ensures
        inv_reached(g, closed, gcost, from),
{
    reveal(inv_reached);
    let w = g.spec_width() as int;
    let h = g.spec_height() as int;
    let cci = cell_index(w, cur.0 as int, cur.1 as int);
    lemma_cell_index_bound(w, h, cur.0 as int, cur.1 as int);
    assert forall|v: (usize, usize), p: Seq<(usize, usize)>|
        pos_in_bounds(w, h, v.0 as int, v.1 as int) && closed[cell_index(
            w,
            v.0 as int,
            v.1 as int,
        )] && #[trigger] valid_path(g, p, from, v) implies gcost[cell_index(
        w,
        v.0 as int,
        v.1 as int,
    )] <= p.len() - 1 by {
        lemma_cell_index_bound(w, h, v.0 as int, v.1 as int);
        if cell_index(w, v.0 as int, v.1 as int) == cci {
            lemma_cell_index_injective(w, h, v.0 as int, v.1 as int, cur.0 as int, cur.1 as int);
        } else {
            assert(cpre[cell_index(w, v.0 as int, v.1 as int)]);
        }
    }
}

impl Grid {
    /// The 8-directional shortest path from `from` to `to`, as the full cell
    /// sequence with both endpoints, paired with its cost in moves — the
    /// sequence length minus one, never more than any other passable route's.
    /// `from == to` yields the single-cell path of cost zero. `None` comes
    /// exactly when no passable route exists: a blocked or out-of-bounds
    /// endpoint, or a goal cut off by blocking footprints. Among equal-cost
    /// routes the search picks deterministically, expanding the
    /// least-estimate open cell, deepest first, earliest-inserted first.
    #[verifier::rlimit(100)]
        pub fn path_between(&self, from: (usize, usize), to: (usize, usize)) -> (r: Option<
        (Vec<(usize, usize)>, usize),
    >)
        requires
            self.wf(),
        ensures
            match r {
                Some((p, c)) => valid_path(*self, p@, from, to) && c == p@.len() - 1 && (from == to
                    ==> p@ =~= seq![from] && c == 0) && (forall|q: Seq<(usize, usize)>|
                    #[trigger] valid_path(*self, q, from, to) ==> c <= q.len() - 1),
                None => forall|p: Seq<(usize, usize)>| !valid_path(*self, p, from, to),
            },
            (exists|p: Seq<(usize, usize)>| #[trigger] valid_path(*self, p, from, to)) ==> r
                is Some,
            !(self.spec_passable(from.0 as int, from.1 as int) && self.spec_passable(
                to.0 as int,
                to.1 as int,
            )) ==> r is None,
    {
        let w = self.width();
        let h = self.height();
        if !self.passable_at(from.0, from.1) || !self.passable_at(to.0, to.1) {
            proof {
                assert forall|p: Seq<(usize, usize)>| !valid_path(*self, p, from, to) by {
                    if valid_path(*self, p, from, to) {
                        assert(p[0] == from);
                        assert(p[p.len() - 1] == to);
                        assert(self.spec_passable(p[0].0 as int, p[0].1 as int));
                        assert(self.spec_passable(
                            p[p.len() - 1].0 as int,
                            p[p.len() - 1].1 as int,
                        ));
                    }
                }
            }
            return None;
        }
        let n = w * h;
        let ghost wi = w as int;
        let ghost hi = h as int;
        proof {
            lemma_cell_index_bound(wi, hi, from.0 as int, from.1 as int);
            lemma_cell_index_bound(wi, hi, to.0 as int, to.1 as int);
        }
        let sci = from.1 * w + from.0;
        let gci = to.1 * w + to.0;
        let mut gcost: Vec<usize> = vec_filled(n, 0);
        let mut parent: Vec<(usize, usize)> = vec_filled_pos(n);
        let mut disc: Vec<bool> = vec_filled_bool(n);
        let mut closed: Vec<bool> = vec_filled_bool(n);
        let mut inopen: Vec<bool> = vec_filled_bool(n);
        let mut open: Vec<(usize, usize)> = Vec::new();
        let mut cc: usize = 0;
        disc[sci] = true;
        inopen[sci] = true;
        open.push(from);
        proof {
            reveal(inv_disc);
            reveal(inv_parent);
            reveal(inv_open);
            reveal(inv_queue);
            reveal(inv_closed_disc);
            reveal(inv_edge);
            reveal(inv_reached);
            lemma_count_trues_zero(closed@);
            assert forall|x: int, y: int|
                pos_in_bounds(wi, hi, x, y) && disc@[#[trigger] cell_index(wi, x, y)]
                    implies self.spec_passable(x, y) && gcost@[cell_index(wi, x, y)] <= 0 by {
                lemma_cell_index_bound(wi, hi, x, y);
                if cell_index(wi, x, y) == sci as int {
                    lemma_cell_index_injective(wi, hi, x, y, from.0 as int, from.1 as int);
                }
            }
            assert forall|x: int, y: int|
                pos_in_bounds(wi, hi, x, y) && disc@[#[trigger] cell_index(wi, x, y)]
                    && cell_index(wi, x, y) != sci implies false by {
                lemma_cell_index_bound(wi, hi, x, y);
            }
            assert forall|x: int, y: int|
                pos_in_bounds(wi, hi, x, y) && closed@[#[trigger] cell_index(wi, x, y)]
                    implies disc@[cell_index(wi, x, y)] by {
                lemma_cell_index_bound(wi, hi, x, y);
            }
            assert forall|x: int, y: int|
                pos_in_bounds(wi, hi, x, y) && inopen@[#[trigger] cell_index(wi, x, y)]
                    implies open@.contains((x as usize, y as usize)) by {
                lemma_cell_index_bound(wi, hi, x, y);
                if cell_index(wi, x, y) == sci as int {
                    lemma_cell_index_injective(wi, hi, x, y, from.0 as int, from.1 as int);
                    assert(open@[0] == (x as usize, y as usize));
                }
            }
            assert forall|v: (usize, usize), q: (usize, usize)|
                pos_in_bounds(wi, hi, v.0 as int, v.1 as int) && closed@[#[trigger] cell_index(
                    wi,
                    v.0 as int,
                    v.1 as int,
                )] && cell_index(wi, v.0 as int, v.1 as int) != -1 && self.spec_passable(
                    q.0 as int,
                    q.1 as int,
                ) && chebyshev(q.0 as int, q.1 as int, v.0 as int, v.1 as int) == 1 implies disc@[
                #[trigger] cell_index(wi, q.0 as int, q.1 as int)] && gcost@[cell_index(
                wi,
                q.0 as int,
                q.1 as int,
            )] <= gcost@[cell_index(wi, v.0 as int, v.1 as int)] + 1 by {
                lemma_cell_index_bound(wi, hi, v.0 as int, v.1 as int);
            }
            assert forall|v: (usize, usize), p: Seq<(usize, usize)>|
                pos_in_bounds(wi, hi, v.0 as int, v.1 as int) && closed@[cell_index(
                    wi,
                    v.0 as int,
                    v.1 as int,
                )] && #[trigger] valid_path(*self, p, from, v) implies gcost@[cell_index(
                wi,
                v.0 as int,
                v.1 as int,
            )] <= p.len() - 1 by {
                lemma_cell_index_bound(wi, hi, v.0 as int, v.1 as int);
            }
            assert(inv_disc(*self, disc@, gcost@, cc as int));
            assert(inv_parent(*self, disc@, parent@, gcost@, from));
            assert(inv_open(*self, open@, disc@, closed@, inopen@));
            assert(inv_queue(*self, open@, disc@, closed@, inopen@));
            assert(inv_closed_disc(*self, closed@, disc@));
            assert(inv_edge(*self, closed@, disc@, gcost@, -1));
            assert(inv_reached(*self, closed@, gcost@, from));
        }
        while open.len() > 0
            invariant
                self.wf(),
                w == self.spec_width(),
                h == self.spec_height(),
                wi == w as int,
                hi == h as int,
                n == w * h,
                self.spec_passable(from.0 as int, from.1 as int),
                self.spec_passable(to.0 as int, to.1 as int),
                sci == cell_index(wi, from.0 as int, from.1 as int),
                gci == cell_index(wi, to.0 as int, to.1 as int),
                sci < n,
                gci < n,
                search_lens(n as int, gcost@, parent@, disc@, closed@, inopen@),
                disc@[sci as int],
                gcost@[sci as int] == 0,
                !closed@[gci as int],
                cc == count_trues(closed@),
                cc <= n,
                inv_disc(*self, disc@, gcost@, cc as int),
                inv_parent(*self, disc@, parent@, gcost@, from),
                inv_open(*self, open@, disc@, closed@, inopen@),
                inv_queue(*self, open@, disc@, closed@, inopen@),
                inv_closed_disc(*self, closed@, disc@),
                inv_edge(*self, closed@, disc@, gcost@, -1),
                inv_reached(*self, closed@, gcost@, from),
            decreases n - cc,
        {
            let olen = open.len();
            proof {
                reveal(inv_open);
                assert forall|l: int|
                    0 <= l < open@.len() implies pos_in_bounds(
                    wi,
                    hi,
                    (#[trigger] open@[l]).0 as int,
                    open@[l].1 as int,
                ) by {}
                lemma_cell_index_bound(wi, hi, open@[0].0 as int, open@[0].1 as int);
            }
            let mut bi: usize = 0;
            let mut bf: u128 = (gcost[open[0].1 * w + open[0].0] as u128) + (cheb_dist(
                open[0],
                to,
            ) as u128);
            let mut bg: usize = gcost[open[0].1 * w + open[0].0];
            proof {
                assert(bf as int == fval(gcost@, wi, open@[0], to));
            }
            let mut k: usize = 1;
            while k < olen
                invariant
                    self.wf(),
                    w == self.spec_width(),
                    h == self.spec_height(),
                    wi == w as int,
                    hi == h as int,
                    n == w * h,
                    gcost@.len() == n,
                    olen == open@.len(),
                    1 <= olen,
                    k <= olen,
                    bi < olen,
                    bf as int == fval(gcost@, wi, open@[bi as int], to),
                    forall|l: int|
                        0 <= l < k ==> fval(gcost@, wi, open@[bi as int], to) <= #[trigger] fval(
                            gcost@,
                            wi,
                            open@[l],
                            to,
                        ),
                    forall|l: int|
                        0 <= l < open@.len() ==> pos_in_bounds(
                            wi,
                            hi,
                            (#[trigger] open@[l]).0 as int,
                            open@[l].1 as int,
                        ),
                decreases olen - k,
            {
                proof {
                    lemma_cell_index_bound(
                        wi,
                        hi,
                        open@[k as int].0 as int,
                        open@[k as int].1 as int,
                    );
                }
                let q = open[k];
                let qg = gcost[q.1 * w + q.0];
                let qf = (qg as u128) + (cheb_dist(q, to) as u128);
                proof {
                    assert(qf as int == fval(gcost@, wi, open@[k as int], to));
                }
                if qf < bf || (qf == bf && qg > bg) {
                    bi = k;
                    bf = qf;
                    bg = qg;
                }
                k += 1;
            }
            let ghost opre = open@;
            let ghost iopre = inopen@;
            let cur = open.remove(bi);
            proof {
                lemma_cell_index_bound(wi, hi, cur.0 as int, cur.1 as int);
                assert(open@ == opre.remove(bi as int));
                assert(opre[bi as int] == cur);
            }
            let cci = cur.1 * w + cur.0;
            inopen[cci] = false;
            proof {
                assert forall|kk: int|
                    0 <= kk < opre.len() implies fval(gcost@, wi, cur, to) <= #[trigger] fval(
                    gcost@,
                    wi,
                    opre[kk],
                    to,
                ) by {
                    assert(fval(gcost@, wi, opre[bi as int], to) <= fval(gcost@, wi, opre[kk], to));
                }
                lemma_popped_bounds_paths(
                    *self,
                    opre,
                    disc@,
                    closed@,
                    iopre,
                    gcost@,
                    from,
                    to,
                    cur,
                    bi as int,
                    cc as int,
                );
            }
            if cur.0 == to.0 && cur.1 == to.1 {
                proof {
                    assert(cur == to);
                    reveal(inv_disc);
                    reveal(inv_parent);
                    reveal(inv_open);
                    assert(disc@[cci as int]) by {
                        assert(opre[bi as int] == cur);
                    }
                }
                let p = reconstruct_path(self, &gcost, &parent, &disc, from, cur, w, h);
                let c = p.len() - 1;
                proof {
                    assert forall|q: Seq<(usize, usize)>|
                        #[trigger] valid_path(*self, q, from, to) implies c <= q.len() - 1 by {
                        assert(valid_path(*self, q, from, cur));
                        assert(gcost@[cell_index(wi, cur.0 as int, cur.1 as int)] <= q.len() - 1);
                    }
                }
                return Some((p, c));
            }
            let ghost cpre = closed@;
            closed[cci] = true;
            proof {
                reveal(inv_open);
                assert(!cpre[cci as int]) by {
                    assert(opre[bi as int] == cur);
                }
                if cci as int == gci as int {
                    lemma_cell_index_injective(
                        wi,
                        hi,
                        cur.0 as int,
                        cur.1 as int,
                        to.0 as int,
                        to.1 as int,
                    );
                }
                assert(!cpre[cci as int]);
                lemma_count_trues_lt_if_false(cpre, cci as int);
                lemma_count_trues_update_true(cpre, cci as int);
                assert(closed@ =~= cpre.update(cci as int, true));
            }
            cc = cc + 1;
            proof {
                reveal(inv_disc);
                reveal(inv_open);
                assert(disc@[cci as int]) by {
                    assert(opre[bi as int] == cur);
                }
                assert(gcost@[cci as int] < cc);
                lemma_inv_disc_weaken(*self, disc@, gcost@, cc - 1, cc as int);
                lemma_after_close(
                    *self,
                    opre,
                    open@,
                    disc@,
                    cpre,
                    closed@,
                    iopre,
                    inopen@,
                    gcost@,
                    cur,
                    bi as int,
                );
                lemma_close_reached(*self, cpre, closed@, gcost@, from, cur);
            }
            process_neighbours(
                self,
                &mut gcost,
                &mut parent,
                &mut disc,
                &closed,
                &mut inopen,
                &mut open,
                cur,
                from,
                cc,
                w,
                h,
            );
        }
        proof {
            reveal(inv_disc);
            reveal(inv_open);
            reveal(inv_queue);
            reveal(inv_closed_disc);
            reveal(inv_edge);
            // the whole reachable region is closed, and the goal never was
            assert(closed@[sci as int]) by {
                if !closed@[sci as int] {
                    assert(inopen@[sci as int]) by {
                        assert(disc@[cell_index(wi, from.0 as int, from.1 as int)]);
                    }
                    assert(open@.contains((from.0 as int as usize, from.1 as int as usize)));
                }
            }
            assert forall|v: (usize, usize), q: (usize, usize)|
                pos_in_bounds(wi, hi, v.0 as int, v.1 as int) && closed@[#[trigger] cell_index(
                    wi,
                    v.0 as int,
                    v.1 as int,
                )] && self.spec_passable(q.0 as int, q.1 as int) && chebyshev(
                    q.0 as int,
                    q.1 as int,
                    v.0 as int,
                    v.1 as int,
                ) == 1 implies closed@[#[trigger] cell_index(wi, q.0 as int, q.1 as int)] by {
                lemma_cell_index_bound(wi, hi, v.0 as int, v.1 as int);
                lemma_cell_index_bound(wi, hi, q.0 as int, q.1 as int);
                assert(disc@[cell_index(wi, q.0 as int, q.1 as int)]);
                if !closed@[cell_index(wi, q.0 as int, q.1 as int)] {
                    assert(inopen@[cell_index(wi, q.0 as int, q.1 as int)]);
                    assert(open@.contains((q.0 as int as usize, q.1 as int as usize)));
                }
            }
            assert forall|p: Seq<(usize, usize)>| !valid_path(*self, p, from, to) by {
                if valid_path(*self, p, from, to) {
                    lemma_path_stays_closed(*self, closed@, p, from, to);
                }
            }
        }
        None
    }
}

/// Relaxes every passable neighbour of the just-closed cell `cur`: undiscovered
/// neighbours are discovered and queued; cheaper routes update cost and
/// predecessor; equal-cost routes through `cur` adopt it as predecessor.
#[verifier::rlimit(100)]
fn process_neighbours(
    g: &Grid,
    gcost: &mut Vec<usize>,
    parent: &mut Vec<(usize, usize)>,
    disc: &mut Vec<bool>,
    closed: &Vec<bool>,
    inopen: &mut Vec<bool>,
    open: &mut Vec<(usize, usize)>,
    cur: (usize, usize),
    from: (usize, usize),
    cc: usize,
    w: usize,
    h: usize,
)
    requires
        g.wf(),
        w == g.spec_width(),
        h == g.spec_height(),
        search_lens(w * h, old(gcost)@, old(parent)@, old(disc)@, closed@, old(inopen)@),
        pos_in_bounds(w as int, h as int, from.0 as int, from.1 as int),
        old(disc)@[cell_index(w as int, from.0 as int, from.1 as int)],
        old(gcost)@[cell_index(w as int, from.0 as int, from.1 as int)] == 0,
        pos_in_bounds(w as int, h as int, cur.0 as int, cur.1 as int),
        old(disc)@[cell_index(w as int, cur.0 as int, cur.1 as int)],
        closed@[cell_index(w as int, cur.0 as int, cur.1 as int)],
        old(gcost)@[cell_index(w as int, cur.0 as int, cur.1 as int)] < cc,
        cc <= w * h,
        inv_disc(*g, old(disc)@, old(gcost)@, cc as int),
        inv_parent(*g, old(disc)@, old(parent)@, old(gcost)@, from),
        inv_open(*g, old(open)@, old(disc)@, closed@, old(inopen)@),
        inv_queue(*g, old(open)@, old(disc)@, closed@, old(inopen)@),
        inv_closed_disc(*g, closed@, old(disc)@),
        inv_edge(
            *g,
            closed@,
            old(disc)@,
            old(gcost)@,
            cell_index(w as int, cur.0 as int, cur.1 as int),
        ),
        inv_reached(*g, closed@, old(gcost)@, from),
    ensures
        search_lens(w * h, final(gcost)@, final(parent)@, final(disc)@, closed@, final(inopen)@),
        final(disc)@[cell_index(w as int, from.0 as int, from.1 as int)],
        final(gcost)@[cell_index(w as int, from.0 as int, from.1 as int)] == 0,
        inv_disc(*g, final(disc)@, final(gcost)@, cc as int),
        inv_parent(*g, final(disc)@, final(parent)@, final(gcost)@, from),
        inv_open(*g, final(open)@, final(disc)@, closed@, final(inopen)@),
        inv_queue(*g, final(open)@, final(disc)@, closed@, final(inopen)@),
        inv_closed_disc(*g, closed@, final(disc)@),
        inv_edge(*g, closed@, final(disc)@, final(gcost)@, -1),
        inv_reached(*g, closed@, final(gcost)@, from),
{
    let ghost wi = w as int;
    let ghost hi = h as int;
    let ghost sci = cell_index(wi, from.0 as int, from.1 as int);
    proof {
        lemma_cell_index_bound(wi, hi, cur.0 as int, cur.1 as int);
        lemma_cell_index_bound(wi, hi, from.0 as int, from.1 as int);
    }
    let cci = cur.1 * w + cur.0;
    let nbrs = g.passable_neighbours_of(&cur);
    let nn = nbrs.len();
    let mut j: usize = 0;
    while j < nn
        invariant
            g.wf(),
            w == g.spec_width(),
            h == g.spec_height(),
            wi == w as int,
            hi == h as int,
            search_lens(w * h, gcost@, parent@, disc@, closed@, inopen@),
            pos_in_bounds(wi, hi, from.0 as int, from.1 as int),
            sci == cell_index(wi, from.0 as int, from.1 as int),
            sci < w * h,
            disc@[sci],
            gcost@[sci] == 0,
            pos_in_bounds(wi, hi, cur.0 as int, cur.1 as int),
            cci == cell_index(wi, cur.0 as int, cur.1 as int),
            cci < w * h,
            disc@[cci as int],
            closed@[cci as int],
            gcost@[cci as int] < cc,
            cc <= w * h,
            nn == nbrs@.len(),
            j <= nn,
            nbrs@ == spec_passable_neighbours(*g, cur),
            inv_disc(*g, disc@, gcost@, cc as int),
            inv_parent(*g, disc@, parent@, gcost@, from),
            inv_open(*g, open@, disc@, closed@, inopen@),
            inv_queue(*g, open@, disc@, closed@, inopen@),
            inv_closed_disc(*g, closed@, disc@),
            inv_edge(*g, closed@, disc@, gcost@, cci as int),
            inv_reached(*g, closed@, gcost@, from),
            forall|jj: int|
                0 <= jj < j ==> disc@[#[trigger] cell_index(
                    wi,
                    nbrs@[jj].0 as int,
                    nbrs@[jj].1 as int,
                )] && gcost@[cell_index(wi, nbrs@[jj].0 as int, nbrs@[jj].1 as int)]
                    <= gcost@[cci as int] + 1,
        decreases nn - j,
    {
        let q = nbrs[j];
        proof {
            crate::map::grid::lemma_pn_correct(*g, cur);
            lemma_cell_index_bound(wi, hi, q.0 as int, q.1 as int);
        }
        let qci = q.1 * w + q.0;
        proof {
            assert(qci as int == cell_index(wi, q.0 as int, q.1 as int));
            // a closed neighbour's cost is already covered: the route through
            // the parent chain of `cur` reaches it in one more step
            if closed@[qci as int] {
                reveal(inv_reached);
                lemma_parent_chain_path(*g, disc@, parent@, gcost@, from, cur, cc as int);
                let p0 = choose|p0: Seq<(usize, usize)>|
                    #[trigger] valid_path(*g, p0, from, cur) && p0.len() - 1 <= gcost@[cell_index(
                        wi,
                        cur.0 as int,
                        cur.1 as int,
                    )];
                assert(chebyshev(cur.0 as int, cur.1 as int, q.0 as int, q.1 as int) == 1) by {
                    assert(chebyshev(q.0 as int, q.1 as int, cur.0 as int, cur.1 as int) == 1);
                }
                lemma_valid_path_extend(*g, p0, from, cur, q);
                assert(valid_path(*g, p0.push(q), from, q));
                assert(gcost@[qci as int] <= p0.push(q).len() - 1);
                assert(gcost@[qci as int] <= gcost@[cci as int] + 1);
            }
        }
        let ghost disc0 = disc@;
        let ghost gcost0 = gcost@;
        let ghost parent0 = parent@;
        let ghost inopen0 = inopen@;
        let ghost open0 = open@;
        let ng = gcost[cci] + 1;
        if !disc[qci] {
            disc[qci] = true;
            gcost[qci] = ng;
            parent[qci] = cur;
            inopen[qci] = true;
            open.push(q);
            proof {
                reveal(inv_open);
                assert(open@ == open0.push(q));
                assert forall|l: int| 0 <= l < open0.len() implies open0[l] != q by {
                    if open0[l] == q {
                        assert(disc0[cell_index(wi, q.0 as int, q.1 as int)]);
                    }
                }
            }
        } else if ng < gcost[qci] {
            gcost[qci] = ng;
            parent[qci] = cur;
            if !inopen[qci] && !closed[qci] {
                inopen[qci] = true;
                open.push(q);
                proof {
                    reveal(inv_open);
                    assert(open@ == open0.push(q));
                    assert forall|l: int| 0 <= l < open0.len() implies open0[l] != q by {
                        if open0[l] == q {
                            assert(inopen0[cell_index(wi, q.0 as int, q.1 as int)]);
                        }
                    }
                }
            }
        } else if ng == gcost[qci] && !closed[qci] {
            parent[qci] = cur;
        }
        proof {
            lemma_relax_costs(
                *g,
                disc0,
                disc@,
                gcost0,
                gcost@,
                parent0,
                parent@,
                inopen0,
                inopen@,
                open0,
                open@,
                closed@,
                cur,
                q,
                from,
                cc as int,
            );
            lemma_relax_queue(
                *g,
                disc0,
                disc@,
                gcost0,
                gcost@,
                parent0,
                parent@,
                inopen0,
                inopen@,
                open0,
                open@,
                closed@,
                cur,
                q,
                from,
                cc as int,
            );
            lemma_relax_frontier(
                *g,
                disc0,
                disc@,
                gcost0,
                gcost@,
                parent0,
                parent@,
                inopen0,
                inopen@,
                open0,
                open@,
                closed@,
                cur,
                q,
                from,
                cc as int,
            );
            assert forall|jj: int|
                0 <= jj < j + 1 implies disc@[#[trigger] cell_index(
                wi,
                nbrs@[jj].0 as int,
                nbrs@[jj].1 as int,
            )] && gcost@[cell_index(wi, nbrs@[jj].0 as int, nbrs@[jj].1 as int)]
                <= gcost@[cci as int] + 1 by {
                if jj < j {
                    let nb = nbrs@[jj];
                    lemma_cell_index_bound(wi, hi, nb.0 as int, nb.1 as int);
                    assert(disc0[cell_index(wi, nb.0 as int, nb.1 as int)]);
                    assert(gcost@[cell_index(wi, nb.0 as int, nb.1 as int)] <= gcost0[cell_index(
                        wi,
                        nb.0 as int,
                        nb.1 as int,
                    )]);
                    assert(gcost@[cci as int] == gcost0[cci as int]);
                } else {
                    assert(nbrs@[jj] == q);
                }
            }
        }
        j += 1;
    }
    proof {
        reveal(inv_edge);
        crate::map::grid::lemma_pn_correct(*g, cur);
        assert forall|v: (usize, usize), q2: (usize, usize)|
            pos_in_bounds(wi, hi, v.0 as int, v.1 as int) && closed@[#[trigger] cell_index(
                wi,
                v.0 as int,
                v.1 as int,
            )] && cell_index(wi, v.0 as int, v.1 as int) != -1 && g.spec_passable(
                q2.0 as int,
                q2.1 as int,
            ) && chebyshev(q2.0 as int, q2.1 as int, v.0 as int, v.1 as int) == 1 implies disc@[
            #[trigger] cell_index(wi, q2.0 as int, q2.1 as int)] && gcost@[cell_index(
            wi,
            q2.0 as int,
            q2.1 as int,
        )] <= gcost@[cell_index(wi, v.0 as int, v.1 as int)] + 1 by {
            lemma_cell_index_bound(wi, hi, v.0 as int, v.1 as int);
            lemma_cell_index_bound(wi, hi, q2.0 as int, q2.1 as int);
            if cell_index(wi, v.0 as int, v.1 as int) == cci as int {
                lemma_cell_index_injective(wi, hi, v.0 as int, v.1 as int, cur.0 as int, cur.1 as int);
                assert(chebyshev(q2.0 as int, q2.1 as int, cur.0 as int, cur.1 as int) == 1);
                assert(spec_passable_neighbours(*g, cur).contains(q2));
                let jj = choose|jj: int|
                    0 <= jj < spec_passable_neighbours(*g, cur).len() && spec_passable_neighbours(
                        *g,
                        cur,
                    )[jj] == q2;
                assert(nbrs@[jj] == q2);
                assert(disc@[cell_index(wi, q2.0 as int, q2.1 as int)] && gcost@[cell_index(
                    wi,
                    q2.0 as int,
                    q2.1 as int,
                )] <= gcost@[cci as int] + 1);
            }
        }
        assert(inv_edge(*g, closed@, disc@, gcost@, -1));
    }
}

/// One relaxation of neighbour `q` of the closed cell `cur`: costs fall only
/// on discovered cells, never on closed ones, and the cost and parent
/// invariants survive.
#[verifier::rlimit(100)]
proof fn lemma_relax_costs(
    g: Grid,
    disc0: Seq<bool>,
    disc: Seq<bool>,
    gcost0: Seq<usize>,
    gcost: Seq<usize>,
    parent0: Seq<(usize, usize)>,
    parent: Seq<(usize, usize)>,
    inopen0: Seq<bool>,
    inopen: Seq<bool>,
    open0: Seq<(usize, usize)>,
    open: Seq<(usize, usize)>,
    closed: Seq<bool>,
    cur: (usize, usize),
    q: (usize, usize),
    from: (usize, usize),
    cc: int,
)
    requires
        g.wf(),
        search_lens(g.spec_width() * g.spec_height(), gcost0, parent0, disc0, closed, inopen0),
        pos_in_bounds(
            g.spec_width() as int,
            g.spec_height() as int,
            from.0 as int,
            from.1 as int,
        ),
        disc0[cell_index(g.spec_width() as int, from.0 as int, from.1 as int)],
        gcost0[cell_index(g.spec_width() as int, from.0 as int, from.1 as int)] == 0,
        pos_in_bounds(g.spec_width() as int, g.spec_height() as int, cur.0 as int, cur.1 as int),
        disc0[cell_index(g.spec_width() as int, cur.0 as int, cur.1 as int)],
        closed[cell_index(g.spec_width() as int, cur.0 as int, cur.1 as int)],
        gcost0[cell_index(g.spec_width() as int, cur.0 as int, cur.1 as int)] < cc,
        cc <= g.spec_width() * g.spec_height(),
        g.spec_passable(q.0 as int, q.1 as int),
        chebyshev(q.0 as int, q.1 as int, cur.0 as int, cur.1 as int) == 1,
        inv_closed_disc(g, closed, disc0),
        closed[cell_index(g.spec_width() as int, q.0 as int, q.1 as int)] ==> gcost0[cell_index(
            g.spec_width() as int,
            q.0 as int,
            q.1 as int,
        )] <= gcost0[cell_index(g.spec_width() as int, cur.0 as int, cur.1 as int)] + 1,
        inv_disc(g, disc0, gcost0, cc),
        inv_parent(g, disc0, parent0, gcost0, from),
        ({
            let w = g.spec_width() as int;
            let qci = cell_index(w, q.0 as int, q.1 as int);
            let cci = cell_index(w, cur.0 as int, cur.1 as int);
            let ng = gcost0[cci] + 1;
            if !disc0[qci] {
                disc == disc0.update(qci, true) && gcost == gcost0.update(qci, ng as usize)
                    && parent == parent0.update(qci, cur) && inopen == inopen0.update(qci, true)
                    && open == open0.push(q)
            } else if ng < gcost0[qci] {
                disc == disc0 && gcost == gcost0.update(qci, ng as usize) && parent
                    == parent0.update(qci, cur) && (if !inopen0[qci] && !closed[qci] {
                    inopen == inopen0.update(qci, true) && open == open0.push(q)
                } else {
                    inopen == inopen0 && open == open0
                })
            } else if ng == gcost0[qci] && !closed[qci] {
                disc == disc0 && gcost == gcost0 && parent == parent0.update(qci, cur) && inopen
                    == inopen0 && open == open0
            } else {
                disc == disc0 && gcost == gcost0 && parent == parent0 && inopen == inopen0 && open
                    == open0
            }
        }),
    ensures
        search_lens(g.spec_width() * g.spec_height(), gcost, parent, disc, closed, inopen),
        disc[cell_index(g.spec_width() as int, from.0 as int, from.1 as int)],
        gcost[cell_index(g.spec_width() as int, from.0 as int, from.1 as int)] == 0,
        disc[cell_index(g.spec_width() as int, cur.0 as int, cur.1 as int)],
        gcost[cell_index(g.spec_width() as int, cur.0 as int, cur.1 as int)] == gcost0[cell_index(
            g.spec_width() as int,
            cur.0 as int,
            cur.1 as int,
        )],
        disc[cell_index(g.spec_width() as int, q.0 as int, q.1 as int)],
        gcost[cell_index(g.spec_width() as int, q.0 as int, q.1 as int)] <= gcost0[cell_index(
            g.spec_width() as int,
            cur.0 as int,
            cur.1 as int,
        )] + 1,
        forall|i: int| 0 <= i < disc0.len() && disc0[i] ==> disc[i],
        forall|i: int| 0 <= i < gcost0.len() && disc0[i] ==> gcost[i] <= gcost0[i],
        forall|i: int| 0 <= i < closed.len() && closed[i] ==> gcost[i] == gcost0[i],
        inv_disc(g, disc, gcost, cc),
        inv_parent(g, disc, parent, gcost, from),
        inv_closed_disc(g, closed, disc),
{
    reveal(inv_disc);
    reveal(inv_parent);
    reveal(inv_closed_disc);
    let w = g.spec_width() as int;
    let h = g.spec_height() as int;
    let qci = cell_index(w, q.0 as int, q.1 as int);
    let cci = cell_index(w, cur.0 as int, cur.1 as int);
    let sci = cell_index(w, from.0 as int, from.1 as int);
    let ng = gcost0[cci] + 1;
    lemma_cell_index_bound(w, h, q.0 as int, q.1 as int);
    lemma_cell_index_bound(w, h, cur.0 as int, cur.1 as int);
    lemma_cell_index_bound(w, h, from.0 as int, from.1 as int);
    if qci == sci {
        lemma_cell_index_injective(w, h, q.0 as int, q.1 as int, from.0 as int, from.1 as int);
    }
    if qci == cci {
        lemma_cell_index_injective(w, h, q.0 as int, q.1 as int, cur.0 as int, cur.1 as int);
    }
    if closed[qci] {
        assert(disc0[qci]);
        assert(gcost == gcost0 && disc == disc0 && inopen == inopen0 && open == open0);
    }
    assert(gcost[sci] == 0);
    assert forall|i: int| 0 <= i < closed.len() && closed[i] implies gcost[i] == gcost0[i] by {
        if i == qci {
            assert(closed[qci]);
        }
    }
    assert forall|x: int, y: int|
        pos_in_bounds(w, h, x, y) && disc[#[trigger] cell_index(w, x, y)] implies g.spec_passable(
        x,
        y,
    ) && gcost[cell_index(w, x, y)] <= cc by {
        lemma_cell_index_bound(w, h, x, y);
        if cell_index(w, x, y) == qci {
            lemma_cell_index_injective(w, h, x, y, q.0 as int, q.1 as int);
        }
    }
    assert forall|x: int, y: int|
        pos_in_bounds(w, h, x, y) && disc[#[trigger] cell_index(w, x, y)] && cell_index(w, x, y)
            != sci implies {
        let pp = parent[cell_index(w, x, y)];
        &&& pos_in_bounds(w, h, pp.0 as int, pp.1 as int)
        &&& disc[cell_index(w, pp.0 as int, pp.1 as int)]
        &&& chebyshev(pp.0 as int, pp.1 as int, x, y) == 1
        &&& gcost[cell_index(w, pp.0 as int, pp.1 as int)] < gcost[cell_index(w, x, y)]
    } by {
        lemma_cell_index_bound(w, h, x, y);
        let ci2 = cell_index(w, x, y);
        if ci2 == qci {
            lemma_cell_index_injective(w, h, x, y, q.0 as int, q.1 as int);
            if parent[ci2] == cur {
                assert(chebyshev(cur.0 as int, cur.1 as int, x, y) == 1);
            } else {
                assert(parent[ci2] == parent0[ci2]);
                assert(disc0[ci2]);
            }
        } else {
            assert(disc0[ci2]);
            assert(parent[ci2] == parent0[ci2]);
            let pp = parent0[ci2];
            assert(pos_in_bounds(w, h, pp.0 as int, pp.1 as int));
            lemma_cell_index_bound(w, h, pp.0 as int, pp.1 as int);
            if cell_index(w, pp.0 as int, pp.1 as int) == qci {
                lemma_cell_index_injective(w, h, pp.0 as int, pp.1 as int, q.0 as int, q.1 as int);
            }
        }
    }
    assert forall|x: int, y: int|
        pos_in_bounds(w, h, x, y) && closed[#[trigger] cell_index(w, x, y)] implies disc[cell_index(
        w,
        x,
        y,
    )] by {
        lemma_cell_index_bound(w, h, x, y);
        if cell_index(w, x, y) != qci {
            assert(disc0[cell_index(w, x, y)]);
        }
    }
}

/// One relaxation of neighbour `q` of the closed cell `cur`: the open list
/// and its mirror flags stay coherent.
#[verifier::rlimit(100)]
proof fn lemma_relax_queue(
    g: Grid,
    disc0: Seq<bool>,
    disc: Seq<bool>,
    gcost0: Seq<usize>,
    gcost: Seq<usize>,
    parent0: Seq<(usize, usize)>,
    parent: Seq<(usize, usize)>,
    inopen0: Seq<bool>,
    inopen: Seq<bool>,
    open0: Seq<(usize, usize)>,
    open: Seq<(usize, usize)>,
    closed: Seq<bool>,
    cur: (usize, usize),
    q: (usize, usize),
    from: (usize, usize),
    cc: int,
)
    requires
        g.wf(),
        search_lens(g.spec_width() * g.spec_height(), gcost0, parent0, disc0, closed, inopen0),
        pos_in_bounds(
            g.spec_width() as int,
            g.spec_height() as int,
            from.0 as int,
            from.1 as int,
        ),
        disc0[cell_index(g.spec_width() as int, from.0 as int, from.1 as int)],
        gcost0[cell_index(g.spec_width() as int, from.0 as int, from.1 as int)] == 0,
        pos_in_bounds(g.spec_width() as int, g.spec_height() as int, cur.0 as int, cur.1 as int),
        disc0[cell_index(g.spec_width() as int, cur.0 as int, cur.1 as int)],
        closed[cell_index(g.spec_width() as int, cur.0 as int, cur.1 as int)],
        gcost0[cell_index(g.spec_width() as int, cur.0 as int, cur.1 as int)] < cc,
        cc <= g.spec_width() * g.spec_height(),
        g.spec_passable(q.0 as int, q.1 as int),
        chebyshev(q.0 as int, q.1 as int, cur.0 as int, cur.1 as int) == 1,
        inv_closed_disc(g, closed, disc0),
        closed[cell_index(g.spec_width() as int, q.0 as int, q.1 as int)] ==> gcost0[cell_index(
            g.spec_width() as int,
            q.0 as int,
            q.1 as int,
        )] <= gcost0[cell_index(g.spec_width() as int, cur.0 as int, cur.1 as int)] + 1,
        inv_open(g, open0, disc0, closed, inopen0),
        inv_queue(g, open0, disc0, closed, inopen0),
        ({
            let w = g.spec_width() as int;
            let qci = cell_index(w, q.0 as int, q.1 as int);
            let cci = cell_index(w, cur.0 as int, cur.1 as int);
            let ng = gcost0[cci] + 1;
            if !disc0[qci] {
                disc == disc0.update(qci, true) && gcost == gcost0.update(qci, ng as usize)
                    && parent == parent0.update(qci, cur) && inopen == inopen0.update(qci, true)
                    && open == open0.push(q)
            } else if ng < gcost0[qci] {
                disc == disc0 && gcost == gcost0.update(qci, ng as usize) && parent
                    == parent0.update(qci, cur) && (if !inopen0[qci] && !closed[qci] {
                    inopen == inopen0.update(qci, true) && open == open0.push(q)
                } else {
                    inopen == inopen0 && open == open0
                })
            } else if ng == gcost0[qci] && !closed[qci] {
                disc == disc0 && gcost == gcost0 && parent == parent0.update(qci, cur) && inopen
                    == inopen0 && open == open0
            } else {
                disc == disc0 && gcost == gcost0 && parent == parent0 && inopen == inopen0 && open
                    == open0
            }
        }),
    ensures
        inv_open(g, open, disc, closed, inopen),
        inv_queue(g, open, disc, closed, inopen),
{
    reveal(inv_open);
    reveal(inv_queue);
    reveal(inv_closed_disc);
    let w = g.spec_width() as int;
    let h = g.spec_height() as int;
    let qci = cell_index(w, q.0 as int, q.1 as int);
    let cci = cell_index(w, cur.0 as int, cur.1 as int);
    let sci = cell_index(w, from.0 as int, from.1 as int);
    let ng = gcost0[cci] + 1;
    lemma_cell_index_bound(w, h, q.0 as int, q.1 as int);
    lemma_cell_index_bound(w, h, cur.0 as int, cur.1 as int);
    lemma_cell_index_bound(w, h, from.0 as int, from.1 as int);
    if qci == sci {
        lemma_cell_index_injective(w, h, q.0 as int, q.1 as int, from.0 as int, from.1 as int);
    }
    if qci == cci {
        lemma_cell_index_injective(w, h, q.0 as int, q.1 as int, cur.0 as int, cur.1 as int);
    }
    if closed[qci] {
        assert(disc0[qci]);
        assert(gcost == gcost0 && disc == disc0 && inopen == inopen0 && open == open0);
    }
    assert forall|k: int|
        0 <= k < open.len() implies {
        let qq = #[trigger] open[k];
        &&& pos_in_bounds(w, h, qq.0 as int, qq.1 as int)
        &&& disc[cell_index(w, qq.0 as int, qq.1 as int)]
        &&& !closed[cell_index(w, qq.0 as int, qq.1 as int)]
        &&& inopen[cell_index(w, qq.0 as int, qq.1 as int)]
    } by {
        if k < open0.len() {
            assert(open[k] == open0[k]);
            let qq = open0[k];
            lemma_cell_index_bound(w, h, qq.0 as int, qq.1 as int);
            if cell_index(w, qq.0 as int, qq.1 as int) == qci {
                lemma_cell_index_injective(w, h, qq.0 as int, qq.1 as int, q.0 as int, q.1 as int);
            }
        } else {
            assert(open[k] == q);
        }
    }
    assert forall|k: int, l: int| 0 <= k < l < open.len() implies open[k] != open[l] by {
        if l < open0.len() {
        } else if open != open0 {
            assert(open[l] == q);
            assert(open[k] == open0[k]);
            if open0[k] == q {
                assert(disc0[cell_index(w, q.0 as int, q.1 as int)]);
                assert(inopen0[cell_index(w, q.0 as int, q.1 as int)]);
            }
        }
    }
    assert forall|x: int, y: int|
        pos_in_bounds(w, h, x, y) && inopen[#[trigger] cell_index(w, x, y)] implies open.contains(
        (x as usize, y as usize),
    ) by {
        lemma_cell_index_bound(w, h, x, y);
        if cell_index(w, x, y) == qci {
            lemma_cell_index_injective(w, h, x, y, q.0 as int, q.1 as int);
            if inopen0[qci] {
                assert(open0.contains((x as usize, y as usize)));
                let l = choose|l: int| 0 <= l < open0.len() && open0[l] == (x as usize, y as usize);
                assert(open[l] == open0[l]);
            } else {
                assert(open == open0.push(q));
                assert(open[open.len() - 1] == q);
            }
        } else {
            assert(inopen0[cell_index(w, x, y)]);
            assert(open0.contains((x as usize, y as usize)));
            let l = choose|l: int| 0 <= l < open0.len() && open0[l] == (x as usize, y as usize);
            assert(open[l] == open0[l]);
        }
    }
    assert forall|x: int, y: int|
        pos_in_bounds(w, h, x, y) && disc[#[trigger] cell_index(w, x, y)] && !closed[cell_index(
            w,
            x,
            y,
        )] implies inopen[cell_index(w, x, y)] by {
        lemma_cell_index_bound(w, h, x, y);
        if cell_index(w, x, y) == qci {
        } else {
            assert(disc0[cell_index(w, x, y)]);
        }
    }
}

/// One relaxation of neighbour `q` of the closed cell `cur`: the frontier
/// bound and the optimality of closed costs survive.
#[verifier::rlimit(100)]
proof fn lemma_relax_frontier(
    g: Grid,
    disc0: Seq<bool>,
    disc: Seq<bool>,
    gcost0: Seq<usize>,
    gcost: Seq<usize>,
    parent0: Seq<(usize, usize)>,
    parent: Seq<(usize, usize)>,
    inopen0: Seq<bool>,
    inopen: Seq<bool>,
    open0: Seq<(usize, usize)>,
    open: Seq<(usize, usize)>,
    closed: Seq<bool>,
    cur: (usize, usize),
    q: (usize, usize),
    from: (usize, usize),
    cc: int,
)
    requires
        g.wf(),
        search_lens(g.spec_width() * g.spec_height(), gcost0, parent0, disc0, closed, inopen0),
        pos_in_bounds(
            g.spec_width() as int,
            g.spec_height() as int,
            from.0 as int,
            from.1 as int,
        ),
        disc0[cell_index(g.spec_width() as int, from.0 as int, from.1 as int)],
        gcost0[cell_index(g.spec_width() as int, from.0 as int, from.1 as int)] == 0,
        pos_in_bounds(g.spec_width() as int, g.spec_height() as int, cur.0 as int, cur.1 as int),
        disc0[cell_index(g.spec_width() as int, cur.0 as int, cur.1 as int)],
        closed[cell_index(g.spec_width() as int, cur.0 as int, cur.1 as int)],
        gcost0[cell_index(g.spec_width() as int, cur.0 as int, cur.1 as int)] < cc,
        cc <= g.spec_width() * g.spec_height(),
        g.spec_passable(q.0 as int, q.1 as int),
        chebyshev(q.0 as int, q.1 as int, cur.0 as int, cur.1 as int) == 1,
        inv_closed_disc(g, closed, disc0),
        closed[cell_index(g.spec_width() as int, q.0 as int, q.1 as int)] ==> gcost0[cell_index(
            g.spec_width() as int,
            q.0 as int,
            q.1 as int,
        )] <= gcost0[cell_index(g.spec_width() as int, cur.0 as int, cur.1 as int)] + 1,
        inv_edge(
            g,
            closed,
            disc0,
            gcost0,
            cell_index(g.spec_width() as int, cur.0 as int, cur.1 as int),
        ),
        inv_reached(g, closed, gcost0, from),
        ({
            let w = g.spec_width() as int;
            let qci = cell_index(w, q.0 as int, q.1 as int);
            let cci = cell_index(w, cur.0 as int, cur.1 as int);
            let ng = gcost0[cci] + 1;
            if !disc0[qci] {
                disc == disc0.update(qci, true) && gcost == gcost0.update(qci, ng as usize)
                    && parent == parent0.update(qci, cur) && inopen == inopen0.update(qci, true)
                    && open == open0.push(q)
            } else if ng < gcost0[qci] {
                disc == disc0 && gcost == gcost0.update(qci, ng as usize) && parent
                    == parent0.update(qci, cur) && (if !inopen0[qci] && !closed[qci] {
                    inopen == inopen0.update(qci, true) && open == open0.push(q)
                } else {
                    inopen == inopen0 && open == open0
                })
            } else if ng == gcost0[qci] && !closed[qci] {
                disc == disc0 && gcost == gcost0 && parent == parent0.update(qci, cur) && inopen
                    == inopen0 && open == open0
            } else {
                disc == disc0 && gcost == gcost0 && parent == parent0 && inopen == inopen0 && open
                    == open0
            }
        }),
    ensures
        inv_edge(
            g,
            closed,
            disc,
            gcost,
            cell_index(g.spec_width() as int, cur.0 as int, cur.1 as int),
        ),
        inv_reached(g, closed, gcost, from),
{
    reveal(inv_edge);
    reveal(inv_reached);
    reveal(inv_closed_disc);
    let w = g.spec_width() as int;
    let h = g.spec_height() as int;
    let qci = cell_index(w, q.0 as int, q.1 as int);
    let cci = cell_index(w, cur.0 as int, cur.1 as int);
    let sci = cell_index(w, from.0 as int, from.1 as int);
    let ng = gcost0[cci] + 1;
    lemma_cell_index_bound(w, h, q.0 as int, q.1 as int);
    lemma_cell_index_bound(w, h, cur.0 as int, cur.1 as int);
    lemma_cell_index_bound(w, h, from.0 as int, from.1 as int);
    if qci == sci {
        lemma_cell_index_injective(w, h, q.0 as int, q.1 as int, from.0 as int, from.1 as int);
    }
    if qci == cci {
        lemma_cell_index_injective(w, h, q.0 as int, q.1 as int, cur.0 as int, cur.1 as int);
    }
    if closed[qci] {
        assert(disc0[qci]);
        assert(gcost == gcost0 && disc == disc0 && inopen == inopen0 && open == open0);
    }
    assert forall|v: (usize, usize), q2: (usize, usize)|
        pos_in_bounds(w, h, v.0 as int, v.1 as int) && closed[#[trigger] cell_index(
            w,
            v.0 as int,
            v.1 as int,
        )] && cell_index(w, v.0 as int, v.1 as int) != cci && g.spec_passable(
            q2.0 as int,
            q2.1 as int,
        ) && chebyshev(q2.0 as int, q2.1 as int, v.0 as int, v.1 as int) == 1 implies disc[
        #[trigger] cell_index(w, q2.0 as int, q2.1 as int)] && gcost[cell_index(
        w,
        q2.0 as int,
        q2.1 as int,
    )] <= gcost[cell_index(w, v.0 as int, v.1 as int)] + 1 by {
        lemma_cell_index_bound(w, h, v.0 as int, v.1 as int);
        lemma_cell_index_bound(w, h, q2.0 as int, q2.1 as int);
        assert(disc0[cell_index(w, q2.0 as int, q2.1 as int)] && gcost0[cell_index(
            w,
            q2.0 as int,
            q2.1 as int,
        )] <= gcost0[cell_index(w, v.0 as int, v.1 as int)] + 1);
        assert(gcost[cell_index(w, v.0 as int, v.1 as int)] == gcost0[cell_index(
            w,
            v.0 as int,
            v.1 as int,
        )]);
        if cell_index(w, q2.0 as int, q2.1 as int) == qci {
        } else {
            assert(gcost[cell_index(w, q2.0 as int, q2.1 as int)] == gcost0[cell_index(
                w,
                q2.0 as int,
                q2.1 as int,
            )]);
        }
    }
    assert forall|v: (usize, usize), p: Seq<(usize, usize)>|
        pos_in_bounds(w, h, v.0 as int, v.1 as int) && closed[cell_index(
            w,
            v.0 as int,
            v.1 as int,
        )] && #[trigger] valid_path(g, p, from, v) implies gcost[cell_index(
        w,
        v.0 as int,
        v.1 as int,
    )] <= p.len() - 1 by {
        lemma_cell_index_bound(w, h, v.0 as int, v.1 as int);
        assert(gcost[cell_index(w, v.0 as int, v.1 as int)] == gcost0[cell_index(
            w,
            v.0 as int,
            v.1 as int,
        )]);
        assert(gcost0[cell_index(w, v.0 as int, v.1 as int)] <= p.len() - 1);
    }
}

proof fn lemma_count_trues_zero(s: Seq<bool>)
    requires
        forall|i: int| 0 <= i < s.len() ==> !s[i],
    ensures
        count_trues(s) == 0,
    decreases s.len(),
{
    if s.len() > 0 {
        lemma_count_trues_zero(s.drop_last());
    }
}

/// A vector of `n` copies of zero.
fn vec_filled(n: usize, v: usize) -> (r: Vec<usize>)
    ensures
        r@.len() == n,
        forall|i: int| 0 <= i < n ==> r@[i] == v,
{
    let mut r: Vec<usize> = Vec::new();
    let mut i: usize = 0;
    while i < n
        invariant
            i <= n,
            r@.len() == i,
            forall|k: int| 0 <= k < i ==> r@[k] == v,
        decreases n - i,
    {
        r.push(v);
        i += 1;
    }
    r
}

/// A vector of `n` copies of the origin.
fn vec_filled_pos(n: usize) -> (r: Vec<(usize, usize)>)
    ensures
        r@.len() == n,
{
    let mut r: Vec<(usize, usize)> = Vec::new();
    let mut i: usize = 0;
    while i < n
        invariant
            i <= n,
            r@.len() == i,
        decreases n - i,
    {
        r.push((0, 0));
        i += 1;
    }
    r
}

/// A vector of `n` copies of false.
fn vec_filled_bool(n: usize) -> (r: Vec<bool>)
    ensures
        r@.len() == n,
        forall|i: int| 0 <= i < n ==> !r@[i],
{
    let mut r: Vec<bool> = Vec::new();
    let mut i: usize = 0;
    while i < n
        invariant
            i <= n,
            r@.len() == i,
            forall|k: int| 0 <= k < i ==> !r@[k],
        decreases n - i,
    {
        r.push(false);
        i += 1;
    }
    r
}

/// Walks the parent links back from `to` to `from` and returns the forward
/// path.
fn reconstruct_path(
    g: &Grid,
    gcost: &Vec<usize>,
    parent: &Vec<(usize, usize)>,
    disc: &Vec<bool>,
    from: (usize, usize),
    to: (usize, usize),
    w: usize,
    h: usize,
) -> (r: Vec<(usize, usize)>)
    requires
        g.wf(),
        w == g.spec_width(),
        h == g.spec_height(),
        gcost@.len() == w * h,
        parent@.len() == w * h,
        disc@.len() == w * h,
        pos_in_bounds(w as int, h as int, from.0 as int, from.1 as int),
        pos_in_bounds(w as int, h as int, to.0 as int, to.1 as int),
        disc@[cell_index(w as int, to.0 as int, to.1 as int)],
        g.spec_passable(from.0 as int, from.1 as int),
        gcost@[cell_index(w as int, from.0 as int, from.1 as int)] == 0,
        forall|x: int, y: int|
            pos_in_bounds(w as int, h as int, x, y) && disc@[#[trigger] cell_index(w as int, x, y)]
                ==> g.spec_passable(x, y),
        forall|x: int, y: int|
            pos_in_bounds(w as int, h as int, x, y) && disc@[#[trigger] cell_index(w as int, x, y)]
                && cell_index(w as int, x, y) != cell_index(
                w as int,
                from.0 as int,
                from.1 as int,
            ) ==> {
                let pp = parent@[cell_index(w as int, x, y)];
                &&& pos_in_bounds(w as int, h as int, pp.0 as int, pp.1 as int)
                &&& disc@[cell_index(w as int, pp.0 as int, pp.1 as int)]
                &&& chebyshev(pp.0 as int, pp.1 as int, x, y) == 1
                &&& gcost@[cell_index(w as int, pp.0 as int, pp.1 as int)] < gcost@[cell_index(
                    w as int,
                    x,
                    y,
                )]
            },
    ensures
        valid_path(*g, r@, from, to),
        r@.len() >= 1,
        r@.len() - 1 <= gcost@[cell_index(w as int, to.0 as int, to.1 as int)],
        from == to ==> r@ =~= seq![from],
{
    let mut rev: Vec<(usize, usize)> = Vec::new();
    let mut cur = to;
    rev.push(cur);
    while !(cur.0 == from.0 && cur.1 == from.1)
        invariant
            g.wf(),
            w == g.spec_width(),
            h == g.spec_height(),
            gcost@.len() == w * h,
            parent@.len() == w * h,
            pos_in_bounds(w as int, h as int, from.0 as int, from.1 as int),
            g.spec_passable(from.0 as int, from.1 as int),
            gcost@[cell_index(w as int, from.0 as int, from.1 as int)] == 0,
            pos_in_bounds(w as int, h as int, cur.0 as int, cur.1 as int),
            disc@[cell_index(w as int, cur.0 as int, cur.1 as int)],
            g.spec_passable(cur.0 as int, cur.1 as int),
            from == to ==> rev@.len() == 1,
            rev@.len() >= 1,
            rev@.len() - 1 + gcost@[cell_index(w as int, cur.0 as int, cur.1 as int)]
                <= gcost@[cell_index(w as int, to.0 as int, to.1 as int)],
            rev@[0] == to,
            rev@[rev@.len() - 1] == cur,
            forall|i: int|
                0 <= i < rev@.len() ==> g.spec_passable(
                    (#[trigger] rev@[i]).0 as int,
                    rev@[i].1 as int,
                ),
            forall|i: int|
                0 <= i < rev@.len() - 1 ==> chebyshev(
                    (#[trigger] rev@[i]).0 as int,
                    rev@[i].1 as int,
                    rev@[i + 1].0 as int,
                    rev@[i + 1].1 as int,
                ) == 1,
            disc@.len() == w * h,
            forall|x: int, y: int|
                pos_in_bounds(w as int, h as int, x, y) && disc@[#[trigger] cell_index(
                    w as int,
                    x,
                    y,
                )] ==> g.spec_passable(x, y),
            forall|x: int, y: int|
                pos_in_bounds(w as int, h as int, x, y) && disc@[#[trigger] cell_index(
                    w as int,
                    x,
                    y,
                )] && cell_index(w as int, x, y) != cell_index(
                    w as int,
                    from.0 as int,
                    from.1 as int,
                ) ==> {
                    let pp = parent@[cell_index(w as int, x, y)];
                    &&& pos_in_bounds(w as int, h as int, pp.0 as int, pp.1 as int)
                    &&& disc@[cell_index(w as int, pp.0 as int, pp.1 as int)]
                    &&& chebyshev(pp.0 as int, pp.1 as int, x, y) == 1
                    &&& gcost@[cell_index(w as int, pp.0 as int, pp.1 as int)]
                        < gcost@[cell_index(w as int, x, y)]
                },
        decreases gcost@[cell_index(w as int, cur.0 as int, cur.1 as int)],
    {
        proof {
            lemma_cell_index_bound(w as int, h as int, cur.0 as int, cur.1 as int);
        }
        let cci = cur.1 * w + cur.0;
        proof {
            if cell_index(w as int, cur.0 as int, cur.1 as int) == cell_index(
                w as int,
                from.0 as int,
                from.1 as int,
            ) {
                lemma_cell_index_injective(
                    w as int,
                    h as int,
                    cur.0 as int,
                    cur.1 as int,
                    from.0 as int,
                    from.1 as int,
                );
            }
        }
        let prev = parent[cci];
        cur = prev;
        rev.push(cur);
    }
    // reverse into forward order
    let m = rev.len();
    let mut out: Vec<(usize, usize)> = Vec::new();
    let mut i: usize = m;
    while i > 0
        invariant
            m == rev@.len(),
            i <= m,
            out@.len() == m - i,
            forall|k: int| 0 <= k < out@.len() ==> out@[k] == rev@[m - 1 - k],
        decreases i,
    {
        i -= 1;
        out.push(rev[i]);
    }
    proof {
        assert(out@[0] == rev@[m - 1]);
        assert(out@[out@.len() - 1] == rev@[0]);
        assert forall|k: int| 0 <= k < out@.len() - 1 implies chebyshev(
            (#[trigger] out@[k]).0 as int,
            out@[k].1 as int,
            out@[k + 1].0 as int,
            out@[k + 1].1 as int,
        ) == 1 by {
            assert(out@[k] == rev@[m - 1 - k]);
            assert(out@[k + 1] == rev@[m - 1 - (k + 1)]);
            assert(chebyshev(
                rev@[m - 2 - k].0 as int,
                rev@[m - 2 - k].1 as int,
                rev@[m - 1 - k].0 as int,
                rev@[m - 1 - k].1 as int,
            ) == 1);
        }
        if from == to {
            assert(rev@.len() == 1) by {
                if rev@.len() > 1 {
                    assert(chebyshev(
                        rev@[0].0 as int,
                        rev@[0].1 as int,
                        rev@[1].0 as int,
                        rev@[1].1 as int,
                    ) == 1);
                }
            }
        }
    }
    out
}

} // verus!
