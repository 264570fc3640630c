//! What every plan keeps: the laws of the push cascade.
use crate::placement::{
    COORD_LIMIT, GRID, Point, TileRect, abs, all_well_formed, cascade, displaced, find_entity,
    first_greater, grid_ceil, lemma_find_in, lemma_first_greater_bound, lemma_sort_permutes, lemma_sweep_clear,
    lemma_sort_well_formed, sort_by_entity, spec_fits, spec_overlaps,
    spec_plan, spec_push_apart, step_budget, sweep,
};
use vstd::prelude::*;

verus! {

/// `r` is `base` after pushes: the same tiles in the same order, each moved
/// by whole grid cells, and every tile that moved lies inside `bounds`.
pub open spec fn pushed_from(base: Seq<TileRect>, r: Seq<TileRect>, bounds: Point) -> bool {
    &&& r.len() == base.len()
    &&& forall|i: int|
        #![trigger r[i]]
        0 <= i < r.len() ==> {
            &&& r[i].entity == base[i].entity
            &&& r[i].size == base[i].size
            &&& (r[i].pos.x - base[i].pos.x) % (GRID as int) == 0
            &&& (r[i].pos.y - base[i].pos.y) % (GRID as int) == 0
            &&& r[i] != base[i] ==> spec_fits(r[i], bounds)
        }
}

/// No tile other than the held one overlaps it.
pub open spec fn held_clear(held: TileRect, r: Seq<TileRect>) -> bool {
    forall|k: int|
        0 <= k < r.len() && (#[trigger] r[k]).entity != held.entity ==> !spec_overlaps(held, r[k])
}

/// Entities never decrease along the sequence.
pub open spec fn sorted_by_entity_seq(s: Seq<TileRect>) -> bool {
    forall|i: int, j: int| 0 <= i < j < s.len() ==> s[i].entity <= s[j].entity
}

proof fn lemma_push_apart_facts(source: TileRect, tile: TileRect)
    requires
        source.well_formed(),
        tile.pos.within_limit(4 * COORD_LIMIT),
        tile.size_ok(),
        spec_overlaps(source, tile),
    ensures
        ({
            let moved = spec_push_apart(source, tile);
            &&& moved.entity == tile.entity
            &&& moved.size == tile.size
            &&& !spec_overlaps(source, moved)
            &&& abs(moved.pos.x - tile.pos.x) <= source.size.x + tile.size.x + GRID
            &&& abs(moved.pos.y - tile.pos.y) <= source.size.y + tile.size.y + GRID
            &&& (moved.pos.x - tile.pos.x) % (GRID as int) == 0
            &&& (moved.pos.y - tile.pos.y) % (GRID as int) == 0
        }),
{
    let sx = source.pos.x + source.size.x - tile.pos.x;
    let tx = tile.pos.x + tile.size.x - source.pos.x;
    let sy = source.pos.y + source.size.y - tile.pos.y;
    let ty = tile.pos.y + tile.size.y - source.pos.y;
    assert(sx > 0 && tx > 0 && sy > 0 && ty > 0);
    assert(grid_ceil(sx) % (GRID as int) == 0 && sx <= grid_ceil(sx) < sx + GRID);
    assert(grid_ceil(tx) % (GRID as int) == 0 && tx <= grid_ceil(tx) < tx + GRID);
    assert(grid_ceil(sy) % (GRID as int) == 0 && sy <= grid_ceil(sy) < sy + GRID);
    assert(grid_ceil(ty) % (GRID as int) == 0 && ty <= grid_ceil(ty) < ty + GRID);
}

/// A tile pushed by `source` moves along one axis only, directly away from
/// `source`, by the fewest whole grid cells that leave the two apart (it
/// ends less than a cell beyond `source`'s far edge). The
/// axis is the one on which the centres lie further apart relative to the
/// half extents summed on that axis (`|dy| / (h_source + h_tile)` against
/// `|dx| / (w_source + w_tile)`, with `dx`, `dy` twice the centre offset),
/// the horizontal one on a tie.
pub proof fn lemma_push_axis(source: TileRect, tile: TileRect)
    requires
        source.well_formed(),
        tile.well_formed(),
        spec_overlaps(source, tile),
    ensures
        ({
            let moved = spec_push_apart(source, tile);
            let dx = (2 * tile.pos.x + tile.size.x) - (2 * source.pos.x + source.size.x);
            let dy = (2 * tile.pos.y + tile.size.y) - (2 * source.pos.y + source.size.y);
            let vertical = abs(dy) * (source.size.x + tile.size.x) > abs(dx) * (source.size.y
                + tile.size.y);
            &&& moved.entity == tile.entity
            &&& moved.size == tile.size
            &&& vertical ==> moved.pos.x == tile.pos.x
            &&& vertical && dy < 0 ==> moved.pos.y < tile.pos.y
            &&& vertical && dy >= 0 ==> moved.pos.y > tile.pos.y
            &&& !vertical ==> moved.pos.y == tile.pos.y
            &&& !vertical && dx < 0 ==> moved.pos.x < tile.pos.x
            &&& !vertical && dx >= 0 ==> moved.pos.x > tile.pos.x
            &&& (moved.pos.x - tile.pos.x) % (GRID as int) == 0
            &&& (moved.pos.y - tile.pos.y) % (GRID as int) == 0
            &&& !spec_overlaps(source, moved)
            &&& vertical && dy >= 0 ==> moved.pos.y < source.pos.y + source.size.y + GRID
            &&& vertical && dy < 0 ==> moved.pos.y + tile.size.y > source.pos.y - GRID
            &&& !vertical && dx >= 0 ==> moved.pos.x < source.pos.x + source.size.x + GRID
            &&& !vertical && dx < 0 ==> moved.pos.x + tile.size.x > source.pos.x - GRID
        }),
{
    lemma_push_apart_facts(source, tile);
    reveal(crate::placement::spec_direction);
    let sx = source.pos.x + source.size.x - tile.pos.x;
    let tx = tile.pos.x + tile.size.x - source.pos.x;
    let sy = source.pos.y + source.size.y - tile.pos.y;
    let ty = tile.pos.y + tile.size.y - source.pos.y;
    assert(sx <= grid_ceil(sx) < sx + GRID && tx <= grid_ceil(tx) < tx + GRID);
    assert(sy <= grid_ceil(sy) < sy + GRID && ty <= grid_ceil(ty) < ty + GRID);
}

#[verifier::spinoff_prover]
#[verifier::rlimit(40)]
proof fn lemma_displaced_facts(held: TileRect, source: TileRect, tile: TileRect)
    requires
        held.well_formed(),
        source.well_formed(),
        tile.well_formed(),
        spec_overlaps(source, tile),
    ensures
        ({
            let moved = displaced(held, source, tile);
            &&& moved.entity == tile.entity
            &&& moved.size == tile.size
            &&& !spec_overlaps(held, moved)
            &&& (moved.pos.x - tile.pos.x) % (GRID as int) == 0
            &&& (moved.pos.y - tile.pos.y) % (GRID as int) == 0
        }),
{
    lemma_push_apart_facts(source, tile);
    let first = spec_push_apart(source, tile);
    if spec_overlaps(held, first) {
        lemma_push_apart_facts(held, first);
        assert(displaced(held, source, tile) == spec_push_apart(held, first));
    } else {
        assert(displaced(held, source, tile) == first);
    }
}

proof fn lemma_pushed_well_formed(base: Seq<TileRect>, r: Seq<TileRect>, bounds: Point)
    requires
        all_well_formed(base),
        bounds.in_range(),
        pushed_from(base, r, bounds),
    ensures
        all_well_formed(r),
{
    assert forall|i: int| 0 <= i < r.len() implies #[trigger] r[i].well_formed() by {
        assert(base[i].well_formed());
    }
}

proof fn lemma_mod_sum(a: int, b: int)
    requires
        a % (GRID as int) == 0,
        b % (GRID as int) == 0,
    ensures
        (a + b) % (GRID as int) == 0,
{
}

proof fn lemma_update_pushed(
    base: Seq<TileRect>,
    r: Seq<TileRect>,
    i: int,
    moved: TileRect,
    bounds: Point,
)
    requires
        pushed_from(base, r, bounds),
        0 <= i < r.len(),
        moved.entity == r[i].entity,
        moved.size == r[i].size,
        (moved.pos.x - r[i].pos.x) % (GRID as int) == 0,
        (moved.pos.y - r[i].pos.y) % (GRID as int) == 0,
        spec_fits(moved, bounds),
    ensures
        pushed_from(base, r.update(i, moved), bounds),
{
    let r1 = r.update(i, moved);
    lemma_mod_sum(moved.pos.x - r[i].pos.x, r[i].pos.x - base[i].pos.x);
    lemma_mod_sum(moved.pos.y - r[i].pos.y, r[i].pos.y - base[i].pos.y);
    assert forall|k: int| 0 <= k < r1.len() implies {
        &&& (#[trigger] r1[k]).entity == base[k].entity
        &&& r1[k].size == base[k].size
        &&& (r1[k].pos.x - base[k].pos.x) % (GRID as int) == 0
        &&& (r1[k].pos.y - base[k].pos.y) % (GRID as int) == 0
        &&& r1[k] != base[k] ==> spec_fits(r1[k], bounds)
    } by {
        if k != i {
            assert(r1[k] == r[k]);
        }
    }
}

/// One pass keeps the shape, never leaves a displaced tile on the held
/// tile, and a pass of the held tile itself clears it from index `i` on.
proof fn lemma_sweep_shape(
    held: TileRect,
    source: TileRect,
    base: Seq<TileRect>,
    r: Seq<TileRect>,
    bounds: Point,
    i: int,
)
    requires
        held.well_formed(),
        source.well_formed(),
        bounds.in_range(),
        all_well_formed(base),
        pushed_from(base, r, bounds),
        0 <= i,
    ensures
        sweep(held, source, r, bounds, i) matches Some((r2, pushed)) ==> {
            &&& pushed_from(base, r2, bounds)
            &&& forall|k: int| 0 <= k < i ==> r2[k] == r[k]
            &&& forall|k: int|
                0 <= k < r2.len() && #[trigger] r2[k] != r[k] ==> !spec_overlaps(held, r2[k])
            &&& source == held ==> forall|k: int|
                i <= k < r2.len() && (#[trigger] r2[k]).entity != held.entity ==> !spec_overlaps(
                    held,
                    r2[k],
                )
        },
    decreases r.len() - i,
{
    lemma_pushed_well_formed(base, r, bounds);
    if i < r.len() {
        if r[i].entity == source.entity || !spec_overlaps(source, r[i]) {
            lemma_sweep_shape(held, source, base, r, bounds, i + 1);
        } else {
            assert(r[i].well_formed());
            let moved = displaced(held, source, r[i]);
            lemma_displaced_facts(held, source, r[i]);
            if spec_fits(moved, bounds) {
                let r1 = r.update(i, moved);
                lemma_update_pushed(base, r, i, moved, bounds);
                lemma_sweep_shape(held, source, base, r1, bounds, i + 1);
            }
        }
    }
}

/// The cascade keeps the shape, and once it ends no other tile overlaps
/// the held one.
proof fn lemma_cascade_shape(
    held: TileRect,
    base: Seq<TileRect>,
    r: Seq<TileRect>,
    queue: Seq<u64>,
    budget: nat,
    bounds: Point,
)
    requires
        held.well_formed(),
        bounds.in_range(),
        all_well_formed(base),
        pushed_from(base, r, bounds),
        queue.contains(held.entity) || held_clear(held, r),
    ensures
        cascade(held, r, queue, budget, bounds) matches Some(r2) ==> pushed_from(base, r2, bounds)
            && held_clear(held, r2),
    decreases budget,
{
    if queue.len() > 0 && budget > 0 {
        lemma_pushed_well_formed(base, r, bounds);
        let entity = queue[0];
        let source = if entity == held.entity {
            Some(held)
        } else {
            find_entity(r, entity)
        };
        lemma_find_in(r, entity);
        if let Some(src) = source {
            assert(src.well_formed());
            lemma_sweep_shape(held, src, base, r, bounds, 0);
            if let Some((r2, pushed)) = sweep(held, src, r, bounds, 0) {
                let next = queue.drop_first() + pushed;
                if entity != held.entity && !held_clear(held, r) {
                    let k = choose|k: int| 0 <= k < queue.len() && queue[k] == held.entity;
                    assert(next[k - 1] == held.entity);
                }
                assert(next.contains(held.entity) || held_clear(held, r2)) by {
                    if entity == held.entity || held_clear(held, r) {
                        assert forall|k: int|
                            0 <= k < r2.len() && (#[trigger] r2[k]).entity
                                != held.entity implies !spec_overlaps(held, r2[k]) by {
                            if r2[k] == r[k] {
                            }
                        }
                    }
                }
                lemma_cascade_shape(held, base, r2, next, (budget - 1) as nat, bounds);
            }
        }
    }
}

proof fn lemma_first_greater_split(s: Seq<TileRect>, entity: u64)
    requires
        sorted_by_entity_seq(s),
    ensures
        first_greater(s, entity) <= s.len(),
        forall|k: int| 0 <= k < first_greater(s, entity) ==> s[k].entity <= entity,
        forall|k: int| first_greater(s, entity) <= k < s.len() ==> s[k].entity > entity,
    decreases s.len(),
{
    if s.len() > 0 && s[0].entity <= entity {
        let t = s.drop_first();
        lemma_first_greater_split(t, entity);
        assert forall|k: int| 0 <= k < first_greater(s, entity) implies s[k].entity <= entity by {
            if k > 0 {
                assert(s[k] == t[k - 1]);
            }
        }
        assert forall|k: int| first_greater(s, entity) <= k < s.len() implies s[k].entity
            > entity by {
            assert(s[k] == t[k - 1]);
        }
    }
}

/// The stable sort by entity orders the tiles by entity.
pub proof fn lemma_sort_is_sorted(s: Seq<TileRect>)
    ensures
        sorted_by_entity_seq(sort_by_entity(s)),
    decreases s.len(),
{
    if s.len() > 0 {
        let rest = sort_by_entity(s.drop_last());
        lemma_sort_is_sorted(s.drop_last());
        let e = s.last().entity;
        lemma_first_greater_split(rest, e);
        let p = first_greater(rest, e) as int;
        let out = rest.insert(p, s.last());
        assert forall|i: int, j: int| 0 <= i < j < out.len() implies out[i].entity
            <= out[j].entity by {
            if j < p {
            } else if j == p {
                assert(out[i] == rest[i]);
            } else if i == p {
                assert(out[j] == rest[j - 1]);
            } else if i < p {
                assert(out[j] == rest[j - 1]);
            } else {
                assert(out[j] == rest[j - 1]);
                assert(out[i] == rest[i - 1]);
            }
        }
    }
}

/// A held tile that does not fit the zone makes the drop infeasible.
pub proof fn lemma_plan_rejects_unfit_held(held: TileRect, committed: Seq<TileRect>, bounds: Point)
    requires
        !spec_fits(held, bounds),
    ensures
        spec_plan(held, committed, bounds) is None,
{
}

/// A held tile that fits and overlaps nothing is placed as is: the plan is
/// the committed tiles, ordered by entity, none of them moved.
pub proof fn lemma_plan_unobstructed(held: TileRect, committed: Seq<TileRect>, bounds: Point)
    requires
        spec_fits(held, bounds),
        forall|k: int| 0 <= k < committed.len() ==> !spec_overlaps(held, #[trigger] committed[k]),
    ensures
        spec_plan(held, committed, bounds) == Some(sort_by_entity(committed)),
{
    broadcast use vstd::seq_lib::group_to_multiset_ensures;

    let sorted = sort_by_entity(committed);
    lemma_sort_permutes(committed);
    assert forall|k: int| 0 <= k < sorted.len() implies !spec_overlaps(held, #[trigger] sorted[k]) by {
        assert(sorted.to_multiset().count(sorted[k]) > 0);
        assert(committed.contains(sorted[k]));
    }
    lemma_sweep_clear(held, held, sorted, bounds, 0);
    let q = seq![held.entity];
    let b = step_budget(committed.len());
    assert(b >= 16) by (nonlinear_arith)
        requires
            b == 16 * (committed.len() + 1) * (committed.len() + 1),
    ;
    assert(q.drop_first() + Seq::<u64>::empty() =~= Seq::<u64>::empty());
    assert(cascade(held, sorted, Seq::<u64>::empty(), (b - 1) as nat, bounds) == Some(sorted));
}

/// A feasible plan keeps the committed tiles, ordered by entity: same
/// entities, same sizes, each moved by whole grid cells, and every tile it
/// moves lies inside the zone, as does the held tile.
pub proof fn lemma_plan_shape(held: TileRect, committed: Seq<TileRect>, bounds: Point)
    requires
        held.well_formed(),
        bounds.in_range(),
        all_well_formed(committed),
    ensures
        spec_plan(held, committed, bounds) matches Some(r) ==> {
            &&& spec_fits(held, bounds)
            &&& pushed_from(sort_by_entity(committed), r, bounds)
            &&& sorted_by_entity_seq(r)
            &&& r.len() == committed.len()
        },
{
    let sorted = sort_by_entity(committed);
    lemma_sort_well_formed(committed);
    lemma_sort_permutes(committed);
    lemma_sort_is_sorted(committed);
    assert(pushed_from(sorted, sorted, bounds));
    let q = seq![held.entity];
    assert(q[0] == held.entity);
    lemma_cascade_shape(held, sorted, sorted, q, step_budget(committed.len()), bounds);
}

/// A feasible plan never leaves another tile overlapping the held one.
pub proof fn lemma_plan_clears_held(held: TileRect, committed: Seq<TileRect>, bounds: Point)
    requires
        held.well_formed(),
        bounds.in_range(),
        all_well_formed(committed),
    ensures
        spec_plan(held, committed, bounds) matches Some(r) ==> held_clear(held, r),
{
    let sorted = sort_by_entity(committed);
    lemma_sort_well_formed(committed);
    assert(pushed_from(sorted, sorted, bounds));
    let q = seq![held.entity];
    assert(q[0] == held.entity);
    lemma_cascade_shape(held, sorted, sorted, q, step_budget(committed.len()), bounds);
}

/// No two tiles carry the same entity.
pub open spec fn distinct_entities(s: Seq<TileRect>) -> bool {
    forall|i: int, j: int| 0 <= i < j < s.len() ==> s[i].entity != s[j].entity
}

/// No two tiles overlap where at least one of them moved away from `base`.
pub open spec fn moved_clear(base: Seq<TileRect>, r: Seq<TileRect>) -> bool {
    forall|i: int, j: int|
        0 <= i < r.len() && 0 <= j < r.len() && i != j && (r[i] != base[i] || r[j] != base[j])
            ==> !spec_overlaps(#[trigger] r[i], #[trigger] r[j])
}

/// Every overlap that involves a moved tile still has one of its two
/// tiles waiting in the queue.
pub open spec fn pending_cover(base: Seq<TileRect>, r: Seq<TileRect>, queue: Seq<u64>) -> bool {
    forall|i: int, j: int|
        0 <= i < r.len() && 0 <= j < r.len() && i != j && (r[i] != base[i] || r[j] != base[j])
            && spec_overlaps(#[trigger] r[i], #[trigger] r[j]) ==> queue.contains(r[i].entity)
            || queue.contains(r[j].entity)
}

proof fn lemma_contains_concat(a: Seq<u64>, b: Seq<u64>, x: u64)
    ensures
        (a.contains(x) || b.contains(x)) ==> (a + b).contains(x),
{
    if a.contains(x) {
        let k = choose|k: int| 0 <= k < a.len() && a[k] == x;
        assert((a + b)[k] == x);
    } else if b.contains(x) {
        let k = choose|k: int| 0 <= k < b.len() && b[k] == x;
        assert((a + b)[a.len() + k] == x);
    }
}

/// After a pass from index `i`, every tile from `i` on is either untouched
/// and clear of the source, or was pushed.
proof fn lemma_sweep_touch(
    held: TileRect,
    source: TileRect,
    r: Seq<TileRect>,
    bounds: Point,
    i: int,
)
    requires
        0 <= i,
    ensures
        sweep(held, source, r, bounds, i) matches Some((r2, pushed)) ==> {
            &&& r2.len() == r.len()
            &&& forall|k: int| 0 <= k < i ==> r2[k] == r[k]
            &&& forall|k: int|
                i <= k < r.len() ==> (#[trigger] r2[k] == r[k] && (r[k].entity == source.entity
                    || !spec_overlaps(source, r[k]))) || pushed.contains(r2[k].entity)
        },
    decreases r.len() - i,
{
    if i < r.len() {
        if r[i].entity == source.entity || !spec_overlaps(source, r[i]) {
            lemma_sweep_touch(held, source, r, bounds, i + 1);
        } else {
            let moved = displaced(held, source, r[i]);
            if spec_fits(moved, bounds) {
                let r1 = r.update(i, moved);
                lemma_sweep_touch(held, source, r1, bounds, i + 1);
                if let Some((r2, pushed)) = sweep(held, source, r1, bounds, i + 1) {
                    let all = seq![moved.entity] + pushed;
                    assert(all[0] == moved.entity);
                    assert forall|k: int| i <= k < r.len() implies (#[trigger] r2[k] == r[k] && (
                    r[k].entity == source.entity || !spec_overlaps(source, r[k])))
                        || all.contains(r2[k].entity) by {
                        if k == i {
                            assert(r2[k] == r1[k]);
                        } else {
                            assert(r1[k] == r[k]);
                            lemma_contains_concat(seq![moved.entity], pushed, r2[k].entity);
                        }
                    }
                }
            }
        }
    }
}

proof fn lemma_cascade_moved_clear(
    held: TileRect,
    base: Seq<TileRect>,
    r: Seq<TileRect>,
    queue: Seq<u64>,
    budget: nat,
    bounds: Point,
)
    requires
        held.well_formed(),
        bounds.in_range(),
        all_well_formed(base),
        pushed_from(base, r, bounds),
        distinct_entities(base),
        forall|k: int| 0 <= k < base.len() ==> (#[trigger] base[k]).entity != held.entity,
        pending_cover(base, r, queue),
    ensures
        cascade(held, r, queue, budget, bounds) matches Some(r2) ==> moved_clear(base, r2),
    decreases budget,
{
    if queue.len() == 0 {
        assert forall|i: int, j: int|
            0 <= i < r.len() && 0 <= j < r.len() && i != j && (r[i] != base[i] || r[j]
                != base[j]) implies !spec_overlaps(#[trigger] r[i], #[trigger] r[j]) by {
        }
    } else if budget > 0 {
        let e = queue[0];
        let source = if e == held.entity {
            Some(held)
        } else {
            find_entity(r, e)
        };
        lemma_find_in(r, e);
        lemma_pushed_well_formed(base, r, bounds);
        if let Some(src) = source {
            assert(src.well_formed());
            lemma_sweep_shape(held, src, base, r, bounds, 0);
            lemma_sweep_touch(held, src, r, bounds, 0);
            if let Some((r2, pushed)) = sweep(held, src, r, bounds, 0) {
                let rest = queue.drop_first();
                let next = rest + pushed;
                assert forall|i: int, j: int|
                    0 <= i < r2.len() && 0 <= j < r2.len() && i != j && (r2[i] != base[i] || r2[j]
                        != base[j]) && spec_overlaps(#[trigger] r2[i], #[trigger] r2[j]) implies next.contains(
                    r2[i].entity,
                ) || next.contains(r2[j].entity) by {
                    lemma_contains_concat(rest, pushed, r2[i].entity);
                    lemma_contains_concat(rest, pushed, r2[j].entity);
                    if !pushed.contains(r2[i].entity) && !pushed.contains(r2[j].entity) {
                        assert(r2[i] == r[i]);
                        assert(r2[j] == r[j]);
                        assert(queue.contains(r[i].entity) || queue.contains(r[j].entity));
                        assert(r[i].entity == base[i].entity);
                        assert(r[j].entity == base[j].entity);
                        if i < j {
                            assert(base[i].entity != base[j].entity);
                        } else {
                            assert(base[j].entity != base[i].entity);
                        }
                        assert(base[i].entity != held.entity);
                        assert(base[j].entity != held.entity);
                        if queue.contains(r[i].entity) && r[i].entity != e {
                            let k = choose|k: int| 0 <= k < queue.len() && queue[k] == r[i].entity;
                            assert(rest[k - 1] == r[i].entity);
                        } else if queue.contains(r[j].entity) && r[j].entity != e {
                            let k = choose|k: int| 0 <= k < queue.len() && queue[k] == r[j].entity;
                            assert(rest[k - 1] == r[j].entity);
                        } else if r[i].entity == e {
                            let m = choose|m: int| 0 <= m < r.len() && r[m] == src;
                            assert(r[m].entity == base[m].entity);
                            if m != i {
                                if m < i {
                                    assert(base[m].entity != base[i].entity);
                                } else {
                                    assert(base[i].entity != base[m].entity);
                                }
                            }
                            assert(src == r[i]);
                            assert(!spec_overlaps(src, r[j]));
                        } else {
                            let m = choose|m: int| 0 <= m < r.len() && r[m] == src;
                            assert(r[m].entity == base[m].entity);
                            if m != j {
                                if m < j {
                                    assert(base[m].entity != base[j].entity);
                                } else {
                                    assert(base[j].entity != base[m].entity);
                                }
                            }
                            assert(src == r[j]);
                            assert(!spec_overlaps(src, r[i]));
                        }
                    }
                }
                lemma_cascade_moved_clear(held, base, r2, next, (budget - 1) as nat, bounds);
            }
        }
    }
}

proof fn lemma_sort_distinct(s: Seq<TileRect>)
    requires
        distinct_entities(s),
    ensures
        distinct_entities(sort_by_entity(s)),
    decreases s.len(),
{
    broadcast use vstd::seq_lib::group_to_multiset_ensures;

    if s.len() > 0 {
        let d = s.drop_last();
        lemma_sort_distinct(d);
        let rest = sort_by_entity(d);
        lemma_sort_permutes(d);
        let last = s.last();
        let p = first_greater(rest, last.entity) as int;
        lemma_first_greater_bound(rest, last.entity);
        let out = rest.insert(p, last);
        assert forall|k: int| 0 <= k < rest.len() implies (#[trigger] rest[k]).entity
            != last.entity by {
            assert(rest.to_multiset().count(rest[k]) > 0);
            assert(d.contains(rest[k]));
            let m = choose|m: int| 0 <= m < d.len() && d[m] == rest[k];
            assert(s[m] == d[m]);
        }
        assert forall|i: int, j: int| 0 <= i < j < out.len() implies out[i].entity
            != out[j].entity by {
            if j < p {
            } else if j == p {
                assert(out[i] == rest[i]);
            } else if i == p {
                assert(out[j] == rest[j - 1]);
            } else if i < p {
                assert(out[j] == rest[j - 1]);
            } else {
                assert(out[j] == rest[j - 1]);
                assert(out[i] == rest[i - 1]);
            }
        }
    }
}

/// With distinct entities, a feasible plan leaves no overlap behind between
/// two tiles of which at least one was moved: the cascade resolves every
/// collision that it causes.
pub proof fn lemma_plan_moved_tiles_clear(held: TileRect, committed: Seq<TileRect>, bounds: Point)
    requires
        held.well_formed(),
        bounds.in_range(),
        all_well_formed(committed),
        distinct_entities(committed),
        forall|k: int| 0 <= k < committed.len() ==> (#[trigger] committed[k]).entity != held.entity,
    ensures
        spec_plan(held, committed, bounds) matches Some(r) ==> moved_clear(
            sort_by_entity(committed),
            r,
        ),
{
    broadcast use vstd::seq_lib::group_to_multiset_ensures;

    let sorted = sort_by_entity(committed);
    lemma_sort_well_formed(committed);
    lemma_sort_distinct(committed);
    lemma_sort_permutes(committed);
    assert forall|k: int| 0 <= k < sorted.len() implies (#[trigger] sorted[k]).entity
        != held.entity by {
        assert(sorted.to_multiset().count(sorted[k]) > 0);
        assert(committed.contains(sorted[k]));
    }
    assert(pushed_from(sorted, sorted, bounds));
    lemma_cascade_moved_clear(
        held,
        sorted,
        sorted,
        seq![held.entity],
        step_budget(committed.len()),
        bounds,
    );
}

/// Every tile of a feasible plan is well formed.
pub proof fn lemma_plan_well_formed(held: TileRect, committed: Seq<TileRect>, bounds: Point)
    requires
        held.well_formed(),
        bounds.in_range(),
        all_well_formed(committed),
    ensures
        spec_plan(held, committed, bounds) matches Some(r) ==> all_well_formed(r),
{
    lemma_plan_shape(held, committed, bounds);
    lemma_sort_well_formed(committed);
    if let Some(r) = spec_plan(held, committed, bounds) {
        lemma_pushed_well_formed(sort_by_entity(committed), r, bounds);
    }
}

/// Some tile of `r` carries `t`'s entity and size.
pub open spec fn has_counterpart(r: Seq<TileRect>, t: TileRect) -> bool {
    exists|i: int| 0 <= i < r.len() && r[i].entity == t.entity && r[i].size == t.size
}

/// Every tile lies inside the zone.
pub open spec fn fits_all(c: Seq<TileRect>, bounds: Point) -> bool {
    forall|k: int| 0 <= k < c.len() ==> spec_fits(#[trigger] c[k], bounds)
}

/// No two tiles overlap.
pub open spec fn pairwise_clear(c: Seq<TileRect>) -> bool {
    forall|i: int, j: int|
        0 <= i < c.len() && 0 <= j < c.len() && i != j ==> !spec_overlaps(
            #[trigger] c[i],
            #[trigger] c[j],
        )
}

/// A board as a fixture leaves it: inside the zone, overlap-free, each
/// tile committed once.
pub open spec fn board_clear(c: Seq<TileRect>, bounds: Point) -> bool {
    &&& fits_all(c, bounds)
    &&& pairwise_clear(c)
    &&& distinct_entities(c)
}

/// The sorted tiles are the committed ones, place for place.
proof fn lemma_sorted_members(c: Seq<TileRect>)
    ensures
        forall|i: int|
            0 <= i < sort_by_entity(c).len() ==> exists|a: int|
                0 <= a < c.len() && c[a] == #[trigger] sort_by_entity(c)[i],
        forall|k: int|
            0 <= k < c.len() ==> exists|i: int|
                0 <= i < sort_by_entity(c).len() && sort_by_entity(c)[i] == #[trigger] c[k],
        sort_by_entity(c).len() == c.len(),
{
    broadcast use vstd::seq_lib::group_to_multiset_ensures;

    lemma_sort_permutes(c);
    let sorted = sort_by_entity(c);
    assert forall|i: int| 0 <= i < sorted.len() implies exists|a: int|
        0 <= a < c.len() && c[a] == #[trigger] sorted[i] by {
        assert(sorted.to_multiset().count(sorted[i]) > 0);
        assert(c.contains(sorted[i]));
    }
    assert forall|k: int| 0 <= k < c.len() implies exists|i: int|
        0 <= i < sorted.len() && sorted[i] == #[trigger] c[k] by {
        assert(c.to_multiset().count(c[k]) > 0);
        assert(sorted.contains(c[k]));
    }
}

/// Pushed tiles keep their entities apart from the held tile, stay in the
/// zone, and keep distinct entities.
proof fn lemma_pushed_board_a(
    held: TileRect,
    c: Seq<TileRect>,
    sorted: Seq<TileRect>,
    r: Seq<TileRect>,
    bounds: Point,
)
    requires
        board_clear(c, bounds),
        sorted.len() == c.len(),
        sorted.no_duplicates(),
        forall|i: int|
            0 <= i < sorted.len() ==> exists|a: int| 0 <= a < c.len() && c[a] == #[trigger] sorted[i],
        forall|k: int|
            0 <= k < c.len() ==> exists|i: int| 0 <= i < sorted.len() && sorted[i] == #[trigger] c[k],
        pushed_from(sorted, r, bounds),
        moved_clear(sorted, r),
        forall|k: int| 0 <= k < c.len() ==> (#[trigger] c[k]).entity != held.entity,
    ensures
        fits_all(r, bounds),
        distinct_entities(r),
        forall|k: int| 0 <= k < r.len() ==> (#[trigger] r[k]).entity != held.entity,
{
    assert forall|k: int| 0 <= k < r.len() implies (#[trigger] r[k]).entity != held.entity by {
        let a = choose|a: int| 0 <= a < c.len() && c[a] == sorted[k];
        assert(r[k].entity == sorted[k].entity);
    }
    assert forall|k: int| 0 <= k < r.len() implies spec_fits(#[trigger] r[k], bounds) by {
        if r[k] == sorted[k] {
            let a = choose|a: int| 0 <= a < c.len() && c[a] == sorted[k];
            assert(spec_fits(c[a], bounds));
        }
    }
    assert forall|i: int, j: int| 0 <= i < j < r.len() implies r[i].entity != r[j].entity by {
        let a = choose|a: int| 0 <= a < c.len() && c[a] == sorted[i];
        let b = choose|b: int| 0 <= b < c.len() && c[b] == sorted[j];
        assert(r[i].entity == sorted[i].entity);
        assert(r[j].entity == sorted[j].entity);
        assert(sorted[i] != sorted[j]);
        if a < b {
            assert(c[a].entity != c[b].entity);
        } else if b < a {
            assert(c[b].entity != c[a].entity);
        }
    }
}

/// Pushing a clear board, with every overlap involving a moved tile
/// resolved, leaves no overlap.
proof fn lemma_pushed_board_b(
    held: TileRect,
    c: Seq<TileRect>,
    sorted: Seq<TileRect>,
    r: Seq<TileRect>,
    bounds: Point,
)
    requires
        board_clear(c, bounds),
        sorted.len() == c.len(),
        sorted.no_duplicates(),
        forall|i: int|
            0 <= i < sorted.len() ==> exists|a: int| 0 <= a < c.len() && c[a] == #[trigger] sorted[i],
        forall|k: int|
            0 <= k < c.len() ==> exists|i: int| 0 <= i < sorted.len() && sorted[i] == #[trigger] c[k],
        pushed_from(sorted, r, bounds),
        moved_clear(sorted, r),
        forall|k: int| 0 <= k < c.len() ==> (#[trigger] c[k]).entity != held.entity,
    ensures
        pairwise_clear(r),
{
    assert forall|i: int, j: int|
        0 <= i < r.len() && 0 <= j < r.len() && i != j implies !spec_overlaps(
        #[trigger] r[i],
        #[trigger] r[j],
    ) by {
        if r[i] == sorted[i] && r[j] == sorted[j] {
            let a = choose|a: int| 0 <= a < c.len() && c[a] == sorted[i];
            let b = choose|b: int| 0 <= b < c.len() && c[b] == sorted[j];
            assert(sorted[i] != sorted[j]);
            assert(a != b);
            assert(!spec_overlaps(c[a], c[b]));
        }
    }
}

/// Every committed tile has its counterpart in the plan.
proof fn lemma_pushed_board_c(
    held: TileRect,
    c: Seq<TileRect>,
    sorted: Seq<TileRect>,
    r: Seq<TileRect>,
    bounds: Point,
)
    requires
        board_clear(c, bounds),
        sorted.len() == c.len(),
        sorted.no_duplicates(),
        forall|i: int|
            0 <= i < sorted.len() ==> exists|a: int| 0 <= a < c.len() && c[a] == #[trigger] sorted[i],
        forall|k: int|
            0 <= k < c.len() ==> exists|i: int| 0 <= i < sorted.len() && sorted[i] == #[trigger] c[k],
        pushed_from(sorted, r, bounds),
        moved_clear(sorted, r),
        forall|k: int| 0 <= k < c.len() ==> (#[trigger] c[k]).entity != held.entity,
    ensures
        forall|k: int| 0 <= k < c.len() ==> has_counterpart(r, #[trigger] c[k]),
{
    assert forall|k: int| 0 <= k < c.len() implies has_counterpart(r, #[trigger] c[k]) by {
        let i = choose|i: int| 0 <= i < sorted.len() && sorted[i] == c[k];
        assert(r[i].entity == sorted[i].entity && r[i].size == sorted[i].size);
        assert(0 <= i < r.len() && r[i].entity == c[k].entity && r[i].size == c[k].size);
    }
}

/// Dropping a tile onto a clear board leaves a clear board: when the
/// committed tiles (all of non-negative extent) lie inside the zone,
/// overlap nowhere and carry distinct entities other than the held tile's,
/// a feasible plan's tiles do too, the held tile fits and overlaps none of
/// them, and every committed tile is still there with its size.
pub proof fn lemma_plan_keeps_board_clear(held: TileRect, c: Seq<TileRect>, bounds: Point)
    requires
        bounds.in_range(),
        held.size.x >= 0 && held.size.y >= 0,
        forall|k: int| 0 <= k < c.len() ==> (#[trigger] c[k]).size.x >= 0 && c[k].size.y >= 0,
        board_clear(c, bounds),
        forall|k: int| 0 <= k < c.len() ==> (#[trigger] c[k]).entity != held.entity,
    ensures
        spec_plan(held, c, bounds) matches Some(r) ==> {
            &&& board_clear(r, bounds)
            &&& spec_fits(held, bounds)
            &&& r.len() == c.len()
            &&& forall|k: int| 0 <= k < r.len() ==> !spec_overlaps(held, #[trigger] r[k])
            &&& forall|k: int| 0 <= k < r.len() ==> (#[trigger] r[k]).entity != held.entity
            &&& forall|k: int| 0 <= k < c.len() ==> has_counterpart(r, #[trigger] c[k])
        },
{
    if spec_fits(held, bounds) {
        assert(held.well_formed());
        assert forall|k: int| 0 <= k < c.len() implies #[trigger] c[k].well_formed() by {
            assert(spec_fits(c[k], bounds));
        }
        lemma_plan_shape(held, c, bounds);
        lemma_plan_clears_held(held, c, bounds);
        lemma_plan_moved_tiles_clear(held, c, bounds);
        lemma_sorted_members(c);
        lemma_sorted_no_duplicates(c);
        if let Some(r) = spec_plan(held, c, bounds) {
            lemma_pushed_board_a(held, c, sort_by_entity(c), r, bounds);
            lemma_pushed_board_b(held, c, sort_by_entity(c), r, bounds);
            lemma_pushed_board_c(held, c, sort_by_entity(c), r, bounds);
        }
    }
}

/// The sorted committed tiles hold no tile twice when the committed
/// entities are distinct.
proof fn lemma_sorted_no_duplicates(c: Seq<TileRect>)
    requires
        distinct_entities(c),
    ensures
        sort_by_entity(c).no_duplicates(),
{
    let sorted = sort_by_entity(c);
    lemma_sort_permutes(c);
    lemma_no_duplicates(c);
    c.lemma_multiset_has_no_duplicates();
    sorted.lemma_multiset_has_no_duplicates_conv();
}

proof fn lemma_no_duplicates(c: Seq<TileRect>)
    requires
        distinct_entities(c),
    ensures
        c.no_duplicates(),
{
    assert forall|i: int, j: int| 0 <= i < c.len() && 0 <= j < c.len() && i != j implies c[i]
        != c[j] by {
        if i < j {
            assert(c[i].entity != c[j].entity);
        } else {
            assert(c[j].entity != c[i].entity);
        }
    }
}

/// Two entity-sorted sequences holding the same tiles are equal when one
/// of them carries distinct entities.
proof fn lemma_sorted_unique(s1: Seq<TileRect>, s2: Seq<TileRect>)
    requires
        sorted_by_entity_seq(s1),
        sorted_by_entity_seq(s2),
        distinct_entities(s1),
        s1.to_multiset() == s2.to_multiset(),
    ensures
        s1 == s2,
    decreases s1.len(),
{
    broadcast use vstd::seq_lib::group_to_multiset_ensures;
    broadcast use vstd::multiset::group_multiset_axioms;

    s1.to_multiset_ensures();
    s2.to_multiset_ensures();
    assert(s1.len() == s2.len());
    if s1.len() == 0 {
        assert(s1 =~= s2);
    } else {
        let n = s1.len() - 1;
        let a = s1.last();
        let b = s2.last();
        assert(s1.to_multiset().count(a) > 0);
        assert(s2.contains(a));
        assert(s2.to_multiset().count(b) > 0);
        assert(s1.contains(b));
        let ia = choose|k: int| 0 <= k < s2.len() && s2[k] == a;
        let ib = choose|k: int| 0 <= k < s1.len() && s1[k] == b;
        if ia < n {
            assert(s2[ia].entity <= s2[n].entity);
        }
        if ib < n {
            assert(s1[ib].entity <= s1[n].entity);
        }
        assert(a.entity == b.entity);
        if ib < n {
            assert(s1[ib].entity != s1[n].entity);
        }
        assert(a == b);
        let t1 = s1.drop_last();
        let t2 = s2.drop_last();
        assert(s1 =~= t1.push(a));
        assert(s2 =~= t2.push(a));
        assert(t1.to_multiset() =~= t2.to_multiset()) by {
            vstd::seq_lib::to_multiset_build(t1, a);
            vstd::seq_lib::to_multiset_build(t2, a);
            assert forall|x: TileRect| t1.to_multiset().count(x) == t2.to_multiset().count(x) by {
                assert(s1.to_multiset().count(x) == s2.to_multiset().count(x));
                assert(t1.push(a).to_multiset().count(x) == t2.push(a).to_multiset().count(x));
            }
        }
        assert forall|i: int, j: int| 0 <= i < j < t1.len() implies t1[i].entity
            <= t1[j].entity by {
            assert(t1[i] == s1[i] && t1[j] == s1[j]);
        }
        assert forall|i: int, j: int| 0 <= i < j < t2.len() implies t2[i].entity
            <= t2[j].entity by {
            assert(t2[i] == s2[i] && t2[j] == s2[j]);
        }
        assert forall|i: int, j: int| 0 <= i < j < t1.len() implies t1[i].entity
            != t1[j].entity by {
            assert(t1[i] == s1[i] && t1[j] == s1[j]);
        }
        lemma_sorted_unique(t1, t2);
    }
}

/// The plan does not depend on the order in which the committed tiles are
/// given: any rearrangement of committed tiles with distinct entities gets
/// the same plan, because the planner first orders them by entity.
pub proof fn lemma_plan_order_independent(
    held: TileRect,
    committed: Seq<TileRect>,
    rearranged: Seq<TileRect>,
    bounds: Point,
)
    requires
        distinct_entities(committed),
        rearranged.to_multiset() == committed.to_multiset(),
    ensures
        spec_plan(held, rearranged, bounds) == spec_plan(held, committed, bounds),
{
    broadcast use vstd::seq_lib::group_to_multiset_ensures;

    lemma_sort_permutes(committed);
    lemma_sort_permutes(rearranged);
    lemma_sort_is_sorted(committed);
    lemma_sort_is_sorted(rearranged);
    lemma_sort_distinct(committed);
    lemma_sorted_unique(sort_by_entity(committed), sort_by_entity(rearranged));
    assert(rearranged.len() == committed.len()) by {
        assert(rearranged.to_multiset().len() == committed.to_multiset().len());
    }
}

} // verus!
