//! Atomic placement planning on the writing zone's snap grid.
//!
//! Coordinates are whole logical pixels. Inputs are committed, unanimated
//! rectangles; `plan` answers with every committed tile's position after
//! the push cascade that dropping `held` sets off, or `None` when the drop
//! is infeasible.
use std::collections::VecDeque;
use vstd::prelude::*;

verus! {

/// Side of one snap-grid cell, in logical pixels.
pub const GRID: i64 = 40;

/// Largest coordinate magnitude (and largest tile or zone extent) that the
/// planner takes: 2^40 logical pixels.
pub const COORD_LIMIT: i64 = 1099511627776;

/// A position or an extent on the board, in logical pixels (y grows down).
#[derive(Clone, Copy, Debug, PartialEq, Eq, Structural)]
pub struct Point {
    pub x: i64,
    pub y: i64,
}

/// A tile's identity, top-left corner and extent.
#[derive(Clone, Copy, Debug, PartialEq, Eq, Structural)]
pub struct TileRect {
    pub entity: u64,
    pub pos: Point,
    pub size: Point,
}

/// The four directions in which a tile can be pushed.
#[derive(Clone, Copy, Debug, PartialEq, Eq, Structural)]
pub enum Dir {
    Left,
    Right,
    Up,
    Down,
}

pub open spec fn within(v: int, limit: int) -> bool {
    -limit <= v <= limit
}

pub open spec fn abs(v: int) -> int {
    if v < 0 {
        -v
    } else {
        v
    }
}

impl Point {
    pub open spec fn within_limit(self, limit: int) -> bool {
        within(self.x as int, limit) && within(self.y as int, limit)
    }

    pub open spec fn in_range(self) -> bool {
        self.within_limit(COORD_LIMIT as int)
    }
}

impl TileRect {
    pub open spec fn size_ok(self) -> bool {
        &&& 0 <= self.size.x <= COORD_LIMIT
        &&& 0 <= self.size.y <= COORD_LIMIT
    }

    /// A tile as callers hand it in: in range, with a non-negative extent.
    pub open spec fn well_formed(self) -> bool {
        self.pos.in_range() && self.size_ok()
    }

    /// A tile as it may stand between the two pushes of one cascade step.
    pub open spec fn reachable(self) -> bool {
        self.pos.within_limit(8 * COORD_LIMIT) && self.size_ok()
    }
}

/// The two rectangles share interior area.
pub open spec fn spec_overlaps(a: TileRect, b: TileRect) -> bool {
    &&& a.pos.x < b.pos.x + b.size.x
    &&& a.pos.x + a.size.x > b.pos.x
    &&& a.pos.y < b.pos.y + b.size.y
    &&& a.pos.y + a.size.y > b.pos.y
}

/// The tile lies inside the zone `[0, bounds.x] x [0, bounds.y]`.
pub open spec fn spec_fits(tile: TileRect, bounds: Point) -> bool {
    &&& 0 <= tile.pos.x
    &&& 0 <= tile.pos.y
    &&& tile.pos.x + tile.size.x <= bounds.x
    &&& tile.pos.y + tile.size.y <= bounds.y
}

/// Side of the closest overlapping center, normalized for rectangular sizes:
/// the center offset on each axis divided by the half extents summed on that
/// axis, compared crosswise. Horizontal wins equal-axis ties; coincident
/// centers push right.
#[verifier::opaque]
pub open spec fn spec_direction(held: TileRect, other: TileRect) -> Dir {
    let nx = 2 * other.pos.x + other.size.x - 2 * held.pos.x - held.size.x;
    let ny = 2 * other.pos.y + other.size.y - 2 * held.pos.y - held.size.y;
    let sx = held.size.x + other.size.x;
    let sy = held.size.y + other.size.y;
    if abs(nx) * sy >= abs(ny) * sx {
        if nx < 0 {
            Dir::Left
        } else {
            Dir::Right
        }
    } else if ny < 0 {
        Dir::Up
    } else {
        Dir::Down
    }
}

/// The smallest multiple of the grid that is at least `d`.
pub open spec fn grid_ceil(d: int) -> int {
    -((-d) / (GRID as int)) * GRID
}

pub open spec fn shifted(tile: TileRect, dx: int, dy: int) -> TileRect {
    TileRect { pos: Point { x: (tile.pos.x + dx) as i64, y: (tile.pos.y + dy) as i64 }, ..tile }
}

/// `tile` moved directly away from `source` by the smallest grid multiple
/// that separates the two along the push axis.
pub open spec fn spec_push_apart(source: TileRect, tile: TileRect) -> TileRect {
    match spec_direction(source, tile) {
        Dir::Right => shifted(tile, grid_ceil(source.pos.x + source.size.x - tile.pos.x), 0),
        Dir::Left => shifted(tile, -grid_ceil(tile.pos.x + tile.size.x - source.pos.x), 0),
        Dir::Down => shifted(tile, 0, grid_ceil(source.pos.y + source.size.y - tile.pos.y)),
        Dir::Up => shifted(tile, 0, -grid_ceil(tile.pos.y + tile.size.y - source.pos.y)),
    }
}

/// Index of the first tile whose entity is greater than `entity`
/// (the length when there is none).
pub open spec fn first_greater(s: Seq<TileRect>, entity: u64) -> nat
    decreases s.len(),
{
    if s.len() == 0 {
        0
    } else if s[0].entity > entity {
        0
    } else {
        1 + first_greater(s.drop_first(), entity)
    }
}

/// Stable sort by entity: each tile goes after every earlier tile whose
/// entity is not greater.
pub open spec fn sort_by_entity(s: Seq<TileRect>) -> Seq<TileRect>
    decreases s.len(),
{
    if s.len() == 0 {
        Seq::empty()
    } else {
        let sorted = sort_by_entity(s.drop_last());
        sorted.insert(first_greater(sorted, s.last().entity) as int, s.last())
    }
}

/// The first tile that carries `entity`.
pub open spec fn find_entity(s: Seq<TileRect>, entity: u64) -> Option<TileRect>
    decreases s.len(),
{
    if s.len() == 0 {
        None
    } else if s[0].entity == entity {
        Some(s[0])
    } else {
        find_entity(s.drop_first(), entity)
    }
}

/// Where a tile overlapped by `source` ends up: pushed away from `source`,
/// and pushed off the held tile's cell again if it landed there.
pub open spec fn displaced(held: TileRect, source: TileRect, tile: TileRect) -> TileRect {
    let first = spec_push_apart(source, tile);
    if spec_overlaps(held, first) {
        spec_push_apart(held, first)
    } else {
        first
    }
}

/// One pass of `source` over the tiles from index `i` on: every other tile
/// that it overlaps is displaced in place. Answers the tiles and the
/// entities pushed (in index order), or `None` as soon as a displaced tile
/// leaves the bounds.
pub open spec fn sweep(
    held: TileRect,
    source: TileRect,
    r: Seq<TileRect>,
    bounds: Point,
    i: int,
) -> Option<(Seq<TileRect>, Seq<u64>)>
    decreases r.len() - i,
{
    if i < 0 || i >= r.len() {
        Some((r, Seq::empty()))
    } else if r[i].entity == source.entity || !spec_overlaps(source, r[i]) {
        sweep(held, source, r, bounds, i + 1)
    } else {
        let moved = displaced(held, source, r[i]);
        if !spec_fits(moved, bounds) {
            None
        } else {
            match sweep(held, source, r.update(i, moved), bounds, i + 1) {
                None => None,
                Some((r2, pushed)) => Some((r2, seq![moved.entity] + pushed)),
            }
        }
    }
}

/// The push cascade: the queue holds entities whose current position may
/// still push neighbors; each step costs one unit of budget.
pub open spec fn cascade(
    held: TileRect,
    r: Seq<TileRect>,
    queue: Seq<u64>,
    budget: nat,
    bounds: Point,
) -> Option<Seq<TileRect>>
    decreases budget,
{
    if queue.len() == 0 {
        Some(r)
    } else if budget == 0 {
        None
    } else {
        let entity = queue[0];
        let source = if entity == held.entity {
            Some(held)
        } else {
            find_entity(r, entity)
        };
        match source {
            None => None,
            Some(src) => match sweep(held, src, r, bounds, 0) {
                None => None,
                Some((r2, pushed)) => cascade(
                    held,
                    r2,
                    queue.drop_first() + pushed,
                    (budget - 1) as nat,
                    bounds,
                ),
            },
        }
    }
}

/// Step budget of a cascade among `n` committed tiles.
pub open spec fn step_budget(n: nat) -> nat {
    16 * (n + 1) * (n + 1)
}

/// The plan for dropping `held` among `committed` inside `bounds`.
pub open spec fn spec_plan(held: TileRect, committed: Seq<TileRect>, bounds: Point) -> Option<
    Seq<TileRect>,
> {
    if !spec_fits(held, bounds) {
        None
    } else {
        cascade(
            held,
            sort_by_entity(committed),
            seq![held.entity],
            step_budget(committed.len()),
            bounds,
        )
    }
}

/// What remains of a cascade step once the sweep has reached index `i`.
pub open spec fn after_sweep(
    held: TileRect,
    source: TileRect,
    r: Seq<TileRect>,
    bounds: Point,
    i: int,
    queue: Seq<u64>,
    budget: nat,
) -> Option<Seq<TileRect>> {
    match sweep(held, source, r, bounds, i) {
        None => None,
        Some((r2, pushed)) => cascade(held, r2, queue + pushed, budget, bounds),
    }
}

pub open spec fn all_well_formed(s: Seq<TileRect>) -> bool {
    forall|i: int| 0 <= i < s.len() ==> #[trigger] s[i].well_formed()
}

pub open spec fn opt_view(o: Option<Vec<TileRect>>) -> Option<Seq<TileRect>> {
    match o {
        Some(v) => Some(v@),
        None => None,
    }
}

proof fn lemma_mul_bounded(a: int, b: int, la: int, lb: int)
    by (nonlinear_arith)
    requires
        0 <= a <= la,
        0 <= b <= lb,
    ensures
        0 <= a * b <= la * lb,
{
}

proof fn lemma_grid_ceil(d: int)
    requires
        d > 0,
    ensures
        grid_ceil(d) == ((d + GRID - 1) / (GRID as int)) * GRID,
        d <= grid_ceil(d) < d + GRID,
{
}

/// Whether the two rectangles share interior area.
pub fn overlaps(a: TileRect, b: TileRect) -> (r: bool)
    requires
        a.reachable(),
        b.reachable(),
    ensures
        r == spec_overlaps(a, b),
{
    a.pos.x < b.pos.x + b.size.x && a.pos.x + a.size.x > b.pos.x && a.pos.y < b.pos.y + b.size.y
        && a.pos.y + a.size.y > b.pos.y
}

/// Whether the tile lies inside `[0, bounds.x] x [0, bounds.y]`.
pub fn fits(tile: TileRect, bounds: Point) -> (r: bool)
    requires
        tile.reachable(),
        bounds.in_range(),
    ensures
        r == spec_fits(tile, bounds),
{
    tile.pos.x >= 0 && tile.pos.y >= 0 && tile.pos.x + tile.size.x <= bounds.x && tile.pos.y
        + tile.size.y <= bounds.y
}

/// Side of the closest overlapping center, normalized for rectangular sizes.
/// Horizontal wins equal-axis ties; coincident centers push right.
pub fn direction(held: TileRect, other: TileRect) -> (d: Dir)
    requires
        held.reachable(),
        other.reachable(),
    ensures
        d == spec_direction(held, other),
{
    let nx: i128 = 2 * (other.pos.x as i128) + (other.size.x as i128) - 2 * (held.pos.x as i128)
        - (held.size.x as i128);
    let ny: i128 = 2 * (other.pos.y as i128) + (other.size.y as i128) - 2 * (held.pos.y as i128)
        - (held.size.y as i128);
    let sx: i128 = (held.size.x as i128) + (other.size.x as i128);
    let sy: i128 = (held.size.y as i128) + (other.size.y as i128);
    let ax: i128 = if nx < 0 {
        -nx
    } else {
        nx
    };
    let ay: i128 = if ny < 0 {
        -ny
    } else {
        ny
    };
    proof {
        reveal(spec_direction);
        lemma_mul_bounded(ax as int, sy as int, 0x4000_0000_0000, 0x200_0000_0000);
        lemma_mul_bounded(ay as int, sx as int, 0x4000_0000_0000, 0x200_0000_0000);
    }
    if ax * sy >= ay * sx {
        if nx < 0 {
            Dir::Left
        } else {
            Dir::Right
        }
    } else if ny < 0 {
        Dir::Up
    } else {
        Dir::Down
    }
}

/// Move `tile` directly away from the overlapping `source` by the smallest
/// grid multiple that separates the two along the push axis.
pub fn push_apart(source: TileRect, tile: TileRect) -> (moved: TileRect)
    requires
        source.well_formed(),
        tile.pos.within_limit(4 * COORD_LIMIT),
        tile.size_ok(),
        spec_overlaps(source, tile),
    ensures
        moved == spec_push_apart(source, tile),
        moved.entity == tile.entity,
        moved.size == tile.size,
        !spec_overlaps(source, moved),
        abs(moved.pos.x - tile.pos.x) <= source.size.x + tile.size.x + GRID,
        abs(moved.pos.y - tile.pos.y) <= source.size.y + tile.size.y + GRID,
        (moved.pos.x - tile.pos.x) % (GRID as int) == 0,
        (moved.pos.y - tile.pos.y) % (GRID as int) == 0,
{
    let dir = direction(source, tile);
    let mut moved = tile;
    match dir {
        Dir::Right => {
            let distance = source.pos.x + source.size.x - tile.pos.x;
            proof {
                lemma_grid_ceil(distance as int);
            }
            moved.pos.x = tile.pos.x + (distance + GRID - 1) / GRID * GRID;
        },
        Dir::Left => {
            let distance = tile.pos.x + tile.size.x - source.pos.x;
            proof {
                lemma_grid_ceil(distance as int);
            }
            moved.pos.x = tile.pos.x - (distance + GRID - 1) / GRID * GRID;
        },
        Dir::Down => {
            let distance = source.pos.y + source.size.y - tile.pos.y;
            proof {
                lemma_grid_ceil(distance as int);
            }
            moved.pos.y = tile.pos.y + (distance + GRID - 1) / GRID * GRID;
        },
        Dir::Up => {
            let distance = tile.pos.y + tile.size.y - source.pos.y;
            proof {
                lemma_grid_ceil(distance as int);
            }
            moved.pos.y = tile.pos.y - (distance + GRID - 1) / GRID * GRID;
        },
    }
    moved
}

pub proof fn lemma_first_greater_bound(s: Seq<TileRect>, entity: u64)
    ensures
        first_greater(s, entity) <= s.len(),
    decreases s.len(),
{
    if s.len() > 0 && s[0].entity <= entity {
        lemma_first_greater_bound(s.drop_first(), entity);
    }
}

proof fn lemma_sort_len(s: Seq<TileRect>)
    ensures
        sort_by_entity(s).len() == s.len(),
    decreases s.len(),
{
    if s.len() > 0 {
        lemma_sort_len(s.drop_last());
        lemma_first_greater_bound(sort_by_entity(s.drop_last()), s.last().entity);
    }
}

/// The stable sort by entity keeps every tile exactly as often as it occurs.
pub proof fn lemma_sort_permutes(s: Seq<TileRect>)
    ensures
        sort_by_entity(s).to_multiset() == s.to_multiset(),
        sort_by_entity(s).len() == s.len(),
    decreases s.len(),
{
    broadcast use vstd::seq_lib::group_to_multiset_ensures;

    lemma_sort_len(s);
    if s.len() > 0 {
        let rest = s.drop_last();
        lemma_sort_permutes(rest);
        let sorted = sort_by_entity(rest);
        lemma_first_greater_bound(sorted, s.last().entity);
        vstd::seq_lib::to_multiset_insert(
            sorted,
            first_greater(sorted, s.last().entity) as int,
            s.last(),
        );
        assert(s =~= rest.push(s.last()));
    }
}

pub proof fn lemma_sort_well_formed(s: Seq<TileRect>)
    requires
        all_well_formed(s),
    ensures
        all_well_formed(sort_by_entity(s)),
{
    broadcast use vstd::seq_lib::group_to_multiset_ensures;

    lemma_sort_permutes(s);
    let sorted = sort_by_entity(s);
    assert forall|i: int| 0 <= i < sorted.len() implies #[trigger] sorted[i].well_formed() by {
        assert(sorted.to_multiset().count(sorted[i]) > 0);
        assert(s.contains(sorted[i]));
    }
}

pub proof fn lemma_find_in(s: Seq<TileRect>, entity: u64)
    ensures
        find_entity(s, entity) matches Some(t) ==> s.contains(t) && t.entity == entity,
    decreases s.len(),
{
    if s.len() > 0 && s[0].entity != entity {
        lemma_find_in(s.drop_first(), entity);
        if let Some(t) = find_entity(s.drop_first(), entity) {
            let k = choose|k: int| 0 <= k < s.drop_first().len() && s.drop_first()[k] == t;
            assert(s[k + 1] == t);
        }
    }
}

/// A pass that meets no overlap changes nothing and pushes nothing.
pub proof fn lemma_sweep_clear(held: TileRect, source: TileRect, r: Seq<TileRect>, bounds: Point, i: int)
    requires
        0 <= i,
        forall|k: int|
            i <= k < r.len() ==> #[trigger] r[k].entity == source.entity || !spec_overlaps(
                source,
                r[k],
            ),
    ensures
        sweep(held, source, r, bounds, i) == Some((r, Seq::<u64>::empty())),
    decreases r.len() - i,
{
    if i < r.len() {
        assert(r[i].entity == source.entity || !spec_overlaps(source, r[i]));
        lemma_sweep_clear(held, source, r, bounds, i + 1);
    }
}

/// Insertion of one tile into a sequence sorted by entity.
fn insert_by_entity(sorted: &mut Vec<TileRect>, tile: TileRect)
    ensures
        final(sorted)@ == old(sorted)@.insert(
            first_greater(old(sorted)@, tile.entity) as int,
            tile,
        ),
{
    let ghost s = sorted@;
    let mut j: usize = 0;
    assert(s.subrange(0, s.len() as int) =~= s);
    while j < sorted.len() && sorted[j].entity <= tile.entity
        invariant
            sorted@ == s,
            j <= s.len(),
            first_greater(s, tile.entity) == j + first_greater(s.subrange(j as int, s.len() as int), tile.entity),
        decreases s.len() - j,
    {
        assert(s.subrange(j as int, s.len() as int).drop_first() =~= s.subrange(j + 1, s.len() as int));
        j = j + 1;
    }
    proof {
        lemma_first_greater_bound(s, tile.entity);
    }
    sorted.insert(j, tile);
}

/// Stable sort of the committed tiles by entity.
pub fn sorted_by_entity(tiles: &[TileRect]) -> (sorted: Vec<TileRect>)
    ensures
        sorted@ == sort_by_entity(tiles@),
{
    let mut sorted: Vec<TileRect> = Vec::new();
    let mut i: usize = 0;
    while i < tiles.len()
        invariant
            i <= tiles.len(),
            sorted@ == sort_by_entity(tiles@.take(i as int)),
        decreases tiles.len() - i,
    {
        proof {
            let next = tiles@.take(i + 1);
            assert(next.drop_last() =~= tiles@.take(i as int));
            assert(next.last() == tiles@[i as int]);
        }
        insert_by_entity(&mut sorted, tiles[i]);
        i = i + 1;
    }
    assert(tiles@.take(tiles.len() as int) =~= tiles@);
    sorted
}

/// The first tile that carries `entity`.
pub fn find_tile(tiles: &Vec<TileRect>, entity: u64) -> (found: Option<TileRect>)
    ensures
        found == find_entity(tiles@, entity),
{
    let mut j: usize = 0;
    assert(tiles@.subrange(0, tiles.len() as int) =~= tiles@);
    while j < tiles.len()
        invariant
            j <= tiles.len(),
            find_entity(tiles@, entity) == find_entity(
                tiles@.subrange(j as int, tiles.len() as int),
                entity,
            ),
        decreases tiles.len() - j,
    {
        if tiles[j].entity == entity {
            return Some(tiles[j]);
        }
        assert(tiles@.subrange(j as int, tiles.len() as int).drop_first() =~= tiles@.subrange(
            j + 1,
            tiles.len() as int,
        ));
        j = j + 1;
    }
    None
}

/// Whether any tile overlaps `held`.
fn any_overlap(held: TileRect, tiles: &Vec<TileRect>) -> (found: bool)
    requires
        held.well_formed(),
        all_well_formed(tiles@),
    ensures
        found == exists|k: int| 0 <= k < tiles.len() && spec_overlaps(held, #[trigger] tiles@[k]),
{
    let mut j: usize = 0;
    while j < tiles.len()
        invariant
            j <= tiles.len(),
            held.well_formed(),
            all_well_formed(tiles@),
            forall|k: int| 0 <= k < j ==> !spec_overlaps(held, #[trigger] tiles@[k]),
        decreases tiles.len() - j,
    {
        assert(tiles@[j as int].well_formed());
        if overlaps(held, tiles[j]) {
            return true;
        }
        j = j + 1;
    }
    false
}

/// Where a tile overlapped by `source` ends up (see `displaced`).
fn displace(held: TileRect, source: TileRect, tile: TileRect) -> (moved: TileRect)
    requires
        held.well_formed(),
        source.well_formed(),
        tile.well_formed(),
        spec_overlaps(source, tile),
    ensures
        moved == displaced(held, source, tile),
        moved.reachable(),
{
    let first = push_apart(source, tile);
    if overlaps(held, first) {
        push_apart(held, first)
    } else {
        first
    }
}

proof fn lemma_budget(n: int, max: int)
    by (nonlinear_arith)
    requires
        0 <= n,
        16 * (n + 1) * (n + 1) <= max,
    ensures
        n + 1 <= max,
        16 * (n + 1) <= max,
        16 * (n + 1) * (n + 1) >= 16,
{
}

/// One pass of `source` over all tiles, in place; `false` when a displaced
/// tile leaves the bounds.
fn sweep_in_place(
    held: TileRect,
    source: TileRect,
    result: &mut Vec<TileRect>,
    queue: &mut VecDeque<u64>,
    bounds: Point,
) -> (ok: bool)
    requires
        held.well_formed(),
        source.well_formed(),
        bounds.in_range(),
        all_well_formed(old(result)@),
    ensures
        match sweep(held, source, old(result)@, bounds, 0) {
            None => !ok,
            Some((r2, pushed)) => ok && final(result)@ == r2 && final(queue)@ == old(queue)@
                + pushed,
        },
        final(result)@.len() == old(result)@.len(),
        all_well_formed(final(result)@),
{
    let ghost r0 = result@;
    let ghost q0 = queue@;
    let ghost mut pushed: Seq<u64> = Seq::empty();
    let n = result.len();
    let mut index: usize = 0;
    assert(q0 + pushed =~= q0);
    while index < n
        invariant
            n == result@.len(),
            n == r0.len(),
            r0 == old(result)@,
            q0 == old(queue)@,
            index <= n,
            queue@ == q0 + pushed,
            all_well_formed(result@),
            held.well_formed(),
            source.well_formed(),
            bounds.in_range(),
            sweep(held, source, r0, bounds, 0) == match sweep(
                held,
                source,
                result@,
                bounds,
                index as int,
            ) {
                None => None,
                Some((r2, p)) => Some((r2, pushed + p)),
            },
        decreases n - index,
    {
        let tile = result[index];
        assert(result@[index as int].well_formed());
        if tile.entity == source.entity || !overlaps(source, tile) {
            index = index + 1;
        } else {
            let moved = displace(held, source, tile);
            if !fits(moved, bounds) {
                assert(sweep(held, source, result@, bounds, index as int) is None);
                return false;
            }
            proof {
                let rest = sweep(held, source, result@.update(index as int, moved), bounds, index + 1);
                if let Some((r2, p)) = rest {
                    assert(pushed.push(moved.entity) + p =~= pushed + (seq![moved.entity] + p));
                }
                pushed = pushed.push(moved.entity);
            }
            result.set(index, moved);
            queue.push_back(moved.entity);
            assert(queue@ =~= q0 + pushed);
            index = index + 1;
        }
    }
    assert(pushed + Seq::<u64>::empty() =~= pushed);
    true
}

/// Plan the drop of `held` among `committed`: every committed tile's
/// position (pushed where the cascade requires), ordered by entity, or
/// `None` if the drop is infeasible.
pub fn plan(held: TileRect, committed: &[TileRect], bounds: Point) -> (res: Option<Vec<TileRect>>)
    requires
        held.well_formed(),
        bounds.in_range(),
        all_well_formed(committed@),
        step_budget(committed@.len()) <= usize::MAX,
    ensures
        opt_view(res) == spec_plan(held, committed@, bounds),
{
    if !fits(held, bounds) {
        return None;
    }
    let mut result = sorted_by_entity(committed);
    let n = result.len();
    proof {
        lemma_sort_len(committed@);
        lemma_sort_well_formed(committed@);
        lemma_budget(n as int, usize::MAX as int);
    }
    let ghost target = spec_plan(held, committed@, bounds);
    if !any_overlap(held, &result) {
        proof {
            lemma_sweep_clear(held, held, result@, bounds, 0);
            let q = seq![held.entity];
            assert(q.drop_first() + Seq::<u64>::empty() =~= Seq::<u64>::empty());
            let b = step_budget(n as nat);
            assert(cascade(held, result@, Seq::<u64>::empty(), (b - 1) as nat, bounds) == Some(
                result@,
            ));
            assert(cascade(held, result@, q, b, bounds) == Some(result@));
        }
        return Some(result);
    }
    let m = n + 1;
    let mut budget: usize = 16 * m * m;
    let mut queue: VecDeque<u64> = VecDeque::new();
    queue.push_back(held.entity);
    assert(queue@ =~= seq![held.entity]);
    while queue.len() > 0
        invariant
            cascade(held, result@, queue@, budget as nat, bounds) == target,
            target == spec_plan(held, committed@, bounds),
            result@.len() == n,
            all_well_formed(result@),
            held.well_formed(),
            bounds.in_range(),
        decreases budget,
    {
        let ghost q = queue@;
        if budget == 0 {
            assert(cascade(held, result@, q, 0, bounds) is None);
            return None;
        }
        let entity = match queue.pop_front() {
            Some(e) => e,
            None => return None,
        };
        assert(queue@ =~= q.drop_first());
        budget = budget - 1;
        let source = if entity == held.entity {
            held
        } else {
            match find_tile(&result, entity) {
                Some(tile) => {
                    proof {
                        lemma_find_in(result@, entity);
                    }
                    tile
                },
                None => {
                    assert(cascade(held, result@, q, budget as nat + 1, bounds) is None);
                    return None;
                },
            }
        };
        assert(after_sweep(held, source, result@, bounds, 0, queue@, budget as nat) == target);
        if !sweep_in_place(held, source, &mut result, &mut queue, bounds) {
            return None;
        }
    }
    Some(result)
}

} // verus!
