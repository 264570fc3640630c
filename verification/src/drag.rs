//! Decisions of a tile drag: the grid cell a pointer lands on, the plan
//! that a preview and a drop share, where neighbors ease to, what a release
//! does, and what Escape restores.
use crate::placement::{
    COORD_LIMIT, GRID, Point, TileRect, abs, all_well_formed, find_entity, find_tile, plan,
    sort_by_entity, spec_fits, spec_plan, step_budget,
};
use crate::placement_laws::lemma_plan_unobstructed;
use crate::tray::{
    GapState, TrayChild, count_tiles_before, return_slot, spec_return_slot, tiles_before,
};
use vstd::prelude::*;

verus! {

/// `p / GRID` rounded half away from zero, times `GRID`.
pub open spec fn round_to_grid(p: int) -> int {
    if p >= 0 {
        ((p + GRID / 2) / (GRID as int)) * GRID
    } else {
        -(((-p + GRID / 2) / (GRID as int)) * GRID)
    }
}

/// The largest grid multiple not above `m`.
pub open spec fn floor_to_grid(m: int) -> int {
    (m / (GRID as int)) * GRID
}

/// One axis of `snap_to_grid`: round to the nearest cell, then clamp to
/// `[0, floor_to_grid(max)]` (the lower bound first, as a clamp does).
pub open spec fn snap_axis(p: int, max: int) -> int {
    let rounded = round_to_grid(p);
    let low = if rounded < 0 {
        0
    } else {
        rounded
    };
    let high = floor_to_grid(max);
    if low > high {
        high
    } else {
        low
    }
}

pub open spec fn spec_snap_to_grid(pos: Point, max: Point) -> Point {
    Point { x: snap_axis(pos.x as int, max.x as int) as i64, y: snap_axis(pos.y as int, max.y as int) as i64 }
}

/// Where a drag at `offset` (the tile's would-be top-left, relative to the
/// zone) lands: `None` when the pointer is outside the zone or the tile is
/// larger than the zone, else the snapped cell and the plan for the tile
/// held there.
pub open spec fn spec_placement_at(
    entity: u64,
    pointer_in_zone: bool,
    offset: Point,
    size: Point,
    bounds: Point,
    committed: Seq<TileRect>,
) -> Option<(Point, Seq<TileRect>)> {
    if !pointer_in_zone || size.x > bounds.x || size.y > bounds.y {
        None
    } else {
        let cell = spec_snap_to_grid(
            offset,
            Point { x: (bounds.x - size.x) as i64, y: (bounds.y - size.y) as i64 },
        );
        match spec_plan(TileRect { entity, pos: cell, size }, committed, bounds) {
            None => None,
            Some(p) => Some((cell, p)),
        }
    }
}

/// A preview as plain values.
pub open spec fn preview_view(preview: Option<(Point, Vec<TileRect>)>) -> Option<
    (Point, Seq<TileRect>),
> {
    match preview {
        Some((cell, tiles)) => Some((cell, tiles@)),
        None => None,
    }
}

/// Where a committed tile eases to: its position in the previewed plan, or
/// its committed position when there is no preview or the plan leaves it
/// out.
pub open spec fn spec_preview_target(
    preview: Option<(Point, Seq<TileRect>)>,
    entity: u64,
    committed: Point,
) -> Point {
    match preview {
        Some((_, tiles)) => match find_entity(tiles, entity) {
            Some(tile) => tile.pos,
            None => committed,
        },
        None => committed,
    }
}

/// Where a drag started: the committed cell of a tile grabbed in the
/// writing zone, and its slot among the tray's word tiles.
#[derive(Clone, Copy, Debug, PartialEq, Eq, Structural)]
pub struct DragOrigin {
    pub origin: Option<Point>,
    pub tray_index: usize,
}

/// What Escape does with the held tile.
#[derive(Clone, Copy, Debug, PartialEq, Eq, Structural)]
pub enum CancelAction {
    /// Recommit it to the zone at this cell.
    BackToZone(Point),
    /// Reinsert it among the tray's children at this index.
    BackToTray(usize),
}

/// What a release does with the held tile.
#[derive(Clone, Debug, PartialEq, Eq)]
pub enum ReleaseAction {
    /// Commit it to the zone at `cell`; `moves` holds every committed tile's
    /// planned position.
    Commit { cell: Point, moves: Vec<TileRect> },
    /// Return it to the tray at this child index (the opening gap's slot).
    ReturnToSlot(usize),
    /// Return it to the end of the tray.
    ReturnToEnd,
}

pub open spec fn spec_cancel(origin: DragOrigin) -> CancelAction {
    match origin.origin {
        Some(cell) => CancelAction::BackToZone(cell),
        None => CancelAction::BackToTray(origin.tray_index),
    }
}

pub open spec fn spec_grab(placed: Option<Point>, children: Seq<TrayChild>, entity: u64) -> DragOrigin {
    DragOrigin { origin: placed, tray_index: tiles_before(children, entity) as usize }
}

proof fn lemma_round_to_grid(p: int)
    ensures
        p >= 0 ==> round_to_grid(p) == ((p + 20) / 40) * 40,
        p < 0 ==> round_to_grid(p) == -(((-p + 20) / 40) * 40),
        round_to_grid(p) % 40 == 0,
{
}

proof fn lemma_floor_to_grid(m: int)
    ensures
        m >= 0 ==> floor_to_grid(m) == (m / 40) * 40,
        m < 0 ==> floor_to_grid(m) == -(((-m + 39) / 40) * 40),
        floor_to_grid(m) <= m < floor_to_grid(m) + 40,
        floor_to_grid(m) % 40 == 0,
{
}

fn snap_one(p: i64, max: i64) -> (s: i64)
    requires
        -COORD_LIMIT <= p <= COORD_LIMIT,
        -COORD_LIMIT <= max <= COORD_LIMIT,
    ensures
        s == snap_axis(p as int, max as int),
{
    proof {
        lemma_round_to_grid(p as int);
        lemma_floor_to_grid(max as int);
    }
    let rounded = if p >= 0 {
        (p + GRID / 2) / GRID * GRID
    } else {
        -((-p + GRID / 2) / GRID * GRID)
    };
    let high = if max >= 0 {
        max / GRID * GRID
    } else {
        -((-max + GRID - 1) / GRID * GRID)
    };
    let low = if rounded < 0 {
        0
    } else {
        rounded
    };
    if low > high {
        high
    } else {
        low
    }
}

/// Round a position to the nearest grid cell, clamped to the usable area
/// `[0, max]` (on each axis, to the largest grid multiple not above `max`).
pub fn snap_to_grid(pos: Point, max: Point) -> (snapped: Point)
    requires
        pos.in_range(),
        max.in_range(),
    ensures
        snapped == spec_snap_to_grid(pos, max),
{
    Point { x: snap_one(pos.x, max.x), y: snap_one(pos.y, max.y) }
}

/// A snapped position sits on the grid, and inside `[0, max]` whenever the
/// usable area is not empty.
pub proof fn lemma_snap_on_grid(pos: Point, max: Point)
    requires
        pos.in_range(),
        max.in_range(),
    ensures
        ({
            let s = spec_snap_to_grid(pos, max);
            &&& s.x % 40 == 0
            &&& s.y % 40 == 0
            &&& max.x >= 0 ==> 0 <= s.x <= max.x
            &&& max.y >= 0 ==> 0 <= s.y <= max.y
        }),
{
    lemma_round_to_grid(pos.x as int);
    lemma_round_to_grid(pos.y as int);
    lemma_floor_to_grid(max.x as int);
    lemma_floor_to_grid(max.y as int);
}

proof fn lemma_snap_axis_nearest(p: int, max: int, c: int)
    requires
        0 <= c <= max,
        c % 40 == 0,
    ensures
        abs(snap_axis(p, max) - p) <= abs(c - p),
{
    lemma_round_to_grid(p);
    lemma_floor_to_grid(max);
    let r = round_to_grid(p);
    let h = floor_to_grid(max);
    assert(c <= h);
    if p >= 0 {
        assert(r - 20 <= p < r + 20);
    } else {
        assert(r - 20 < p <= r + 20);
    }
    if r != c {
        assert(r - c >= 40 || c - r >= 40);
    }
}

/// Snapping picks the nearest grid cell of the usable area `[0, max]`: no
/// grid cell inside it lies closer to the position on either axis.
pub proof fn lemma_snap_nearest(pos: Point, max: Point, cell: Point)
    requires
        pos.in_range(),
        max.in_range(),
        0 <= cell.x <= max.x,
        0 <= cell.y <= max.y,
        cell.x % 40 == 0,
        cell.y % 40 == 0,
    ensures
        abs(spec_snap_to_grid(pos, max).x - pos.x) <= abs(cell.x - pos.x),
        abs(spec_snap_to_grid(pos, max).y - pos.y) <= abs(cell.y - pos.y),
{
    lemma_snap_on_grid(pos, max);
    lemma_snap_axis_nearest(pos.x as int, max.x as int, cell.x as int);
    lemma_snap_axis_nearest(pos.y as int, max.y as int, cell.y as int);
}

/// The cell a dragged tile would land on and the plan for it; `None` when
/// the pointer is outside the zone, the tile is larger than the zone, or
/// the plan is infeasible. Preview, neighbor preview and drop all call this
/// with the same inputs.
pub fn placement_at(
    entity: u64,
    pointer_in_zone: bool,
    offset: Point,
    size: Point,
    bounds: Point,
    committed: &[TileRect],
) -> (res: Option<(Point, Vec<TileRect>)>)
    requires
        offset.in_range(),
        bounds.in_range(),
        0 <= size.x <= COORD_LIMIT,
        0 <= size.y <= COORD_LIMIT,
        all_well_formed(committed@),
        step_budget(committed@.len()) <= usize::MAX,
    ensures
        preview_view(res) == spec_placement_at(
            entity,
            pointer_in_zone,
            offset,
            size,
            bounds,
            committed@,
        ),
{
    if !pointer_in_zone || size.x > bounds.x || size.y > bounds.y {
        return None;
    }
    let max = Point { x: bounds.x - size.x, y: bounds.y - size.y };
    let cell = snap_to_grid(offset, max);
    proof {
        lemma_snap_on_grid(offset, max);
    }
    let held = TileRect { entity, pos: cell, size };
    match plan(held, committed, bounds) {
        Some(tiles) => Some((cell, tiles)),
        None => None,
    }
}

/// Where a committed tile eases to this frame: its previewed position, or
/// its committed one.
pub fn preview_target(
    preview: &Option<(Point, Vec<TileRect>)>,
    entity: u64,
    committed: Point,
) -> (target: Point)
    ensures
        target == spec_preview_target(preview_view(*preview), entity, committed),
{
    match preview {
        Some((_, tiles)) => match find_tile(tiles, entity) {
            Some(tile) => tile.pos,
            None => committed,
        },
        None => committed,
    }
}

impl DragOrigin {
    /// Records where a grabbed tile came from: its committed cell, if it was
    /// placed in the zone, and how many word tiles precede it in the tray.
    pub fn at_grab(placed: Option<Point>, children: &Vec<TrayChild>, entity: u64) -> (origin:
        DragOrigin)
        ensures
            origin == spec_grab(placed, children@, entity),
    {
        DragOrigin { origin: placed, tray_index: count_tiles_before(children, entity) }
    }

    /// Escape restores the held tile's original zone cell or tray slot.
    pub fn cancel(&self) -> (action: CancelAction)
        ensures
            action == spec_cancel(*self),
    {
        match self.origin {
            Some(cell) => CancelAction::BackToZone(cell),
            None => CancelAction::BackToTray(self.tray_index),
        }
    }
}

/// Escape after a grab puts the tile back where it was: a tile grabbed in
/// the zone returns to its committed cell, one grabbed in the tray to its
/// slot among the tray's word tiles.
pub proof fn lemma_cancel_restores(placed: Option<Point>, children: Seq<TrayChild>, entity: u64)
    ensures
        spec_cancel(spec_grab(placed, children, entity)) == match placed {
            Some(cell) => CancelAction::BackToZone(cell),
            None => CancelAction::BackToTray(tiles_before(children, entity) as usize),
        },
{
}

/// On release: commit to the zone when a placement exists, otherwise
/// return to the tray, into the opening gap's slot if there is one.
pub fn release_action(
    placement: Option<(Point, Vec<TileRect>)>,
    children: &Vec<TrayChild>,
    gaps: &Vec<GapState>,
) -> (action: ReleaseAction)
    ensures
        match preview_view(placement) {
            Some((cell, tiles)) => action matches ReleaseAction::Commit { cell: c, moves }
                && c == cell && moves@ == tiles,
            None => match spec_return_slot(children@, gaps@) {
                Some(slot) => action == ReleaseAction::ReturnToSlot(slot as usize),
                None => action == ReleaseAction::ReturnToEnd,
            },
        },
{
    match placement {
        Some((cell, moves)) => ReleaseAction::Commit { cell, moves },
        None => match return_slot(children, gaps) {
            Some(slot) => ReleaseAction::ReturnToSlot(slot),
            None => ReleaseAction::ReturnToEnd,
        },
    }
}

/// A placement lands on a grid cell where the held tile lies inside the
/// zone, and carries the plan for the tile held at that cell.
pub proof fn lemma_placement_on_grid(
    entity: u64,
    pointer_in_zone: bool,
    offset: Point,
    size: Point,
    bounds: Point,
    committed: Seq<TileRect>,
)
    requires
        offset.in_range(),
        bounds.in_range(),
        0 <= size.x <= COORD_LIMIT,
        0 <= size.y <= COORD_LIMIT,
    ensures
        spec_placement_at(entity, pointer_in_zone, offset, size, bounds, committed) matches Some(
            (cell, tiles),
        ) ==> {
            &&& cell.x % 40 == 0
            &&& cell.y % 40 == 0
            &&& spec_fits(TileRect { entity, pos: cell, size }, bounds)
            &&& spec_plan(TileRect { entity, pos: cell, size }, committed, bounds) == Some(tiles)
        },
{
    if pointer_in_zone && size.x <= bounds.x && size.y <= bounds.y {
        let max = Point { x: (bounds.x - size.x) as i64, y: (bounds.y - size.y) as i64 };
        lemma_snap_on_grid(offset, max);
    }
}

/// A tile dragged over the zone lands on a cell that keeps it inside the
/// zone, whenever the tile is no larger than the zone: on an empty board
/// the drop always succeeds, and a pointer already at a grid cell where the
/// tile fits lands exactly there.
pub proof fn lemma_placement_keeps_tile_inside(
    entity: u64,
    offset: Point,
    size: Point,
    bounds: Point,
)
    requires
        offset.in_range(),
        bounds.in_range(),
        0 <= size.x <= bounds.x,
        0 <= size.y <= bounds.y,
    ensures
        spec_placement_at(entity, true, offset, size, bounds, Seq::empty()) matches Some((cell, tiles))
            && tiles.len() == 0
            && 0 <= cell.x && cell.x + size.x <= bounds.x
            && 0 <= cell.y && cell.y + size.y <= bounds.y,
        offset.x % 40 == 0 && offset.y % 40 == 0 && 0 <= offset.x && offset.x + size.x <= bounds.x
            && 0 <= offset.y && offset.y + size.y <= bounds.y ==> (spec_placement_at(
            entity,
            true,
            offset,
            size,
            bounds,
            Seq::empty(),
        ) matches Some((cell, _)) && cell == offset),
{
    let max = Point { x: (bounds.x - size.x) as i64, y: (bounds.y - size.y) as i64 };
    lemma_snap_on_grid(offset, max);
    lemma_round_to_grid(offset.x as int);
    lemma_round_to_grid(offset.y as int);
    lemma_floor_to_grid(max.x as int);
    lemma_floor_to_grid(max.y as int);
    let cell = spec_snap_to_grid(offset, max);
    let held = TileRect { entity, pos: cell, size };
    lemma_plan_unobstructed(held, Seq::empty(), bounds);
    assert(sort_by_entity(Seq::<TileRect>::empty()) =~= Seq::<TileRect>::empty());
    if offset.x % 40 == 0 && offset.y % 40 == 0 && 0 <= offset.x && offset.x + size.x <= bounds.x
        && 0 <= offset.y && offset.y + size.y <= bounds.y {
        assert((offset.x + 20) / 40 * 40 == offset.x);
        assert((offset.y + 20) / 40 * 40 == offset.y);
        assert(floor_to_grid(max.x as int) >= offset.x);
        assert(floor_to_grid(max.y as int) >= offset.y);
    }
}

/// A placement lands on the grid cell nearest the dragged position among
/// the cells where the tile lies inside the zone.
pub proof fn lemma_placement_nearest_cell(
    entity: u64,
    pointer_in_zone: bool,
    offset: Point,
    size: Point,
    bounds: Point,
    committed: Seq<TileRect>,
    other: Point,
)
    requires
        offset.in_range(),
        bounds.in_range(),
        0 <= size.x <= COORD_LIMIT,
        0 <= size.y <= COORD_LIMIT,
        other.x % 40 == 0,
        other.y % 40 == 0,
        0 <= other.x && other.x + size.x <= bounds.x,
        0 <= other.y && other.y + size.y <= bounds.y,
    ensures
        spec_placement_at(entity, pointer_in_zone, offset, size, bounds, committed) matches Some(
            (cell, _),
        ) ==> abs(cell.x - offset.x) <= abs(other.x - offset.x) && abs(cell.y - offset.y) <= abs(
            other.y - offset.y,
        ),
{
    let max = Point { x: (bounds.x - size.x) as i64, y: (bounds.y - size.y) as i64 };
    lemma_snap_nearest(offset, max, other);
}

} // verus!
