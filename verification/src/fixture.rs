//! Reproducible board scenes for tests and screenshots: each scene commits
//! named tiles at grid cells, through the same placement planning a real
//! drop uses.
use crate::placement::{
    COORD_LIMIT, GRID, Point, TileRect, all_well_formed, plan, spec_fits, spec_plan,
    step_budget,
};
use crate::placement_laws::lemma_plan_well_formed;
use vstd::prelude::*;

verus! {

/// Seed used for word selection whenever a fixture scene is requested (and
/// no explicit seed is). Every scene word comes from the selection this
/// seed produces with the shipped word bank.
pub const FIXTURE_SEED: u64 = 0x5EED_5EED_5EED_5EED;

/// Give up on a scene if UI layout has not produced real sizes after this
/// many frames.
pub const MAX_WAIT_FRAMES: u32 = 600;

/// One fixture placement: the tile named `word` commits at grid (col, row).
pub type SceneEntry = (&'static str, u32, u32);

/// A scene: the placements to commit, in order.
#[derive(Clone, Debug)]
pub struct FixtureScene(pub Vec<SceneEntry>);

/// A word tile as the fixture sees it: entity, name and laid-out size.
#[derive(Clone, Debug)]
pub struct NamedTile {
    pub entity: u64,
    pub name: String,
    pub size: Point,
}

/// What became of one scene entry.
#[derive(Clone, Copy, Debug, PartialEq, Eq, Structural)]
pub enum EntryOutcome {
    /// Committed at its cell.
    Placed,
    /// No uncommitted tile carries the word; skipped.
    NoTile,
    /// The drop at its cell is infeasible; skipped.
    Infeasible,
}

/// What a pending scene does on a frame.
#[derive(Clone, Copy, Debug, PartialEq, Eq, Structural)]
pub enum WaitAction {
    /// Layout has produced real sizes: commit the scene now.
    Proceed,
    /// Layout is not ready: look again next frame.
    Wait,
    /// Layout has not become ready in time: abandon the scene.
    GiveUp,
}

/// One frame of waiting for layout: with layout ready the scene proceeds
/// and the count stays; otherwise the count goes up by one, and the scene
/// is abandoned once the count exceeds `MAX_WAIT_FRAMES`. Answers the new
/// count and the action.
pub fn layout_wait_step(frames_waited: u32, laid_out: bool) -> (res: (u32, WaitAction))
    requires
        !laid_out ==> frames_waited < u32::MAX,
    ensures
        laid_out ==> res == (frames_waited, WaitAction::Proceed),
        !laid_out ==> res.0 == frames_waited + 1,
        !laid_out ==> (res.1 == WaitAction::GiveUp <==> frames_waited + 1 > MAX_WAIT_FRAMES),
        !laid_out ==> (res.1 == WaitAction::Wait <==> frames_waited + 1 <= MAX_WAIT_FRAMES),
{
    if laid_out {
        (frames_waited, WaitAction::Proceed)
    } else {
        let frames = frames_waited + 1;
        if frames > MAX_WAIT_FRAMES {
            (frames, WaitAction::GiveUp)
        } else {
            (frames, WaitAction::Wait)
        }
    }
}

/// No word occurs twice in the scene.
pub open spec fn scene_words_distinct(scene: Seq<SceneEntry>) -> bool {
    forall|i: int, j: int| 0 <= i < j < scene.len() ==> (#[trigger] scene[i]).0@ != (#[trigger] scene[j]).0@
}

/// Tight multi-row block with several short/long adjacencies. Rows are
/// pitched 2 cells apart (tiles are taller than one row); "the" is authored
/// one cell into "collapse"'s tail on purpose, so every run exercises the
/// push cascade and ends with them flush-adjacent.
pub open spec fn spec_dense_scene() -> Seq<SceneEntry> {
    seq![
        ("collapse", 0u32, 0u32),
        ("the", 2u32, 0u32),
        ("shudder", 5u32, 0u32),
        ("a", 8u32, 0u32),
        ("if", 0u32, 2u32),
        ("beneath", 2u32, 2u32),
        ("moss", 5u32, 2u32),
        ("perhaps", 7u32, 2u32),
        ("all", 10u32, 2u32),
        ("his", 0u32, 4u32),
        ("weapon", 2u32, 4u32),
        ("world", 5u32, 4u32),
    ]
}

pub fn dense_scene() -> (entries: Vec<SceneEntry>)
    ensures
        entries@ == spec_dense_scene(),
{
    vec![
        ("collapse", 0, 0),
        ("the", 2, 0),
        ("shudder", 5, 0),
        ("a", 8, 0),
        ("if", 0, 2),
        ("beneath", 2, 2),
        ("moss", 5, 2),
        ("perhaps", 7, 2),
        ("all", 10, 2),
        ("his", 0, 4),
        ("weapon", 2, 4),
        ("world", 5, 4),
    ]
}

/// Spread across the zone. "but" is authored as "some"'s grid neighbor;
/// since tiles are taller than one row, the plan settles them flush-adjacent.
pub open spec fn spec_scattered_scene() -> Seq<SceneEntry> {
    seq![
        ("origin", 2u32, 1u32),
        ("glow", 14u32, 0u32),
        ("pit", 24u32, 3u32),
        ("some", 10u32, 5u32),
        ("but", 10u32, 6u32),
        ("under", 6u32, 9u32),
        ("closed", 20u32, 12u32),
    ]
}

pub fn scattered_scene() -> (entries: Vec<SceneEntry>)
    ensures
        entries@ == spec_scattered_scene(),
{
    vec![
        ("origin", 2, 1),
        ("glow", 14, 0),
        ("pit", 24, 3),
        ("some", 10, 5),
        ("but", 10, 6),
        ("under", 6, 9),
        ("closed", 20, 12),
    ]
}

/// Zone extremes: column 0, the rightmost feasible column for a short tile,
/// row 0, and the bottom row adjacent to the zone/tray seam.
pub open spec fn spec_edge_scene() -> Seq<SceneEntry> {
    seq![
        ("within", 0u32, 5u32),
        ("an", 29u32, 8u32),
        ("upon", 12u32, 0u32),
        ("cliff", 15u32, 16u32),
        ("dead", 0u32, 16u32),
        ("lush", 24u32, 0u32),
    ]
}

pub fn edge_scene() -> (entries: Vec<SceneEntry>)
    ensures
        entries@ == spec_edge_scene(),
{
    vec![
        ("within", 0, 5),
        ("an", 29, 8),
        ("upon", 12, 0),
        ("cliff", 15, 16),
        ("dead", 0, 16),
        ("lush", 24, 0),
    ]
}

/// Whether two strings hold the same characters.
fn same_text(a: &str, b: &str) -> (same: bool)
    ensures
        same == (a@ == b@),
{
    let a_owned: String = a.to_owned();
    let b_owned: String = b.to_owned();
    a_owned == b_owned
}

/// The scene a name selects: `dense`, `scattered` or `edge`; any other
/// name selects none.
pub fn scene_named(name: &str) -> (scene: Option<FixtureScene>)
    ensures
        scene is Some <==> (name@ == "dense"@ || name@ == "scattered"@ || name@ == "edge"@),
        name@ == "dense"@ ==> (scene matches Some(s) && s.0@ == spec_dense_scene()),
        name@ == "scattered"@ ==> (scene matches Some(s) && s.0@ == spec_scattered_scene()),
        name@ == "edge"@ ==> (scene matches Some(s) && s.0@ == spec_edge_scene()),
{
    proof {
        reveal_strlit("dense");
        reveal_strlit("scattered");
        reveal_strlit("edge");
        assert("dense"@.len() == 5 && "scattered"@.len() == 9 && "edge"@.len() == 4);
    }
    if same_text(name, "dense") {
        Some(FixtureScene(dense_scene()))
    } else if same_text(name, "scattered") {
        Some(FixtureScene(scattered_scene()))
    } else if same_text(name, "edge") {
        Some(FixtureScene(edge_scene()))
    } else {
        None
    }
}

/// The top-left corner of grid cell (col, row).
pub open spec fn entry_cell(col: u32, row: u32) -> Point {
    Point { x: (col * GRID) as i64, y: (row * GRID) as i64 }
}

pub open spec fn committed_has(committed: Seq<TileRect>, entity: u64) -> bool {
    exists|k: int| 0 <= k < committed.len() && (#[trigger] committed[k]).entity == entity
}

/// The first tile named `word` that the fixture has not committed yet.
pub open spec fn find_named(tiles: Seq<NamedTile>, word: Seq<char>, committed: Seq<TileRect>) -> Option<
    NamedTile,
>
    decreases tiles.len(),
{
    if tiles.len() == 0 {
        None
    } else if tiles[0].name@ == word && !committed_has(committed, tiles[0].entity) {
        Some(tiles[0])
    } else {
        find_named(tiles.drop_first(), word, committed)
    }
}

/// Index of the first tile that carries `entity`.
pub open spec fn index_of_entity(s: Seq<TileRect>, entity: u64) -> Option<int>
    decreases s.len(),
{
    if s.len() == 0 {
        None
    } else if s[0].entity == entity {
        Some(0)
    } else {
        match index_of_entity(s.drop_first(), entity) {
            Some(k) => Some(k + 1),
            None => None,
        }
    }
}

/// The committed entry of `tile`'s entity adopts `tile`'s position.
pub open spec fn adopt(committed: Seq<TileRect>, tile: TileRect) -> Seq<TileRect> {
    match index_of_entity(committed, tile.entity) {
        Some(k) => committed.update(k, TileRect { pos: tile.pos, ..committed[k] }),
        None => committed,
    }
}

/// Every planned position, from index `i` on, adopted in turn.
pub open spec fn adopt_all(committed: Seq<TileRect>, moved: Seq<TileRect>, i: int) -> Seq<TileRect>
    decreases moved.len() - i,
{
    if i < 0 || i >= moved.len() {
        committed
    } else {
        adopt_all(adopt(committed, moved[i]), moved, i + 1)
    }
}

/// One scene entry: find its tile, plan the drop at its cell, adopt the
/// pushed positions and commit the tile.
pub open spec fn fixture_step(
    entry: SceneEntry,
    tiles: Seq<NamedTile>,
    bounds: Point,
    committed: Seq<TileRect>,
) -> (Seq<TileRect>, EntryOutcome) {
    let cell = entry_cell(entry.1, entry.2);
    match find_named(tiles, entry.0@, committed) {
        None => (committed, EntryOutcome::NoTile),
        Some(tile) => {
            let held = TileRect { entity: tile.entity, pos: cell, size: tile.size };
            match spec_plan(held, committed, bounds) {
                None => (committed, EntryOutcome::Infeasible),
                Some(moved) => (adopt_all(committed, moved, 0).push(held), EntryOutcome::Placed),
            }
        },
    }
}

/// The scene from entry `i` on, starting from `committed`: the final
/// committed tiles and each entry's outcome.
pub open spec fn fixture_run(
    scene: Seq<SceneEntry>,
    tiles: Seq<NamedTile>,
    bounds: Point,
    committed: Seq<TileRect>,
    i: int,
) -> (Seq<TileRect>, Seq<EntryOutcome>)
    decreases scene.len() - i,
{
    if i < 0 || i >= scene.len() {
        (committed, Seq::empty())
    } else {
        let (next, outcome) = fixture_step(scene[i], tiles, bounds, committed);
        let (last, outcomes) = fixture_run(scene, tiles, bounds, next, i + 1);
        (last, seq![outcome] + outcomes)
    }
}

pub open spec fn sizes_ok(tiles: Seq<NamedTile>) -> bool {
    forall|k: int|
        0 <= k < tiles.len() ==> 0 <= (#[trigger] tiles[k]).size.x <= COORD_LIMIT && 0
            <= tiles[k].size.y <= COORD_LIMIT
}

fn find_named_tile(tiles: &Vec<NamedTile>, word: &str, committed: &Vec<TileRect>) -> (found:
    Option<usize>)
    ensures
        found matches Some(j) ==> j < tiles@.len() && find_named(tiles@, word@, committed@) == Some(
            tiles@[j as int],
        ),
        found is None ==> find_named(tiles@, word@, committed@) is None,
{
    let mut j: usize = 0;
    assert(tiles@.subrange(0, tiles@.len() as int) =~= tiles@);
    while j < tiles.len()
        invariant
            j <= tiles.len(),
            find_named(tiles@, word@, committed@) == find_named(
                tiles@.subrange(j as int, tiles@.len() as int),
                word@,
                committed@,
            ),
        decreases tiles.len() - j,
    {
        let ghost rest = tiles@.subrange(j as int, tiles@.len() as int);
        assert(rest.drop_first() =~= tiles@.subrange(j + 1, tiles@.len() as int));
        assert(rest[0] == tiles@[j as int]);
        if same_text(tiles[j].name.as_str(), word) && !has_entity(committed, tiles[j].entity) {
            return Some(j);
        }
        j = j + 1;
    }
    None
}

fn has_entity(committed: &Vec<TileRect>, entity: u64) -> (has: bool)
    ensures
        has == committed_has(committed@, entity),
{
    let mut k: usize = 0;
    while k < committed.len()
        invariant
            k <= committed.len(),
            forall|m: int| 0 <= m < k ==> (#[trigger] committed@[m]).entity != entity,
        decreases committed.len() - k,
    {
        if committed[k].entity == entity {
            return true;
        }
        k = k + 1;
    }
    false
}

fn adopt_position(committed: &mut Vec<TileRect>, tile: TileRect)
    requires
        all_well_formed(old(committed)@),
        tile.pos.in_range(),
    ensures
        final(committed)@ == adopt(old(committed)@, tile),
        final(committed)@.len() == old(committed)@.len(),
        all_well_formed(final(committed)@),
{
    let ghost c = committed@;
    let mut k: usize = 0;
    assert(c.subrange(0, c.len() as int) =~= c);
    while k < committed.len()
        invariant
            committed@ == c,
            c == old(committed)@,
            all_well_formed(c),
            tile.pos.in_range(),
            k <= c.len(),
            index_of_entity(c, tile.entity) == match index_of_entity(
                c.subrange(k as int, c.len() as int),
                tile.entity,
            ) {
                Some(m) => Some(m + k),
                None => None,
            },
        decreases c.len() - k,
    {
        assert(c.subrange(k as int, c.len() as int).drop_first() =~= c.subrange(
            k + 1,
            c.len() as int,
        ));
        if committed[k].entity == tile.entity {
            let entry = committed[k];
            assert(c.subrange(k as int, c.len() as int)[0] == c[k as int]);
            assert(c[k as int].well_formed());
            committed.set(k, TileRect { pos: tile.pos, ..entry });
            return;
        }
        k = k + 1;
    }
}

/// Commits a scene: each entry's tile (the first uncommitted tile with the
/// entry's word) is planned at its cell among the tiles committed so far,
/// the tiles the plan pushes adopt their new positions, and the tile is
/// committed. Answers every committed tile's final position and each
/// entry's outcome.
pub fn plan_fixture_scene(scene: &FixtureScene, tiles: &Vec<NamedTile>, bounds: Point) -> (res: (
    Vec<TileRect>,
    Vec<EntryOutcome>,
))
    requires
        bounds.in_range(),
        sizes_ok(tiles@),
        step_budget(scene.0@.len()) <= usize::MAX,
    ensures
        (res.0@, res.1@) == fixture_run(scene.0@, tiles@, bounds, Seq::empty(), 0),
{
    let entries = &scene.0;
    let mut committed: Vec<TileRect> = Vec::new();
    let mut outcomes: Vec<EntryOutcome> = Vec::new();
    let ghost target = fixture_run(entries@, tiles@, bounds, Seq::empty(), 0);
    let mut i: usize = 0;
    while i < entries.len()
        invariant
            i <= entries.len(),
            committed@.len() <= i,
            all_well_formed(committed@),
            bounds.in_range(),
            sizes_ok(tiles@),
            step_budget(entries@.len()) <= usize::MAX,
            target == fixture_run(entries@, tiles@, bounds, Seq::empty(), 0),
            target == ({
                let (last, rest) = fixture_run(entries@, tiles@, bounds, committed@, i as int);
                (last, outcomes@ + rest)
            }),
        decreases entries.len() - i,
    {
        let (word, col, row) = entries[i];
        let cell = Point { x: (col as i64) * GRID, y: (row as i64) * GRID };
        let ghost before = committed@;
        let ghost step = fixture_step(entries@[i as int], tiles@, bounds, before);
        let outcome = match find_named_tile(tiles, word, &committed) {
            None => EntryOutcome::NoTile,
            Some(j) => {
                let held = TileRect { entity: tiles[j].entity, pos: cell, size: tiles[j].size };
                assert(tiles@[j as int].size.x <= COORD_LIMIT);
                assert(held.well_formed());
                assert(step_budget(committed@.len() as nat) <= step_budget(entries@.len() as nat))
                    by (nonlinear_arith)
                    requires
                        committed@.len() <= entries@.len(),
                ;
                match plan(held, &committed, bounds) {
                    None => EntryOutcome::Infeasible,
                    Some(moved) => {
                        proof {
                            lemma_plan_well_formed(held, before, bounds);
                        }
                        let mut m: usize = 0;
                        assert(adopt_all(before, moved@, 0) == adopt_all(committed@, moved@, 0));
                        while m < moved.len()
                            invariant
                                m <= moved.len(),
                                all_well_formed(moved@),
                                all_well_formed(committed@),
                                committed@.len() == before.len(),
                                adopt_all(before, moved@, 0) == adopt_all(
                                    committed@,
                                    moved@,
                                    m as int,
                                ),
                            decreases moved.len() - m,
                        {
                            assert(moved@[m as int].well_formed());
                            adopt_position(&mut committed, moved[m]);
                            m = m + 1;
                        }
                        proof {
                            assert(spec_fits(held, bounds));
                        }
                        committed.push(held);
                        EntryOutcome::Placed
                    },
                }
            },
        };
        proof {
            assert(step == (committed@, outcome));
            let (last, rest) = fixture_run(entries@, tiles@, bounds, committed@, i + 1);
            assert(outcomes@.push(outcome) + rest =~= outcomes@ + (seq![outcome] + rest));
        }
        outcomes.push(outcome);
        i = i + 1;
    }
    assert(outcomes@ + Seq::<EntryOutcome>::empty() =~= outcomes@);
    (committed, outcomes)
}

} // verus!
