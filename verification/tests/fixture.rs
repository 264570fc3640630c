use poetry_game::fixture::{
    dense_scene, edge_scene, layout_wait_step, plan_fixture_scene, scattered_scene, scene_named,
    EntryOutcome, FixtureScene, NamedTile, WaitAction, MAX_WAIT_FRAMES,
};
use poetry_game::placement::{overlaps, Point};

#[test]
fn scene_words_are_distinct_within_each_scene() {
    for entries in [dense_scene(), scattered_scene(), edge_scene()] {
        for (index, (word, _, _)) in entries.iter().enumerate() {
            assert!(!entries[..index].iter().any(|(other, _, _)| other == word));
        }
    }
}

#[test]
fn scene_names_select_scenes() {
    assert_eq!(scene_named("dense").unwrap().0.len(), 12);
    assert_eq!(scene_named("scattered").unwrap().0.len(), 7);
    assert_eq!(scene_named("edge").unwrap().0.len(), 6);
    assert!(scene_named("crowded").is_none());
    assert!(scene_named("").is_none());
}

fn named(entity: u64, name: &str, w: i64) -> NamedTile {
    NamedTile { entity, name: name.to_string(), size: Point { x: w, y: 50 } }
}

#[test]
fn fixture_commits_through_the_push_cascade() {
    let scene = FixtureScene(vec![("a", 2, 0), ("b", 3, 0), ("ghost", 4, 4), ("far", 40, 0)]);
    let tiles = vec![named(1, "a", 56), named(2, "b", 56), named(3, "far", 56)];
    let (committed, outcomes) = plan_fixture_scene(&scene, &tiles, Point { x: 1248, y: 693 });
    assert_eq!(
        outcomes,
        vec![EntryOutcome::Placed, EntryOutcome::Placed, EntryOutcome::NoTile, EntryOutcome::Infeasible]
    );
    // "b" lands one cell into "a", which is pushed a cell to the left.
    assert_eq!(committed.len(), 2);
    assert_eq!((committed[0].entity, committed[0].pos), (1, Point { x: 40, y: 0 }));
    assert_eq!((committed[1].entity, committed[1].pos), (2, Point { x: 120, y: 0 }));
    assert!(!overlaps(committed[0], committed[1]));
}

#[test]
fn fixture_skips_committed_tiles_and_infeasible_pushes() {
    // Two tiles share a name: the second entry takes the uncommitted one.
    let scene = FixtureScene(vec![("x", 0, 0), ("x", 5, 5), ("y", 1, 0)]);
    let tiles = vec![named(7, "x", 120), named(8, "x", 56), named(9, "y", 56)];
    let (committed, outcomes) = plan_fixture_scene(&scene, &tiles, Point { x: 1248, y: 693 });
    // "y" at column 1 would push the first "x" left, out of the zone.
    assert_eq!(outcomes, vec![EntryOutcome::Placed, EntryOutcome::Placed, EntryOutcome::Infeasible]);
    assert_eq!(committed.len(), 2);
    assert_eq!((committed[0].entity, committed[0].pos), (7, Point { x: 0, y: 0 }));
    assert_eq!((committed[1].entity, committed[1].pos), (8, Point { x: 200, y: 200 }));
}

#[test]
fn layout_wait_proceeds_waits_and_gives_up() {
    assert_eq!(layout_wait_step(0, true), (0, WaitAction::Proceed));
    assert_eq!(layout_wait_step(17, true), (17, WaitAction::Proceed));
    assert_eq!(layout_wait_step(0, false), (1, WaitAction::Wait));
    assert_eq!(layout_wait_step(MAX_WAIT_FRAMES - 1, false), (MAX_WAIT_FRAMES, WaitAction::Wait));
    assert_eq!(layout_wait_step(MAX_WAIT_FRAMES, false), (MAX_WAIT_FRAMES + 1, WaitAction::GiveUp));
    let mut frames = 0;
    let mut waited = 0;
    loop {
        let (next, action) = layout_wait_step(frames, false);
        frames = next;
        waited += 1;
        if action == WaitAction::GiveUp {
            break;
        }
    }
    assert_eq!(waited, MAX_WAIT_FRAMES + 1);
}
