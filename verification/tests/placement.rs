use poetry_game::placement::{direction, fits, overlaps, plan, push_apart, Dir, Point, TileRect};

fn rect(id: u64, x: i64, y: i64, w: i64) -> TileRect {
    TileRect { entity: id, pos: Point { x, y }, size: Point { x: w, y: 60 } }
}

fn pt(x: i64, y: i64) -> Point {
    Point { x, y }
}

fn splat(v: i64) -> Point {
    Point { x: v, y: v }
}

fn pos_of(result: &[TileRect], id: u64) -> Point {
    result.iter().find(|tile| tile.entity == id).unwrap().pos
}

#[test]
fn four_sides() {
    let other = rect(1, 160, 160, 80);
    for (x, y, expected) in [
        (120, 160, pt(200, 160)),
        (200, 160, pt(120, 160)),
        (160, 120, pt(160, 200)),
        (160, 200, pt(160, 120)),
    ] {
        assert_eq!(plan(rect(0, x, y, 80), &[other], splat(600)).unwrap()[0].pos, expected);
    }
}

#[test]
fn variable_width_cascade_and_repeat() {
    let tiles = [rect(1, 80, 80, 130), rect(2, 240, 80, 90)];
    let held = rect(0, 0, 80, 190);
    for _ in 0..3 {
        let result = plan(held, &tiles, splat(600)).unwrap();
        assert_eq!(result.iter().find(|tile| tile.entity == tiles[0].entity).unwrap().pos.x, 200);
        assert_eq!(result.iter().find(|tile| tile.entity == tiles[1].entity).unwrap().pos.x, 360);
        assert!(!overlaps(result[0], result[1]));
    }
    let away = plan(rect(0, 0, 240, 190), &tiles, splat(600)).unwrap();
    assert_eq!(away.iter().find(|tile| tile.entity == tiles[0].entity).unwrap().pos, tiles[0].pos);
    assert!(plan(held, &tiles, pt(400, 600)).is_none());
    assert_eq!(tiles[0].pos.x, 80);
}

#[test]
fn oversized_and_tie() {
    assert!(plan(rect(0, 0, 0, 700), &[], splat(600)).is_none());
    let result = plan(rect(0, 80, 80, 80), &[rect(1, 80, 80, 80)], splat(600)).unwrap();
    assert_eq!(result[0].pos, pt(160, 80));
}

#[test]
fn sparse_field_leaves_distant_tiles_alone() {
    let committed = [
        rect(1, 80, 80, 80),
        rect(2, 600, 80, 80),
        rect(3, 80, 400, 120),
        rect(4, 1000, 600, 80),
    ];
    let result = plan(rect(0, 0, 80, 120), &committed, pt(1200, 800)).unwrap();
    // Only the tile overlapping the held tile joins the cascade.
    assert_eq!(pos_of(&result, 1), pt(120, 80));
    for id in [2, 3, 4] {
        let original = committed.iter().find(|tile| tile.entity == id).unwrap().pos;
        assert_eq!(pos_of(&result, id), original);
    }
}

#[test]
fn push_direction_is_per_pair_not_global() {
    // One neighbor primarily left of the held tile, one primarily below:
    // each moves along its own away axis.
    let committed = [rect(1, 160, 200, 80), rect(2, 210, 240, 80)];
    let result = plan(rect(0, 200, 200, 80), &committed, splat(600)).unwrap();
    assert_eq!(pos_of(&result, 1), pt(120, 200));
    assert_eq!(pos_of(&result, 2), pt(210, 280));
    assert!(!overlaps(result[0], result[1]));
}

#[test]
fn unresolvable_crowd_returns_none_promptly() {
    // A dense ring around the held tile in a tight zone: the plan is
    // infeasible, reported promptly.
    let committed = [
        rect(1, 120, 40, 80),
        rect(2, 160, 80, 80),
        rect(3, 100, 120, 80),
        rect(4, 60, 80, 80),
    ];
    assert!(plan(rect(0, 80, 40, 80), &committed, splat(240)).is_none());
}

#[test]
fn cyclic_cascade_hits_step_budget() {
    // The two tiles ping-pong against the held tile's cell; only the step
    // budget ends it, with None.
    let committed = [rect(1, 40, 0, 40), rect(2, 0, 0, 40)];
    assert!(plan(rect(0, 40, 0, 160), &committed, pt(200, 120)).is_none());
}

#[test]
fn push_beyond_bounds_is_infeasible() {
    assert!(plan(rect(0, 0, 0, 80), &[rect(1, 40, 0, 80)], pt(120, 200)).is_none());
}

#[test]
fn plan_orders_result_by_entity() {
    let committed = vec![rect(9, 400, 400, 80), rect(3, 0, 400, 80), rect(5, 200, 400, 80)];
    let result = plan(rect(0, 0, 0, 80), &committed, splat(600)).unwrap();
    let ids: Vec<u64> = result.iter().map(|tile| tile.entity).collect();
    assert_eq!(ids, vec![3, 5, 9]);
    // Nothing overlapped: positions untouched.
    assert_eq!(pos_of(&result, 9), pt(400, 400));
}

#[test]
fn plan_result_never_overlaps_held() {
    let held = rect(0, 120, 120, 200);
    let committed = vec![rect(1, 100, 100, 80), rect(2, 240, 140, 80), rect(3, 400, 120, 80)];
    let result = plan(held, &committed, pt(1000, 1000)).unwrap();
    for tile in &result {
        assert!(!overlaps(held, *tile));
        assert!(fits(*tile, pt(1000, 1000)));
        assert_eq!((tile.pos.x - committed.iter().find(|t| t.entity == tile.entity).unwrap().pos.x) % 40, 0);
    }
}

#[test]
fn unfit_held_is_rejected_even_when_alone() {
    assert!(plan(rect(0, -40, 0, 80), &[], splat(600)).is_none());
    assert!(plan(rect(0, 560, 0, 80), &[], splat(600)).is_none());
    assert_eq!(plan(rect(0, 520, 0, 80), &[], splat(600)), Some(vec![]));
}

#[test]
fn direction_and_push_apart_exact_values() {
    let source = rect(0, 120, 160, 80);
    assert_eq!(direction(source, rect(1, 160, 160, 80)), Dir::Right);
    assert_eq!(direction(source, rect(1, 80, 160, 80)), Dir::Left);
    assert_eq!(direction(source, rect(1, 120, 200, 80)), Dir::Down);
    assert_eq!(direction(source, rect(1, 120, 120, 80)), Dir::Up);
    // Coincident centers push right.
    assert_eq!(direction(source, source), Dir::Right);
    // Overlap of 10 pixels still moves a whole cell.
    let moved = push_apart(source, rect(1, 190, 160, 80));
    assert_eq!(moved.pos, pt(230, 160));
    assert_eq!(moved.size, pt(80, 60));
    assert!(!overlaps(source, moved));
}

#[test]
fn fits_and_overlaps_edges() {
    // Touching edges do not overlap.
    assert!(!overlaps(rect(0, 0, 0, 80), rect(1, 80, 0, 80)));
    assert!(overlaps(rect(0, 0, 0, 80), rect(1, 79, 0, 80)));
    assert!(fits(rect(0, 0, 0, 80), pt(80, 60)));
    assert!(!fits(rect(0, 0, 1, 80), pt(80, 60)));
}

#[test]
fn drop_on_clear_board_keeps_it_clear() {
    let bounds = pt(800, 400);
    let committed = [
        rect(1, 80, 0, 80),
        rect(2, 160, 0, 120),
        rect(3, 80, 80, 80),
        rect(4, 400, 200, 80),
    ];
    let held = rect(9, 40, 0, 80);
    let result = plan(held, &committed, bounds).unwrap();
    for (i, a) in result.iter().enumerate() {
        assert!(fits(*a, bounds));
        assert!(!overlaps(held, *a));
        for b in &result[i + 1..] {
            assert!(!overlaps(*a, *b));
        }
    }
    assert_eq!(pos_of(&result, 1), pt(120, 0));
    assert_eq!(pos_of(&result, 2), pt(200, 0));
    assert_eq!(pos_of(&result, 4), pt(400, 200));
}

#[test]
fn plan_ignores_order_of_committed_tiles() {
    let bounds = pt(800, 400);
    let held = rect(9, 40, 0, 80);
    let a = rect(1, 80, 0, 80);
    let b = rect(2, 160, 0, 120);
    let c = rect(3, 80, 80, 80);
    let d = rect(4, 400, 200, 80);
    let expected = plan(held, &[a, b, c, d], bounds);
    assert!(expected.is_some());
    for order in [[d, c, b, a], [b, d, a, c], [c, a, d, b], [a, c, b, d]] {
        assert_eq!(plan(held, &order, bounds), expected);
    }
}
