use poetry_game::drag::{
    placement_at, preview_target, release_action, snap_to_grid, CancelAction, DragOrigin,
    ReleaseAction,
};
use poetry_game::placement::{Point, TileRect};
use poetry_game::tray::{ChildKind, GapState, TrayChild};

fn pt(x: i64, y: i64) -> Point {
    Point { x, y }
}

fn tile(id: u64, x: i64, y: i64) -> TileRect {
    TileRect { entity: id, pos: pt(x, y), size: pt(80, 60) }
}

#[test]
fn edge_snap_stays_on_grid() {
    assert_eq!(snap_to_grid(pt(999, 999), pt(123, 79)), pt(120, 40));
}

#[test]
fn snap_rounds_half_away_from_zero_and_clamps_low() {
    assert_eq!(snap_to_grid(pt(19, 20), pt(600, 600)), pt(0, 40));
    assert_eq!(snap_to_grid(pt(-100, 59), pt(600, 600)), pt(0, 40));
    assert_eq!(snap_to_grid(pt(61, 100), pt(600, 600)), pt(80, 120));
}

#[test]
fn placement_matches_the_drop_in_the_lifecycle_fixture() {
    // Zone 640x320, neighbors at (160, 80) and (240, 80), an 80x60 tile
    // gripped 10px in from its corner and released at (170, 90).
    let committed = vec![tile(2, 160, 80), tile(3, 240, 80)];
    let (cell, moves) =
        placement_at(1, true, pt(160, 80), pt(80, 60), pt(640, 320), &committed).unwrap();
    assert_eq!(cell, pt(160, 80));
    assert_eq!(moves, vec![tile(2, 240, 80), tile(3, 320, 80)]);
}

#[test]
fn placement_outside_zone_or_oversized_is_none() {
    let committed = vec![tile(2, 160, 80)];
    assert!(placement_at(1, false, pt(0, 0), pt(80, 60), pt(640, 320), &committed).is_none());
    assert!(placement_at(1, true, pt(0, 0), pt(700, 60), pt(640, 320), &committed).is_none());
}

#[test]
fn preview_target_follows_plan_or_commit() {
    let preview = Some((pt(160, 80), vec![tile(2, 240, 80)]));
    assert_eq!(preview_target(&preview, 2, pt(160, 80)), pt(240, 80));
    assert_eq!(preview_target(&preview, 7, pt(40, 40)), pt(40, 40));
    assert_eq!(preview_target(&None, 2, pt(160, 80)), pt(160, 80));
}

#[test]
fn escape_restores_zone_cell_or_tray_slot() {
    let children = vec![
        TrayChild { entity: 10, kind: ChildKind::Tile },
        TrayChild { entity: 11, kind: ChildKind::Gap },
        TrayChild { entity: 12, kind: ChildKind::Tile },
        TrayChild { entity: 13, kind: ChildKind::Tile },
    ];
    let from_tray = DragOrigin::at_grab(None, &children, 13);
    assert_eq!(from_tray.tray_index, 2);
    assert_eq!(from_tray.cancel(), CancelAction::BackToTray(2));
    let from_zone = DragOrigin::at_grab(Some(pt(80, 80)), &children, 99);
    assert_eq!(from_zone.cancel(), CancelAction::BackToZone(pt(80, 80)));
}

#[test]
fn release_commits_or_returns_to_gap() {
    let children = vec![
        TrayChild { entity: 10, kind: ChildKind::Tile },
        TrayChild { entity: 20, kind: ChildKind::Gap },
        TrayChild { entity: 11, kind: ChildKind::Tile },
        TrayChild { entity: 21, kind: ChildKind::Gap },
    ];
    let gaps = vec![GapState { entity: 20, open: false }, GapState { entity: 21, open: true }];
    match release_action(Some((pt(40, 40), vec![tile(2, 0, 0)])), &children, &gaps) {
        ReleaseAction::Commit { cell, moves } => {
            assert_eq!(cell, pt(40, 40));
            assert_eq!(moves, vec![tile(2, 0, 0)]);
        }
        other => panic!("expected a commit, got {other:?}"),
    }
    // Gap 21 is opening: two non-gap children come before it.
    assert_eq!(release_action(None, &children, &gaps), ReleaseAction::ReturnToSlot(2));
    let closed = vec![GapState { entity: 20, open: false }];
    assert_eq!(release_action(None, &children, &closed), ReleaseAction::ReturnToEnd);
}
