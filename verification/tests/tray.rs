use poetry_game::tray::{
    count_non_gaps_before, count_tiles_before, gap_slot, plan_tray_gaps, return_slot, ChildKind,
    GapState, TrayChild,
};

fn child(entity: u64, kind: ChildKind) -> TrayChild {
    TrayChild { entity, kind }
}

fn tray() -> Vec<TrayChild> {
    vec![
        child(1, ChildKind::Tile),
        child(2, ChildKind::Other),
        child(3, ChildKind::Tile),
        child(4, ChildKind::Gap),
        child(5, ChildKind::Tile),
    ]
}

#[test]
fn counts_before_a_child() {
    assert_eq!(count_tiles_before(&tray(), 5), 2);
    assert_eq!(count_non_gaps_before(&tray(), 5), 3);
    assert_eq!(count_tiles_before(&tray(), 1), 0);
    // Not a child: everything counts.
    assert_eq!(count_tiles_before(&tray(), 99), 3);
}

#[test]
fn slot_counts_tiles_before_pointer() {
    let before = vec![true, true, true, true, false];
    assert_eq!(gap_slot(&tray(), &before), 2);
}

#[test]
fn gap_at_slot_stays_others_close() {
    let children = tray();
    let gaps = vec![GapState { entity: 4, open: true }];
    // Gap 4 has two tiles before it.
    let plan = plan_tray_gaps(true, 2, &children, &gaps);
    assert_eq!(plan.keep_open, vec![true]);
    assert_eq!(plan.spawn_at, None);
    // The pointer moved to slot 1: the old gap closes and a fresh one opens.
    let plan = plan_tray_gaps(true, 1, &children, &gaps);
    assert_eq!(plan.keep_open, vec![false]);
    assert_eq!(plan.spawn_at, Some(1));
    // A closing gap at the slot is not reused.
    let closing = vec![GapState { entity: 4, open: false }];
    let plan = plan_tray_gaps(true, 2, &children, &closing);
    assert_eq!(plan.keep_open, vec![false]);
    assert_eq!(plan.spawn_at, Some(2));
}

#[test]
fn nothing_over_tray_closes_every_gap() {
    let gaps = vec![GapState { entity: 4, open: true }, GapState { entity: 6, open: true }];
    let plan = plan_tray_gaps(false, 2, &tray(), &gaps);
    assert_eq!(plan.keep_open, vec![false, false]);
    assert_eq!(plan.spawn_at, None);
}

#[test]
fn return_slot_uses_first_open_gap() {
    let gaps = vec![GapState { entity: 4, open: true }];
    assert_eq!(return_slot(&tray(), &gaps), Some(3));
    assert_eq!(return_slot(&tray(), &vec![GapState { entity: 4, open: false }]), None);
}

#[test]
fn returning_tile_takes_the_previewed_slot() {
    // Tiles and gaps only: the open gap sits after two tiles.
    let children = vec![
        child(1, ChildKind::Tile),
        child(2, ChildKind::Tile),
        child(4, ChildKind::Gap),
        child(3, ChildKind::Tile),
    ];
    let gaps = vec![GapState { entity: 4, open: true }];
    let plan = plan_tray_gaps(true, 2, &children, &gaps);
    assert_eq!(plan.keep_open, vec![true]);
    assert_eq!(return_slot(&children, &gaps), Some(2));
}

#[test]
fn grabbed_tile_slot_is_its_index_among_tiles() {
    let children = vec![child(1, ChildKind::Tile), child(2, ChildKind::Tile), child(3, ChildKind::Tile)];
    assert_eq!(count_tiles_before(&children, 3), 2);
}
