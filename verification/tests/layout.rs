use poetry_game::layout::create_tile_position;

#[test]
fn tile_position_formula() {
    assert_eq!(create_tile_position(0, 0, 0, 0), (40, 300));
    assert_eq!(create_tile_position(7, 10, 4, 5), (10 + 24 + 15 + 40, 270));
    assert_eq!(create_tile_position(13, -100, 3, 3), (-100 + 18 + 9 + 40, 240));
}
