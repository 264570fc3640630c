//! Verified core of a word-tile poetry board: push-cascade placement on the
//! writing zone's snap grid, drop and cancel decisions for dragged tiles,
//! tray gap bookkeeping, fixture scenes, and word selection.
pub mod placement;
pub mod placement_laws;
pub mod tray;
pub mod drag;
pub mod fixture;
pub mod word_bank;
pub mod layout;
pub mod fixture_laws;
