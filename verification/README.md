# poetry_game

A word-tile poetry board: words drawn from a word bank sit in a tray and are
dragged onto a writing zone, where they snap to a 40px grid and push their
neighbors aside.

`src/` is the verified library (Verus):

- `placement` — the push-cascade planner (`plan`) on whole-pixel
  coordinates, with its exact specification; `placement_laws` — what every
  plan keeps (held tile clear, moved tiles inside the zone and clear of each
  other, tiles moved by whole cells, result ordered by entity, and the same
  plan whatever the order of the committed tiles).
- `drag` — grid snapping, the placement a drag lands on, neighbor preview
  targets, release and Escape decisions.
- `tray` — tray slot counting and gap bookkeeping.
- `fixture`, `fixture_laws` — reproducible scenes, their commit planning
  and the wait for layout; a committed scene is inside the zone and
  overlap-free, and no scene names a word twice.
- `word_bank` — word selection over `rand`'s sampling and shuffling, and
  the seed setting's decimal parse.
- `layout` — the tray position formula.

`app/` is the Bevy game around the library: windowing, UI construction,
pointer handling, easing animations, and the conversion between the UI's
floating-point logical units and the library's whole pixels.
