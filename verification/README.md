# sfinder_lib

The core of a Tetris solution finder, written in Verus: bitboard fields, piece shapes,
the SRS rotation system, and the searches that decide where a piece can be placed. The
functions of `src/` are verified against their contracts, except three small wrappers whose
contracts are trusted: `action_set::insert_key` (a hash set insert) and, in `randoms`,
`gen_below` and `choose_pieces` (random draws).

Layout of `src/`:

- `sfinder_core::field` — fields of 6, 12 and 24 rows held in one, two or four 64-bit boards
  (`SmallField`, `MiddleField`, `LargeField`, and `AnyField` over the three), the bit and key
  operations they rest on, field building from text marks, and text views.
- `sfinder_core::mino` — pieces, their shapes in each orientation (`Mino`, `MinoFactory`), and
  the shifter that sends a placement to the canonical placement covering the same cells.
- `sfinder_core::srs` — orientations, rotation directions, kick tables and rotation systems.
- `sfinder_core::action` — the searches: `LockedReachable`, `Locked180Reachable` and the other
  `Reachable` searches decide whether a placement can be reached; the `Candidate` searches list
  the reachable placements. The contracts state the answer as the existence of a walk of moves
  and rotations from the placement back to the top of the field.
- `sfinder_core::column_field` — fields of a few columns held in one board.
- `sfinder_core::neighbor` — placed shapes with the fields they occupy and sweep.
- `common::datastore` — coordinates, placements, the caches of the searches, key sets.
- `sfinder_lib` — walking coordinates and random pieces, orientations and keys.

`app/` holds the random field generator, whose retry loops end only by chance.

Heights are counted in signed bytes where shapes are walked over a field
(`coordinate_walker::get_ranges` and the searches built on it): a height of 128 or more, or one
that leaves no row for a shape, is refused by their preconditions rather than wrapped.

Not part of this crate: the T-spin-or-harddrop search, the simple placed piece and building a
field from a colored field, since the spin checker, the full operations with keys and the
colored fields they rest on are not here either.

The locked searches follow the SRS kick order exactly. One consequence: on the field

```
__________
XXX___XXXX
XXX_XXXXXX
XXX____XXX
```

the I piece in orientation Reverse at `(5, 0)` is not reachable by `LockedReachable::check`
(the clockwise kick from Right at `(3, 2)` first fits at `(2, 3)`, and no counterclockwise
start lies inside the field), although the same cells are reachable as Spawn at `(4, 0)`,
which `checks` finds.
