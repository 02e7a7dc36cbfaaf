# chimera

A Tetris move generator and its board model, written in Verus with every
function of the library proved against its contract.

- `src/` is the library: boards as column bitmasks (`board`, `header`,
  `vector`), pieces, rotations and the SRS tables (`piece`, `rotation`,
  `data`, `spin`), packed placements (`placement`), piece queues and bags
  (`queue`, `bag`), collision maps (`collision_map`, `nav_collision_map`),
  spin detection (`detect`), move generation with soft drops (`global`, over
  the reachability model of `reach`) and under infinite gravity (`instant`),
  the move buffer (`buffer`), tree counting (`perft`), scoring (`score`) and
  the cell logic of drawing (`render`).
- `tests/` runs the library on concrete boards.
- `app/` is the command-line program: `perft [depth]` counts the game tree
  of the seven pieces on several threads, `search` prints and scores the I
  placements of a sample board.
