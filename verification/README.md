# dmw3_randomizer

A randomizer for Digimon World 3, with its logic verified by Verus.

- `src/` is the library. Every randomizer takes the game's records as
  plain values and a seeded xoshiro256** generator, and states in its
  contract what it does to them: which values are kept, which are drawn,
  from which pool and how evenly. The randomizers that draw numbers
  have a companion function (`shuffle_with_draws`,
  `uniform_random_vector_with_draws`, `color_with_draws`,
  `item_boxes_with_draws`, `randomize_limited_with_draws`,
  `signatures_with_draws`, `music_with_draws`,
  `random_fight_backgrounds_with_draws`, `encounters::patch_with_draws`,
  ...) that takes the drawn numbers as an argument and whose contract
  gives the result exactly; the randomizer itself states that its result
  is that function's for the numbers it drew. The walk through the Mobius
  desert is the exception: its shuffles and random stages are tied to
  their draws, the walk itself only to what holds whatever is drawn.
  `randomize::randomize` runs the randomizers a preset asks for, in
  order, on the game's records (`randomize::patch` seeds the generator
  from the preset). The library also
  holds the byte layouts of the records, packed archives, the disc image project and its layout log, the
  text framing of received-item messages, the item box randomizer with its
  talk-text bookkeeping, and the Archipelago options.
- `app/` is the command line program: argument parsing, preset files,
  running dumpsxiso and mkpsxiso, the history database, and the
  floating-point factors of a preset.
- `tests/` exercises the library on concrete values.

Reading and writing the game's data tables needs the locations of the
tables in the disc's files, and the game's texts need their character
encoding; neither is part of this project, so the program stops before
patching an image.
