# rua

Turns pictures into terminal character art and keeps multi-frame character
sprites in the plain-text `rua` format.

- `src/` is the library, verified with Verus:
  - `table`: the character ramps and the gray-level to ramp-position mapping;
  - `text`: white space, tokens, decimal numerals, number and character parsing;
  - `raster`: decoded pictures as RGB samples, resampling (through `image`) and gray levels;
  - `sprite`: pixels, frames and sprites, their editing operations, reading and writing `rua` text, terminal text;
  - `screen`: the terminal text of a frame (escape sequences, row endings), and taking escape sequences out again;
  - `rua`: the `rua` format as spec functions, the proof that reading back written text gives the sprite, and the lines and tokens that the reader skips;
  - `render`: pictures as plain or colored character art, and the proof that the colored art without its escapes is the plain art.
- `app/` is the command line program: argument parsing, file and picture input, printing.
- `tests/` runs the library on concrete values.
