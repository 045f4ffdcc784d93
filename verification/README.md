# pinmame_nvram

Reads and writes the NVRAM files that PinMAME keeps for each pinball ROM,
with the maps of the pinmame-nvram-maps project: high scores, mode
champions, the last game's scores, the game state, dip switches, and the
8- and 16-bit checksums that guard regions of the file.

The library in `src/` is verified with Verus. It works on the bytes of an
image held in memory and on maps held as plain values:

- `encoding`, `nibble`, `ch`: the value encodings (BCD, integers, strings,
  the WPC clock, values stored in one half of each byte);
- `checksum`: checking and updating checksum regions;
- `dips`: the dip switch bits at the end of an image;
- `nvram`: high scores, mode champions, last game, game state;
- `resolve`: a whole map resolved against an image, as JSON;
- `json`, `model`, `error`, `text`, `image`, `scale`, `index`,
  `compressed`: the data the rest works on.

Each public function states what it returns in its `ensures`; the laws
that relate several functions (values written read back, checksums
updated verify, switches set read back) are proof functions next to them.

`app/` holds what stays outside the verifier: reading and writing files,
parsing the JSON maps with serde, and the floating-point scaling of values.
