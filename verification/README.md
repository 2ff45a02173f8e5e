# figdriver

Renders text as large letters made of smaller characters, with FIGfont fonts (`.flf`,
`.tlf`) and FIGlet control files (`.flc`); compressed (ZIP) font and control files are read
too. The library is written in Verus: each public function carries a contract over
mathematical models, and the laws of the library are proved as public proof functions.

Layout:

- `src/figfont.rs`: font files and their characters.
- `src/flc.rs`: control files and pipelines of them; `src/control/`: input decoders
  (Latin-1, UTF-8, HZ, Shift-JIS, DBCS, ISO 2022).
- `src/smusher.rs`: placing characters side by side, smushing them by the font's rules.
- `src/wrapper.rs`: filling output lines to a width, padded and aligned by display width
  (as the `unicode-width` crate measures it).
- `src/program.rs`, `src/listing.rs`: the decisions of the `figlet`, `figlist` and
  `showfigfonts` commands.
- `src/archive.rs`: recognising and decompressing ZIP-compressed files.
- `src/text.rs`: text helpers.
- `app/`: the command-line programs (argument handling, file and terminal I/O).
- `tests/`: tests of the library.
