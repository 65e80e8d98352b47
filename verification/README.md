# midi-sampler-to-m8

Autosample any MIDI-playable instrument, or render `.sfz` instruments offline, into
Dirtywave M8 fixed-slice sample-chain WAVs.

- `src/` is the library. Everything in it is verified with Verus: argument rules,
  slot maps and chord layouts, jobs and file names, MIDI tracks, the course of live and
  offline runs, the shaping of recorded samples, and the texts that a run prints. Numbers and
  samples are IEEE 754 patterns (`number`, `arith`, `level`, `single`), with the
  rounding of each operation stated in its contract.
- `app/` is the program around it: the command line, MIDI and audio devices, the
  `sfizz_render` process, and files.
- `tests/` runs the library.

Calls into `midly`, `csv`, `std::path`, `str::to_lowercase` and `String::push` go by
contracts that are trusted; each says what it claims.
