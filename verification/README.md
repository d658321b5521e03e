# photonyx

Photonyx (`px`) is a command-line application for astrophotography
processing built on conventions and configuration files. Its core is a
FITS library whose behaviour is stated in `requires`/`ensures` contracts
and proved with Verus.

## Layout

- `src/` — the verified library:
  - FITS blocks, cards and headers (`block`, `card`, `header`, `hdu`,
    `hdu_index`), with laws on reading back what was written
    (`card_laws`, `header_laws`, `builder_laws`);
  - the header and image writer (`writer`), tables (`table`, `columns`,
    `bintable`);
  - regions and tiling (`region`, `tile`), the `RICE_1` codec (`rice`,
    `rice_laws`) and tile-compressed images (`compress`, `tile_writer`);
  - project configuration, locks and stack fingerprints (`config`,
    `fingerprint`, `fingerprint_laws`), observation folder names
    (`observation`), dates in folder names, paths and header values
    (`dates`), frames and the command set (`frame`, `cli`,
    `version`).
- `tests/` — tests of the library.
- `app/` — the program around it: command-line parsing, file and
  directory I/O, configuration files, floating-point pixel scaling and
  display.
