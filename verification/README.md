# viofo-fw

Split and rebuild Novatek NVTPACK firmware images (as shipped for the VIOFO
A329S dashcam), with the format logic proved correct in Verus.

* `src/` — the verified library:
  * `checksum` — the Novatek 16-bit checksum and solving for a corrective word;
  * `bytes`, `text` — integer encodings, hex and decimal text, NUL-padded strings;
  * `format` — the image header and partition table, the CKSM and uImage
    containers, and the build tag;
  * `inspect` — recognising a partition, and what `verify` finds;
  * `manifest` — the manifest values, their checks, and the number-field syntax;
  * `unpack`, `pack` — splitting an image into payloads and laying one out again;
  * `roundtrip` — the proof that unpacking then packing gives back the same bytes.
* `app/` — the `viofo-fw` command line: files, TOML, and printing.
* `tests/` — unit and end-to-end tests.
