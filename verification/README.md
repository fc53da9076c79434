# binbloom

Statistical analysis of raw firmware images: the endianness, the loading
(base) address, and the location of an automotive UDS request table.

- `src/` is the library, written and proved with Verus: the address vote
  tree, endianness detection, the base-address search (voting, refinement,
  decision), the UDS search, the symbol-file parser, region merging and the
  command-line settings. Each public function states its result in its
  contract; laws that relate several functions are public proof functions.
- `app/` is the `binbloom` program: argument parsing (clap), file and
  stream input, the entropy-based classification of 1 KiB chunks (floating
  point), and printing.
- `tests/` exercises the library on concrete images.

The memory map that the searches use is built from per-chunk kinds
(`MemoryMap::from_chunk_classes`); the program computes those kinds from
each chunk's entropy.
