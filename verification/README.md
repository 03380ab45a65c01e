# deflate_utils

A small DEFLATE toolkit with its behaviour stated in contracts and proved with Verus.

- `src/bits.rs` – reading bits and small numbers out of byte buffers.
- `src/fixed.rs`, `src/dynamic.rs`, `src/inflate.rs` – decoding fixed- and dynamic-Huffman
  blocks and whole streams, each against a specification of what the stream decodes to.
- `src/checked.rs` – inflating streams that may be malformed: `None` exactly where the
  specification has no decoding.
- `src/encode.rs`, `src/codec.rs` – the fixed Huffman code for literals, lengths and
  distances, and the proofs that the decoder reads back what the encoder writes.
- `src/block.rs` – LZ77 tokens, their bits in a fixed-Huffman block, packing bits into
  bytes, and the proofs that such a block inflates back to the data a sound parse describes.
- `src/huffman_new.rs`, `src/huffman.rs`, `src/hashmap_lz77.rs`, `src/text_lz77.rs` – LZ77
  compressors: over a hash-chained 32 KiB window, with chains in an `FxHashMap` or a
  `HashMap`, and on text.
- `src/zip.rs` – single-entry ZIP archives: record layouts and reading an entry back.
- `src/compare.rs` – comparing buffers, and checks against `miniz_oxide`.
- `app/main.rs` – the command-line programs: file input and output, threads, printing.
