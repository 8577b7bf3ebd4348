# paraflate

Parallel, predictive DEFLATE compression for ZIP archives, with its core proved
correct in Verus.

## Layout

- `src/` — the verified library.
  - `bit_writer`, `tables`, `huffman`, `pm`, `dynamic`, `encoding`, `fixed`,
    `dynamic_block`, `stream`: the DEFLATE encoder (RFC 1951). Package-merge code
    lengths are limited and satisfy Kraft's inequality; blocks are written as the
    bit strings their specifications describe; a stream is refused only past
    `MAX_STREAM_TOKENS` tokens.
  - `inflate`: a specification of RFC 1951 decoding, against which every stream
    the encoder writes is proved to inflate back to its tokens and its bytes.
  - `lz77`, `index`: LZ77 matching within a window and against a cross-entry
    pattern index; the tokens decode back to the block.
  - `dictionary`, `plan`, `predictive`: archive statistics from samples, block
    size, entry order, block plans that tile each entry, and per-entry hints.
  - `engine`, `pipeline`, `scheduler`, `io`, `buffers`, `profile`, `blocks`,
    `ids`, `error`, `harness`: compressing entries (the fallback chain, which the
    application runs on its worker pool), finishing an entry from its span jobs,
    archive layout, task graphs, and the settings the application works with.
  - `corpus`: the files of the evaluation corpus, in name order.
- `tests/` — tests on concrete values, decoding with `flate2` where streams are
  produced.
- `app/` — the command line program: threads, files, memory maps, the ZIP
  container, floating-point estimates and reports.
