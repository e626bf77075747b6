# ycd-reader

Reads the decimal digits stored in base-10 y-cruncher `.ycd` files, with the
reading logic specified and proved in Verus.

A `.ycd` file is a text header (`Name: value` lines up to `EndHeader`, then a
NUL data marker) followed by a payload of 8-byte little-endian blocks, each
holding 19 decimal digits. A large digit set is split over several files that
continue each other.

## Layout

- `src/` — the verified library.
  - `header.rs`: header parsing over the file's leading bytes
    (`parse_metadata`, `YcdFileUtil::get_header_size`,
    `YcdFileUtil::get_ycd_header`).
  - `digits.rs`: block decoding and block-level seek parameters.
  - `files.rs`: contiguous file lists and random-access read plans, with the
    proof that a plan walked to its end yields exactly the requested digits.
  - `index.rs`: `YcdIndex`, the stored view of a file list, with stale-file
    detection.
  - `stream.rs`: the state machines of the single-file and multi-file
    sequential streams, with the proofs of what they deliver.
  - `text.rs`, `error.rs`: character helpers and the error type.
- `app/` — the file access around the library: opening files, seeking,
  reading blocks and turning library errors into `io::Error`s.
- `tests/` — tests over generated file images.

The library never touches the file system: the caller hands it bytes, and
every answer the library gives is stated in its contracts.
