# squadreplay

Typed handling of Squad replay bundles, with proved contracts.

- `src/` is the verified library:
  - `classify` — case-insensitive keyword classification of replay class
    names (soldiers, vehicles, helicopters, deployables, vehicle components)
    and the cached `ClassifyFlags` bitmask;
  - `sqrb` — the `.sqrb` container: header, stored section payloads
    (zstd-compressed when large), CRC-checked directory; writing and reading,
    with the proof that reading an image gives back what was written;
  - `compat` — the compatibility projection: kill feed, per-player kill and
    death counts, which sample each second of a track shows (the last write
    to a second stands), deployable events;
  - `text` — byte-level ASCII case folding, keyword search, suffixes and
    decimal formatting;
  - `codec` — the trusted interface to `zstd` and `crc32fast`;
  - `laws` — properties that span several functions.
- `app/` holds what the proofs do not cover: the bundle model with its serde
  form, file I/O, JSON/MessagePack (de)serialization of sections, and the
  floating-point rounding of positions.
- `tests/` runs the library on concrete inputs.
