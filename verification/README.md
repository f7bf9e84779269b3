# batches

Steiner systems as collections of batches: every pair of elements lies in exactly one batch.
The library builds them (single batches, affine and projective planes of prime order, and
products of a system with a plane), audits them, moves them to other elements, searches for
Steiner triple systems with a table of triples, and decides for many sizes whether a system can
exist. Every function carries a contract that Verus proves.

- `src/`: the verified library.
  - `batches`, `derived`, `plane_parts`, `display`: collections of batches, their generators,
    audit, shift, product and text; `planes` and `number_theory` the grid designs and the
    arithmetic behind the generators; `fx_sets` the hash sets of batches.
  - `triples_array` and `math`: the two searches for Steiner triple systems; `consistency`,
    `progress` and `counting` what a search keeps of its table and why a search that
    succeeds leaves a Steiner triple system; `exhaustive`, `older_exhaustive` and `systems`
    why a search from a fresh table that fails has shown that none exists.
  - `tables`, `parsing`, `reading`, `text`: a search's table as text, and reading it back.
  - `statics`: the tests that decide which sizes work; `binary_collections`: binary search over
    sorted collections; `units`: durations and stepped ranges.
- `tests/`: tests of the library.
- `app/`: the program around the library: timing output, the thread-based plane generator,
  listings of the tests' answers, and printable forms of the library's values.
