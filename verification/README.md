# concurrent_hash_map

A hash map that is divided into segments, each of which is a hash table that receives a part of
the hash space.

`src/` is the map itself, written and verified in Verus: the table of a segment with its chains,
growth and limits, the division of the hash space among segments, the tuning options, and the map
over all of them. A map there has one owner, and its contracts say exactly which state each
operation leaves and what it returns.

`app/` shares such a map between threads. Read operations never lock against reads or writes;
writes lock against other writes to the same segment. Each segment is published as an immutable
version behind an atomic pointer; a write copies the current version, applies the verified
operation to the copy, and publishes it. A write therefore takes time in proportion to its segment,
and a map with many writes does well to have many segments.

`tests/` runs the library.

Load factors are single-precision numbers. The library takes them in the encoding that
`f32::to_bits` gives and computes with them exactly, on integers.
