# pixen

Template matching on raw pixel buffers, verified with Verus: find where a
small sample image occurs inside a larger screen image.

A window of the screen matches when the sum of absolute byte differences
between the window and the sample, taken over every `isqrt(height)`-th sample
row (every byte of those rows), is at most `tolerance * pixels`, where
`pixels` is the number of compared bytes. The check at one position
(`matches_at`) compares every sample byte.

Layout:

- `src/model.rs`: the mathematical model (difference sums, the ordered list
  of hits, the merging of nearby hits, the ranking order).
- `src/image.rs`: the `Image` type.
- `src/scan.rs`: the sliding-window scan and the merging of hits.
- `src/compare.rs`: the check at one position and per-byte differences.
- `src/rank.rs`: sorting of merged hits.
- `src/search.rs`, `src/lib.rs`: the public search functions.
- `src/laws.rs`: properties of the search, proved.
- `app/lib.rs`: the variant of `get_nth_tolerance_in_region` that prints the
  ranked list.
