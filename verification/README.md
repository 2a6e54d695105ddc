# sigma_info

The logic of the Sigma Info site (a Markdown-fed information site with
SIGMA-RACER build specification tabs), written in Verus with its contracts
proved.

Layout:

- `src/text.rs`: character-level text operations (trim, prefix and suffix
  stripping, splitting, ASCII case folding, lexicographic order) with their
  specifications.
- `src/number.rs`: decimal parsing of `i32` and `u64` as `str::parse` does it.
- `src/order.rs`: a stable ordering by rank and text, and the proof that the
  stable order of given keys is unique.
- `src/content.rs`: documents, lookup by slug, index order, merging of the
  built-in pages, and documents from their front matter.
- `src/config.rs`: settings (repositories, refs, paths, cache TTLs, URLs).
- `src/specs.rs`: which repository files are build specs, their tab ids and
  labels, tab order, and the spec cache state.
- `tests/`: tests run against the compiled library.
- `app/`: the web service around the library (routes, environment, GitHub
  fetching, Markdown rendering, templates), which uses the theme and platform
  crates of the site.
