# oxigraph_succinct

A read-only RDF store in compressed files, and the steps that build it from RDF quads, verified
with [Verus](https://github.com/verus-lang/verus).

- Terms are sorted, front-coded in frames and numbered by their positions (`terms`,
  `front_coding`, `terms_writer`, `terms_store`, `terms_mphf`). A dictionary may number their
  datatypes (`dictionary`, `recompression`). `zstd_terms` and `zstd_store` keep the texts of terms
  in compressed frames instead.
- Quads of term ids are sorted and written as bit streams of Elias γ codes, in partitions (`bits`,
  `arrays`, `frames`, `radix`, `array_sorter`, `quads`). They are indexed by their first term, their first
  two terms (`quads_store`) and their second term (`secondary_indexes`, `graphs`).
- `queryable_dataset` and `store` find the quads that match a pattern. `database_builder`,
  `loading`, `parsing`, `chunks` and `utils` go from RDF files to a dataset. `queries` proves that
  a store finds what it was built from, and what it answers of terms that it lacks.

`src/` is the verified library. What it takes from other crates is declared in items marked
`#[verifier::external_body]`, each with a comment that says what is trusted. `app/` is the command
line program, which reads and writes files around the library. `tests/` runs the library on
examples.
