# orlando_transducers

Composable data transformations with transducers, optics and collectors,
written in Verus: the public functions of the library carry contracts that
Verus proves, and its laws are proof functions. Most contracts speak of the
outputs of a run through each transducer's step; for a `Chunk`, whose chunks
are fresh vectors, the run is stated by the chunks' elements instead
(`collectors::to_vec_chunked`, `laws::law_chunk_outputs`).

- `src/` is the verified library. `transducer` defines the `Transducer`
  trait and its meaning (`run`, `outputs`); `transforms` holds the standard
  transducers; `collectors`, `ranking`, `combine` and `sampling` run them over
  a source; `pipeline` assembles stages at run time; `optics` holds lenses,
  prisms, isos, folds and traversals with their laws; `laws` states what the
  transducers promise of their outputs; `geometric_optics` counts and lists the
  basis blades of a Clifford algebra.
- `app/` is ordinary Rust around the library: reactive signals and streams,
  floating-point statistics and multivector operations, profunctor optics, and
  the bindings of the pipeline and array helpers to JavaScript values.
- `tests/` runs the library on concrete values.
