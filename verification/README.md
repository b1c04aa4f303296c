# output_fuzz_common

The verified part of a fuzz harness for the output of the Rolldown bundler.

The harness generates module graphs, bundles them, and asserts that

- the static input graph is acyclic,
- the static import graph between the output chunks is acyclic, but for
  two-chunk cycles that come with CommonJS modules,
- output chunks are valid JavaScript,
- entry chunks keep their exports where entry signatures are strict,
- bundling the same graph again gives the same chunks.

A failed case is reported as markdown: its seed and structure, the cycle that
was found, a playground link, and a command that writes the case as a fixture.

## Layout

- `src/` is the library, proved with Verus: cases and case specs, generation,
  rendering, the checks on the output, reports and links. Public proof functions
  state what holds of it as a whole, such as that a written case reads back as
  itself.
- `tests/` runs the library on concrete values.
- `app/` draws cases at random, writes fixtures to disk and runs the bundler.

The library calls `oxc` to parse chunks, `serde_json`, `flate2` and `base64` to
make links, and `std` for a few things that Verus does not specify. Each such
call stands behind a small function whose contract says what is taken on trust.
