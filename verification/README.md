# ocamlrep_marshal

OCaml's `output_value` marshaling format, written over an explicit model of
the OCaml heap with machine-checked contracts and proofs, together with the
plain-value logic of the hackc declaration/facts bridge.

- `src/intext.rs`: format codes, block tags and marshaling flags.
- `src/encode.rs`: byte encodings (integers, back references, block headers,
  strings, floats in either byte order) and the stores that write them; the
  read-back law of integers and of 32-bit words.
- `src/decode.rs`: what a reader takes from each of the other encodings, and
  the laws that it takes back what was written.
- `src/heap.rs`: the heap model: values, blocks, the byte order of floats
  in memory, and the heap's well-formedness.
- `src/position_table.rs`: the open-addressing table of written blocks,
  proved against a map of positions.
- `src/machine.rs`: the marshaling walk as an abstract machine, and the
  header that frames its output.
- `src/termination.rs`: the walk's invariant and measure; it always halts.
- `src/marshal.rs`: the executable marshaler, proved to produce the outcome
  of the abstract walk.
- `src/facts.rs`: decl-parser options, declaration lookups, and the facts
  record passed between Rust and C++.
- `app/`: the C entry point called from OCaml, and the `cxx` bridge through
  which C++ reaches the compiler glue; both read and write foreign memory or
  call the compiler's own crates.
