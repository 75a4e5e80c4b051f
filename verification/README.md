# par2rs

Reed-Solomon coding over GF(2^16) as PAR2 uses it, written in Verus: the
field arithmetic, the Vandermonde system of the PAR2 recovery blocks and its
Gauss-Jordan solution, encoding of recovery blocks, reconstruction of missing
slices, and the data layout and code planning of the XOR (bit-plane) kernels.

Layout:

- `src/` — the verified library. `field.rs` holds the mathematical model of
  the field; `galois.rs` the executable field type; `linalg.rs` and
  `elimination.rs` linear algebra over the field; `reedsolomon/` the codec,
  the reconstruction engine and its chunk-by-chunk planning; `encoder.rs`
  recovery-block encoding; `simd.rs` the table-driven multiply-add kernels
  written as safe loops; `xor_jit/` the bit-plane layout, packed buffers
  with checksums, the turbo dependency planning and the x86-64 instruction
  encoder whose every emitted byte is specified.
- `tests/` — tests run against the compiled library.
- `app/` — what the library leaves to the platform: CPU feature detection,
  executable memory for generated kernels, error types with `Display`, and
  the chunked reconstruction driver that reads and writes slice data.
