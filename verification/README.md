# matrix_market

A verified library for the matrix market (`.mtx`) file format: dense
(`array`) and sparse (`coordinate`) matrices of real, integer, complex and
pattern fields, with the general, symmetric, skew-symmetric and hermitian
symmetries.

Layout:

- `src/text.rs`: whitespace tokens, line splitting, ASCII case folding and
  decimal integers, each against a specification of what std's functions do.
- `src/reader.rs`: the header (`read_header`), the readers of dense and sparse
  matrices, and `MtxReader::new_reader`, which picks the reader that a header
  calls for. Each reader's `next` is specified by a step function over the
  lines read so far.
- `src/writer.rs`: `MatrixWriter`, which produces the text of a file.
- `src/properties.rs`: the laws of the library, among them that a written
  matrix reads back as it was written.
- `app/`: reading from `std::io` and writing to it, and the real and complex
  fields over `f64`, which stay outside the verified library.
