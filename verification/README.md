# rustyscope

Reads the `.001` force-profile files written by 5th-generation Bruker AFPs (Nanoscope
format) and turns them into scan lines of `(x, height)` samples.

The library in `src/` is written in Verus; each public function carries a contract that
states exactly what it returns, and the contracts are proved.

- `lines`: splitting a file into lines at CR/LF, and picking the header lines (those
  starting with a backslash, up to `\*File list end`).
- `text`, `numbers`: character helpers; integer and float-literal reading the way
  `str::parse` reads `i64`, `usize` and `f64`; decimal text of integers.
- `pattern`: extraction of a value with a regular expression (the `regex` crate).
- `metadata`: the `key: value` entries of one header section.
- `sections`: the insertion-ordered map (`ordered_hash_map`) from sections to tables.
- `channel`: a data channel, its little-endian 16-bit samples, and sample ranges.
- `io`: the header parser, the loaded file, and the cutting of the scan data into lines.

The library keeps floating point out: a float read from the header is kept as the
literal that was read, checked against the `f64` grammar. Where a float is shown (a
value read as text, a message), the library hands out a `TextPiece::Float` holding the
literal, which stands for the number as `f64` displays it. `app/` is the Python module
(PyO3): it reads the file from disk, computes the scaled `f64` lines, shows float
pieces, and exposes the file, its channels and its sections to Python.
