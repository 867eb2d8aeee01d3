# etude

Exact numbers and byte buffers, verified with Verus.

- `bigint`: integers of any size (`Big`): arithmetic, division, greatest common divisors, decimal
  text, and two byte encodings, one of which orders as the numbers do.
- `decimal`: exact decimals (`Decimal`) in canonical form: parsing, rendering, comparison at any
  scale, and exact sums and products.
- `buffer`: sources (`reader`) and destinations (`writer`) of bytes, with adapters that limit,
  count, chain or allow one write only.
- `rope`: a byte buffer over shared chunks (`ByteRope`). Few chunks form a flat list, many form a
  tree. `Builder` makes one out of many small writes, `Tagged` charges its length to an owner, and
  `Rope` knows of what kind its bytes are.
- `shared`, `chunks`, `text`, `digits`: the models that the contracts speak in, and what is trusted
  of the `bytes` crate and of the standard library.

Every public function states in its contract what it returns or changes. Properties that span
several functions are the public `law_` proof functions, most of them in the `laws` module of each
part.

`app/` holds what is not verified: trait implementations of outside crates, error types with their
texts, and conversion to floating point. `tests/` runs the library with the outside crates linked.
