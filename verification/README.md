# polars_kernels

Verified building blocks of a columnar query engine, written in Verus.

- `src/min_max.rs`: column values as far as order-based kernels read them
  (`Scalar`: a number or NaN) and the two selection policies, which both let
  NaN win.
- `src/rolling/`: fixed-size rolling windows (`det_offsets`,
  `det_offsets_center`), the monotonic-deque window `ArgMinMaxWindow`, and
  rolling arg-min / arg-max over columns without nulls (`no_nulls`) and with
  a validity mask (`nulls`). `laws.rs` states what every answer satisfies.
- `src/binview/`: binary-view arrays (16-byte views, inline up to 12 bytes),
  a lazily materialised validity builder, and `BinaryViewArrayGenericBuilder`,
  whose contracts state that a frozen array reads back every pushed row and
  holds no empty data buffer, and that the rows of a `Utf8View` builder or
  array stay valid UTF-8. Extending from another array either copies the
  rows or takes over that array's data buffers, once per storage id
  (`buffer_map.rs` keeps the ids in hashbrown's map).
- `src/range/`: the argument checks of the date / datetime range
  expressions.
- `app/lib.rs`: entry points over `f64` columns (floats are mapped to order
  keys there) and string rows.
