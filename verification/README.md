# serde_device_tree (verified core)

Verus-verified pieces of a flattened device tree (DTB) library.

- `src/common.rs`: format constants and big-endian 32-bit word helpers.
- `src/de_mut/reg.rs`: the `reg` property. `Reg` holds a property value and
  the parent's cell format; `RegIter::next` decodes one (address, size) entry
  at a time into a `RegRegion`; `Reg::to_debug_string` renders all ranges in
  hexadecimal. Contracts are stated over `regions`, the ranges a value decodes
  to.
- `src/ser/string_block.rs`: the string block written while serialising:
  `insert_str`, `align`, `find_or_insert` (by the table of recorded names) and
  `find_or_insert_by_scan` (by walking the buffer), and `get_str_by_offset`.
  Laws: a recorded name reads back at its offset; a second `find_or_insert`
  of a name changes nothing; a measuring block (no buffer) and a writing block
  lay names out identically.
- `src/ser/mod.rs`: the blob header (`make_header`), the padding and the total
  size (`dtb_total_size`), with the law that the header read back gives its
  fields and the size `dtb_total_size` computes.
- `app/lib.rs`: serde glue (`serde::ser::Error`, `Display`, `Serialize`) on
  copies of the library types.
