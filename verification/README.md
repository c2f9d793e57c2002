# linker_lang

A small static linker, verified with Verus. It combines independently compiled objects
(named byte sections, symbol definitions, relocations) into one laid-out image: sections
that share a name are concatenated in object order and placed end to end from a base
address, every symbol resolves to an absolute address, and every relocation is patched with
its target's address plus an addend, little-endian, in 4 or 8 bytes.

## Layout

- `src/object.rs` — `Object`, `Width`, and their views; an object keeps one section per name.
- `src/model.rs` — what a link computes, as spec functions over the objects' views
  (`link_result`): merging, placement, symbol resolution, patching, the entry point, and
  which error comes first.
- `src/link.rs` — `Linker`, `link`, and the passes, each proved against `model.rs`.
- `src/image.rs` — `Image` and `OutputSection`, lookups, and the link map text.
- `src/table.rs` — the symbol table, kept sorted by the names' UTF-8 bytes.
- `src/error.rs` — `LinkError` and its messages.
- `src/laws.rs` — properties of every successful link, proved from `model.rs`.
- `src/names.rs`, `src/text.rs` — name order and comparison; decimal and hex numerals.
- `app/` — serializable copies of the public types (serde), with `Display` and
  `std::error::Error`.
- `tests/` — the behaviour checked on concrete links.
