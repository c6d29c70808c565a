# mir_lower

Lowering rules from Rust-level types and operations to LLVM for GPU code, with
machine-checked contracts.

The library decides how types are laid out in LLVM and which instructions an
operation becomes. It refuses whatever it cannot lower to the bytes that rustc
chose: a struct whose fields would move, an enum payload that would lose pointer
provenance, a `bool` whose byte would be undefined.

## Types

- `mir`: Rust-level types with rustc's layout. `llvm`: LLVM types.
- `layout`, `storage`: sizes, alignments and byte-faithfulness of LLVM types.
- `struct_slots`, `union_storage`, `enum_claims`, `enum_slots`, `enum_storage`,
  `types`: LLVM types of structs, tuples, unions and enums, with the slot of each
  field.
- `abi`: function signatures and kernel parameters.
- `initializer`, `initialized`, `globals`: global variables and their bytes.

## Operations

- `ir`: the straight-line code that operations become. Each emission is modelled
  by a function from the code before to the code after.
- `aggregate`, `array_ops`, `union_ops`, `enum_ops`, `enum_access`, `enum_bytes`,
  `field_addr`, `payload_values`: aggregates.
- `cast`: casts. `memory`: loads, stores, stack slots, offsets, block transfers.
- `error`, `messages`: why something is refused, and the text that says so.

## Laws

`values` and `semantics` say what emitted code computes, down to the bytes of
memory. The `*_laws` modules prove from that what the lowering promises: enum
variants, payloads, struct and union fields read back as they were written, array
reads give the element, stores change their address alone, block transfers move the
elements they count, integer casts keep the number, transmutes keep bytes, addresses
of fields lie at rustc's offsets, functions that are called are declared once.

`app/` turns refusals into diagnostics of anyhow and pliron.
