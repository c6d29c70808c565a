//! Lowering rules from Rust-level types and operations to LLVM.
//!
//! Types are converted so that LLVM sees the bytes that rustc laid out, and
//! operations become straight-line code over them. What cannot be lowered
//! faithfully is refused with a [`error::LowerError`].
//!
//! The contracts fix each type and each instruction. The `*_laws` modules state
//! what follows for the running code, over the semantics in [`semantics`].

pub mod abi;
pub mod access_laws;
pub mod address_laws;
pub mod aggregate;
pub mod aggregate_laws;
pub mod array_ops;
pub mod bool_laws;
pub mod byte_laws;
pub mod cast;
pub mod cast_laws;
pub mod cast_op_laws;
pub mod choice_laws;
pub mod collect;
pub mod declaration_laws;
pub mod discriminant_laws;
pub mod enum_access;
pub mod enum_bytes;
pub mod enum_claims;
pub mod enum_fit_laws;
pub mod enum_laws;
pub mod enum_memory_laws;
pub mod enum_op_laws;
pub mod enum_ops;
pub mod enum_read_laws;
pub mod enum_slot_laws;
pub mod enum_slots;
pub mod enum_storage;
pub mod error;
pub mod field_addr;
pub mod global_laws;
pub mod globals;
pub mod initialized;
pub mod initializer;
pub mod ir;
pub mod layout;
pub mod llvm;
pub mod memory;
pub mod memory_laws;
pub mod messages;
pub mod mir;
pub mod names;
pub mod operands;
pub mod packing_laws;
pub mod payload_laws;
pub mod payload_read_laws;
pub mod payload_values;
pub mod pointer_laws;
pub mod pointers;
pub mod quiet;
pub mod rebuild_laws;
pub mod semantics;
pub mod signature_laws;
pub mod sort;
pub mod storage;
pub mod storage_laws;
pub mod struct_laws;
pub mod struct_slots;
pub mod transfer_laws;
pub mod type_laws;
pub mod types;
pub mod union_op_laws;
pub mod union_ops;
pub mod union_storage;
pub mod values;
