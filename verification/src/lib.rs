//! A small virtual machine built around a boundary-tag heap allocator.
//!
//! The heart of the crate is [`yoloheap`]: a first-fit allocator with
//! header/footer metadata, block splitting and immediate coalescing, whose
//! structural invariants are stated in [`heap_model`] and proved for every
//! public operation.  Around it sit the pieces of a tiny assembler and
//! fetch-decode-execute engine: instruction tokenizing and validation,
//! opcode tables, a bounded call stack, a symbol table and flat memory.

pub mod assembler;
pub mod byte_utils;
pub mod cpu;
pub mod heap_model;
pub mod instruction_mapping;
pub mod memory;
pub mod parser;
pub mod stack;
pub mod symtab;
pub mod text;
pub mod yoloheap;
