//! Verified code-generation pipeline for a minimal eight-operator tape
//! language: a fusing/peephole parser, a reference interpreter, an x86-64
//! code generator with resolved branches and recorded call-site
//! relocations, and materialisers that wrap the code as a relocatable ELF
//! object or a standalone ELF executable.

pub mod ir;
pub mod parse;
pub mod sem;
pub mod interp;
pub mod encode;
pub mod codegen;
pub mod elf_exe;
pub mod obj;
