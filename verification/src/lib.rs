//! Analysis core of a disassembler / decompiler toolkit for console binaries:
//! MIPS R3000A and PowerPC instruction decoding, control-flow and
//! cross-reference analysis, a pattern-based MIPS decompiler, ELF parsing,
//! function detection, call graphs and export helpers.

pub mod text;
pub mod order;
pub mod ps1_memory_map;
pub mod ps1_disasm;
pub mod cfg;
pub mod decomp;
pub mod engine;
pub mod elf;
pub mod ps4ps5;
pub mod ppc_disasm;
pub mod ps1_symbols;
pub mod sce_symbol_scanner;
pub mod nid_db;
pub mod elf_sections;
pub mod ps3;
pub mod gamecube;
pub mod ps1_analysis;
pub mod ps1_exe;
pub mod call_graph;
pub mod ps1_call_graph_enhanced;
pub mod ps1_recomp_export;
pub mod project;
pub mod naming;
pub mod lzx;

pub mod reports;
