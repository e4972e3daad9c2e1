# aura_decomp

A verified analysis library for console binaries, written in Verus: the
functions in `src/` carry `requires`/`ensures` contracts that Verus proves
(what each contract leaves open is said in its module's documentation).

What it covers:

- ELF parsing for PS1/PS2 MIPS images (sections, symbols, relocations), the
  PS-X EXE header and disc-image extraction, PS3 and PS4/PS5 SELF/ELF
  wrappers, GameCube ELF images.
- Instruction decoding: MIPS R3000A (with PS1 memory-map notes), PowerPC
  (shared decoder plus the GameCube listing), x86-64 through `iced-x86`.
- Function detection (symbol table or JAL/J scan), end refinement, PS1 SDK
  names and SCE SDK names (trie walk, masked-body SHA-1, disambiguation).
- Control-flow graphs, cross-reference index, a MIPS-to-pseudocode lifter,
  call graphs (plain, enhanced and interactive), recompiler configuration
  export, project annotations and patches.
- LZX decompression (XEX flavour); its contracts cover the argument checks,
  the output length, the bit reader, Huffman reads, the bytes verbatim,
  aligned and uncompressed blocks put in the window, and the Huffman-table
  checks; how the whole stream's output is assembled is not stated.

Layout: `src/` is the library, one module per area (`lib.rs` lists them);
`tests/` exercises it on concrete inputs; `app/main.rs` is a small
command-line program that reads a file and prints what the library computes.
