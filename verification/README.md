# uxnasm

An assembler for the Uxn virtual machine's `uxntal` language, written in
Verus. Every function of the library carries a contract that Verus proves.

- `src/utils.rs`: hex literals (`parse_hex`), macro-call names
  (`until_macro_args`) and the growable byte buffer (`set_vec`).
- `src/assembler/instr.rs`: opcode words (`new`): mnemonic table and mode
  letters.
- `src/assembler/uxn_macro.rs`: macro definitions (`UxnMacro::new`,
  `expand`).
- `src/assembler/mod.rs`: the assembler (`UxnAssembler`): its state as
  values (`AsmState`), the meaning of each word (`spec_do_word`,
  `spec_word_to_bytes`), label resolution (`spec_resolve`) and whole-source
  assembly (`spec_assemble`), and the code proved against them.
- `src/assembler/reading.rs`, `src/assembler/resolution.rs`,
  `src/assembler/recursion.rs` and `src/assembler/names.rs`: proved
  properties of reading words, of resolving labels, of nested macro calls,
  and of the label and macro tables.
- `app/`: the command-line program (file and standard-input I/O, error
  reporting).
- `tests/`: tests of the library on concrete sources.

A source that drives the assembler out of what it can do (see `AsmFailure`)
is a fault: `try_assemble` reports it, and `assemble` requires that there is
none.
