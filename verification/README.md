# riscv_backend

The back end of a compiler to RISC-V: low-level instructions, basic blocks
and functions, and the passes that rewrite them, written in Verus with
their contracts proved.

- `src/` is the verified library: instructions and operands (`instrs`,
  `operand`), blocks and their strength reductions (`block`, with the
  arithmetic model in `semantics`), liveness (`liveness`, `analysis`,
  `slot_live`), spilling (`spill`), caller- and callee-save handling
  (`call_save`, `caller_save`, `call_graph`), scheduling (`schedule`),
  offset overflow (`overflow`), frame packing (`mem_rearrange`), frame
  layout with prologue and epilogue (`frame`), the text of assembly
  lines (`asm_text`), colouring (`coloring`),
  function splitting copies (`func_split`) and a few helpers (`heap`,
  `graphalgo`, `regset`, `slotset`, `next_occurs`, `intervals`).
- `tests/` runs the library on concrete programs.
- `app/` prints functions, liveness and frames, and writes assembly lines
  to a file.
