//! A RISC-V backend: low-level instructions, basic blocks, functions and the
//! passes that rewrite them (liveness, spilling, strength reduction, ...).
pub mod operand;
pub mod instrs;
pub mod structs;
pub mod block;
pub mod pool;
pub mod semantics;
pub mod regset;
pub mod func;
pub mod liveness;
pub mod analysis;
pub mod rm_inst;
pub mod func_split;
pub mod graphalgo;
pub mod heap;
pub mod spill;
pub mod intervals;
pub mod module;
pub mod call_graph;
pub mod call_save;
pub mod schedule;
pub mod overflow;
pub mod next_occurs;
pub mod slotset;
pub mod slot_live;
pub mod mem_rearrange;
pub mod coloring;
pub mod caller_save;
pub mod frame;
pub mod asm_text;
