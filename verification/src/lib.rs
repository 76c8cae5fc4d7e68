pub mod block;
pub mod bugloc;
pub mod checkpoint;
pub mod cli;
pub mod coverage;
pub mod elf;
pub mod feedback;
pub mod fuzzer;
pub mod inst;
pub mod mutator;
pub mod pc_trace;
pub mod reduce;
pub mod riscv;
pub mod selection;
pub mod spectrum;
pub mod state_tracker;
