# cpusbfl

Spectrum-based fault localization of processor RTL, driven by a host
simulator: a failing RISC-V executable is shrunk, mutated into passing
counterexamples, and the coverage points (and RTL blocks) that the failing
run exercises are ranked by suspiciousness.

## Layout

- `src/` is the verified library (Verus). It holds the instruction
  encoders and decoders with their execution semantics (`riscv`, `inst`),
  the ELF layout arithmetic (`elf`), the reductions of a failing case and of
  coverage as searches driven one run at a time (`reduce`), the mutators'
  choices (`mutator`), coverage and state records (`coverage`,
  `state_tracker`, `pc_trace`), spectrum counts (`spectrum`), the packed
  pair matrix (`selection`), RTL block extraction, the scopes of module
  instances and cover-point lookup
  (`block`, `bugloc`), the checkpoint file framing (`checkpoint`) and the
  command-line checks (`cli`, `fuzzer`, `feedback`).
- `app/` is the host-facing program: the simulator's C interface, the
  LibAFL fuzzing loop, ELF rewriting with LIEF, SystemVerilog parsing, file
  I/O and the floating-point distances and scores. It runs the searches of
  `src/`, performing each run they ask for.
- `tests/` exercises the library on concrete values.

Random values are drawn from LibAFL's generator by the mutators in `src/`;
each choice made from drawn values is a function that takes them as
arguments and has an exact contract, and the mutators that draw state what
holds whatever was drawn.
