# Halyard

A deterministic, gas-metered, capability-gated register machine for running
untrusted automation steps, with its assembler, disassembler and debugger.
The library in `src/` is written in Verus: each function carries a contract
over a mathematical model of the machine, and Verus proves it.

## Layout

- `op.rs`, `instr.rs`, `program.rs`, `le.rs`: the instruction set, the 8-byte
  instruction encoding and the `HLYD` program file format.
- `semantics.rs`: the machine model (`MachineState`) and `step`, the effect of
  one instruction. `run.rs`: gas-bounded runs of the model.
- `vm.rs` and `vm/`: the executable machine. `Vm::step`, `Vm::run` and
  `Vm::resume` are proved to do what the model does, whatever a host function
  answers; `state_hash`, `snapshot` and `restore` are proved against the
  snapshot format in `image.rs`; `vm/debugger.rs` holds the debugger's
  command handling.
- `lex.rs`, `text.rs`, `sys.rs`, `trap.rs`, `assembler.rs`: the assembler's
  text format, exactly specified, and the listing the disassembler writes.
- `laws.rs`, `reassembly.rs`, and the lemmas in `program.rs`, `instr.rs` and
  `image.rs`: the properties the library promises as a whole.
- `app/`: the `halyard` command-line tool (file I/O, arguments, the
  debugger's input loop).

## Properties proved

- Runs stop, never overshoot the gas limit by more than one instruction, keep
  the code, capabilities and memory size, and respect the stack and call
  depth limits; every step keeps the machine well formed (pc, return
  addresses and handler inside the code, heap aligned) and only adds to
  output and events; output and events need their capabilities.
- `sys host` hands the host function `(r1, r2, r3)` and the machine's memory.
  That it is called once, with exactly these, and that the function
  registered last for the id answers, rests on the contract of the trusted
  `HostTable::call` (its ghost log and registration numbers); what the
  library does with the call and its answer is proved.
- A machine that cannot reach a host function runs to one outcome
  (determinism); resuming after running out of gas continues exactly; a run
  is a sequence of single steps.
- Encoding and decoding of instructions, programs and snapshots round-trip;
  a restored snapshot has the original's state hash and resumes to the state
  the original resumes to.
- The disassembler's text for the code the assembler makes assembles back to
  the same code, line by line and as the listing `disassemble` prints; saving
  a loaded program gives back its file.
