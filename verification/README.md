# super8

A CHIP-8 style virtual machine whose instruction semantics, call stack,
timers, keypad mapping and display scaling are verified with Verus.

- `src/memory.rs` — the layout of the machine's byte memory.
- `src/instruction.rs` — the meaning of every instruction as spec functions
  over the memory (`exec_mem`, `exec_code`, `exec_ok`) and the verified
  executor `execute_with`.
- `src/cpu.rs` — the call stack and the fetch-execute step.
- `src/machine.rs` — the initial memory with the font, the key latch and the
  per-frame timers.
- `src/display.rs` — scaling the display bits into a window buffer and
  mapping host keys to keypad codes.
- `src/laws.rs` — properties across instructions and calls.
- `app/` — the window, the sound and the frame loop.
