# amazingbf

A Brainfuck interpreter and x86-64 compiler, with a small language, BFS
(Brainf Script), that compiles to Brainfuck. The library under `src/` is
verified with Verus; `app/` holds the command-line programs around it.

## Layout

- `frontend` reads Brainfuck: operators, syntax tree, and what the operators do.
- `ir` holds the two intermediate forms and the lowering from one to the next;
  `lir_meaning` proves that lowering keeps what a program does.
- `interp` turns programs into bytecode and runs them. `machine` says what
  programs and bytecode do; `preserve` proves that the bytecode does what the
  program does.
- `backend` makes x86-64 code, relaxes its jumps, encodes it, and packs it into
  ELF and PE64 files with listings.
- `bfsc` compiles BFS. `sound` proves that what it emits is Brainfuck with
  matching brackets. `meaning` says what BFS programs do, with numbers of all
  widths, arrays that two bytes can index, and calls that pass arrays; `effect`
  proves that the emitted Brainfuck does it.
- `driver`, `cli`, `jit` and `error` are what the programs decide: settings,
  paths, log filters, the order of the stages.

Contracts are stated over mathematical views. Statements that span several
functions are the proof functions whose names begin with `law_`.

## What is trusted

`String::push`, `str::trim`, the `Debug` forms of characters and strings, and
`Arc::clone` of the standard library.
