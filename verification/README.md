# rusche

A reader and the core rules of a small Scheme-like language, verified with Verus,
with an evaluator and a command-line front end around it.

- `src/` — the verified library: source locations (`span`), numbers held as decimal
  text (`number`), tokens (`token`), the lexer (`lexer`) and an older scanner
  (`scanner`), expressions (`expr`), the incremental parser (`parser`), reading
  back what is printed (`read_back`), errors
  (`eval`, `eval_error`), argument checks (`utils`), argument binding of procedures
  (`proc`), environments and their garbage collection (`env`), the decisions of
  evaluation one step at a time (`step`), and the parts of the built-in forms that
  do not evaluate (`builtin`).
- `tests/` — tests of the library.
- `app/` — the evaluation loop, which runs the library's steps (evaluation need not
  terminate), native procedures (function pointers), floating-point arithmetic, the
  prelude, and the read-eval-print loop.
