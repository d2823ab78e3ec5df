# biot_savart

A sandbox for the magnetic field of a wire (Biot–Savart law), split into a
verified library and an application.

`src/` is the library, verified with Verus:

- `engine/components/` holds the expression language used to describe
  parametric wires: `chars` (character classes), `token` and `lexer`
  (tokenizing), `expr` and `parser` (recursive-descent parsing into trees),
  `curve` (`CompiledExpr::compile`, the per-axis compilation of a curve and the
  names of the built-in functions). Every executable function is proved equal
  to a specification of the tokenizer and the grammar.
- `laws`, `lexer_laws`, `precedence` and `rewrite_laws` state and prove what
  the language promises: a written tree reads back as itself, texts joined by
  a blank tokenize as joined tokens, operators group by precedence and
  associativity, and compiling is a normal form. `grammar` states the
  expression grammar as a derivation relation on token spans and proves that
  compiling succeeds exactly on the texts whose tokens it derives whole.
- `cli` decides what the command-line arguments ask for; `ui` decides in
  which order the viewer serves the requests of its control panel.

`app/` is the program around it: evaluation of expressions and the field
integration (both floating point), the bevy viewer and the command line.
