# lox

A tree-walking interpreter for a subset of Lox, with its scanner, parser,
environments and evaluator verified in Verus.

- `src/scanner.rs` turns source text into tokens; `src/parser.rs` turns
  tokens into statements; both are specified by grammar functions over the
  token sequence.
- `src/environment.rs` holds the environments of a run in one heap, indexed
  by number, with the laws of definition, lookup and assignment.
- `src/interpreter.rs` evaluates expressions and runs statements; its
  specification is an evaluator over the heap and the answers of the number
  backend.
- `src/render.rs` and `src/equality.rs` give the text of values and syntax
  trees and the equality of values.
- `src/numbers.rs` holds numbers as IEEE-754 bit patterns; the operations
  that round, and the text of a number, come from a `Numerics`
  implementation supplied by the program that embeds the library.
- `app/main.rs` is the command-line program: it reads a file or a prompt,
  supplies `f64` arithmetic, and prints what the interpreter wrote.
