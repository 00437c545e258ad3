# lox_ast_rust

A tree-walking interpreter core for the Lox language, written in Verus and verified.

- `src/datastructs/`: tokens, values, expressions, statements, errors, classes,
  instances and functions.
- `src/parser.rs`: a recursive descent parser for expressions (with the ternary and
  comma operators). Its contract is a grammar written as spec functions; a law states
  that the nodes of a parse are numbered consecutively, so no two share an id.
- `src/environment.rs`: the scopes of a run, held in one arena and named by index, so
  that a function keeps the scope it was declared in and shares it with every other
  function declared there. `define`, `get`, `assign` and their `_at` forms are
  specified over a sequence of scopes, each with the index of the scope around it, with
  laws on reads after writes.
- `src/evaluator.rs`: evaluation of expressions and statements (blocks, `if`, `while`,
  functions with closures and recursion, `return`, classes with fields, methods,
  `this`, inheritance and `super`), specified as a big-step semantics. Numbers are
  IEEE-754 doubles held by their bits; the evaluator never computes on them. When it
  needs a sum, a comparison or the text of a number it stops with a `Request`; the
  caller appends the answer to its `Replies` and runs again. Each turn of a loop and
  each call of a function takes one of the steps the replies allow, so every run ends.
  A run that waits hands back the lines it printed so far. Laws show that a run
  retraces itself with more replies, that the rerun prints those lines again first, and
  that a waiting run asks for exactly the next reply of its kind. Negation flips the
  sign bit, so it needs no reply.
- `src/lox.rs`: the driver that runs scanned source, prints values and formats error
  reports (`[line N] Error at 'x': message`).
- `app/`: file and prompt handling, printing, exit codes, and the arithmetic on
  numbers (`answer`), which is floating point and so is not verified. The scanner
  that turns source text into tokens is supplied to it through the `Scanner` trait.
