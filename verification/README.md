# dice

A dice engine for D&D and other systems that need dice, written in Verus.
Expressions such as `4d6kh3 + 2` are parsed, rolled and formatted, and every
step is proved against a mathematical model. The random numbers come from
`rand`: which number comes back is left open, while the range each one is
asked from is part of the proof.

Layout of `src/`:

- `grammar.rs` states the expression grammar; `parser.rs` is the parser,
  proved to follow it.
- `ast.rs` holds the parsed tree, `expr.rs` the evaluated tree, `num.rs`
  the exact decimal numbers both are made of.
- `ops.rs` holds the set operators (keep, drop, re-roll, explode, clamp),
  `eval.rs` the evaluator, `context.rs` the roll limit, `random.rs` the
  random number generator.
- `dice.rs` holds the roller and its results, `formatters.rs` the plain
  and markdown formatters, `utils.rs` tree traversals and advantage.
- `laws.rs` states and proves properties that hold for every roll.

`app/` holds what cannot be verified: `Display` for results and errors, and
the conversion of exact totals to `f64`.
