# rlox

An interpreter for the expressions of the Lox language: a tokenizer, a
recursive descent parser and an evaluator, verified with Verus, and a small
command (`app/`) that runs a REPL or evaluates a source file.

## Layout

- `src/errors.rs`: the failures of each stage and the messages that describe them.
- `src/number.rs`: numbers, held as the bit pattern of a single precision
  value. Sign changes, equality, ordering, the zero test and the conversion to
  a repeat count are exact and computed here.
- `src/text.rs`: decoding source bytes as text.
- `src/tokenizer.rs`: the tokenizer, specified as a state machine over the
  source (`next_spec`), and `tokenize`, which collects every token.
- `src/ast.rs`: values, expressions and their evaluation (`evaluates_to`).
- `src/parser.rs`: the parser, specified rule by rule (`equality_spec` and
  the rules below it), and `evaluate_tokens`.
- `app/`: the command, the single precision arithmetic it hands to the
  library, and error types that can be chained with `anyhow`.

## Numbers and the host

Rounding arithmetic is not done by the library. Whoever runs it hands in two
closures: one that converts the text of a number literal to a bit pattern,
and one that adds, subtracts, multiplies or divides two bit patterns. The
contracts of `Tokenizer::next_token` and `Expression::eval` hold for every
such closure: a number token carries what the conversion closure gave for its
text, and the value of an evaluation is one of its outcomes (`evaluates_to`),
where only the results of the arithmetic closure may vary. Everything that
needs no arithmetic closure, such as a comparison, a join of strings or a
type error, is fixed whatever the closure does.
