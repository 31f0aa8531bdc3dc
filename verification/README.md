# schoolmarm

GBNF grammar-constrained decoding for language-model inference, verified with Verus.

Given a GBNF grammar and a vocabulary of token strings, the library tells which
tokens may come next and advances a nondeterministic pushdown matcher token by token.

## Layout

- `src/gbnf.rs`: what parsing a GBNF text yields, as spec functions over its bytes.
- `src/parse.rs`: the parser, proved to compute exactly that (`parse`).
- `src/symbols.rs`: the ordered table from rule names to rule ids.
- `src/recursion.rs`: left-recursion detection, and the proof that it reports only
  real cycles of leftmost references.
- `src/matcher.rs`: what the matcher computes (stack expansion, character steps,
  token acceptance), as spec functions.
- `src/engine.rs`: the executable stack operations, proved against `matcher.rs`.
- `src/state.rs`: `Grammar` and `GrammarState`, the public API.
- `src/language.rs`: the strings a grammar derives (a derivation semantics of
  rule elements), and the proof that the matcher is sound for it: after accepted
  input `w`, every string a remaining stack derives completes `w` to a string of
  the language, and an accepting state means `w` itself is in the language; and
  that it is complete for strings derived with at most `MAX_RECURSION_DEPTH` rule
  expansions: every prefix of such a string is accepted, and the state after
  the whole string is accepting.
- `src/laws.rs`: properties that span calls: feeding a token whole or in pieces
  gives the same stacks, an accepted token was allowed, the stacks never hold a
  duplicate, and every stack is ready to consume input.
- `src/text.rs`, `src/error.rs`, `src/types.rs`: strings, errors and grammar elements.

The one function whose contract Verus takes on trust is `text::push_char`, a call of
`String::push`.
