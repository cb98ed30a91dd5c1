# rs_pderiv

Regular expression matching with partial derivatives, verified with Verus.

A pattern such as `^(.*) ([A-Za-z]{2})$` is parsed into an external syntax tree
(`regex::syntax::parser`), simplified and desugared into a regular expression
(`regex::syntax::desugar`), and compiled into a transducer whose states are the
partial derivatives of the expression (`regex::pderiv::parse`). Matching a word
against the transducer yields the bit code of a parse tree, which `decode` turns
into the tree itself.

Layout of `src/`:

- `regex/re.rs`: the expressions, `nullable`, `sigma`, duplicate removal.
- `regex/pderiv.rs`, `regex/pderiv/bits.rs`: partial derivatives, with and without
  the bits that record the way each was taken; empty-word codes; decoding.
- `regex/pderiv/parsetree.rs`: parse trees, their words and codes; a code
  determines its tree.
- `regex/pderiv/soundness.rs`, `regex/pderiv/closure.rs`: derivatives are sound and
  complete for parse trees; the partial derivatives of an expression form a finite set.
- `regex/pderiv/parse.rs`, `transduce.rs`, `parse_lazy.rs`: three transducers over the
  same derivatives (transitions numbered by state and letter code, keyed by state and
  letter, and matched without merging paths). Each returns a code exactly when the
  word is in the language, and the code is that of a parse tree of the word. The
  states of a transducer are exactly the expressions that partial derivatives reach
  from the pattern. The bits of a match must fit in a `BitVec`; `within_bit_limit`
  and the `checked_` entries test that bound.
- `regex/syntax/grammar.rs`: the grammar of patterns as spec functions;
  `parser.rs` implements it and is proved equal to it.
- `regex/list.rs`: a shared-tail list.
- `lib.rs`: `compile`, `CompiledRegex::parse` and `CompiledRegex::checked_parse`.

`app/main.rs` times building and matching the pattern `(a|ε)^n a^n` against a file.
