# lam_term

Lambda terms whose abstractions bind several arguments at once, with

- a parser for a small text syntax (`%x body`, `(f) a`, single-character
  variables) and a printer;
- a flat binary encoding of terms in a `Vec<usize>`, and its decoder;
- the Krivine machine and the SECD machine, each both on term trees and on the
  binary encoding, with a read-back of their final closures into terms.

Everything under `src/` is verified with Verus. The contracts describe each
machine by a spec-level transition function (`kt_step`, `kb_step`, `ts_step`,
`bs_step`) run with a bounded number of transitions; the executable machines
are proved to produce exactly the outcome of that run. `src/simulation.rs`
proves that the machines on the binary encoding run in step with those on term
trees, and `binlam::law_decode_of_encode` that decoding inverts encoding.
`src/laws.rs` states laws of the read-backs and control lists (a term whose
variables are all bound reads back to itself; a closed abstraction is its own
result), and `src/wellformed.rs` the invariants every result of the binary
machines keeps and where the Krivine machine stops. The parser's laws (every
parsed arity and index is one; wrapping a balanced text in parentheses changes
nothing) stand in `src/parse.rs`.

`app/main.rs` is the command-line program: it parses its argument, runs the
three evaluations and prints the number of transitions and the result of each;
the Krivine run on term trees also prints each term the machine passes through.
