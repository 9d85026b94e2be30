//! Lambda terms, a sample term, and their text form.

use vstd::prelude::*;
use vstd::string::StringExecFns;

verus! {

/// A lambda term.
///
/// `Abstraction(n, body)` binds `n` arguments at once. `Var(v, k)` refers to
/// an argument of the abstraction `v` binders up from the variable: the
/// machines take the `k`-th closure of that abstraction's frame counted from
/// the last one, the read-backs the `k`-th counted from the first one.
#[derive(Debug, PartialEq, Eq)]
pub enum LamTerm {
    Abstraction(usize, Box<LamTerm>),
    Application(Box<LamTerm>, Box<LamTerm>),
    Var(usize, usize),
}

/// The term `(%x ((%y ((x) y)) x)) %z z` as a tree.
pub open spec fn spec_testterm1() -> LamTerm {
    LamTerm::Application(
        Box::new(
            LamTerm::Abstraction(
                1,
                Box::new(
                    LamTerm::Application(
                        Box::new(
                            LamTerm::Abstraction(
                                1,
                                Box::new(
                                    LamTerm::Application(
                                        Box::new(LamTerm::Var(1, 1)),
                                        Box::new(LamTerm::Var(0, 1)),
                                    ),
                                ),
                            ),
                        ),
                        Box::new(LamTerm::Var(0, 1)),
                    ),
                ),
            ),
        ),
        Box::new(LamTerm::Abstraction(1, Box::new(LamTerm::Var(0, 1)))),
    )
}

/// A fixed sample term.
pub fn testterm1() -> (t: LamTerm)
    ensures
        t == spec_testterm1(),
{
    LamTerm::Application(
        Box::new(
            LamTerm::Abstraction(
                1,
                Box::new(
                    LamTerm::Application(
                        Box::new(
                            LamTerm::Abstraction(
                                1,
                                Box::new(
                                    LamTerm::Application(
                                        Box::new(LamTerm::Var(1, 1)),
                                        Box::new(LamTerm::Var(0, 1)),
                                    ),
                                ),
                            ),
                        ),
                        Box::new(LamTerm::Var(0, 1)),
                    ),
                ),
            ),
        ),
        Box::new(LamTerm::Abstraction(1, Box::new(LamTerm::Var(0, 1)))),
    )
}


/// Appends `term` to a copy of the pool `terms` and returns the index at which
/// it starts there, which is the pool's length; the copy is then dropped.
pub fn addterm(term: Vec<u8>, terms: Vec<u8>) -> (index: usize)
    ensures
        index == terms@.len(),
{
    let mut term = term;
    let mut terms = terms;
    let term_index = terms.len();
    terms.append(&mut term);
    term_index
}


/// The decimal digit `d`.
pub open spec fn digit_char(d: nat) -> char {
    if d == 0 {
        '0'
    } else if d == 1 {
        '1'
    } else if d == 2 {
        '2'
    } else if d == 3 {
        '3'
    } else if d == 4 {
        '4'
    } else if d == 5 {
        '5'
    } else if d == 6 {
        '6'
    } else if d == 7 {
        '7'
    } else if d == 8 {
        '8'
    } else {
        '9'
    }
}

/// The decimal numeral of `n`, without leading zeros.
pub open spec fn decimal(n: nat) -> Seq<char>
    decreases n,
{
    if n < 10 {
        seq![digit_char(n)]
    } else {
        decimal(n / 10) + seq![digit_char(n % 10)]
    }
}

/// The text of a term: `(%n body)` for an abstraction of `n` arguments,
/// `(left @ right)` for an application and `(v, k)` for a variable.
pub open spec fn show(t: LamTerm) -> Seq<char>
    decreases t,
{
    match t {
        LamTerm::Abstraction(n, body) => seq!['(', '%'] + decimal(n as nat) + seq![' '] + show(*body)
            + seq![')'],
        LamTerm::Application(left, right) => seq!['('] + show(*left) + seq![' ', '@', ' '] + show(
            *right,
        ) + seq![')'],
        LamTerm::Var(v, k) => seq!['('] + decimal(v as nat) + seq![',', ' '] + decimal(k as nat)
            + seq![')'],
    }
}

fn digit_str(d: usize) -> (s: &'static str)
    requires
        d < 10,
    ensures
        s@ == seq![digit_char(d as nat)],
{
    proof {
        reveal_strlit("0");
        reveal_strlit("1");
        reveal_strlit("2");
        reveal_strlit("3");
        reveal_strlit("4");
        reveal_strlit("5");
        reveal_strlit("6");
        reveal_strlit("7");
        reveal_strlit("8");
        reveal_strlit("9");
    }
    if d == 0 {
        "0"
    } else if d == 1 {
        "1"
    } else if d == 2 {
        "2"
    } else if d == 3 {
        "3"
    } else if d == 4 {
        "4"
    } else if d == 5 {
        "5"
    } else if d == 6 {
        "6"
    } else if d == 7 {
        "7"
    } else if d == 8 {
        "8"
    } else {
        "9"
    }
}

fn write_decimal(out: &mut String, n: usize)
    ensures
        final(out)@ == old(out)@ + decimal(n as nat),
    decreases n,
{
    if n >= 10 {
        write_decimal(out, n / 10);
    }
    out.append(digit_str(n % 10));
    assert(final(out)@ =~= old(out)@ + decimal(n as nat));
}

fn write_term(t: &LamTerm, out: &mut String)
    ensures
        final(out)@ == old(out)@ + show(*t),
    decreases t,
{
    proof {
        reveal_strlit("(%");
        reveal_strlit(" ");
        reveal_strlit(")");
        reveal_strlit("(");
        reveal_strlit(" @ ");
        reveal_strlit(", ");
    }
    match t {
        LamTerm::Abstraction(varcount, body) => {
            out.append("(%");
            write_decimal(out, *varcount);
            out.append(" ");
            write_term(body, out);
            out.append(")");
        },
        LamTerm::Application(left, right) => {
            out.append("(");
            write_term(left, out);
            out.append(" @ ");
            write_term(right, out);
            out.append(")");
        },
        LamTerm::Var(v, k) => {
            out.append("(");
            write_decimal(out, *v);
            out.append(", ");
            write_decimal(out, *k);
            out.append(")");
        },
    }
    assert(final(out)@ =~= old(out)@ + show(*t));
}

impl LamTerm {
    /// The text of the term, as `show` gives it.
    pub fn to_text(&self) -> (s: String)
        ensures
            s@ == show(*self),
    {
        let mut out = String::new();
        write_term(self, &mut out);
        assert(out@ =~= show(*self));
        out
    }
}

} // verus!
