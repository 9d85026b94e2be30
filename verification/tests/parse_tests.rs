use lam_term::term::{testterm1, LamTerm};

fn var(v: usize, k: usize) -> Box<LamTerm> {
    Box::new(LamTerm::Var(v, k))
}

fn abs(n: usize, body: Box<LamTerm>) -> Box<LamTerm> {
    Box::new(LamTerm::Abstraction(n, body))
}

fn app(left: Box<LamTerm>, right: Box<LamTerm>) -> Box<LamTerm> {
    Box::new(LamTerm::Application(left, right))
}

#[test]
fn parse_identity() {
    assert_eq!(LamTerm::parse("%x x"), *abs(1, var(0, 1)));
}

#[test]
fn parse_trims_white_space() {
    assert_eq!(LamTerm::parse("  %x   x  "), *abs(1, var(0, 1)));
    assert_eq!(LamTerm::parse("\t%x\n x\r"), *abs(1, var(0, 1)));
}

#[test]
fn parse_application() {
    assert_eq!(
        LamTerm::parse("(%x x) %y y"),
        *app(abs(1, var(0, 1)), abs(1, var(0, 1)))
    );
}

#[test]
fn parse_nested_abstractions() {
    assert_eq!(
        LamTerm::parse("%x %y (x) y"),
        *abs(1, abs(1, app(var(1, 1), var(0, 1))))
    );
}

#[test]
fn parse_variable_reads_one_character() {
    assert_eq!(LamTerm::parse("%x xy"), *abs(1, var(0, 1)));
}

#[test]
fn parse_parenthesised_term_alone() {
    assert_eq!(LamTerm::parse("(%x x)"), *abs(1, var(0, 1)));
    assert_eq!(LamTerm::parse("((%x x))"), *abs(1, var(0, 1)));
}

#[test]
fn parse_sample_text_gives_testterm1() {
    assert_eq!(LamTerm::parse("(%x ((%y ((x) y)) x)) %z z"), testterm1());
}

#[test]
fn bindings_do_not_leave_their_parentheses() {
    assert_eq!(LamTerm::try_parse("(%y y) y"), None);
}

#[test]
fn parse_trims_unicode_white_space() {
    assert_eq!(LamTerm::parse("%x x\u{3000}"), *abs(1, var(0, 1)));
    assert_eq!(LamTerm::parse("\u{a0}%x x"), *abs(1, var(0, 1)));
    assert_eq!(LamTerm::parse("%x (x) \u{a0}x"), *abs(1, app(var(0, 1), var(0, 1))));
}

#[test]
fn parse_ignores_what_follows_a_variable() {
    assert_eq!(LamTerm::parse("%x xé"), *abs(1, var(0, 1)));
    assert_eq!(LamTerm::parse("%x (x) xé"), *abs(1, app(var(0, 1), var(0, 1))));
}

#[test]
fn parse_cuts_parenthesised_text_at_byte_offsets() {
    // The scan counts four characters, `xéa)`; the cut at byte three ends
    // after `é`, so `)` starts the argument, a variable bound by `%)`.
    assert_eq!(
        LamTerm::parse("%) %x (xéa) x"),
        *abs(1, abs(1, app(var(0, 1), var(1, 1))))
    );
}

#[test]
fn try_parse_refuses_cuts_inside_a_character() {
    assert_eq!(LamTerm::try_parse("(xé) y"), None);
    assert_eq!(LamTerm::try_parse("%é é"), None);
    assert_eq!(LamTerm::try_parse("%x (xéa) x"), None);
}

#[test]
fn try_parse_agrees_with_parse() {
    assert_eq!(LamTerm::try_parse("(%x (x) x) %y y"), Some(LamTerm::parse("(%x (x) x) %y y")));
    assert_eq!(
        LamTerm::try_parse("(%x (x) x) %y y"),
        Some(*app(abs(1, app(var(0, 1), var(0, 1))), abs(1, var(0, 1))))
    );
}

#[test]
fn try_parse_refuses_what_parse_cannot_parse() {
    assert_eq!(LamTerm::try_parse(""), None);
    assert_eq!(LamTerm::try_parse("   "), None);
    assert_eq!(LamTerm::try_parse("x"), None);
    assert_eq!(LamTerm::try_parse("%"), None);
    assert_eq!(LamTerm::try_parse("%x"), None);
    assert_eq!(LamTerm::try_parse("()"), None);
    assert_eq!(LamTerm::try_parse("("), None);
    assert_eq!(LamTerm::try_parse("(%x x"), None);
    assert_eq!(LamTerm::try_parse("%é é"), None);
}
