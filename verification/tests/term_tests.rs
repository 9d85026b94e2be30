use lam_term::term::{addterm, testterm1, LamTerm};

fn var(v: usize, k: usize) -> Box<LamTerm> {
    Box::new(LamTerm::Var(v, k))
}

fn abs(n: usize, body: Box<LamTerm>) -> Box<LamTerm> {
    Box::new(LamTerm::Abstraction(n, body))
}

fn app(left: Box<LamTerm>, right: Box<LamTerm>) -> Box<LamTerm> {
    Box::new(LamTerm::Application(left, right))
}

#[test]
fn testterm1_is_the_sample_term() {
    let expected = app(
        abs(1, app(abs(1, app(var(1, 1), var(0, 1))), var(0, 1))),
        abs(1, var(0, 1)),
    );
    assert_eq!(testterm1(), *expected);
}

#[test]
fn addterm_returns_the_pool_length() {
    assert_eq!(addterm(vec![1, 2, 3], vec![]), 0);
    assert_eq!(addterm(vec![1, 2, 3], vec![7, 7, 7, 7, 7]), 5);
    assert_eq!(addterm(vec![], vec![4, 4]), 2);
}

#[test]
fn to_text_of_testterm1() {
    assert_eq!(
        testterm1().to_text(),
        "((%1 ((%1 ((1, 1) @ (0, 1))) @ (0, 1))) @ (%1 (0, 1)))"
    );
}

#[test]
fn to_text_of_multi_digit_numbers() {
    assert_eq!(LamTerm::Var(123, 40).to_text(), "(123, 40)");
    assert_eq!(abs(10, var(0, 9)).to_text(), "(%10 (0, 9))");
}
