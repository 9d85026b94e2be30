use lam_term::rslam::{run_krivine, run_krivine_traced, run_secd};
use lam_term::term::{testterm1, LamTerm};

fn var(v: usize, k: usize) -> Box<LamTerm> {
    Box::new(LamTerm::Var(v, k))
}

fn abs(n: usize, body: Box<LamTerm>) -> Box<LamTerm> {
    Box::new(LamTerm::Abstraction(n, body))
}

fn app(left: Box<LamTerm>, right: Box<LamTerm>) -> Box<LamTerm> {
    Box::new(LamTerm::Application(left, right))
}

#[test]
fn run_krivine_on_testterm1() {
    assert_eq!(run_krivine(&Box::new(testterm1())), (abs(1, var(0, 1)), 11));
}

#[test]
fn run_secd_on_testterm1() {
    assert_eq!(run_secd(&Box::new(testterm1())), (abs(1, var(0, 1)), 13));
}

#[test]
fn run_krivine_identity_applied_to_identity() {
    assert_eq!(run_krivine(&app(abs(1, var(0, 1)), abs(1, var(0, 1)))), (abs(1, var(0, 1)), 4));
}

#[test]
fn run_secd_identity_applied_to_identity() {
    assert_eq!(run_secd(&app(abs(1, var(0, 1)), abs(1, var(0, 1)))), (abs(1, var(0, 1)), 5));
}

#[test]
fn run_krivine_stops_on_a_value() {
    assert_eq!(run_krivine(&abs(1, var(0, 1))), (abs(1, var(0, 1)), 1));
    assert_eq!(run_secd(&abs(1, var(0, 1))), (abs(1, var(0, 1)), 2));
}

#[test]
fn run_krivine_multi_argument_abstraction() {
    let first = app(app(abs(2, var(0, 1)), abs(1, var(0, 1))), abs(1, abs(1, var(1, 1))));
    assert_eq!(run_krivine(&first), (abs(1, var(0, 1)), 5));
    let second = app(app(abs(2, var(0, 2)), abs(1, var(0, 1))), abs(1, abs(1, var(1, 1))));
    assert_eq!(run_krivine(&second), (abs(1, abs(1, var(1, 1))), 5));
}

#[test]
fn run_krivine_traced_on_testterm1() {
    let term = Box::new(testterm1());
    let (result, steps, trace) = run_krivine_traced(&term);
    assert_eq!((result, steps), run_krivine(&term));
    let texts: Vec<String> = trace.iter().map(|t| t.to_text()).collect();
    assert_eq!(
        texts,
        vec![
            "((%1 ((%1 ((1, 1) @ (0, 1))) @ (0, 1))) @ (%1 (0, 1)))",
            "(%1 ((%1 ((1, 1) @ (0, 1))) @ (0, 1)))",
            "((%1 ((1, 1) @ (0, 1))) @ (0, 1))",
            "(%1 ((1, 1) @ (0, 1)))",
            "((1, 1) @ (0, 1))",
            "(1, 1)",
            "(%1 (0, 1))",
            "(0, 1)",
            "(0, 1)",
            "(0, 1)",
            "(%1 (0, 1))",
        ]
    );
    assert_eq!(trace.len(), steps);
}
