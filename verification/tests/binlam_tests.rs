use lam_term::binlam::{bin_term_to_lam, kirvine_compute, lam_term_to_bin, run_kirvine, secd_compute};
use lam_term::rslam::{run_krivine, run_secd};
use lam_term::term::{testterm1, LamTerm};

fn var(v: usize, k: usize) -> Box<LamTerm> {
    Box::new(LamTerm::Var(v, k))
}

fn abs(n: usize, body: Box<LamTerm>) -> Box<LamTerm> {
    Box::new(LamTerm::Abstraction(n, body))
}

fn app(left: Box<LamTerm>, right: Box<LamTerm>) -> Box<LamTerm> {
    Box::new(LamTerm::Application(left, right))
}

const TESTTERM1_BIN: [usize; 39] = [
    1, 5, 9, 32, 36, 2, 1, 9, 14, 1, 14, 18, 29, 32, 2, 1, 18, 23, 1, 23, 26, 26, 29, 0, 1, 1, 0,
    0, 1, 0, 0, 1, 2, 1, 36, 39, 0, 0, 1,
];

#[test]
fn encode_testterm1() {
    let mut buffer: Vec<usize> = Vec::new();
    let range = lam_term_to_bin(&testterm1(), &mut buffer);
    assert_eq!(range, (0, 5));
    assert_eq!(buffer, TESTTERM1_BIN.to_vec());
}

#[test]
fn encode_after_a_prefix() {
    let mut buffer: Vec<usize> = vec![9, 9];
    let range = lam_term_to_bin(&app(var(0, 1), var(2, 3)), &mut buffer);
    assert_eq!(range, (2, 7));
    assert_eq!(buffer, vec![9, 9, 1, 7, 10, 10, 13, 0, 0, 1, 0, 2, 3]);
}

#[test]
fn encode_variable() {
    let mut buffer: Vec<usize> = Vec::new();
    assert_eq!(lam_term_to_bin(&LamTerm::Var(4, 2), &mut buffer), (0, 3));
    assert_eq!(buffer, vec![0, 4, 2]);
}

#[test]
fn decode_inverts_encode() {
    let mut buffer: Vec<usize> = vec![5, 5, 5];
    let t = testterm1();
    let (start, end) = lam_term_to_bin(&t, &mut buffer);
    assert_eq!(bin_term_to_lam(&buffer[start..end], &buffer), Ok(Box::new(testterm1())));
    assert_eq!(bin_term_to_lam(&buffer[start..], &buffer), Ok(Box::new(testterm1())));
}

#[test]
fn decode_unknown_code() {
    let buffer: Vec<usize> = vec![3, 0, 0];
    assert_eq!(bin_term_to_lam(&buffer, &buffer), Err("Error translating binary term"));
}

#[test]
fn decode_error_in_left_part_stops_decoding() {
    // The right part's range is never looked at.
    let buffer: Vec<usize> = vec![1, 5, 6, 99, 99, 3];
    assert_eq!(bin_term_to_lam(&buffer[0..5], &buffer), Err("Error translating binary term"));
}

#[test]
fn kirvine_compute_on_testterm1() {
    let term = TESTTERM1_BIN.to_vec();
    let (((cur, env), heap), steps) = kirvine_compute(&term).unwrap();
    assert_eq!(cur, &term[32..36]);
    assert_eq!(env, -1);
    assert_eq!(steps, 11);
    assert_eq!(heap.len(), 3);
    assert_eq!(heap[0].0, -1);
    assert_eq!(heap[0].1, vec![(&term[32..36], -1)]);
    assert_eq!(heap[1].0, 0);
    assert_eq!(heap[1].1, vec![(&term[29..32], 0)]);
    assert_eq!(heap[2].0, -1);
    assert_eq!(heap[2].1, vec![(&term[26..29], 1)]);
}

#[test]
fn kirvine_compute_unknown_code() {
    let term: Vec<usize> = vec![7, 0, 0];
    assert_eq!(kirvine_compute(&term).err(), Some("Error Computing Term"));
}

#[test]
fn run_kirvine_on_testterm1() {
    let term = TESTTERM1_BIN.to_vec();
    assert_eq!(run_kirvine(&term), Ok((vec![2, 1, 4, 7, 0, 0, 1], 11)));
}

#[test]
fn run_kirvine_unknown_code() {
    let term: Vec<usize> = vec![7, 0, 0];
    assert_eq!(run_kirvine(&term), Err("Error Computing Term"));
}

#[test]
fn run_kirvine_multi_argument_abstraction() {
    // ((%2 (1, 2)) I) K: the abstraction binds both arguments.
    let t = app(app(abs(2, var(0, 2)), abs(1, var(0, 1))), abs(1, abs(1, var(1, 1))));
    let mut term: Vec<usize> = Vec::new();
    lam_term_to_bin(&t, &mut term);
    let (result, steps) = run_kirvine(&term).unwrap();
    assert_eq!(steps, 5);
    assert_eq!(result, vec![2, 1, 4, 8, 2, 1, 8, 11, 0, 1, 1]);
}

#[test]
fn binary_and_tree_krivine_agree() {
    let terms = vec![
        Box::new(testterm1()),
        app(abs(1, var(0, 1)), abs(1, var(0, 1))),
        abs(1, var(0, 1)),
        app(app(abs(2, var(0, 1)), abs(1, var(0, 1))), abs(1, abs(1, var(1, 1)))),
        app(app(abs(2, var(0, 2)), abs(1, var(0, 1))), abs(1, abs(1, var(1, 1)))),
    ];
    for t in terms.iter() {
        let mut term: Vec<usize> = Vec::new();
        lam_term_to_bin(t, &mut term);
        let (result, steps) = run_kirvine(&term).unwrap();
        let (expected, expected_steps) = run_krivine(t);
        assert_eq!(steps, expected_steps);
        assert_eq!(bin_term_to_lam(&result, &result), Ok(expected));
    }
}

#[test]
fn secd_compute_on_testterm1() {
    let term = TESTTERM1_BIN.to_vec();
    let ((res, heap, vals), steps) = secd_compute(&term).unwrap();
    assert_eq!(res, 0);
    assert_eq!(heap, vec![(-1, 0), (0, 0), (-1, 0)]);
    assert_eq!(vals, vec![(32, -1), (5, -1), (14, 0)]);
    assert_eq!(steps, 13);
}

#[test]
fn secd_compute_on_identity_applied_to_identity() {
    let mut term: Vec<usize> = Vec::new();
    lam_term_to_bin(&app(abs(1, var(0, 1)), abs(1, var(0, 1))), &mut term);
    assert_eq!(term, vec![1, 5, 9, 12, 16, 2, 1, 9, 12, 0, 0, 1, 2, 1, 16, 19, 0, 0, 1]);
    let ((res, heap, vals), steps) = secd_compute(&term).unwrap();
    assert_eq!(res, 0);
    assert_eq!(heap, vec![(-1, 0)]);
    assert_eq!(vals, vec![(12, -1), (5, -1)]);
    assert_eq!(steps, 5);
}

#[test]
fn secd_compute_unknown_body_code() {
    let term: Vec<usize> = vec![1, 5, 9, 12, 16, 2, 1, 9, 12, 5, 0, 1, 2, 1, 16, 19, 0, 0, 1];
    assert_eq!(secd_compute(&term).err(), Some("Error computing term"));
}

#[test]
fn secd_compute_unknown_control_code() {
    let term: Vec<usize> = vec![7, 0, 0];
    assert_eq!(secd_compute(&term).err(), Some("Abstractions do not exist"));
}

#[test]
fn binary_and_tree_secd_agree() {
    let i = || abs(1, var(0, 1));
    let k = || abs(1, abs(1, var(1, 1)));
    let terms = vec![
        (Box::new(testterm1()), 13),
        (app(i(), i()), 5),
        (i(), 2),
        (app(app(abs(2, var(0, 1)), i()), k()), 8),
        (app(app(k(), i()), k()), 7),
    ];
    for (t, expected_steps) in terms.iter() {
        let mut term: Vec<usize> = Vec::new();
        lam_term_to_bin(t, &mut term);
        let ((res, _heap, vals), steps) = secd_compute(&term).unwrap();
        let (expected, tree_steps) = run_secd(t);
        assert_eq!(steps, *expected_steps);
        assert_eq!(steps, tree_steps);
        let pos = vals[res].0;
        assert_eq!(bin_term_to_lam(&term[pos..], &term), Ok(expected));
    }
}

#[test]
fn secd_result_closure_keeps_its_environment() {
    // K I: the result is the body of K in an environment that binds I; the
    // binary machine gives that body, the tree machine reads it back with I.
    let t = app(abs(1, abs(1, var(1, 1))), abs(1, var(0, 1)));
    let mut term: Vec<usize> = Vec::new();
    lam_term_to_bin(&t, &mut term);
    let ((res, heap, vals), steps) = secd_compute(&term).unwrap();
    assert_eq!(steps, 4);
    assert_eq!(heap, vec![(-1, 0)]);
    let (pos, env) = vals[res];
    assert_eq!(env, 0);
    assert_eq!(bin_term_to_lam(&term[pos..], &term), Ok(abs(1, var(1, 1))));
    assert_eq!(run_secd(&t), (abs(1, abs(1, var(0, 1))), 4));
}

fn law_sample_terms() -> Vec<Box<LamTerm>> {
    let i = || abs(1, var(0, 1));
    let k = || abs(1, abs(1, var(1, 1)));
    vec![
        Box::new(testterm1()),
        app(i(), i()),
        i(),
        app(app(abs(2, var(0, 1)), i()), k()),
        app(app(k(), i()), k()),
        app(k(), i()),
    ]
}

fn slice_of(inner: &[usize], outer: &[usize]) -> bool {
    (0..=outer.len()).any(|a| (a..=outer.len()).any(|b| &outer[a..b] == inner))
}

#[test]
fn krivine_results_are_well_formed() {
    for t in law_sample_terms().iter() {
        let mut term: Vec<usize> = Vec::new();
        lam_term_to_bin(t, &mut term);
        let (((cur, env), heap), steps) = kirvine_compute(&term).unwrap();
        assert!(-1 <= env && env < heap.len() as isize);
        assert!(slice_of(cur, &term));
        for (i, frame) in heap.iter().enumerate() {
            assert!(-1 <= frame.0 && frame.0 < i as isize);
            for (code, e) in frame.1.iter() {
                assert!(-1 <= *e && *e < i as isize);
                assert!(slice_of(code, &term));
            }
        }
        assert!(cur[0] == 2 || (cur[0] == 0 && env == -1));
        assert!(steps >= heap.len() + 1);
    }
}

#[test]
fn secd_results_are_well_formed() {
    for t in law_sample_terms().iter() {
        let mut term: Vec<usize> = Vec::new();
        lam_term_to_bin(t, &mut term);
        let ((res, heap, vals), steps) = secd_compute(&term).unwrap();
        assert!(res < vals.len());
        for (pos, env) in vals.iter() {
            assert_eq!(term[*pos], 2);
            assert!(-1 <= *env && *env < heap.len() as isize);
        }
        for (j, (parent, bound)) in heap.iter().enumerate() {
            assert!(-1 <= *parent && *parent < j as isize);
            assert!(*bound < vals.len());
        }
        assert!(steps >= heap.len() + 1);
        assert!(steps >= vals.len() + 1);
    }
}

#[test]
fn header_length_follows_the_code() {
    let i = || abs(1, var(0, 1));
    let make = |n: usize| match n {
        0 => i(),
        1 => app(i(), i()),
        _ => var(3, 2),
    };
    let expected: [(usize, usize); 3] = [(2, 4), (1, 5), (0, 3)];
    for (n, (code, len)) in expected.iter().enumerate() {
        let mut buffer: Vec<usize> = vec![9, 9];
        let (s, e) = lam_term_to_bin(&make(n), &mut buffer);
        assert_eq!(s, 2);
        assert_eq!(buffer[s], *code);
        assert_eq!(e - s, *len);
        assert_eq!(bin_term_to_lam(&buffer[s..e], &buffer), Ok(make(n)));
    }
}
