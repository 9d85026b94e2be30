//! What the machines compute: read-backs substitute the values of bound
//! variables whatever the depth they are met at, and the machines evaluate the
//! usual combinators as the lambda calculus does.

use vstd::prelude::*;

use crate::binlam::{VAR_CODE, kb_read};
use crate::laws::{closed_at, term_size, law_krivine_read_closed, law_secd_read_closed};
use crate::machine::{KHeap, KState, Step, Run, kinit};
use crate::rslam::{
    kt_read, ts_read, kt_step, kt_run, kt_returns, kt_outcome, kt_readback, kt_runs_to_term,
    lemma_kt_run_fuel, lemma_kt_readback, Control, tseq, TsState, ts_step, ts_run, ts_init,
    ts_returns, ts_outcome, ts_readback, ts_reads_back, ts_runs_to_term, lemma_ts_run_fuel,
    lemma_ts_read_fuel,
};
use crate::term::LamTerm;

verus! {

/// A term closed under `d` binders is closed under more.
pub proof fn lemma_closed_at_mono(t: LamTerm, d: nat, e: nat)
    requires
        closed_at(t, d),
        d <= e,
    ensures
        closed_at(t, e),
    decreases t,
{
    match t {
        LamTerm::Abstraction(_, body) => lemma_closed_at_mono(*body, d + 1, e + 1),
        LamTerm::Application(left, right) => {
            lemma_closed_at_mono(*left, d, e);
            lemma_closed_at_mono(*right, d, e);
        },
        LamTerm::Var(..) => {},
    }
}

/// The Krivine read-back at depth `level` leaves no variable free beyond the
/// `level` binders around it: every variable that reaches outside the term is
/// replaced by the value its environment gives it.
pub proof fn law_krivine_read_leaves_no_free_variable(
    heap: KHeap<LamTerm>,
    t: LamTerm,
    env: isize,
    level: usize,
    fuel: nat,
)
    ensures
        kt_read(heap, t, env, level, fuel) matches Some(r) ==> closed_at(r, level as nat),
    decreases fuel,
{
    if fuel > 0 {
        match t {
            LamTerm::Abstraction(_, body) => {
                if level < usize::MAX {
                    law_krivine_read_leaves_no_free_variable(heap, *body, env, (level + 1) as usize, (fuel - 1) as nat);
                }
            },
            LamTerm::Application(left, right) => {
                law_krivine_read_leaves_no_free_variable(heap, *left, env, level, (fuel - 1) as nat);
                law_krivine_read_leaves_no_free_variable(heap, *right, env, level, (fuel - 1) as nat);
            },
            LamTerm::Var(v, k) => {
                if v >= level {
                    if let Some(e) = crate::machine::climb_exact(crate::machine::kparents(heap), env, (v - level) as nat) {
                        if 0 <= e < heap.len() && 0 < k <= heap[e as int].1.len() {
                            let c = heap[e as int].1[k - 1];
                            law_krivine_read_leaves_no_free_variable(heap, c.0, c.1, 0, (fuel - 1) as nat);
                            if let Some(r) = kt_read(heap, c.0, c.1, 0, (fuel - 1) as nat) {
                                lemma_closed_at_mono(r, 0, level as nat);
                            }
                        }
                    }
                }
            },
        }
    }
}

/// The SECD read-back at depth `level` leaves no variable free beyond the
/// `level` binders around it.
pub proof fn law_secd_read_leaves_no_free_variable(
    heap: Seq<(isize, usize)>,
    vals: Seq<(LamTerm, isize)>,
    t: LamTerm,
    env: isize,
    level: usize,
    fuel: nat,
)
    ensures
        ts_read(heap, vals, t, env, level, fuel) matches Some(r) ==> closed_at(r, level as nat),
    decreases fuel,
{
    if fuel > 0 {
        match t {
            LamTerm::Abstraction(_, body) => {
                if level < usize::MAX {
                    law_secd_read_leaves_no_free_variable(heap, vals, *body, env, (level + 1) as usize, (fuel - 1) as nat);
                }
            },
            LamTerm::Application(left, right) => {
                law_secd_read_leaves_no_free_variable(heap, vals, *left, env, level, (fuel - 1) as nat);
                law_secd_read_leaves_no_free_variable(heap, vals, *right, env, level, (fuel - 1) as nat);
            },
            LamTerm::Var(v, k) => {
                if v >= level {
                    if let Some(e) = crate::machine::climb_exact(crate::binlam::sparents(heap), env, (v - level) as nat) {
                        if 0 <= e < heap.len() && heap[e as int].1 < vals.len() {
                            let c = vals[heap[e as int].1 as int];
                            law_secd_read_leaves_no_free_variable(heap, vals, c.0, c.1, 0, (fuel - 1) as nat);
                            if let Some(r) = ts_read(heap, vals, c.0, c.1, 0, (fuel - 1) as nat) {
                                lemma_closed_at_mono(r, 0, level as nat);
                            }
                        }
                    }
                }
            },
        }
    }
}

/// The read-back of the binary Krivine machine at depth `level` leaves no
/// variable free beyond the `level` binders around it.
pub proof fn law_binary_read_leaves_no_free_variable(
    term: Seq<usize>,
    heap: KHeap<Seq<usize>>,
    cur: Seq<usize>,
    env: isize,
    level: usize,
    fuel: nat,
)
    ensures
        kb_read(term, heap, cur, env, level, fuel) matches Some(r) ==> closed_at(r, level as nat),
    decreases fuel,
{
    if fuel > 0 && cur.len() > 0 {
        if cur[0] == crate::binlam::ABS_CODE {
            if cur.len() >= 4 && cur[2] <= cur[3] <= term.len() && level < usize::MAX {
                law_binary_read_leaves_no_free_variable(
                    term,
                    heap,
                    term.subrange(cur[2] as int, cur[3] as int),
                    env,
                    (level + 1) as usize,
                    (fuel - 1) as nat,
                );
            }
        } else if cur[0] == crate::binlam::APP_CODE {
            if cur.len() >= 5 && cur[1] <= cur[2] <= term.len() && cur[3] <= cur[4] <= term.len() {
                law_binary_read_leaves_no_free_variable(
                    term,
                    heap,
                    term.subrange(cur[1] as int, cur[2] as int),
                    env,
                    level,
                    (fuel - 1) as nat,
                );
                law_binary_read_leaves_no_free_variable(
                    term,
                    heap,
                    term.subrange(cur[3] as int, cur[4] as int),
                    env,
                    level,
                    (fuel - 1) as nat,
                );
            }
        } else if cur[0] == VAR_CODE && cur.len() >= 3 && cur[1] >= level {
            if let Some(e) = crate::machine::climb_exact(crate::machine::kparents(heap), env, (cur[1] - level) as nat) {
                if 0 <= e < heap.len() && 0 < cur[2] <= heap[e as int].1.len() {
                    let c = heap[e as int].1[cur[2] - 1];
                    law_binary_read_leaves_no_free_variable(term, heap, c.0, c.1, 0, (fuel - 1) as nat);
                    if let Some(r) = kb_read(term, heap, c.0, c.1, 0, (fuel - 1) as nat) {
                        lemma_closed_at_mono(r, 0, level as nat);
                    }
                }
            }
        }
    }
}

/// A variable that reaches `d` frames beyond the binders around it reads back
/// the same at every depth on the Krivine machine: met under `level` binders
/// as index `level + d`, or at the top as index `d`, it names the same value,
/// and that value reads back the same.
pub proof fn law_krivine_read_depth_independent(
    heap: KHeap<LamTerm>,
    d: usize,
    k: usize,
    env: isize,
    level: usize,
    fuel: nat,
)
    requires
        level + d <= usize::MAX,
    ensures
        kt_read(heap, LamTerm::Var((level + d) as usize, k), env, level, fuel) == kt_read(
            heap,
            LamTerm::Var(d, k),
            env,
            0,
            fuel,
        ),
{
}

/// A variable that reaches `d` frames beyond the binders around it reads back
/// the same at every depth on the SECD machine.
pub proof fn law_secd_read_depth_independent(
    heap: Seq<(isize, usize)>,
    vals: Seq<(LamTerm, isize)>,
    d: usize,
    k: usize,
    env: isize,
    level: usize,
    fuel: nat,
)
    requires
        level + d <= usize::MAX,
    ensures
        ts_read(heap, vals, LamTerm::Var((level + d) as usize, k), env, level, fuel) == ts_read(
            heap,
            vals,
            LamTerm::Var(d, k),
            env,
            0,
            fuel,
        ),
{
}

/// A variable node that reaches `d` frames beyond the binders around it reads
/// back the same at every depth on the binary Krivine machine.
pub proof fn law_binary_read_depth_independent(
    term: Seq<usize>,
    heap: KHeap<Seq<usize>>,
    d: usize,
    k: usize,
    env: isize,
    level: usize,
    fuel: nat,
)
    requires
        level + d <= usize::MAX,
    ensures
        kb_read(term, heap, seq![VAR_CODE, (level + d) as usize, k], env, level, fuel) == kb_read(
            term,
            heap,
            seq![VAR_CODE, d, k],
            env,
            0,
            fuel,
        ),
{
}

/// The identity `%x x`.
pub open spec fn comb_i() -> LamTerm {
    LamTerm::Abstraction(1, Box::new(LamTerm::Var(0, 1)))
}

/// The constant combinator `%x %y x`, which keeps its first argument.
pub open spec fn comb_k() -> LamTerm {
    LamTerm::Abstraction(1, Box::new(LamTerm::Abstraction(1, Box::new(LamTerm::Var(1, 1)))))
}

/// `f` applied to `a`.
pub open spec fn apply(f: LamTerm, a: LamTerm) -> LamTerm {
    LamTerm::Application(Box::new(f), Box::new(a))
}

/// A value: a closed abstraction of at least one argument.
pub open spec fn closed_value(a: LamTerm) -> bool {
    &&& a matches LamTerm::Abstraction(n, _) && n >= 1
    &&& closed_at(a, 0)
    &&& term_size(a) <= usize::MAX
}

/// The Krivine machine gives `K a b` the value `a`, for every value `a` and
/// every term `b`: the abstraction entered first binds the argument pushed
/// last, the nearest one. It takes six transitions.
pub proof fn law_krivine_k_keeps_first_argument(a: LamTerm, b: LamTerm)
    requires
        closed_value(a),
    ensures
        kt_runs_to_term(apply(apply(comb_k(), a), b)),
        kt_outcome(apply(apply(comb_k(), a), b)) matches Run::Halted(fin, n) && n == 6
            && kt_readback(fin) == a,
{
    let t = apply(apply(comb_k(), a), b);
    let kb = LamTerm::Abstraction(1, Box::new(LamTerm::Var(1, 1)));
    let s0 = kinit(t);
    let s1 = KState { cur: apply(comb_k(), a), env: -1isize, stack: seq![(b, -1isize)], heap: Seq::empty() };
    let s2 = KState { cur: comb_k(), env: -1isize, stack: seq![(b, -1isize), (a, -1isize)], heap: Seq::empty() };
    let h3 = seq![(-1isize, seq![(a, -1isize)])];
    let s3 = KState { cur: kb, env: 0isize, stack: seq![(b, -1isize)], heap: h3 };
    let h4 = seq![(-1isize, seq![(a, -1isize)]), (0isize, seq![(b, -1isize)])];
    let s4 = KState { cur: LamTerm::Var(1, 1), env: 1isize, stack: Seq::empty(), heap: h4 };
    let s5 = KState { cur: a, env: -1isize, stack: Seq::empty(), heap: h4 };
    assert(kt_step(s0) == Step::Next(s1)) by {
        assert(Seq::<(LamTerm, isize)>::empty().push((b, -1isize)) =~= seq![(b, -1isize)]);
    }
    assert(kt_step(s1) == Step::Next(s2)) by {
        assert(seq![(b, -1isize)].push((a, -1isize)) =~= seq![(b, -1isize), (a, -1isize)]);
    }
    assert(kt_step(s2) == Step::Next(s3)) by {
        assert(s2.stack.take(1) =~= seq![(b, -1isize)]);
        assert(s2.stack.skip(1) =~= seq![(a, -1isize)]);
        assert(Seq::<(isize, Seq<(LamTerm, isize)>)>::empty().push((-1isize, seq![(a, -1isize)])) =~= h3);
    }
    assert(kt_step(s3) == Step::Next(s4)) by {
        assert(s3.stack.take(0) =~= Seq::<(LamTerm, isize)>::empty());
        assert(s3.stack.skip(0) =~= seq![(b, -1isize)]);
        assert(h3.push((0isize, seq![(b, -1isize)])) =~= h4);
    }
    assert(kt_step(s4) == Step::Next(s5)) by {
        assert(crate::machine::climb(h4, 1isize, 1) == Some(0isize)) by {
            reveal_with_fuel(crate::machine::climb, 2);
        }
    }
    assert(kt_step(s5) == Step::Stop(s5));
    assert(kt_run(s5, 1) == Run::Halted(s5, 1));
    assert(kt_run(s4, 2) == Run::Halted(s5, 2));
    assert(kt_run(s3, 3) == Run::Halted(s5, 3));
    assert(kt_run(s2, 4) == Run::Halted(s5, 4));
    assert(kt_run(s1, 5) == Run::Halted(s5, 5));
    assert(kt_run(s0, 6) == Run::Halted(s5, 6));
    assert(kt_run(kinit(t), 6).returned());
    assert(kt_returns(t));
    let g = choose|f: nat| f <= usize::MAX && #[trigger] kt_run(kinit(t), f).returned();
    if g < 6 {
        lemma_kt_run_fuel(s0, g, 6);
    } else {
        lemma_kt_run_fuel(s0, 6, g);
    }
    assert(kt_outcome(t) == Run::Halted(s5, 6));
    law_krivine_read_closed(h4, a, -1isize, 0usize, term_size(a));
    lemma_kt_readback(s5, term_size(a));
}

proof fn lemma_ts_readback(fin: TsState, f: nat)
    requires
        fin.stack.len() > 0,
        fin.stack.last() < fin.vals.len(),
        ts_read(
            fin.heap,
            fin.vals,
            fin.vals[fin.stack.last() as int].0,
            fin.vals[fin.stack.last() as int].1,
            0,
            f,
        ) is Some,
    ensures
        ts_reads_back(fin),
        ts_read(
            fin.heap,
            fin.vals,
            fin.vals[fin.stack.last() as int].0,
            fin.vals[fin.stack.last() as int].1,
            0,
            f,
        ) == Some(ts_readback(fin)),
{
    let c = fin.vals[fin.stack.last() as int];
    let g = choose|g: nat| #[trigger] ts_read(fin.heap, fin.vals, c.0, c.1, 0, g) is Some;
    if f <= g {
        lemma_ts_read_fuel(fin.heap, fin.vals, c.0, c.1, 0, f, g);
    } else {
        lemma_ts_read_fuel(fin.heap, fin.vals, c.0, c.1, 0, g, f);
    }
}

/// The SECD machine gives `K (K c)` the value `%y %z c`, for every value
/// `c`: the closure `K c` that the outer `K` keeps is read back with its own
/// environment, where `c` is bound, whatever the depth it is met at. It takes
/// six transitions.
pub proof fn law_secd_k_keeps_a_closure_with_its_environment(c: LamTerm)
    requires
        closed_value(c),
        term_size(c) + 5 <= usize::MAX,
    ensures
        ts_runs_to_term(apply(comb_k(), apply(comb_k(), c))),
        ts_outcome(apply(comb_k(), apply(comb_k(), c))) matches Run::Halted(fin, n) && n == 6
            && ts_readback(fin) == LamTerm::Abstraction(
            1,
            Box::new(LamTerm::Abstraction(1, Box::new(c))),
        ),
{
    let t = apply(comb_k(), apply(comb_k(), c));
    let kb = LamTerm::Abstraction(1, Box::new(LamTerm::Var(1, 1)));
    let k = comb_k();
    reveal_with_fuel(tseq, 3);
    assert(tseq(t) =~= seq![Control::App, Control::Term(k), Control::App, Control::Term(k), Control::Term(c)]);
    let s0 = ts_init(t);
    let v1 = seq![(c, -1isize)];
    let s1 = TsState {
        stack: seq![0usize],
        vals: v1,
        heap: Seq::empty(),
        env: -1isize,
        control: seq![Control::App, Control::Term(k), Control::App, Control::Term(k)],
        dump: Seq::empty(),
    };
    let v2 = seq![(c, -1isize), (k, -1isize)];
    let s2 = TsState {
        stack: seq![0usize, 1usize],
        vals: v2,
        heap: Seq::empty(),
        env: -1isize,
        control: seq![Control::App, Control::Term(k), Control::App],
        dump: Seq::empty(),
    };
    let v3 = seq![(c, -1isize), (k, -1isize), (kb, 0isize)];
    let h3 = seq![(-1isize, 0usize)];
    let s3 = TsState {
        stack: seq![2usize],
        vals: v3,
        heap: h3,
        env: 0isize,
        control: seq![Control::App, Control::Term(k)],
        dump: Seq::empty(),
    };
    let v4 = seq![(c, -1isize), (k, -1isize), (kb, 0isize), (k, 0isize)];
    let s4 = TsState {
        stack: seq![2usize, 3usize],
        vals: v4,
        heap: h3,
        env: 0isize,
        control: seq![Control::App],
        dump: Seq::empty(),
    };
    let v5 = seq![(c, -1isize), (k, -1isize), (kb, 0isize), (k, 0isize), (kb, 1isize)];
    let h5 = seq![(-1isize, 0usize), (0isize, 2usize)];
    let s5 = TsState {
        stack: seq![4usize],
        vals: v5,
        heap: h5,
        env: 1isize,
        control: Seq::empty(),
        dump: Seq::empty(),
    };
    assert(ts_step(s0) == Step::Next(s1)) by {
        assert(s0.control.drop_last() =~= s1.control);
        assert(Seq::<usize>::empty().push(0usize) =~= s1.stack);
        assert(Seq::<(LamTerm, isize)>::empty().push((c, -1isize)) =~= v1);
    }
    assert(ts_step(s1) == Step::Next(s2)) by {
        assert(s1.control.drop_last() =~= s2.control);
        assert(s1.stack.push(1usize) =~= s2.stack);
        assert(v1.push((k, -1isize)) =~= v2);
    }
    assert(ts_step(s2) == Step::Next(s3)) by {
        assert(s2.control.drop_last() =~= s3.control);
        assert(s2.stack.take(0) =~= Seq::<usize>::empty());
        assert(Seq::<usize>::empty().push(2usize) =~= s3.stack);
        assert(Seq::<(isize, usize)>::empty().push((-1isize, 0usize)) =~= h3);
        assert(v2.push((kb, 0isize)) =~= v3);
    }
    assert(ts_step(s3) == Step::Next(s4)) by {
        assert(s3.control.drop_last() =~= s4.control);
        assert(s3.stack.push(3usize) =~= s4.stack);
        assert(v3.push((k, 0isize)) =~= v4);
    }
    assert(ts_step(s4) == Step::Next(s5)) by {
        assert(s4.control.drop_last() =~= s5.control);
        assert(s4.stack.take(0) =~= Seq::<usize>::empty());
        assert(Seq::<usize>::empty().push(4usize) =~= s5.stack);
        assert(h3.push((0isize, 2usize)) =~= h5);
        assert(v4.push((kb, 1isize)) =~= v5);
    }
    assert(ts_step(s5) == Step::Stop(s5));
    assert(ts_run(s5, 1) == Run::Halted(s5, 1));
    assert(ts_run(s4, 2) == Run::Halted(s5, 2));
    assert(ts_run(s3, 3) == Run::Halted(s5, 3));
    assert(ts_run(s2, 4) == Run::Halted(s5, 4));
    assert(ts_run(s1, 5) == Run::Halted(s5, 5));
    assert(ts_run(s0, 6) == Run::Halted(s5, 6));
    assert(ts_run(ts_init(t), 6).returned());
    assert(ts_returns(t));
    let g = choose|f: nat| f <= usize::MAX && #[trigger] ts_run(ts_init(t), f).returned();
    if g < 6 {
        lemma_ts_run_fuel(s0, g, 6);
    } else {
        lemma_ts_run_fuel(s0, 6, g);
    }
    assert(ts_outcome(t) == Run::Halted(s5, 6));
    // The read-back: the result closure `(kb, 1)`, whose variable names the
    // closure `(kb, 0)`, whose variable names `c`.
    let m = term_size(c);
    law_secd_read_closed(h5, v5, c, -1isize, 0usize, m);
    lemma_ts_read_fuel(h5, v5, c, -1isize, 0usize, m, m + 1);
    let inner = LamTerm::Abstraction(1, Box::new(c));
    assert(crate::machine::climb_exact(crate::binlam::sparents(h5), 0isize, 0) == Some(0isize));
    assert(crate::machine::climb_exact(crate::binlam::sparents(h5), 1isize, 0) == Some(1isize));
    assert(ts_read(h5, v5, LamTerm::Var(1, 1), 0isize, 1usize, m + 2) == Some(c));
    assert(ts_read(h5, v5, kb, 0isize, 0usize, m + 3) == Some(inner));
    assert(ts_read(h5, v5, LamTerm::Var(1, 1), 1isize, 1usize, m + 4) == Some(inner));
    assert(ts_read(h5, v5, kb, 1isize, 0usize, m + 5) == Some(LamTerm::Abstraction(1, Box::new(inner))));
    lemma_ts_readback(s5, m + 5);
}

/// `%x (%y y) x`: a function whose body is itself an application, so that
/// applying it suspends the pending work on the dump.
pub open spec fn comb_apply_i() -> LamTerm {
    LamTerm::Abstraction(
        1,
        Box::new(LamTerm::Application(Box::new(comb_i()), Box::new(LamTerm::Var(0, 1)))),
    )
}

/// The SECD machine gives `(%x (%y y) x) K c` the value of `K c`, that is
/// `%y c`, for every value `c`: when the body of the first function has been
/// evaluated, its value `K` is put back on top of the suspended stack, so the
/// pending application applies `K` to `c`. It takes eleven transitions.
pub proof fn law_secd_resumes_with_the_value_on_top(c: LamTerm)
    requires
        closed_value(c),
        term_size(c) + 3 <= usize::MAX,
    ensures
        ts_runs_to_term(apply(apply(comb_apply_i(), comb_k()), c)),
        ts_outcome(apply(apply(comb_apply_i(), comb_k()), c)) matches Run::Halted(fin, n) && n == 11
            && ts_readback(fin) == LamTerm::Abstraction(1, Box::new(c)),
{
    let f = comb_apply_i();
    let k = comb_k();
    let i = comb_i();
    let x = LamTerm::Var(0, 1);
    let kb = LamTerm::Abstraction(1, Box::new(LamTerm::Var(1, 1)));
    let t = apply(apply(f, k), c);
    reveal_with_fuel(tseq, 3);
    assert(tseq(t) =~= seq![Control::App, Control::App, Control::Term(f), Control::Term(k), Control::Term(c)]);
    assert(tseq(apply(i, x)) =~= seq![Control::App, Control::Term(i), Control::Term(x)]);
    let e = Seq::<(Seq<usize>, isize, Seq<Control>)>::empty();
    let d = seq![(seq![0usize], 0isize, seq![Control::App])];
    let v1 = seq![(c, -1isize)];
    let v2 = v1.push((k, -1isize));
    let v3 = v2.push((f, -1isize));
    let v4 = v3.push((i, 0isize));
    let v5 = v4.push((kb, 2isize));
    let h1 = seq![(-1isize, 1usize)];
    let h2 = h1.push((0isize, 1usize));
    let h3 = h2.push((-1isize, 0usize));
    let s0 = ts_init(t);
    let s1 = TsState { stack: seq![0usize], vals: v1, heap: Seq::empty(), env: -1isize,
        control: seq![Control::App, Control::App, Control::Term(f), Control::Term(k)], dump: e };
    let s2 = TsState { stack: seq![0usize, 1usize], vals: v2, heap: Seq::empty(), env: -1isize,
        control: seq![Control::App, Control::App, Control::Term(f)], dump: e };
    let s3 = TsState { stack: seq![0usize, 1usize, 2usize], vals: v3, heap: Seq::empty(), env: -1isize,
        control: seq![Control::App, Control::App], dump: e };
    let s4 = TsState { stack: Seq::empty(), vals: v3, heap: h1, env: 0isize,
        control: seq![Control::App, Control::Term(i), Control::Term(x)], dump: d };
    let s5 = TsState { stack: seq![1usize], vals: v3, heap: h1, env: 0isize,
        control: seq![Control::App, Control::Term(i)], dump: d };
    let s6 = TsState { stack: seq![1usize, 3usize], vals: v4, heap: h1, env: 0isize,
        control: seq![Control::App], dump: d };
    let s7 = TsState { stack: Seq::empty(), vals: v4, heap: h2, env: 1isize,
        control: seq![Control::Term(x)], dump: d };
    let s8 = TsState { stack: seq![1usize], vals: v4, heap: h2, env: 1isize,
        control: Seq::empty(), dump: d };
    let s9 = TsState { stack: seq![0usize, 1usize], vals: v4, heap: h2, env: 0isize,
        control: seq![Control::App], dump: e };
    let s10 = TsState { stack: seq![4usize], vals: v5, heap: h3, env: 2isize,
        control: Seq::empty(), dump: e };
    assert(ts_step(s0) == Step::Next(s1)) by {
        assert(s0.control.drop_last() =~= s1.control);
        assert(Seq::<usize>::empty().push(0usize) =~= s1.stack);
        assert(Seq::<(LamTerm, isize)>::empty().push((c, -1isize)) =~= v1);
    }
    assert(ts_step(s1) == Step::Next(s2)) by {
        assert(s1.control.drop_last() =~= s2.control);
        assert(s1.stack.push(1usize) =~= s2.stack);
    }
    assert(ts_step(s2) == Step::Next(s3)) by {
        assert(s2.control.drop_last() =~= s3.control);
        assert(s2.stack.push(2usize) =~= s3.stack);
    }
    assert(ts_step(s3) == Step::Next(s4)) by {
        assert(s3.control.drop_last() =~= seq![Control::App]);
        assert(s3.stack.take(1) =~= seq![0usize]);
        assert(Seq::<(isize, usize)>::empty().push((-1isize, 1usize)) =~= h1);
        assert(e.push((seq![0usize], 0isize, seq![Control::App])) =~= d);
    }
    assert(ts_step(s4) == Step::Next(s5)) by {
        assert(s4.control.drop_last() =~= s5.control);
        assert(Seq::<usize>::empty().push(1usize) =~= s5.stack);
        assert(crate::machine::climb_exact(crate::binlam::sparents(h1), 0isize, 0) == Some(0isize));
    }
    assert(ts_step(s5) == Step::Next(s6)) by {
        assert(s5.control.drop_last() =~= s6.control);
        assert(s5.stack.push(3usize) =~= s6.stack);
    }
    assert(ts_step(s6) == Step::Next(s7)) by {
        assert(s6.control.drop_last() =~= Seq::<Control>::empty());
        assert(Seq::<Control>::empty().push(Control::Term(x)) =~= s7.control);
        assert(s6.stack.take(0) =~= Seq::<usize>::empty());
    }
    assert(ts_step(s7) == Step::Next(s8)) by {
        assert(s7.control.drop_last() =~= s8.control);
        assert(Seq::<usize>::empty().push(1usize) =~= s8.stack);
        assert(crate::machine::climb_exact(crate::binlam::sparents(h2), 1isize, 0) == Some(1isize));
    }
    assert(ts_step(s8) == Step::Next(s9)) by {
        assert(d.last() == (seq![0usize], 0isize, seq![Control::App]));
        assert(seq![0usize].push(1usize) =~= s9.stack);
        assert(d.drop_last() =~= e);
    }
    assert(ts_step(s9) == Step::Next(s10)) by {
        assert(s9.control.drop_last() =~= Seq::<Control>::empty());
        assert(s9.stack.take(0) =~= Seq::<usize>::empty());
        assert(Seq::<usize>::empty().push(4usize) =~= s10.stack);
    }
    assert(ts_step(s10) == Step::Stop(s10));
    assert(ts_run(s10, 1) == Run::Halted(s10, 1));
    assert(ts_run(s9, 2) == Run::Halted(s10, 2));
    assert(ts_run(s8, 3) == Run::Halted(s10, 3));
    assert(ts_run(s7, 4) == Run::Halted(s10, 4));
    assert(ts_run(s6, 5) == Run::Halted(s10, 5));
    assert(ts_run(s5, 6) == Run::Halted(s10, 6));
    assert(ts_run(s4, 7) == Run::Halted(s10, 7));
    assert(ts_run(s3, 8) == Run::Halted(s10, 8));
    assert(ts_run(s2, 9) == Run::Halted(s10, 9));
    assert(ts_run(s1, 10) == Run::Halted(s10, 10));
    assert(ts_run(s0, 11) == Run::Halted(s10, 11));
    assert(ts_run(ts_init(t), 11).returned());
    assert(ts_returns(t));
    let g = choose|f: nat| f <= usize::MAX && #[trigger] ts_run(ts_init(t), f).returned();
    if g < 11 {
        lemma_ts_run_fuel(s0, g, 11);
    } else {
        lemma_ts_run_fuel(s0, 11, g);
    }
    assert(ts_outcome(t) == Run::Halted(s10, 11));
    let m = term_size(c);
    law_secd_read_closed(h3, v5, c, -1isize, 0usize, m);
    lemma_ts_read_fuel(h3, v5, c, -1isize, 0usize, m, m + 1);
    assert(crate::machine::climb_exact(crate::binlam::sparents(h3), 2isize, 0) == Some(2isize));
    assert(ts_read(h3, v5, LamTerm::Var(1, 1), 2isize, 1usize, m + 2) == Some(c));
    assert(ts_read(h3, v5, kb, 2isize, 0usize, m + 3) == Some(LamTerm::Abstraction(1, Box::new(c))));
    lemma_ts_readback(s10, m + 3);
}

} // verus!
