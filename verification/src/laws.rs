//! Laws about the results of the machines and their read-backs.

use vstd::prelude::*;

use crate::binlam::{encodes_at, starts_with_header, kb_read, lemma_node_fields};
use crate::machine::{KHeap, Step, Run, kinit};
use crate::rslam::{
    Control, tseq, kt_step, kt_run, kt_read, kt_returns, kt_outcome, kt_readback, kt_runs_to_term,
    lemma_kt_run_fuel, lemma_kt_readback, TsState, ts_step, ts_run, ts_init, ts_read, ts_returns,
    ts_outcome, ts_readback, ts_runs_to_term, lemma_ts_run_fuel, lemma_ts_read_fuel,
};
use crate::term::LamTerm;

verus! {

/// Every variable of `t`, under `depth` binders more than `t` has itself,
/// refers to one of those binders.
pub open spec fn closed_at(t: LamTerm, depth: nat) -> bool
    decreases t,
{
    match t {
        LamTerm::Abstraction(_, body) => closed_at(*body, depth + 1),
        LamTerm::Application(left, right) => closed_at(*left, depth) && closed_at(*right, depth),
        LamTerm::Var(v, _) => v < depth,
    }
}

/// The number of nodes of `t`.
pub open spec fn term_size(t: LamTerm) -> nat
    decreases t,
{
    match t {
        LamTerm::Abstraction(_, body) => 1 + term_size(*body),
        LamTerm::Application(left, right) => 1 + term_size(*left) + term_size(*right),
        LamTerm::Var(..) => 1,
    }
}

/// The Krivine read-back gives back a term whose variables are all bound
/// within it, whatever the heap and environment.
pub proof fn law_krivine_read_closed(heap: KHeap<LamTerm>, t: LamTerm, env: isize, level: usize, fuel: nat)
    requires
        closed_at(t, level as nat),
        level + term_size(t) <= usize::MAX,
        fuel >= term_size(t),
    ensures
        kt_read(heap, t, env, level, fuel) == Some(t),
    decreases t,
{
    match t {
        LamTerm::Abstraction(_, body) => {
            law_krivine_read_closed(heap, *body, env, (level + 1) as usize, (fuel - 1) as nat);
        },
        LamTerm::Application(left, right) => {
            law_krivine_read_closed(heap, *left, env, level, (fuel - 1) as nat);
            law_krivine_read_closed(heap, *right, env, level, (fuel - 1) as nat);
        },
        LamTerm::Var(..) => {},
    }
}

/// The SECD read-back gives back a term whose variables are all bound within
/// it, whatever the heap, closures and environment.
pub proof fn law_secd_read_closed(
    heap: Seq<(isize, usize)>,
    vals: Seq<(LamTerm, isize)>,
    t: LamTerm,
    env: isize,
    level: usize,
    fuel: nat,
)
    requires
        closed_at(t, level as nat),
        level + term_size(t) <= usize::MAX,
        fuel >= term_size(t),
    ensures
        ts_read(heap, vals, t, env, level, fuel) == Some(t),
    decreases t,
{
    match t {
        LamTerm::Abstraction(_, body) => {
            law_secd_read_closed(heap, vals, *body, env, (level + 1) as usize, (fuel - 1) as nat);
        },
        LamTerm::Application(left, right) => {
            law_secd_read_closed(heap, vals, *left, env, level, (fuel - 1) as nat);
            law_secd_read_closed(heap, vals, *right, env, level, (fuel - 1) as nat);
        },
        LamTerm::Var(..) => {},
    }
}

/// The read-back of the binary Krivine machine copies a term whose variables
/// are all bound within it, whatever the heap and environment: the cells it
/// appends are the encoding of that very term.
pub proof fn law_binary_read_closed(
    term: Seq<usize>,
    heap: KHeap<Seq<usize>>,
    s: Seq<usize>,
    u: LamTerm,
    p: int,
    env: isize,
    level: usize,
    fuel: nat,
)
    requires
        term.len() <= usize::MAX,
        encodes_at(term, p, u),
        starts_with_header(s, term, p, u),
        closed_at(u, level as nat),
        level + term_size(u) <= usize::MAX,
        fuel >= term_size(u),
    ensures
        kb_read(term, heap, s, env, level, fuel) == Some(u),
    decreases u,
{
    lemma_node_fields(term, s, u, p);
    match u {
        LamTerm::Abstraction(_, body) => {
            law_binary_read_closed(
                term,
                heap,
                term.subrange(s[2] as int, s[3] as int),
                *body,
                s[2] as int,
                env,
                (level + 1) as usize,
                (fuel - 1) as nat,
            );
        },
        LamTerm::Application(left, right) => {
            law_binary_read_closed(
                term,
                heap,
                term.subrange(s[1] as int, s[2] as int),
                *left,
                s[1] as int,
                env,
                level,
                (fuel - 1) as nat,
            );
            law_binary_read_closed(
                term,
                heap,
                term.subrange(s[3] as int, s[4] as int),
                *right,
                s[3] as int,
                env,
                level,
                (fuel - 1) as nat,
            );
        },
        LamTerm::Var(..) => {},
    }
}

/// A closed abstraction of at least one argument is its own result on the
/// Krivine machine: it halts at once, after one transition, and reads back to
/// itself.
pub proof fn law_krivine_closed_abstraction(t: LamTerm)
    requires
        t matches LamTerm::Abstraction(n, _) && n >= 1,
        closed_at(t, 0),
        term_size(t) <= usize::MAX,
    ensures
        kt_runs_to_term(t),
        kt_outcome(t) == Run::Halted(kinit(t), 1),
        kt_readback(kinit(t)) == t,
{
    assert(kt_step(kinit(t)) == Step::Stop(kinit(t)));
    assert(kt_run(kinit(t), 1) == Run::Halted(kinit(t), 1));
    assert(kt_run(kinit(t), 1).returned());
    assert(kt_returns(t));
    let g = choose|f: nat| f <= usize::MAX && #[trigger] kt_run(kinit(t), f).returned();
    lemma_kt_run_fuel(kinit(t), 1, g);
    law_krivine_read_closed(kinit(t).heap, t, -1isize, 0usize, term_size(t));
    lemma_kt_readback(kinit(t), term_size(t));
}

/// A closed abstraction is its own result on the SECD machine: after two
/// transitions the machine holds one closure, of that abstraction in the empty
/// environment, and it reads back to the abstraction itself.
pub proof fn law_secd_closed_abstraction(t: LamTerm)
    requires
        t is Abstraction,
        closed_at(t, 0),
        term_size(t) <= usize::MAX,
    ensures
        ts_runs_to_term(t),
        ts_outcome(t) == Run::Halted(
            TsState {
                stack: seq![0usize],
                vals: seq![(t, -1isize)],
                heap: Seq::empty(),
                env: -1isize,
                control: Seq::empty(),
                dump: Seq::empty(),
            },
            2,
        ),
        ts_readback(ts_outcome(t)->Halted_0) == t,
{
    let fin = TsState {
        stack: seq![0usize],
        vals: seq![(t, -1isize)],
        heap: Seq::empty(),
        env: -1isize,
        control: Seq::empty(),
        dump: Seq::empty(),
    };
    let s0 = ts_init(t);
    assert(tseq(t) == seq![Control::Term(t)]);
    let s1 = ts_step(s0)->Next_0;
    assert(s1.control =~= Seq::<Control>::empty());
    assert(s1.stack =~= seq![0usize]);
    assert(s1.vals =~= seq![(t, -1isize)]);
    assert(s1 == fin);
    assert(ts_step(fin) == Step::Stop(fin));
    assert(ts_run(fin, 1) == Run::Halted(fin, 1));
    assert(ts_run(s0, 2) == Run::Halted(fin, 2));
    assert(ts_run(ts_init(t), 2).returned());
    assert(ts_returns(t));
    let g = choose|f: nat| f <= usize::MAX && #[trigger] ts_run(ts_init(t), f).returned();
    if g < 2 {
        lemma_ts_run_fuel(s0, g, 2);
    } else {
        lemma_ts_run_fuel(s0, 2, g);
    }
    law_secd_read_closed(fin.heap, fin.vals, t, -1isize, 0usize, term_size(t));
    let h = choose|f: nat| #[trigger] ts_read(fin.heap, fin.vals, t, -1isize, 0, f) is Some;
    assert(ts_read(fin.heap, fin.vals, t, -1isize, 0, term_size(t)) is Some);
    if h <= term_size(t) {
        lemma_ts_read_fuel(fin.heap, fin.vals, t, -1isize, 0, h, term_size(t));
    } else {
        lemma_ts_read_fuel(fin.heap, fin.vals, t, -1isize, 0, term_size(t), h);
    }
}

/// The number of parts of `t` along its application spine: applications are
/// split, any other term counts once.
pub open spec fn spine_parts(t: LamTerm) -> nat
    decreases t,
{
    match t {
        LamTerm::Application(left, right) => spine_parts(*left) + spine_parts(*right),
        _ => 1,
    }
}

/// The number of application markers in a control list.
pub open spec fn app_markers(s: Seq<Control>) -> nat
    decreases s.len(),
{
    if s.len() == 0 {
        0
    } else {
        app_markers(s.drop_last()) + if s.last() is App {
            1nat
        } else {
            0nat
        }
    }
}

proof fn lemma_app_markers_add(a: Seq<Control>, b: Seq<Control>)
    ensures
        app_markers(a + b) == app_markers(a) + app_markers(b),
    decreases b.len(),
{
    if b.len() == 0 {
        assert(a + b =~= a);
    } else {
        lemma_app_markers_add(a, b.drop_last());
        assert((a + b).drop_last() =~= a + b.drop_last());
    }
}

/// The control list of a term holds one term per part of its application
/// spine and one application marker fewer.
pub proof fn law_control_list_counts(t: LamTerm)
    ensures
        tseq(t).len() == 2 * spine_parts(t) - 1,
        app_markers(tseq(t)) == spine_parts(t) - 1,
        spine_parts(t) >= 1,
    decreases t,
{
    match t {
        LamTerm::Application(left, right) => {
            law_control_list_counts(*left);
            law_control_list_counts(*right);
            lemma_app_markers_add(seq![Control::App], tseq(*left));
            lemma_app_markers_add(seq![Control::App] + tseq(*left), tseq(*right));
            assert(app_markers(seq![Control::App]) == 1) by {
                assert(seq![Control::App].drop_last() =~= Seq::<Control>::empty());
                reveal_with_fuel(app_markers, 2);
            }
        },
        _ => {
            assert(seq![Control::Term(t)].drop_last() =~= Seq::<Control>::empty());
            reveal_with_fuel(app_markers, 2);
        },
    }
}

} // verus!
