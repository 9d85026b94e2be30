//! The Krivine and SECD machines on term trees.

use vstd::prelude::*;

use crate::machine::{Clo, KHeap, KState, Step, Run, kinit, climb, climb_exact, kparents};
use crate::term::LamTerm;
use crate::binlam::sparents;

verus! {

/// A closure held in memory: a subterm of the evaluated term and the heap
/// index of its environment.
struct Closure<'a> {
    term: &'a Box<LamTerm>,
    environ: isize,
}

/// An element of the SECD control list held in memory.
enum ControlElement<'a> {
    Term(&'a Box<LamTerm>),
    App,
}

spec fn clo_view<'a>(c: Closure<'a>) -> Clo<LamTerm> {
    (**c.term, c.environ)
}

spec fn clos_view<'a>(s: Seq<Closure<'a>>) -> Seq<Clo<LamTerm>> {
    s.map_values(|c: Closure<'a>| clo_view(c))
}

spec fn heap_view<'a>(h: Seq<(isize, Vec<Closure<'a>>)>) -> KHeap<LamTerm> {
    h.map_values(|frame: (isize, Vec<Closure<'a>>)| (frame.0, clos_view(frame.1@)))
}

// ---------------------------------------------------------------------------
// Krivine machine on term trees
// ---------------------------------------------------------------------------

/// One transition of the Krivine machine on term trees.
pub open spec fn kt_step(s: KState<LamTerm>) -> Step<KState<LamTerm>> {
    match s.cur {
        LamTerm::Application(left, right) => Step::Next(
            KState {
                cur: *left,
                env: s.env,
                stack: s.stack.push((*right, s.env)),
                heap: s.heap,
            },
        ),
        LamTerm::Abstraction(n, body) => {
            if s.stack.len() < n {
                Step::Stop(s)
            } else {
                let at = s.stack.len() - n;
                Step::Next(
                    KState {
                        cur: *body,
                        env: s.heap.len() as isize,
                        stack: s.stack.take(at),
                        heap: s.heap.push((s.env, s.stack.skip(at))),
                    },
                )
            }
        },
        LamTerm::Var(v, k) => match climb(s.heap, s.env, v as nat) {
            None => Step::Crash,
            Some(e) => {
                if e < 0 {
                    Step::Stop(KState { cur: s.cur, env: e, stack: s.stack, heap: s.heap })
                } else if e >= s.heap.len() {
                    Step::Crash
                } else {
                    let apps = s.heap[e as int].1;
                    if k == 0 || k > apps.len() {
                        Step::Crash
                    } else {
                        let c = apps[apps.len() - k];
                        Step::Next(KState { cur: c.0, env: c.1, stack: s.stack, heap: s.heap })
                    }
                }
            },
        },
    }
}

/// Runs the Krivine machine on term trees for at most `fuel` transitions.
pub open spec fn kt_run(s: KState<LamTerm>, fuel: nat) -> Run<KState<LamTerm>>
    decreases fuel,
{
    if fuel == 0 {
        Run::OutOfFuel
    } else {
        match kt_step(s) {
            Step::Next(next) => kt_run(next, (fuel - 1) as nat).after(1),
            Step::Stop(last) => Run::Halted(last, 1),
            Step::Error(msg) => Run::Errored(msg),
            Step::Crash => Run::Crashed,
        }
    }
}

/// A larger budget does not change a finished outcome.
pub proof fn lemma_kt_run_fuel(s: KState<LamTerm>, f: nat, g: nat)
    requires
        kt_run(s, f).finished(),
        f <= g,
    ensures
        kt_run(s, g) == kt_run(s, f),
    decreases f,
{
    if f > 0 {
        if let Step::Next(next) = kt_step(s) {
            lemma_kt_run_fuel(next, (f - 1) as nat, (g - 1) as nat);
        }
    }
}

/// The Krivine machine started on `t` halts without crashing, within a
/// number of transitions a `usize` counts.
pub open spec fn kt_returns(t: LamTerm) -> bool {
    exists|f: nat| f <= usize::MAX && #[trigger] kt_run(kinit(t), f).returned()
}

/// The outcome of the Krivine machine started on `t`.
pub open spec fn kt_outcome(t: LamTerm) -> Run<KState<LamTerm>> {
    kt_run(kinit(t), choose|f: nat| f <= usize::MAX && #[trigger] kt_run(kinit(t), f).returned())
}

/// Reads back the closure `(t, env)` of a halted Krivine machine at binder
/// depth `level`, replacing each variable bound outside the current binders by
/// the read-back of the closure its environment gives it. `None` when an index
/// falls out of range, the depth overflows, or the read-back does not finish
/// within `fuel` nested steps.
pub open spec fn kt_read(heap: KHeap<LamTerm>, t: LamTerm, env: isize, level: usize, fuel: nat) -> Option<LamTerm>
    decreases fuel,
{
    if fuel == 0 {
        None
    } else {
        match t {
            LamTerm::Abstraction(n, body) => {
                if level == usize::MAX {
                    None
                } else {
                    match kt_read(heap, *body, env, (level + 1) as usize, (fuel - 1) as nat) {
                        Some(b) => Some(LamTerm::Abstraction(n, Box::new(b))),
                        None => None,
                    }
                }
            },
            LamTerm::Application(left, right) => {
                match (
                    kt_read(heap, *left, env, level, (fuel - 1) as nat),
                    kt_read(heap, *right, env, level, (fuel - 1) as nat),
                ) {
                    (Some(l), Some(r)) => Some(LamTerm::Application(Box::new(l), Box::new(r))),
                    _ => None,
                }
            },
            LamTerm::Var(v, k) => {
                if v >= level {
                    match climb_exact(kparents(heap), env, (v - level) as nat) {
                        None => None,
                        Some(e) => {
                            if e < 0 || e >= heap.len() {
                                None
                            } else {
                                let apps = heap[e as int].1;
                                if k == 0 || k - 1 >= apps.len() {
                                    None
                                } else {
                                    let c = apps[k - 1];
                                    kt_read(heap, c.0, c.1, 0, (fuel - 1) as nat)
                                }
                            }
                        },
                    }
                } else {
                    Some(LamTerm::Var(v, k))
                }
            },
        }
    }
}

/// A larger budget does not change a finished outcome.
pub proof fn lemma_kt_read_fuel(heap: KHeap<LamTerm>, t: LamTerm, env: isize, level: usize, f: nat, g: nat)
    requires
        kt_read(heap, t, env, level, f) is Some,
        f <= g,
    ensures
        kt_read(heap, t, env, level, g) == kt_read(heap, t, env, level, f),
    decreases f,
{
    match t {
        LamTerm::Abstraction(n, body) => {
            lemma_kt_read_fuel(heap, *body, env, (level + 1) as usize, (f - 1) as nat, (g - 1) as nat);
        },
        LamTerm::Application(left, right) => {
            lemma_kt_read_fuel(heap, *left, env, level, (f - 1) as nat, (g - 1) as nat);
            lemma_kt_read_fuel(heap, *right, env, level, (f - 1) as nat, (g - 1) as nat);
        },
        LamTerm::Var(v, k) => {
            if v >= level {
                let e = climb_exact(kparents(heap), env, (v - level) as nat).unwrap();
                let c = heap[e as int].1[k - 1];
                lemma_kt_read_fuel(heap, c.0, c.1, 0, (f - 1) as nat, (g - 1) as nat);
            }
        },
    }
}

/// The final closure of a halted Krivine machine reads back.
pub open spec fn kt_reads_back(fin: KState<LamTerm>) -> bool {
    exists|f: nat| #[trigger] kt_read(fin.heap, fin.cur, fin.env, 0, f) is Some
}

/// The term the final closure of a halted Krivine machine reads back to.
pub open spec fn kt_readback(fin: KState<LamTerm>) -> LamTerm {
    kt_read(fin.heap, fin.cur, fin.env, 0, choose|f: nat| #[trigger] kt_read(fin.heap, fin.cur, fin.env, 0, f) is Some).unwrap()
}

/// Any finishing budget gives the read-back `kt_readback` names.
pub proof fn lemma_kt_readback(fin: KState<LamTerm>, f: nat)
    requires
        kt_read(fin.heap, fin.cur, fin.env, 0, f) is Some,
    ensures
        kt_reads_back(fin),
        kt_read(fin.heap, fin.cur, fin.env, 0, f) == Some(kt_readback(fin)),
{
    let g = choose|f: nat| #[trigger] kt_read(fin.heap, fin.cur, fin.env, 0, f) is Some;
    if f <= g {
        lemma_kt_read_fuel(fin.heap, fin.cur, fin.env, 0, f, g);
    } else {
        lemma_kt_read_fuel(fin.heap, fin.cur, fin.env, 0, g, f);
    }
}

/// The Krivine machine halts on `t` and its final closure reads back.
pub open spec fn kt_runs_to_term(t: LamTerm) -> bool {
    &&& kt_returns(t)
    &&& kt_outcome(t) matches Run::Halted(fin, _) && kt_reads_back(fin)
}

/// The current terms of the Krivine machine on term trees at each of at most
/// `fuel` transitions, the last one included, from the state `s` on.
pub open spec fn kt_trace(s: KState<LamTerm>, fuel: nat) -> Seq<LamTerm>
    decreases fuel,
{
    if fuel == 0 {
        Seq::empty()
    } else {
        seq![s.cur] + match kt_step(s) {
            Step::Next(next) => kt_trace(next, (fuel - 1) as nat),
            _ => Seq::empty(),
        }
    }
}

/// A larger budget does not change the trace of a finished run.
pub proof fn lemma_kt_trace_fuel(s: KState<LamTerm>, f: nat, g: nat)
    requires
        kt_run(s, f).finished(),
        f <= g,
    ensures
        kt_trace(s, g) == kt_trace(s, f),
    decreases f,
{
    if f > 0 {
        if let Step::Next(next) = kt_step(s) {
            lemma_kt_trace_fuel(next, (f - 1) as nat, (g - 1) as nat);
        }
    }
}

/// The current terms of the Krivine machine started on `t` at each of its
/// transitions, the last one included.
pub open spec fn kt_trace_of(t: LamTerm) -> Seq<LamTerm> {
    kt_trace(kinit(t), choose|f: nat| f <= usize::MAX && #[trigger] kt_run(kinit(t), f).returned())
}

/// The terms that a list of references in memory points to.
pub open spec fn terms_view<'a>(s: Seq<&'a Box<LamTerm>>) -> Seq<LamTerm> {
    s.map_values(|b: &'a Box<LamTerm>| **b)
}

fn krivine_compute<'a>(term: &'a Box<LamTerm>, trace: &mut Vec<&'a Box<LamTerm>>) -> (r: (Closure<'a>, Vec<(isize, Vec<Closure<'a>>)>, usize))
    requires
        kt_returns(**term),
    ensures
        kt_outcome(**term) matches Run::Halted(fin, n) && clo_view(r.0) == (fin.cur, fin.env)
            && heap_view(r.1@) == fin.heap && r.2 == n,
        terms_view(final(trace)@) == terms_view(old(trace)@) + kt_trace_of(**term),
{
    let mut heap: Vec<(isize, Vec<Closure<'a>>)> = Vec::new();
    let mut curenviron: isize = -1;
    let mut stack: Vec<Closure<'a>> = Vec::new();
    let mut curterm: &'a Box<LamTerm> = term;
    let mut steps: usize = 0;
    let ghost f0 = choose|f: nat| f <= usize::MAX && #[trigger] kt_run(kinit(**term), f).returned();
    let ghost mut fl: nat = f0;
    proof {
        assert(clos_view(stack@) =~= Seq::<Clo<LamTerm>>::empty());
        assert(heap_view(heap@) =~= Seq::<(isize, Seq<Clo<LamTerm>>)>::empty());
        assert(terms_view(trace@) =~= terms_view(old(trace)@));
    }
    loop
        invariant
            terms_view(trace@) + kt_trace(
                KState { cur: **curterm, env: curenviron, stack: clos_view(stack@), heap: heap_view(heap@) },
                fl,
            ) == terms_view(old(trace)@) + kt_trace_of(**term),
            kt_run(
                KState { cur: **curterm, env: curenviron, stack: clos_view(stack@), heap: heap_view(heap@) },
                fl,
            ).returned(),
            kt_outcome(**term) == kt_run(
                KState { cur: **curterm, env: curenviron, stack: clos_view(stack@), heap: heap_view(heap@) },
                fl,
            ).after(steps as nat),
            steps + fl <= usize::MAX,
        decreases fl,
    {
        let ghost s = KState { cur: **curterm, env: curenviron, stack: clos_view(stack@), heap: heap_view(heap@) };
        assert(fl > 0);
        let ghost before = terms_view(trace@);
        trace.push(curterm);
        proof {
            assert(terms_view(trace@) =~= before.push(**curterm));
            assert(before + kt_trace(s, fl) =~= terms_view(trace@) + match kt_step(s) {
                Step::Next(next) => kt_trace(next, (fl - 1) as nat),
                _ => Seq::empty(),
            });
        }
        steps += 1;
        match &**curterm {
            LamTerm::Application(left, right) => {
                stack.push(Closure { term: right, environ: curenviron });
                curterm = left;
                proof {
                    fl = (fl - 1) as nat;
                    assert(clos_view(stack@) =~= s.stack.push((**right, s.env)));
                }
            },
            LamTerm::Abstraction(varcount, body) => {
                if stack.len() < *varcount {
                    return (Closure { term: curterm, environ: curenviron }, heap, steps);
                }
                let at = stack.len() - *varcount;
                let frame = stack.split_off(at);
                heap.push((curenviron, frame));
                curenviron = #[verifier::truncate] ((heap.len() - 1) as isize);
                curterm = body;
                proof {
                    fl = (fl - 1) as nat;
                    assert(clos_view(stack@) =~= s.stack.take(at as int));
                    assert(clos_view(frame@) =~= s.stack.skip(at as int));
                    assert(heap_view(heap@) =~= s.heap.push((s.env, s.stack.skip(at as int))));
                }
            },
            LamTerm::Var(v, k) => {
                let ghost e = climb(s.heap, s.env, *v as nat).unwrap();
                if *v != 0 {
                    let mut i: usize = 0;
                    while i < *v && curenviron >= 0
                        invariant
                            0 <= i <= *v,
                            climb(s.heap, curenviron, (*v - i) as nat) == Some(e),
                            s.heap == heap_view(heap@),
                        decreases *v - i,
                    {
                        curenviron = heap[curenviron as usize].0;
                        i += 1;
                    }
                }
                if curenviron >= 0 {
                    let apps = &heap[curenviron as usize].1;
                    let clos = &apps[apps.len() - *k];
                    curterm = clos.term;
                    curenviron = clos.environ;
                    proof {
                        fl = (fl - 1) as nat;
                    }
                } else {
                    return (Closure { term: curterm, environ: curenviron }, heap, steps);
                }
            },
        }
    }
}

fn krivine_closure_to_closed_term<'a>(
    clos: &Closure<'a>,
    heap: &Vec<(isize, Vec<Closure<'a>>)>,
    level: usize,
    Ghost(fuel): Ghost<nat>,
) -> (r: Box<LamTerm>)
    requires
        kt_read(heap_view(heap@), **clos.term, clos.environ, level, fuel) is Some,
    ensures
        Some(*r) == kt_read(heap_view(heap@), **clos.term, clos.environ, level, fuel),
    decreases fuel,
{
    match &**clos.term {
        LamTerm::Abstraction(n, subterm) => Box::new(
            LamTerm::Abstraction(
                *n,
                krivine_closure_to_closed_term(
                    &Closure { term: subterm, environ: clos.environ },
                    heap,
                    level + 1,
                    Ghost((fuel - 1) as nat),
                ),
            ),
        ),
        LamTerm::Application(st1, st2) => Box::new(
            LamTerm::Application(
                krivine_closure_to_closed_term(
                    &Closure { term: st1, environ: clos.environ },
                    heap,
                    level,
                    Ghost((fuel - 1) as nat),
                ),
                krivine_closure_to_closed_term(
                    &Closure { term: st2, environ: clos.environ },
                    heap,
                    level,
                    Ghost((fuel - 1) as nat),
                ),
            ),
        ),
        LamTerm::Var(v, k) => {
            if *v >= level {
                let ghost parents = kparents(heap_view(heap@));
                let ghost e = climb_exact(parents, clos.environ, (*v - level) as nat).unwrap();
                let mut env = clos.environ;
                let mut i = level;
                while i < *v
                    invariant
                        level <= i <= *v,
                        climb_exact(parents, env, (*v - i) as nat) == Some(e),
                        parents == kparents(heap_view(heap@)),
                    decreases *v - i,
                {
                    assert(parents[env as int] == heap@[env as int].0);
                    env = heap[env as usize].0;
                    i += 1;
                }
                krivine_closure_to_closed_term(&heap[env as usize].1[*k - 1], heap, 0, Ghost((fuel - 1) as nat))
            } else {
                Box::new(LamTerm::Var(*v, *k))
            }
        },
    }
}

/// Runs the Krivine machine on `term` until it halts, reads the final closure
/// back as a term, and returns that term and the number of transitions.
pub fn run_krivine<'a>(term: &'a Box<LamTerm>) -> (r: (Box<LamTerm>, usize))
    requires
        kt_runs_to_term(**term),
    ensures
        kt_outcome(**term) matches Run::Halted(fin, n) && *r.0 == kt_readback(fin) && r.1 == n,
{
    let mut trace: Vec<&Box<LamTerm>> = Vec::new();
    let (clos, heap, steps) = krivine_compute(term, &mut trace);
    let ghost fin = kt_outcome(**term)->Halted_0;
    let ghost f = choose|f: nat| #[trigger] kt_read(fin.heap, fin.cur, fin.env, 0, f) is Some;
    proof {
        lemma_kt_readback(fin, f);
    }
    (krivine_closure_to_closed_term(&clos, &heap, 0, Ghost(f)), steps)
}


/// As `run_krivine`, and also returns the current term of the machine at each
/// transition, in order, the last one included.
pub fn run_krivine_traced<'a>(term: &'a Box<LamTerm>) -> (r: (Box<LamTerm>, usize, Vec<&'a Box<LamTerm>>))
    requires
        kt_runs_to_term(**term),
    ensures
        kt_outcome(**term) matches Run::Halted(fin, n) && *r.0 == kt_readback(fin) && r.1 == n,
        terms_view(r.2@) == kt_trace_of(**term),
{
    let mut trace: Vec<&'a Box<LamTerm>> = Vec::new();
    let (clos, heap, steps) = krivine_compute(term, &mut trace);
    let ghost fin = kt_outcome(**term)->Halted_0;
    let ghost f = choose|f: nat| #[trigger] kt_read(fin.heap, fin.cur, fin.env, 0, f) is Some;
    proof {
        lemma_kt_readback(fin, f);
        assert(terms_view(Seq::<&'a Box<LamTerm>>::empty()) =~= Seq::<LamTerm>::empty());
        assert(terms_view(trace@) =~= kt_trace_of(**term));
    }
    (krivine_closure_to_closed_term(&clos, &heap, 0, Ghost(f)), steps, trace)
}

// ---------------------------------------------------------------------------
// SECD machine on term trees
// ---------------------------------------------------------------------------

/// An element of the SECD control list: apply the two values on top of the
/// stack, or evaluate a term.
pub enum Control {
    App,
    Term(LamTerm),
}

spec fn control_view<'a>(c: ControlElement<'a>) -> Control {
    match c {
        ControlElement::App => Control::App,
        ControlElement::Term(t) => Control::Term(**t),
    }
}

spec fn controls_view<'a>(s: Seq<ControlElement<'a>>) -> Seq<Control> {
    s.map_values(|c: ControlElement<'a>| control_view(c))
}

/// The control list of a term: for an application, the application marker
/// followed by the lists of its two parts; any other term stands alone.
pub open spec fn tseq(t: LamTerm) -> Seq<Control>
    decreases t,
{
    match t {
        LamTerm::Application(left, right) => seq![Control::App] + tseq(*left) + tseq(*right),
        _ => seq![Control::Term(t)],
    }
}

/// State of the SECD machine on term trees: the value stack (indices of
/// closures in `vals`), the closures made so far, the heap of environment
/// frames (parent frame and the index of the bound closure), the current
/// environment, the control list and the dump of suspended
/// (stack, environment, control).
pub struct TsState {
    pub stack: Seq<usize>,
    pub vals: Seq<Clo<LamTerm>>,
    pub heap: Seq<(isize, usize)>,
    pub env: isize,
    pub control: Seq<Control>,
    pub dump: Seq<(Seq<usize>, isize, Seq<Control>)>,
}

/// One transition of the SECD machine on term trees.
pub open spec fn ts_step(s: TsState) -> Step<TsState> {
    if s.control.len() == 0 {
        if s.stack.len() == 0 {
            Step::Crash
        } else if s.dump.len() == 0 {
            Step::Stop(s)
        } else {
            let d = s.dump.last();
            Step::Next(
                TsState {
                    stack: d.0.push(s.stack.last()),
                    vals: s.vals,
                    heap: s.heap,
                    env: d.1,
                    control: d.2,
                    dump: s.dump.drop_last(),
                },
            )
        }
    } else {
        let control = s.control.drop_last();
        match s.control.last() {
            Control::App => {
                if s.stack.len() < 1 || s.stack.last() >= s.vals.len() || s.stack.len() < 2 {
                    Step::Crash
                } else {
                    let left = s.vals[s.stack.last() as int];
                    let rightpos = s.stack[s.stack.len() - 2];
                    let stack = s.stack.take(s.stack.len() - 2);
                    let heap = s.heap.push((left.1, rightpos));
                    let c = heap.len() as isize;
                    if c - 1 < isize::MIN {
                        Step::Crash
                    } else {
                        let env = (c - 1) as isize;
                        match left.0 {
                            LamTerm::Abstraction(_, body) => match *body {
                                LamTerm::Application(..) => Step::Next(
                                    TsState {
                                        stack: Seq::empty(),
                                        vals: s.vals,
                                        heap,
                                        env,
                                        control: tseq(*body),
                                        dump: s.dump.push((stack, env, control)),
                                    },
                                ),
                                LamTerm::Abstraction(..) => Step::Next(
                                    TsState {
                                        stack: stack.push(s.vals.len() as usize),
                                        vals: s.vals.push((*body, env)),
                                        heap,
                                        env,
                                        control,
                                        dump: s.dump,
                                    },
                                ),
                                LamTerm::Var(..) => Step::Next(
                                    TsState {
                                        stack,
                                        vals: s.vals,
                                        heap,
                                        env,
                                        control: control.push(Control::Term(*body)),
                                        dump: s.dump,
                                    },
                                ),
                            },
                            _ => Step::Crash,
                        }
                    }
                }
            },
            Control::Term(value) => match value {
                LamTerm::Abstraction(..) => Step::Next(
                    TsState {
                        stack: s.stack.push(s.vals.len() as usize),
                        vals: s.vals.push((value, s.env)),
                        heap: s.heap,
                        env: s.env,
                        control,
                        dump: s.dump,
                    },
                ),
                LamTerm::Var(v, _) => match climb_exact(sparents(s.heap), s.env, v as nat) {
                    Some(e) => {
                        if e < 0 || e >= s.heap.len() {
                            Step::Crash
                        } else {
                            Step::Next(
                                TsState {
                                    stack: s.stack.push(s.heap[e as int].1),
                                    vals: s.vals,
                                    heap: s.heap,
                                    env: e,
                                    control,
                                    dump: s.dump,
                                },
                            )
                        }
                    },
                    None => Step::Crash,
                },
                LamTerm::Application(..) => Step::Crash,
            },
        }
    }
}

/// Runs the SECD machine on term trees for at most `fuel` transitions.
pub open spec fn ts_run(s: TsState, fuel: nat) -> Run<TsState>
    decreases fuel,
{
    if fuel == 0 {
        Run::OutOfFuel
    } else {
        match ts_step(s) {
            Step::Next(next) => ts_run(next, (fuel - 1) as nat).after(1),
            Step::Stop(last) => Run::Halted(last, 1),
            Step::Error(msg) => Run::Errored(msg),
            Step::Crash => Run::Crashed,
        }
    }
}

/// A larger budget does not change a finished outcome.
pub proof fn lemma_ts_run_fuel(s: TsState, f: nat, g: nat)
    requires
        ts_run(s, f).finished(),
        f <= g,
    ensures
        ts_run(s, g) == ts_run(s, f),
    decreases f,
{
    if f > 0 {
        if let Step::Next(next) = ts_step(s) {
            lemma_ts_run_fuel(next, (f - 1) as nat, (g - 1) as nat);
        }
    }
}

/// The initial SECD state for `t`: its control list, everything else empty.
pub open spec fn ts_init(t: LamTerm) -> TsState {
    TsState {
        stack: Seq::empty(),
        vals: Seq::empty(),
        heap: Seq::empty(),
        env: -1isize,
        control: tseq(t),
        dump: Seq::empty(),
    }
}

/// The SECD machine halts on `t` without crashing, within a number of
/// transitions a `usize` counts.
pub open spec fn ts_returns(t: LamTerm) -> bool {
    exists|f: nat| f <= usize::MAX && #[trigger] ts_run(ts_init(t), f).returned()
}

/// The outcome of the SECD machine on `t`.
pub open spec fn ts_outcome(t: LamTerm) -> Run<TsState> {
    ts_run(ts_init(t), choose|f: nat| f <= usize::MAX && #[trigger] ts_run(ts_init(t), f).returned())
}

/// Reads back the closure `(t, env)` at binder depth `level`: a variable bound
/// outside the current binders is replaced by the read-back of the closure its
/// heap frame names in `vals`. `None` when an index falls out of range, the
/// depth overflows, or the read-back does not finish within `fuel` nested
/// steps.
pub open spec fn ts_read(
    heap: Seq<(isize, usize)>,
    vals: Seq<Clo<LamTerm>>,
    t: LamTerm,
    env: isize,
    level: usize,
    fuel: nat,
) -> Option<LamTerm>
    decreases fuel,
{
    if fuel == 0 {
        None
    } else {
        match t {
            LamTerm::Abstraction(n, body) => {
                if level == usize::MAX {
                    None
                } else {
                    match ts_read(heap, vals, *body, env, (level + 1) as usize, (fuel - 1) as nat) {
                        Some(b) => Some(LamTerm::Abstraction(n, Box::new(b))),
                        None => None,
                    }
                }
            },
            LamTerm::Application(left, right) => {
                match (
                    ts_read(heap, vals, *left, env, level, (fuel - 1) as nat),
                    ts_read(heap, vals, *right, env, level, (fuel - 1) as nat),
                ) {
                    (Some(l), Some(r)) => Some(LamTerm::Application(Box::new(l), Box::new(r))),
                    _ => None,
                }
            },
            LamTerm::Var(v, k) => {
                if v >= level {
                    match climb_exact(sparents(heap), env, (v - level) as nat) {
                        None => None,
                        Some(e) => {
                            if e < 0 || e >= heap.len() || heap[e as int].1 >= vals.len() {
                                None
                            } else {
                                let c = vals[heap[e as int].1 as int];
                                ts_read(heap, vals, c.0, c.1, 0, (fuel - 1) as nat)
                            }
                        },
                    }
                } else {
                    Some(LamTerm::Var(v, k))
                }
            },
        }
    }
}

/// A larger budget does not change a finished outcome.
pub proof fn lemma_ts_read_fuel(
    heap: Seq<(isize, usize)>,
    vals: Seq<Clo<LamTerm>>,
    t: LamTerm,
    env: isize,
    level: usize,
    f: nat,
    g: nat,
)
    requires
        ts_read(heap, vals, t, env, level, f) is Some,
        f <= g,
    ensures
        ts_read(heap, vals, t, env, level, g) == ts_read(heap, vals, t, env, level, f),
    decreases f,
{
    match t {
        LamTerm::Abstraction(n, body) => {
            lemma_ts_read_fuel(heap, vals, *body, env, (level + 1) as usize, (f - 1) as nat, (g - 1) as nat);
        },
        LamTerm::Application(left, right) => {
            lemma_ts_read_fuel(heap, vals, *left, env, level, (f - 1) as nat, (g - 1) as nat);
            lemma_ts_read_fuel(heap, vals, *right, env, level, (f - 1) as nat, (g - 1) as nat);
        },
        LamTerm::Var(v, k) => {
            if v >= level {
                let e = climb_exact(sparents(heap), env, (v - level) as nat).unwrap();
                let c = vals[heap[e as int].1 as int];
                lemma_ts_read_fuel(heap, vals, c.0, c.1, 0, (f - 1) as nat, (g - 1) as nat);
            }
        },
    }
}

/// The result closure of a halted SECD machine reads back.
pub open spec fn ts_reads_back(fin: TsState) -> bool {
    let res = fin.stack.last();
    &&& res < fin.vals.len()
    &&& exists|f: nat| #[trigger] ts_read(fin.heap, fin.vals, fin.vals[res as int].0, fin.vals[res as int].1, 0, f) is Some
}

/// The term the result closure of a halted SECD machine reads back to.
pub open spec fn ts_readback(fin: TsState) -> LamTerm {
    let c = fin.vals[fin.stack.last() as int];
    ts_read(fin.heap, fin.vals, c.0, c.1, 0, choose|f: nat| #[trigger] ts_read(fin.heap, fin.vals, c.0, c.1, 0, f) is Some).unwrap()
}

/// The SECD machine halts on `t` and its result reads back.
pub open spec fn ts_runs_to_term(t: LamTerm) -> bool {
    &&& ts_returns(t)
    &&& ts_outcome(t) matches Run::Halted(fin, _) && ts_reads_back(fin)
}

fn termseq<'a>(term: &'a Box<LamTerm>) -> (seq: Vec<ControlElement<'a>>)
    ensures
        controls_view(seq@) == tseq(**term),
    decreases term,
{
    let mut seq: Vec<ControlElement<'a>> = Vec::new();
    match &**term {
        LamTerm::Application(left, right) => {
            seq.push(ControlElement::App);
            let mut l = termseq(left);
            seq.append(&mut l);
            let mut r = termseq(right);
            seq.append(&mut r);
            proof {
                assert(controls_view(seq@) =~= tseq(**term));
            }
        },
        _ => {
            seq.push(ControlElement::Term(term));
            proof {
                assert(controls_view(seq@) =~= tseq(**term));
            }
        },
    }
    seq
}

spec fn dump_view<'a>(d: Seq<(Vec<usize>, isize, Vec<ControlElement<'a>>)>) -> Seq<(Seq<usize>, isize, Seq<Control>)> {
    d.map_values(|e: (Vec<usize>, isize, Vec<ControlElement<'a>>)| (e.0@, e.1, controls_view(e.2@)))
}

fn secd_compute<'a>(term: &'a Box<LamTerm>) -> (r: ((usize, Vec<(isize, usize)>, Vec<Closure<'a>>), usize))
    requires
        ts_returns(**term),
    ensures
        ts_outcome(**term) matches Run::Halted(fin, n) && r.0.0 == fin.stack.last() && r.0.1@ == fin.heap
            && clos_view(r.0.2@) == fin.vals && r.1 == n,
{
    let mut stack: Vec<usize> = Vec::new();
    let mut vals: Vec<Closure<'a>> = Vec::new();
    let mut heap: Vec<(isize, usize)> = Vec::new();
    let mut curenviron: isize = -1;
    let mut curterm: Vec<ControlElement<'a>> = termseq(term);
    let mut dump: Vec<(Vec<usize>, isize, Vec<ControlElement<'a>>)> = Vec::new();
    let mut steps: usize = 0;
    let ghost f0 = choose|f: nat| f <= usize::MAX && #[trigger] ts_run(ts_init(**term), f).returned();
    let ghost mut fl: nat = f0;
    proof {
        assert(dump_view(dump@) =~= Seq::<(Seq<usize>, isize, Seq<Control>)>::empty());
        assert(clos_view(vals@) =~= Seq::<Clo<LamTerm>>::empty());
    }
    loop
        invariant
            ts_run(
                TsState {
                    stack: stack@,
                    vals: clos_view(vals@),
                    heap: heap@,
                    env: curenviron,
                    control: controls_view(curterm@),
                    dump: dump_view(dump@),
                },
                fl,
            ).returned(),
            ts_outcome(**term) == ts_run(
                TsState {
                    stack: stack@,
                    vals: clos_view(vals@),
                    heap: heap@,
                    env: curenviron,
                    control: controls_view(curterm@),
                    dump: dump_view(dump@),
                },
                fl,
            ).after(steps as nat),
            steps + fl <= usize::MAX,
        decreases fl,
    {
        let ghost s = TsState {
            stack: stack@,
            vals: clos_view(vals@),
            heap: heap@,
            env: curenviron,
            control: controls_view(curterm@),
            dump: dump_view(dump@),
        };
        assert(fl > 0);
        steps += 1;
        if curterm.len() == 0 {
            let res = stack.pop().unwrap();
            if dump.len() == 0 {
                return ((res, heap, vals), steps);
            }
            let sec = dump.pop().unwrap();
            stack = sec.0;
            curenviron = sec.1;
            curterm = sec.2;
            stack.push(res);
            proof {
                fl = (fl - 1) as nat;
                assert(dump_view(dump@) =~= s.dump.drop_last());
            }
            continue;
        }
        let topterm = curterm.pop().unwrap();
        assert(controls_view(curterm@) =~= s.control.drop_last());
        match topterm {
            ControlElement::App => {
                let left = &vals[stack.pop().unwrap()];
                let rightpos = stack.pop().unwrap();
                assert(stack@ =~= s.stack.take(s.stack.len() - 2));
                curenviron = left.environ;
                heap.push((curenviron, rightpos));
                curenviron = (#[verifier::truncate] (heap.len() as isize)) - 1;
                match &**left.term {
                    LamTerm::Abstraction(_, body) => match &**body {
                        LamTerm::Application(..) => {
                            dump.push((stack, curenviron, curterm));
                            stack = Vec::new();
                            curterm = termseq(body);
                            proof {
                                fl = (fl - 1) as nat;
                                assert(dump_view(dump@) =~= s.dump.push(
                                    (s.stack.take(s.stack.len() - 2), curenviron, s.control.drop_last()),
                                ));
                            }
                        },
                        LamTerm::Abstraction(..) => {
                            vals.push(Closure { term: body, environ: curenviron });
                            stack.push(vals.len() - 1);
                            proof {
                                fl = (fl - 1) as nat;
                                assert(clos_view(vals@) =~= s.vals.push((**body, curenviron)));
                            }
                        },
                        LamTerm::Var(..) => {
                            curterm.push(ControlElement::Term(body));
                            proof {
                                fl = (fl - 1) as nat;
                                assert(controls_view(curterm@) =~= s.control.drop_last().push(Control::Term(**body)));
                            }
                        },
                    },
                    _ => {
                        assert(false);
                        return ((0, heap, vals), steps);
                    },
                }
            },
            ControlElement::Term(value) => {
                match &**value {
                    LamTerm::Abstraction(..) => {
                        vals.push(Closure { term: value, environ: curenviron });
                        stack.push(vals.len() - 1);
                        proof {
                            fl = (fl - 1) as nat;
                            assert(clos_view(vals@) =~= s.vals.push((**value, s.env)));
                        }
                    },
                    LamTerm::Var(v, _) => {
                        let ghost parents = sparents(heap@);
                        let ghost e = climb_exact(parents, curenviron, *v as nat).unwrap();
                        let mut i: usize = 0;
                        while i < *v
                            invariant
                                0 <= i <= *v,
                                climb_exact(parents, curenviron, (*v - i) as nat) == Some(e),
                                parents == sparents(heap@),
                            decreases *v - i,
                        {
                            assert(parents[curenviron as int] == heap@[curenviron as int].0);
                            curenviron = heap[curenviron as usize].0;
                            i += 1;
                        }
                        stack.push(heap[curenviron as usize].1);
                        proof {
                            fl = (fl - 1) as nat;
                        }
                    },
                    _ => {
                        assert(false);
                        return ((0, heap, vals), steps);
                    },
                }
            },
        }
    }
}

/// The closures the SECD read-back of `(t, env)` adds to the closure list, in
/// the order it adds them: the body of each abstraction it enters, and the two
/// parts of each application, before the closures their own read-backs add.
pub open spec fn ts_pushed(
    heap: Seq<(isize, usize)>,
    vals: Seq<Clo<LamTerm>>,
    t: LamTerm,
    env: isize,
    level: usize,
    fuel: nat,
) -> Seq<Clo<LamTerm>>
    decreases fuel,
{
    if fuel == 0 {
        Seq::empty()
    } else {
        match t {
            LamTerm::Abstraction(n, body) => seq![(*body, env)] + if level == usize::MAX {
                Seq::empty()
            } else {
                ts_pushed(heap, vals, *body, env, (level + 1) as usize, (fuel - 1) as nat)
            },
            LamTerm::Application(left, right) => seq![(*left, env), (*right, env)] + ts_pushed(
                heap,
                vals,
                *left,
                env,
                level,
                (fuel - 1) as nat,
            ) + ts_pushed(heap, vals, *right, env, level, (fuel - 1) as nat),
            LamTerm::Var(v, k) => {
                if v >= level {
                    match climb_exact(sparents(heap), env, (v - level) as nat) {
                        Some(e) => {
                            if e < 0 || e >= heap.len() || heap[e as int].1 >= vals.len() {
                                Seq::empty()
                            } else {
                                let c = vals[heap[e as int].1 as int];
                                ts_pushed(heap, vals, c.0, c.1, 0, (fuel - 1) as nat)
                            }
                        },
                        None => Seq::empty(),
                    }
                } else {
                    Seq::empty()
                }
            },
        }
    }
}

fn secd_closure_to_closed_term<'a>(
    clos: usize,
    heap: &Vec<(isize, usize)>,
    vals: &mut Vec<Closure<'a>>,
    level: usize,
    Ghost(orig): Ghost<Seq<Clo<LamTerm>>>,
    Ghost(fuel): Ghost<nat>,
) -> (r: Box<LamTerm>)
    requires
        clos < old(vals)@.len(),
        orig.len() <= old(vals)@.len(),
        clos_view(old(vals)@).take(orig.len() as int) == orig,
        ts_read(heap@, orig, clo_view(old(vals)@[clos as int]).0, old(vals)@[clos as int].environ, level, fuel) is Some,
    ensures
        final(vals)@.len() >= old(vals)@.len(),
        final(vals)@.take(old(vals)@.len() as int) == old(vals)@,
        clos_view(final(vals)@) == clos_view(old(vals)@) + ts_pushed(
            heap@,
            orig,
            clo_view(old(vals)@[clos as int]).0,
            old(vals)@[clos as int].environ,
            level,
            fuel,
        ),
        Some(*r) == ts_read(heap@, orig, clo_view(old(vals)@[clos as int]).0, old(vals)@[clos as int].environ, level, fuel),
    decreases fuel,
{
    let c = Closure { term: vals[clos].term, environ: vals[clos].environ };
    let ghost old_vals = vals@;
    match &**c.term {
        LamTerm::Abstraction(n, subterm) => {
            let recclos = Closure { term: subterm, environ: c.environ };
            vals.push(recclos);
            proof {
                assert(clos_view(vals@).take(orig.len() as int) =~= orig) by {
                    assert(clos_view(vals@).take(orig.len() as int) =~= clos_view(old_vals).take(orig.len() as int));
                }
            }
            let ghost mid = vals@;
            let body = secd_closure_to_closed_term(vals.len() - 1, heap, vals, level + 1, Ghost(orig), Ghost((fuel - 1) as nat));
            proof {
                assert(vals@.take(old_vals.len() as int) =~= old_vals) by {
                    assert forall|i: int| 0 <= i < old_vals.len() implies vals@[i] == old_vals[i] by {
                        assert(vals@.take(mid.len() as int)[i] == mid[i]);
                    }
                }
                assert(clos_view(mid) =~= clos_view(old_vals) + seq![(**subterm, c.environ)]);
                assert(clos_view(vals@) =~= clos_view(old_vals) + ts_pushed(
                    heap@,
                    orig,
                    **c.term,
                    c.environ,
                    level,
                    fuel,
                ));
            }
            Box::new(LamTerm::Abstraction(*n, body))
        },
        LamTerm::Application(st1, st2) => {
            let recclos1 = Closure { term: st1, environ: c.environ };
            let recclos2 = Closure { term: st2, environ: c.environ };
            let pos = vals.len();
            vals.push(recclos1);
            let second = vals.len();
            vals.push(recclos2);
            let ghost mid = vals@;
            proof {
                assert(clos_view(vals@).take(orig.len() as int) =~= orig) by {
                    assert(clos_view(vals@).take(orig.len() as int) =~= clos_view(old_vals).take(orig.len() as int));
                }
            }
            let left = secd_closure_to_closed_term(pos, heap, vals, level, Ghost(orig), Ghost((fuel - 1) as nat));
            proof {
                assert(vals@[pos + 1] == mid[pos + 1]) by {
                    assert(vals@.take(mid.len() as int)[pos + 1] == mid[pos + 1]);
                }
                assert(clos_view(vals@).take(orig.len() as int) =~= orig) by {
                    assert(clos_view(vals@).take(orig.len() as int) =~= clos_view(mid).take(orig.len() as int)) by {
                        assert forall|i: int| 0 <= i < orig.len() implies clos_view(vals@)[i] == clos_view(mid)[i] by {
                            assert(vals@.take(mid.len() as int)[i] == mid[i]);
                        }
                    }
                }
            }
            let right = secd_closure_to_closed_term(second, heap, vals, level, Ghost(orig), Ghost((fuel - 1) as nat));
            proof {
                assert(vals@.take(old_vals.len() as int) =~= old_vals) by {
                    assert forall|i: int| 0 <= i < old_vals.len() implies vals@[i] == old_vals[i] by {
                        assert(vals@.take(mid.len() as int)[i] == mid[i]);
                    }
                }
            }
            Box::new(LamTerm::Application(left, right))
        },
        LamTerm::Var(v, k) => {
            if *v >= level {
                let ghost parents = sparents(heap@);
                let ghost e = climb_exact(parents, c.environ, (*v - level) as nat).unwrap();
                let mut env = c.environ;
                let mut i = level;
                while i < *v
                    invariant
                        level <= i <= *v,
                        climb_exact(parents, env, (*v - i) as nat) == Some(e),
                        parents == sparents(heap@),
                    decreases *v - i,
                {
                    assert(parents[env as int] == heap@[env as int].0);
                    env = heap[env as usize].0;
                    i += 1;
                }
                proof {
                    assert(clos_view(vals@)[heap@[env as int].1 as int] == orig[heap@[env as int].1 as int]);
                }
                secd_closure_to_closed_term(heap[env as usize].1, heap, vals, 0, Ghost(orig), Ghost((fuel - 1) as nat))
            } else {
                Box::new(LamTerm::Var(*v, *k))
            }
        },
    }
}

/// Runs the SECD machine on `term` until its control and dump are empty,
/// reads the resulting closure back as a term, and returns that term and the
/// number of transitions.
pub fn run_secd(term: &Box<LamTerm>) -> (r: (Box<LamTerm>, usize))
    requires
        ts_runs_to_term(**term),
    ensures
        ts_outcome(**term) matches Run::Halted(fin, n) && *r.0 == ts_readback(fin) && r.1 == n,
{
    let (mut result, steps) = secd_compute(term);
    let ghost fin = ts_outcome(**term)->Halted_0;
    let ghost c = fin.vals[fin.stack.last() as int];
    let ghost f = choose|f: nat| #[trigger] ts_read(fin.heap, fin.vals, c.0, c.1, 0, f) is Some;
    proof {
        assert(clos_view(result.2@).take(fin.vals.len() as int) =~= fin.vals);
    }
    (secd_closure_to_closed_term(result.0, &result.1, &mut result.2, 0, Ghost(fin.vals), Ghost(f)), steps)
}

} // verus!
