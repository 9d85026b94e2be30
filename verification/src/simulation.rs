//! The machines on the binary encoding run in step with the machines on term
//! trees.

use vstd::prelude::*;

use crate::binlam::{
    encode, enc_len, header_len, encodes_at, starts_with_header, lemma_encode_len, lemma_node_fields,
    kb_step, kb_run, kb_returns, kb_outcome, kb_read, kb_reads_back, kb_readback, kb_runs_to_term,
    lemma_kb_run_fuel, APP_CODE, ABS_CODE, VAR_CODE, bseq, bseq_ok,
    bseq_of, lemma_bseq_fuel, BsState, bs_step, bs_run, bs_init, bs_returns, bs_outcome,
    lemma_bs_run_fuel,
};
use crate::machine::{Clo, KHeap, KState, Step, Run, kinit, climb, climb_exact, kparents};
use crate::rslam::{
    kt_step, kt_run, kt_returns, kt_outcome, kt_read, kt_reads_back, kt_readback, kt_runs_to_term,
    lemma_kt_run_fuel, lemma_kt_read_fuel, Control, tseq, TsState, ts_step, ts_run, ts_init,
    ts_returns, ts_outcome, lemma_ts_run_fuel,
};
use crate::term::LamTerm;

verus! {

/// The slice `s` stands, in the buffer `buf`, for the term `u`: it starts
/// with the header of a node of `buf` that encodes `u`.
pub open spec fn rep(buf: Seq<usize>, s: Seq<usize>, u: LamTerm) -> bool {
    exists|p: int| encodes_at(buf, p, u) && starts_with_header(s, buf, p, u)
}

pub open spec fn rep_clos(buf: Seq<usize>, cb: Seq<Clo<Seq<usize>>>, ct: Seq<Clo<LamTerm>>) -> bool {
    &&& cb.len() == ct.len()
    &&& forall|i: int| 0 <= i < cb.len() ==> rep(buf, #[trigger] cb[i].0, ct[i].0) && cb[i].1 == ct[i].1
}

pub open spec fn rep_heap(buf: Seq<usize>, hb: KHeap<Seq<usize>>, ht: KHeap<LamTerm>) -> bool {
    &&& hb.len() == ht.len()
    &&& forall|i: int| 0 <= i < hb.len() ==> (#[trigger] hb[i]).0 == ht[i].0 && rep_clos(buf, hb[i].1, ht[i].1)
}

/// A state of the binary Krivine machine stands for a state of the tree one.
pub open spec fn rep_state(buf: Seq<usize>, sb: KState<Seq<usize>>, st: KState<LamTerm>) -> bool {
    &&& rep(buf, sb.cur, st.cur)
    &&& sb.env == st.env
    &&& rep_clos(buf, sb.stack, st.stack)
    &&& rep_heap(buf, sb.heap, st.heap)
}

proof fn lemma_climb_agrees(hb: KHeap<Seq<usize>>, ht: KHeap<LamTerm>, buf: Seq<usize>, env: isize, n: nat)
    requires
        rep_heap(buf, hb, ht),
    ensures
        climb(hb, env, n) == climb(ht, env, n),
    decreases n,
{
    if n > 0 && env >= 0 && env < hb.len() {
        assert(hb[env as int].0 == ht[env as int].0);
        lemma_climb_agrees(hb, ht, buf, hb[env as int].0, (n - 1) as nat);
    }
}

proof fn lemma_parents_agree(hb: KHeap<Seq<usize>>, ht: KHeap<LamTerm>, buf: Seq<usize>)
    requires
        rep_heap(buf, hb, ht),
    ensures
        kparents(hb) == kparents(ht),
{
    assert(kparents(hb) =~= kparents(ht)) by {
        assert forall|i: int| 0 <= i < hb.len() implies kparents(hb)[i] == kparents(ht)[i] by {
            assert(hb[i].0 == ht[i].0);
        }
    }
}

/// One transition of each machine keeps the two states in step.
proof fn lemma_step_agrees(buf: Seq<usize>, sb: KState<Seq<usize>>, st: KState<LamTerm>)
    requires
        buf.len() <= usize::MAX,
        rep_state(buf, sb, st),
    ensures
        match (kb_step(buf, sb), kt_step(st)) {
            (Step::Next(nb), Step::Next(nt)) => rep_state(buf, nb, nt),
            (Step::Stop(nb), Step::Stop(nt)) => rep_state(buf, nb, nt),
            (Step::Crash, Step::Crash) => true,
            _ => false,
        },
{
    let p = choose|p: int| encodes_at(buf, p, st.cur) && starts_with_header(sb.cur, buf, p, st.cur);
    lemma_node_fields(buf, sb.cur, st.cur, p);
    match st.cur {
        LamTerm::Application(l, r) => {
            let nb = kb_step(buf, sb)->Next_0;
            let nt = kt_step(st)->Next_0;
            assert(rep(buf, nb.cur, nt.cur));
            assert(rep(buf, buf.subrange(sb.cur[3] as int, sb.cur[4] as int), *r));
            assert(rep_clos(buf, nb.stack, nt.stack));
        },
        LamTerm::Abstraction(n, b) => {
            if sb.stack.len() >= n {
                let nb = kb_step(buf, sb)->Next_0;
                let nt = kt_step(st)->Next_0;
                let at = sb.stack.len() - n;
                assert(rep(buf, nb.cur, nt.cur));
                assert(rep_clos(buf, nb.stack, nt.stack));
                assert(rep_clos(buf, sb.stack.skip(at), st.stack.skip(at)));
                assert(rep_heap(buf, nb.heap, nt.heap)) by {
                    assert forall|i: int| 0 <= i < nb.heap.len() implies (#[trigger] nb.heap[i]).0 == nt.heap[i].0
                        && rep_clos(buf, nb.heap[i].1, nt.heap[i].1) by {
                        if i < sb.heap.len() {
                            assert(nb.heap[i] == sb.heap[i]);
                            assert(nt.heap[i] == st.heap[i]);
                        }
                    }
                }
            }
        },
        LamTerm::Var(v, k) => {
            lemma_climb_agrees(sb.heap, st.heap, buf, sb.env, v as nat);
            match climb(sb.heap, sb.env, v as nat) {
                None => {},
                Some(e) => {
                    if e >= 0 && e < sb.heap.len() {
                        let ab = sb.heap[e as int].1;
                        let at = st.heap[e as int].1;
                        assert(ab.len() == at.len());
                        if k > 0 && k <= ab.len() {
                            assert(rep(buf, ab[ab.len() - k].0, at[at.len() - k].0));
                        }
                    }
                },
            }
        },
    }
}

/// The two runs agree: same kind of outcome, same number of transitions, and
/// final states in step.
pub open spec fn runs_agree(buf: Seq<usize>, rb: Run<KState<Seq<usize>>>, rt: Run<KState<LamTerm>>) -> bool {
    match (rb, rt) {
        (Run::Halted(fb, nb), Run::Halted(ft, nt)) => nb == nt && rep_state(buf, fb, ft),
        (Run::Crashed, Run::Crashed) => true,
        (Run::OutOfFuel, Run::OutOfFuel) => true,
        _ => false,
    }
}

proof fn lemma_run_agrees(buf: Seq<usize>, sb: KState<Seq<usize>>, st: KState<LamTerm>, fuel: nat)
    requires
        buf.len() <= usize::MAX,
        rep_state(buf, sb, st),
    ensures
        runs_agree(buf, kb_run(buf, sb, fuel), kt_run(st, fuel)),
    decreases fuel,
{
    if fuel > 0 {
        lemma_step_agrees(buf, sb, st);
        match kb_step(buf, sb) {
            Step::Next(nb) => {
                let nt = kt_step(st)->Next_0;
                lemma_run_agrees(buf, nb, nt, (fuel - 1) as nat);
            },
            _ => {},
        }
    }
}

proof fn lemma_read_agrees(
    buf: Seq<usize>,
    hb: KHeap<Seq<usize>>,
    ht: KHeap<LamTerm>,
    s: Seq<usize>,
    u: LamTerm,
    env: isize,
    level: usize,
    fuel: nat,
)
    requires
        buf.len() <= usize::MAX,
        rep_heap(buf, hb, ht),
        rep(buf, s, u),
    ensures
        kb_read(buf, hb, s, env, level, fuel) == kt_read(ht, u, env, level, fuel),
    decreases fuel,
{
    if fuel > 0 {
        let p = choose|p: int| encodes_at(buf, p, u) && starts_with_header(s, buf, p, u);
        lemma_node_fields(buf, s, u, p);
        match u {
            LamTerm::Abstraction(n, b) => {
                if level < usize::MAX {
                    lemma_read_agrees(
                        buf,
                        hb,
                        ht,
                        buf.subrange(s[2] as int, s[3] as int),
                        *b,
                        env,
                        (level + 1) as usize,
                        (fuel - 1) as nat,
                    );
                }
            },
            LamTerm::Application(l, r) => {
                lemma_read_agrees(buf, hb, ht, buf.subrange(s[1] as int, s[2] as int), *l, env, level, (fuel - 1) as nat);
                lemma_read_agrees(buf, hb, ht, buf.subrange(s[3] as int, s[4] as int), *r, env, level, (fuel - 1) as nat);
            },
            LamTerm::Var(v, k) => {
                if v >= level {
                    lemma_parents_agree(hb, ht, buf);
                    match climb_exact(kparents(hb), env, (v - level) as nat) {
                        None => {},
                        Some(e) => {
                            if e >= 0 && e < hb.len() {
                                let ab = hb[e as int].1;
                                let at = ht[e as int].1;
                                assert(ab.len() == at.len());
                                if k > 0 && k - 1 < ab.len() {
                                    assert(rep(buf, ab[k - 1].0, at[k - 1].0));
                                    lemma_read_agrees(buf, hb, ht, ab[k - 1].0, at[k - 1].0, ab[k - 1].1, 0, (fuel - 1) as nat);
                                }
                            }
                        },
                    }
                }
            },
        }
    }
}

/// The Krivine machine on the binary encoding of a term behaves as the one on
/// the term tree: it returns exactly when the tree machine halts and its result
/// fits a buffer, after the same number of transitions, and its final closure
/// reads back to the same term. With `law_decode_of_encode`: decoding what
/// `run_kirvine` gives for the output of `lam_term_to_bin` gives what
/// `run_krivine` gives.
pub proof fn law_binary_krivine_agrees(t: LamTerm)
    requires
        enc_len(t) <= usize::MAX,
    ensures
        ({
            let buf = encode(t, 0);
            &&& kb_runs_to_term(buf) <==> (kt_runs_to_term(t) && enc_len(kt_readback(kt_outcome(t)->Halted_0)) <= usize::MAX)
            &&& kb_runs_to_term(buf) ==> {
                &&& kb_outcome(buf) matches Run::Halted(fb, nb)
                &&& kt_outcome(t) matches Run::Halted(ft, nt)
                &&& nb == nt
                &&& kb_readback(buf, fb) == kt_readback(ft)
            }
        }),
{
    let buf = encode(t, 0);
    lemma_encode_len(t, 0);
    assert(buf.subrange(0, enc_len(t) as int) =~= buf);
    assert(rep(buf, buf, t)) by {
        assert(encodes_at(buf, 0, t) && starts_with_header(buf, buf, 0, t));
    }
    assert(rep_state(buf, kinit(buf), kinit(t))) by {
        assert(rep_clos(buf, kinit(buf).stack, kinit(t).stack));
        assert(rep_heap(buf, kinit(buf).heap, kinit(t).heap));
    }
    // Both machines return exactly when the other does.
    if kb_returns(buf) {
        let f = choose|f: nat| f <= usize::MAX && #[trigger] kb_run(buf, kinit(buf), f).returned();
        lemma_run_agrees(buf, kinit(buf), kinit(t), f);
        assert(kt_run(kinit(t), f).returned());
    }
    if kt_returns(t) {
        let f = choose|f: nat| f <= usize::MAX && #[trigger] kt_run(kinit(t), f).returned();
        lemma_run_agrees(buf, kinit(buf), kinit(t), f);
        assert(kb_run(buf, kinit(buf), f).returned());
    }
    if kb_returns(buf) {
        let fb = choose|f: nat| f <= usize::MAX && #[trigger] kb_run(buf, kinit(buf), f).returned();
        let ft = choose|f: nat| f <= usize::MAX && #[trigger] kt_run(kinit(t), f).returned();
        lemma_run_agrees(buf, kinit(buf), kinit(t), fb);
        lemma_run_agrees(buf, kinit(buf), kinit(t), ft);
        if fb <= ft {
            lemma_kb_run_fuel(buf, kinit(buf), fb, ft);
        } else {
            lemma_kt_run_fuel(kinit(t), ft, fb);
        }
        let sb = kb_outcome(buf)->Halted_0;
        let st = kt_outcome(t)->Halted_0;
        assert(runs_agree(buf, kb_outcome(buf), kt_outcome(t)));
        assert(forall|f: nat| kb_read(buf, sb.heap, sb.cur, sb.env, 0, f) == kt_read(st.heap, st.cur, st.env, 0, f)) by {
            assert forall|f: nat| kb_read(buf, sb.heap, sb.cur, sb.env, 0, f) == kt_read(st.heap, st.cur, st.env, 0, f) by {
                lemma_read_agrees(buf, sb.heap, st.heap, sb.cur, st.cur, sb.env, 0, f);
            }
        }
        if kb_reads_back(buf, sb) {
            let f = choose|f: nat| #[trigger] kb_read(buf, sb.heap, sb.cur, sb.env, 0, f) is Some;
            assert(kt_read(st.heap, st.cur, st.env, 0, f) is Some);
        }
        if kt_reads_back(st) {
            let f = choose|f: nat| #[trigger] kt_read(st.heap, st.cur, st.env, 0, f) is Some;
            assert(kb_read(buf, sb.heap, sb.cur, sb.env, 0, f) is Some);
        }
        if kb_reads_back(buf, sb) {
            let f1 = choose|f: nat| #[trigger] kb_read(buf, sb.heap, sb.cur, sb.env, 0, f) is Some;
            let f2 = choose|f: nat| #[trigger] kt_read(st.heap, st.cur, st.env, 0, f) is Some;
            assert(kt_read(st.heap, st.cur, st.env, 0, f1) is Some);
            if f1 <= f2 {
                lemma_kt_read_fuel(st.heap, st.cur, st.env, 0, f1, f2);
            } else {
                lemma_kt_read_fuel(st.heap, st.cur, st.env, 0, f2, f1);
            }
            assert(kb_readback(buf, sb) == kt_readback(st));
        }
    }
}


// ---------------------------------------------------------------------------
// The two SECD machines
// ---------------------------------------------------------------------------

/// The control element `c` of the binary SECD machine stands for `k`: the
/// application marker, or the position of the encoding of a term that is not
/// an application.
pub open spec fn rep_ctl(buf: Seq<usize>, c: isize, k: Control) -> bool {
    match k {
        Control::App => c == -1,
        Control::Term(u) => !(u is Application) && c >= 0 && encodes_at(buf, c as int, u),
    }
}

pub open spec fn rep_ctls(buf: Seq<usize>, cs: Seq<isize>, ks: Seq<Control>) -> bool {
    &&& cs.len() == ks.len()
    &&& forall|i: int| 0 <= i < cs.len() ==> rep_ctl(buf, #[trigger] cs[i], ks[i])
}

/// The closures of the binary SECD machine (positions of abstractions) stand
/// for those of the tree machine.
pub open spec fn rep_vals(buf: Seq<usize>, vb: Seq<(usize, isize)>, vt: Seq<Clo<LamTerm>>) -> bool {
    &&& vb.len() == vt.len()
    &&& forall|i: int| 0 <= i < vb.len() ==> {
        &&& (#[trigger] vb[i]).1 == vt[i].1
        &&& vt[i].0 is Abstraction
        &&& encodes_at(buf, vb[i].0 as int, vt[i].0)
    }
}

pub open spec fn rep_dump(
    buf: Seq<usize>,
    db: Seq<(Seq<usize>, isize, Seq<isize>)>,
    dt: Seq<(Seq<usize>, isize, Seq<Control>)>,
) -> bool {
    &&& db.len() == dt.len()
    &&& forall|i: int| 0 <= i < db.len() ==> {
        &&& (#[trigger] db[i]).0 == dt[i].0
        &&& db[i].1 == dt[i].1
        &&& rep_ctls(buf, db[i].2, dt[i].2)
    }
}

/// A state of the binary SECD machine stands for a state of the tree one.
pub open spec fn rep_secd(buf: Seq<usize>, sb: BsState, st: TsState) -> bool {
    &&& sb.stack == st.stack
    &&& sb.heap == st.heap
    &&& sb.env == st.env
    &&& rep_vals(buf, sb.vals, st.vals)
    &&& rep_ctls(buf, sb.control, st.control)
    &&& rep_dump(buf, sb.dump, st.dump)
}

/// Facts about the header at position `p` of a buffer that encodes `u` there.
proof fn lemma_fields_at(buf: Seq<usize>, p: int, u: LamTerm)
    requires
        buf.len() <= usize::MAX,
        encodes_at(buf, p, u),
    ensures
        p + header_len(u) <= buf.len(),
        match u {
            LamTerm::Application(l, r) => {
                &&& buf[p] == APP_CODE
                &&& buf[p + 1] == p + 5
                &&& buf[p + 3] == p + 5 + enc_len(*l)
                &&& encodes_at(buf, p + 5, *l)
                &&& encodes_at(buf, p + 5 + enc_len(*l), *r)
            },
            LamTerm::Abstraction(n, b) => {
                &&& buf[p] == ABS_CODE
                &&& buf[p + 2] == p + 4
                &&& encodes_at(buf, p + 4, *b)
            },
            LamTerm::Var(v, k) => {
                &&& buf[p] == VAR_CODE
                &&& buf[p + 1] == v
            },
        },
{
    lemma_encode_len(u, p);
    let s = buf.subrange(p, p + header_len(u));
    lemma_node_fields(buf, s, u, p);
    assert(s[0] == buf[p]);
    assert(s[1] == buf[p + 1]);
    assert(s[2] == buf[p + 2]);
    if !(u is Var) {
        assert(s[3] == buf[p + 3]);
    }
    if let LamTerm::Application(l, r) = u {
        lemma_encode_len(*l, p + 5);
    }
}

proof fn lemma_bseq_encoded(buf: Seq<usize>, p: int, u: LamTerm)
    requires
        buf.len() <= isize::MAX,
        encodes_at(buf, p, u),
    ensures
        bseq(buf, p as usize, enc_len(u)) is Some,
        rep_ctls(buf, bseq(buf, p as usize, enc_len(u)).unwrap(), tseq(u)),
    decreases u,
{
    lemma_fields_at(buf, p, u);
    lemma_encode_len(u, p);
    match u {
        LamTerm::Application(l, r) => {
            let lp = p + 5;
            let rp = p + 5 + enc_len(*l);
            lemma_encode_len(*l, lp);
            lemma_encode_len(*r, rp);
            lemma_bseq_encoded(buf, lp, *l);
            lemma_bseq_encoded(buf, rp, *r);
            lemma_bseq_fuel(buf, lp as usize, enc_len(*l), (enc_len(u) - 1) as nat);
            lemma_bseq_fuel(buf, rp as usize, enc_len(*r), (enc_len(u) - 1) as nat);
            let cl = bseq(buf, lp as usize, enc_len(*l)).unwrap();
            let cr = bseq(buf, rp as usize, enc_len(*r)).unwrap();
            let cs = seq![-1isize] + cl + cr;
            let ks = seq![Control::App] + tseq(*l) + tseq(*r);
            assert(bseq(buf, p as usize, enc_len(u)) == Some(cs));
            assert(rep_ctls(buf, cs, ks)) by {
                assert forall|i: int| 0 <= i < cs.len() implies rep_ctl(buf, #[trigger] cs[i], ks[i]) by {
                    if 1 <= i < 1 + cl.len() {
                        assert(cs[i] == cl[i - 1]);
                        assert(ks[i] == tseq(*l)[i - 1]);
                    } else if i >= 1 + cl.len() {
                        assert(cs[i] == cr[i - 1 - cl.len()]);
                        assert(ks[i] == tseq(*r)[i - 1 - cl.len()]);
                    }
                }
            }
        },
        _ => {
            assert(rep_ctl(buf, seq![p as isize][0], seq![Control::Term(u)][0]));
        },
    }
}

proof fn lemma_bseq_of_encoded(buf: Seq<usize>, p: int, u: LamTerm)
    requires
        buf.len() <= isize::MAX,
        encodes_at(buf, p, u),
    ensures
        bseq_ok(buf, p as usize),
        rep_ctls(buf, bseq_of(buf, p as usize), tseq(u)),
{
    lemma_bseq_encoded(buf, p, u);
    let f = enc_len(u);
    let g = choose|f: nat| #[trigger] bseq(buf, p as usize, f) is Some;
    if f <= g {
        lemma_bseq_fuel(buf, p as usize, f, g);
    } else {
        lemma_bseq_fuel(buf, p as usize, g, f);
    }
}

/// One transition of each SECD machine keeps the two states in step.
proof fn lemma_secd_step_agrees(buf: Seq<usize>, sb: BsState, st: TsState)
    requires
        buf.len() <= isize::MAX,
        rep_secd(buf, sb, st),
    ensures
        match (bs_step(buf, sb), ts_step(st)) {
            (Step::Next(nb), Step::Next(nt)) => rep_secd(buf, nb, nt),
            (Step::Stop(nb), Step::Stop(nt)) => rep_secd(buf, nb, nt),
            (Step::Crash, Step::Crash) => true,
            _ => false,
        },
{
    if sb.control.len() == 0 {
        if sb.stack.len() > 0 && sb.dump.len() > 0 {
            let nb = bs_step(buf, sb)->Next_0;
            let nt = ts_step(st)->Next_0;
            assert(rep_dump(buf, nb.dump, nt.dump));
        }
    } else {
        let top = sb.control.last();
        let k = st.control.last();
        assert(rep_ctl(buf, top, k));
        assert(rep_ctls(buf, sb.control.drop_last(), st.control.drop_last()));
        match k {
            Control::App => {
                if sb.stack.len() >= 2 && sb.stack.last() < sb.vals.len() {
                    let li = sb.stack.last() as int;
                    assert(rep_vals(buf, sb.vals, st.vals));
                    let pos = sb.vals[li].0 as int;
                    let lt = st.vals[li].0;
                    lemma_fields_at(buf, pos, lt);
                    let body = lt->Abstraction_1;
                    let bp = pos + 4;
                    lemma_fields_at(buf, bp, *body);
                    let c = (st.heap.len() + 1) as isize;
                    if c - 1 >= isize::MIN {
                        match *body {
                            LamTerm::Application(..) => {
                                lemma_bseq_of_encoded(buf, bp, *body);
                                let nb = bs_step(buf, sb)->Next_0;
                                let nt = ts_step(st)->Next_0;
                                assert(rep_dump(buf, nb.dump, nt.dump));
                            },
                            LamTerm::Abstraction(..) => {
                                let nb = bs_step(buf, sb)->Next_0;
                                let nt = ts_step(st)->Next_0;
                                assert(rep_vals(buf, nb.vals, nt.vals));
                            },
                            LamTerm::Var(..) => {
                                let nb = bs_step(buf, sb)->Next_0;
                                let nt = ts_step(st)->Next_0;
                                assert(rep_ctl(buf, (bp as usize) as isize, Control::Term(*body)));
                                assert(rep_ctls(buf, nb.control, nt.control));
                            },
                        }
                    }
                }
            },
            Control::Term(u) => {
                lemma_fields_at(buf, top as int, u);
                match u {
                    LamTerm::Abstraction(..) => {
                        let nb = bs_step(buf, sb)->Next_0;
                        let nt = ts_step(st)->Next_0;
                        assert(rep_vals(buf, nb.vals, nt.vals));
                    },
                    _ => {},
                }
            },
        }
    }
}

/// The two SECD runs agree: same kind of outcome, same number of transitions,
/// and final states in step.
pub open spec fn secd_runs_agree(buf: Seq<usize>, rb: Run<BsState>, rt: Run<TsState>) -> bool {
    match (rb, rt) {
        (Run::Halted(fb, nb), Run::Halted(ft, nt)) => nb == nt && rep_secd(buf, fb, ft),
        (Run::Crashed, Run::Crashed) => true,
        (Run::OutOfFuel, Run::OutOfFuel) => true,
        _ => false,
    }
}

proof fn lemma_secd_run_agrees(buf: Seq<usize>, sb: BsState, st: TsState, fuel: nat)
    requires
        buf.len() <= isize::MAX,
        rep_secd(buf, sb, st),
    ensures
        secd_runs_agree(buf, bs_run(buf, sb, fuel), ts_run(st, fuel)),
    decreases fuel,
{
    if fuel > 0 {
        lemma_secd_step_agrees(buf, sb, st);
        match bs_step(buf, sb) {
            Step::Next(nb) => {
                let nt = ts_step(st)->Next_0;
                lemma_secd_run_agrees(buf, nb, nt, (fuel - 1) as nat);
            },
            _ => {},
        }
    }
}

/// The SECD machine on the binary encoding of a term behaves as the one on the
/// term tree: it returns exactly when the tree machine halts, after the same
/// number of transitions, with the same result index, the same heap, and the
/// same closures, each of whose terms is given by the position of its encoding.
pub proof fn law_binary_secd_agrees(t: LamTerm)
    requires
        enc_len(t) <= isize::MAX,
    ensures
        ({
            let buf = encode(t, 0);
            &&& bs_returns(buf) <==> ts_returns(t)
            &&& bs_returns(buf) ==> {
                &&& bs_outcome(buf) matches Run::Halted(fb, nb)
                &&& ts_outcome(t) matches Run::Halted(ft, nt)
                &&& nb == nt
                &&& fb.stack == ft.stack
                &&& fb.heap == ft.heap
                &&& fb.vals.len() == ft.vals.len()
                &&& forall|i: int| 0 <= i < fb.vals.len() ==> (#[trigger] fb.vals[i]).1 == ft.vals[i].1
                    && encodes_at(buf, fb.vals[i].0 as int, ft.vals[i].0)
            }
        }),
{
    let buf = encode(t, 0);
    lemma_encode_len(t, 0);
    assert(buf.subrange(0, enc_len(t) as int) =~= buf);
    assert(encodes_at(buf, 0, t));
    lemma_bseq_of_encoded(buf, 0, t);
    assert(rep_secd(buf, bs_init(buf), ts_init(t))) by {
        assert(rep_vals(buf, bs_init(buf).vals, ts_init(t).vals));
        assert(rep_dump(buf, bs_init(buf).dump, ts_init(t).dump));
    }
    if bs_returns(buf) {
        let f = choose|f: nat| f <= usize::MAX && #[trigger] bs_run(buf, bs_init(buf), f).returned();
        lemma_secd_run_agrees(buf, bs_init(buf), ts_init(t), f);
        assert(ts_run(ts_init(t), f).returned());
    }
    if ts_returns(t) {
        let f = choose|f: nat| f <= usize::MAX && #[trigger] ts_run(ts_init(t), f).returned();
        lemma_secd_run_agrees(buf, bs_init(buf), ts_init(t), f);
        assert(bs_run(buf, bs_init(buf), f).returned());
    }
    if bs_returns(buf) {
        let fb = choose|f: nat| f <= usize::MAX && #[trigger] bs_run(buf, bs_init(buf), f).returned();
        let ft = choose|f: nat| f <= usize::MAX && #[trigger] ts_run(ts_init(t), f).returned();
        lemma_secd_run_agrees(buf, bs_init(buf), ts_init(t), fb);
        lemma_secd_run_agrees(buf, bs_init(buf), ts_init(t), ft);
        if fb <= ft {
            lemma_bs_run_fuel(buf, bs_init(buf), fb, ft);
        } else {
            lemma_ts_run_fuel(ts_init(t), ft, fb);
        }
        assert(secd_runs_agree(buf, bs_outcome(buf), ts_outcome(t)));
    }
}


/// The binary Krivine machine never reports an error on the encoding of a term:
/// every node it reaches holds a known code.
pub proof fn law_encoded_krivine_never_errs(t: LamTerm, fuel: nat)
    requires
        enc_len(t) <= usize::MAX,
    ensures
        !(kb_run(encode(t, 0), kinit(encode(t, 0)), fuel) is Errored),
{
    let buf = encode(t, 0);
    lemma_encode_len(t, 0);
    assert(buf.subrange(0, enc_len(t) as int) =~= buf);
    assert(rep(buf, buf, t)) by {
        assert(encodes_at(buf, 0, t) && starts_with_header(buf, buf, 0, t));
    }
    assert(rep_state(buf, kinit(buf), kinit(t))) by {
        assert(rep_clos(buf, kinit(buf).stack, kinit(t).stack));
        assert(rep_heap(buf, kinit(buf).heap, kinit(t).heap));
    }
    lemma_run_agrees(buf, kinit(buf), kinit(t), fuel);
}

/// The control list the binary SECD machine starts from on the encoding of a
/// term has as many elements as the one the tree machine starts from, and the
/// same application markers.
pub proof fn law_encoded_control_list(t: LamTerm)
    requires
        enc_len(t) <= isize::MAX,
    ensures
        bseq_ok(encode(t, 0), 0),
        bseq_of(encode(t, 0), 0).len() == tseq(t).len(),
        forall|i: int| 0 <= i < tseq(t).len() ==> (#[trigger] bseq_of(encode(t, 0), 0)[i] == -1 <==> tseq(
            t,
        )[i] is App),
{
    let buf = encode(t, 0);
    lemma_encode_len(t, 0);
    assert(buf.subrange(0, enc_len(t) as int) =~= buf);
    lemma_bseq_of_encoded(buf, 0, t);
    assert forall|i: int| 0 <= i < tseq(t).len() implies (#[trigger] bseq_of(buf, 0)[i] == -1 <==> tseq(t)[i] is App) by {
        assert(rep_ctl(buf, bseq_of(buf, 0)[i], tseq(t)[i]));
    }
}

} // verus!
