//! What every state of the binary machines keeps, and where they stop.

use vstd::prelude::*;

use crate::binlam::{
    ABS_CODE, APP_CODE, VAR_CODE, kb_step, kb_run, kb_returns, kb_outcome, BsState, bs_step, bs_run,
    bs_init, bs_returns, bs_outcome,
};
use crate::machine::{Clo, KHeap, KState, Step, Run, kinit, climb};

verus! {

/// `c` is the run `[a, b)` of cells of `term`, for some `a <= b`.
pub open spec fn is_slice(term: Seq<usize>, c: Seq<usize>) -> bool {
    exists|a: int, b: int| 0 <= a <= b <= term.len() && c == #[trigger] term.subrange(a, b)
}

/// A closure whose code is a slice of `term` and whose environment is empty
/// or one of the frames below `bound`.
pub open spec fn clo_ok(term: Seq<usize>, c: Clo<Seq<usize>>, bound: int) -> bool {
    is_slice(term, c.0) && -1 <= c.1 < bound
}

/// A state of the binary Krivine machine on `term` is well formed: the current
/// environment is empty or a frame of the heap; each frame's parent and the
/// environments of its closures are older frames; the stack's closures point
/// into the heap; and every piece of code is a slice of `term`.
pub open spec fn kb_wf(term: Seq<usize>, s: KState<Seq<usize>>) -> bool {
    &&& -1 <= s.env < s.heap.len()
    &&& is_slice(term, s.cur)
    &&& forall|i: int| 0 <= i < s.stack.len() ==> clo_ok(term, #[trigger] s.stack[i], s.heap.len() as int)
    &&& forall|i: int| 0 <= i < s.heap.len() ==> -1 <= (#[trigger] s.heap[i]).0 < i
    &&& forall|i: int, j: int|
        0 <= i < s.heap.len() && 0 <= j < s.heap[i].1.len() ==> clo_ok(term, #[trigger] s.heap[i].1[j], i)
}

/// The binary Krivine machine stops in `s`: at an abstraction with fewer
/// pending arguments than binders, or at a variable whose chain of
/// environments has run out.
pub open spec fn kb_stops_at(s: KState<Seq<usize>>) -> bool {
    ||| s.cur.len() >= 2 && s.cur[0] == ABS_CODE && s.stack.len() < s.cur[1]
    ||| s.cur.len() >= 3 && s.cur[0] == VAR_CODE && s.env == -1
}

proof fn lemma_climb_in_heap(heap: KHeap<Seq<usize>>, env: isize, n: nat)
    requires
        -1 <= env < heap.len(),
        forall|i: int| 0 <= i < heap.len() ==> -1 <= (#[trigger] heap[i]).0 < i,
    ensures
        climb(heap, env, n) matches Some(e) && -1 <= e < heap.len(),
    decreases n,
{
    if n > 0 && env >= 0 {
        lemma_climb_in_heap(heap, heap[env as int].0, (n - 1) as nat);
    }
}

proof fn lemma_slice_of_slice(term: Seq<usize>, a: int, b: int)
    requires
        0 <= a <= b <= term.len(),
    ensures
        is_slice(term, term.subrange(a, b)),
{
}

proof fn lemma_kb_step_wf(term: Seq<usize>, s: KState<Seq<usize>>)
    requires
        kb_wf(term, s),
        s.heap.len() < isize::MAX,
    ensures
        kb_step(term, s) matches Step::Next(next) ==> kb_wf(term, next) && next.heap.len() <= s.heap.len() + 1,
        kb_step(term, s) matches Step::Stop(fin) ==> kb_wf(term, fin) && kb_stops_at(fin) && fin.heap == s.heap,
{
    let cur = s.cur;
    if cur.len() == 0 {
    } else if cur[0] == APP_CODE {
        if cur.len() >= 5 && cur[3] <= cur[4] && cur[4] <= term.len() && cur[1] <= cur[2] && cur[2] <= term.len() {
            lemma_slice_of_slice(term, cur[1] as int, cur[2] as int);
            lemma_slice_of_slice(term, cur[3] as int, cur[4] as int);
            if let Step::Next(next) = kb_step(term, s) {
                assert forall|i: int| 0 <= i < next.stack.len() implies clo_ok(
                    term,
                    #[trigger] next.stack[i],
                    next.heap.len() as int,
                ) by {
                    if i < s.stack.len() {
                        assert(next.stack[i] == s.stack[i]);
                    }
                }
            }
        }
    } else if cur[0] == ABS_CODE {
        if cur.len() >= 4 && s.stack.len() >= cur[1] && cur[2] <= cur[3] && cur[3] <= term.len() {
            lemma_slice_of_slice(term, cur[2] as int, cur[3] as int);
            let at = s.stack.len() - cur[1];
            if let Step::Next(next) = kb_step(term, s) {
                assert(next.env == s.heap.len());
                assert forall|i: int| 0 <= i < next.stack.len() implies clo_ok(
                    term,
                    #[trigger] next.stack[i],
                    next.heap.len() as int,
                ) by {
                    assert(next.stack[i] == s.stack[i]);
                }
                assert forall|i: int| 0 <= i < next.heap.len() implies -1 <= (#[trigger] next.heap[i]).0 < i by {
                    if i < s.heap.len() {
                        assert(next.heap[i] == s.heap[i]);
                    }
                }
                assert forall|i: int, j: int|
                    0 <= i < next.heap.len() && 0 <= j < next.heap[i].1.len() implies clo_ok(
                    term,
                    #[trigger] next.heap[i].1[j],
                    i,
                ) by {
                    if i < s.heap.len() {
                        assert(next.heap[i] == s.heap[i]);
                    } else {
                        assert(next.heap[i].1[j] == s.stack[at + j]);
                    }
                }
            }
        }
    } else if cur[0] == VAR_CODE {
        if cur.len() >= 3 {
            lemma_climb_in_heap(s.heap, s.env, cur[1] as nat);
            let e = climb(s.heap, s.env, cur[1] as nat).unwrap();
            if 0 <= e < s.heap.len() {
                let apps = s.heap[e as int].1;
                let k = cur[2];
                if 0 < k <= apps.len() {
                    assert(clo_ok(term, s.heap[e as int].1[apps.len() - k], e as int));
                }
            }
        }
    }
}

proof fn lemma_kb_run_wf(term: Seq<usize>, s: KState<Seq<usize>>, f: nat, fin: KState<Seq<usize>>, n: nat)
    requires
        kb_wf(term, s),
        kb_run(term, s, f) == Run::Halted(fin, n),
        s.heap.len() + n <= isize::MAX,
    ensures
        kb_wf(term, fin),
        kb_stops_at(fin),
        fin.heap.len() + 1 <= s.heap.len() + n,
    decreases f,
{
    match kb_step(term, s) {
        Step::Next(next) => {
            let r = kb_run(term, next, (f - 1) as nat);
            assert(r.after(1) == Run::Halted(fin, n));
            assert(r == Run::Halted(fin, (n - 1) as nat));
            lemma_kb_step_wf(term, s);
            lemma_kb_run_wf(term, next, (f - 1) as nat, fin, (n - 1) as nat);
        },
        Step::Stop(last) => {
            lemma_kb_step_wf(term, s);
        },
        _ => {},
    }
}

/// Of every result of the binary Krivine machine on `term`: the final
/// environment is empty or a frame of the heap, each frame's parent and the
/// environments of its closures are older frames, every piece of code is a
/// slice of `term`, the machine stopped at an abstraction lacking arguments or
/// at a variable in the empty environment, and it took at least one transition
/// more than it made frames.
pub proof fn law_krivine_result_well_formed(term: Seq<usize>)
    requires
        kb_returns(term),
        kb_outcome(term) is Halted,
        kb_outcome(term)->Halted_1 <= isize::MAX,
    ensures
        ({
            let fin = kb_outcome(term)->Halted_0;
            &&& kb_wf(term, fin)
            &&& kb_stops_at(fin)
            &&& kb_outcome(term)->Halted_1 >= fin.heap.len() + 1
        }),
{
    let f = choose|f: nat| f <= usize::MAX && #[trigger] kb_run(term, kinit(term), f).returned();
    assert(term.subrange(0, term.len() as int) =~= term);
    lemma_slice_of_slice(term, 0, term.len() as int);
    let s0 = kinit(term);
    assert(kb_wf(term, s0));
    lemma_kb_run_wf(term, s0, f, kb_outcome(term)->Halted_0, kb_outcome(term)->Halted_1);
}

/// A state of the binary SECD machine on `term` is well formed: the current
/// and the suspended environments are empty or frames of the heap; the value
/// stacks, suspended ones included, name closures that exist; each closure is
/// an abstraction of `term` whose environment is empty or a frame; and each
/// frame's parent is an older frame and its bound value a closure that exists.
pub open spec fn bs_wf(term: Seq<usize>, s: BsState) -> bool {
    &&& -1 <= s.env < s.heap.len()
    &&& forall|i: int| 0 <= i < s.stack.len() ==> #[trigger] s.stack[i] < s.vals.len()
    &&& forall|i: int|
        0 <= i < s.vals.len() ==> {
            let c = #[trigger] s.vals[i];
            &&& c.0 < term.len()
            &&& term[c.0 as int] == ABS_CODE
            &&& -1 <= c.1 < s.heap.len()
        }
    &&& forall|j: int| 0 <= j < s.heap.len() ==> -1 <= (#[trigger] s.heap[j]).0 < j && s.heap[j].1 < s.vals.len()
    &&& forall|d: int| 0 <= d < s.dump.len() ==> -1 <= (#[trigger] s.dump[d]).1 < s.heap.len()
    &&& forall|d: int, i: int| 0 <= d < s.dump.len() && 0 <= i < s.dump[d].0.len() ==> #[trigger] s.dump[d].0[i] < s.vals.len()
}

/// The binary SECD machine stops in `s`: nothing is left to do or resume and
/// the value stack holds the result.
pub open spec fn bs_stops_at(s: BsState) -> bool {
    &&& s.control.len() == 0
    &&& s.dump.len() == 0
    &&& s.stack.len() > 0
}

proof fn lemma_bs_step_wf(term: Seq<usize>, s: BsState)
    requires
        bs_wf(term, s),
        s.heap.len() < isize::MAX,
        s.vals.len() < isize::MAX,
    ensures
        bs_step(term, s) matches Step::Next(next) ==> {
            &&& bs_wf(term, next)
            &&& next.heap.len() <= s.heap.len() + 1
            &&& next.vals.len() <= s.vals.len() + 1
        },
        bs_step(term, s) matches Step::Stop(fin) ==> bs_wf(term, fin) && bs_stops_at(fin) && fin == s,
{
    if let Step::Next(next) = bs_step(term, s) {
        if s.control.len() == 0 {
            let d = s.dump.last();
            assert(d == s.dump[s.dump.len() - 1]);
            assert forall|i: int| 0 <= i < next.stack.len() implies #[trigger] next.stack[i] < next.vals.len() by {
                if i < d.0.len() {
                    assert(next.stack[i] == s.dump[s.dump.len() - 1].0[i]);
                } else {
                    assert(next.stack[i] == s.stack[s.stack.len() - 1]);
                }
            }
            assert forall|k: int, i: int| 0 <= k < next.dump.len() && 0 <= i < next.dump[k].0.len() implies #[trigger] next.dump[k].0[i] < next.vals.len() by {
                assert(next.dump[k] == s.dump[k]);
            }
            assert forall|k: int| 0 <= k < next.dump.len() implies -1 <= (#[trigger] next.dump[k]).1 < next.heap.len() by {
                assert(next.dump[k] == s.dump[k]);
            }
        } else {
            let top = s.control.last();
            if top == -1 {
                let left = s.vals[s.stack.last() as int];
                let rightpos = s.stack[s.stack.len() - 2];
                let stack = s.stack.take(s.stack.len() - 2);
                let heap = s.heap.push((left.1, rightpos));
                let body = term[left.0 + 2];
                assert(s.stack.last() == s.stack[s.stack.len() - 1]);
                assert(rightpos < s.vals.len());
                assert(next.heap == heap);
                assert(next.env == s.heap.len());
                assert forall|j: int| 0 <= j < next.heap.len() implies -1 <= (#[trigger] next.heap[j]).0 < j && next.heap[j].1 < next.vals.len() by {
                    if j < s.heap.len() {
                        assert(next.heap[j] == s.heap[j]);
                    }
                }
                assert forall|i: int| 0 <= i < next.vals.len() implies {
                    let c = #[trigger] next.vals[i];
                    &&& c.0 < term.len()
                    &&& term[c.0 as int] == ABS_CODE
                    &&& -1 <= c.1 < next.heap.len()
                } by {
                    if i < s.vals.len() {
                        assert(next.vals[i] == s.vals[i]);
                    }
                }
                if term[body as int] == APP_CODE {
                    assert forall|k: int, i: int| 0 <= k < next.dump.len() && 0 <= i < next.dump[k].0.len() implies #[trigger] next.dump[k].0[i] < next.vals.len() by {
                        if k < s.dump.len() {
                            assert(next.dump[k] == s.dump[k]);
                        } else {
                            assert(next.dump[k].0[i] == s.stack[i]);
                        }
                    }
                    assert forall|k: int| 0 <= k < next.dump.len() implies -1 <= (#[trigger] next.dump[k]).1 < next.heap.len() by {
                        if k < s.dump.len() {
                            assert(next.dump[k] == s.dump[k]);
                        }
                    }
                } else {
                    assert forall|i: int| 0 <= i < next.stack.len() implies #[trigger] next.stack[i] < next.vals.len() by {
                        if i < stack.len() {
                            assert(next.stack[i] == s.stack[i]);
                        }
                    }
                }
            } else {
                let loc = top as usize;
                if term[loc as int] == ABS_CODE {
                    assert forall|i: int| 0 <= i < next.stack.len() implies #[trigger] next.stack[i] < next.vals.len() by {
                        if i < s.stack.len() {
                            assert(next.stack[i] == s.stack[i]);
                        }
                    }
                    assert forall|i: int| 0 <= i < next.vals.len() implies {
                        let c = #[trigger] next.vals[i];
                        &&& c.0 < term.len()
                        &&& term[c.0 as int] == ABS_CODE
                        &&& -1 <= c.1 < next.heap.len()
                    } by {
                        if i < s.vals.len() {
                            assert(next.vals[i] == s.vals[i]);
                        }
                    }
                } else {
                    assert forall|i: int| 0 <= i < next.stack.len() implies #[trigger] next.stack[i] < next.vals.len() by {
                        if i < s.stack.len() {
                            assert(next.stack[i] == s.stack[i]);
                        }
                    }
                }
            }
        }
    }
}

proof fn lemma_bs_run_wf(term: Seq<usize>, s: BsState, f: nat, fin: BsState, n: nat)
    requires
        bs_wf(term, s),
        bs_run(term, s, f) == Run::Halted(fin, n),
        s.heap.len() + n <= isize::MAX,
        s.vals.len() + n <= isize::MAX,
    ensures
        bs_wf(term, fin),
        bs_stops_at(fin),
        fin.heap.len() + 1 <= s.heap.len() + n,
        fin.vals.len() + 1 <= s.vals.len() + n,
    decreases f,
{
    match bs_step(term, s) {
        Step::Next(next) => {
            let r = bs_run(term, next, (f - 1) as nat);
            assert(r.after(1) == Run::Halted(fin, n));
            assert(r == Run::Halted(fin, (n - 1) as nat));
            lemma_bs_step_wf(term, s);
            lemma_bs_run_wf(term, next, (f - 1) as nat, fin, (n - 1) as nat);
        },
        Step::Stop(last) => {
            lemma_bs_step_wf(term, s);
        },
        _ => {},
    }
}

/// Of every result of the binary SECD machine on `term`: the resulting
/// closure exists; every closure is an abstraction of `term` whose environment
/// is empty or a frame of the heap; each frame's parent is an older frame and
/// its bound value a closure that exists; and the machine took at least one
/// transition more than it made frames, and than it made closures.
pub proof fn law_secd_result_well_formed(term: Seq<usize>)
    requires
        bs_returns(term),
        bs_outcome(term) is Halted,
        bs_outcome(term)->Halted_1 <= isize::MAX,
    ensures
        ({
            let fin = bs_outcome(term)->Halted_0;
            let n = bs_outcome(term)->Halted_1;
            &&& bs_wf(term, fin)
            &&& bs_stops_at(fin)
            &&& fin.stack.last() < fin.vals.len()
            &&& n >= fin.heap.len() + 1
            &&& n >= fin.vals.len() + 1
        }),
{
    let f = choose|f: nat| f <= usize::MAX && #[trigger] bs_run(term, bs_init(term), f).returned();
    let s0 = bs_init(term);
    assert(bs_wf(term, s0));
    let fin = bs_outcome(term)->Halted_0;
    lemma_bs_run_wf(term, s0, f, fin, bs_outcome(term)->Halted_1);
    assert(fin.stack.last() == fin.stack[fin.stack.len() - 1]);
}

} // verus!
