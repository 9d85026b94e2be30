//! Shared vocabulary of the abstract machines: closures, Krivine states,
//! transitions and bounded runs.

use vstd::prelude::*;

verus! {

/// A closure: a term (in whichever representation the machine uses) paired
/// with the heap index of its environment (negative for the empty one).
pub type Clo<T> = (T, isize);

/// The heap of a Krivine machine: each environment frame holds the index of
/// its parent frame and the closures bound by one abstraction.
pub type KHeap<T> = Seq<(isize, Seq<Clo<T>>)>;

/// State of a Krivine machine.
pub struct KState<T> {
    pub cur: T,
    pub env: isize,
    pub stack: Seq<Clo<T>>,
    pub heap: KHeap<T>,
}

/// What one transition of an abstract machine does.
pub enum Step<S> {
    /// The machine moves to this state.
    Next(S),
    /// The machine stops in this state.
    Stop(S),
    /// The machine meets a node it cannot handle and reports this message.
    Error(Seq<char>),
    /// The transition would panic: an index out of range, a pop from an
    /// empty stack, or an arithmetic overflow.
    Crash,
}

/// The outcome of running an abstract machine with a bounded number of
/// transitions.
pub enum Run<S> {
    /// Stopped in this state after this many transitions (the last one
    /// included).
    Halted(S, nat),
    /// Reported an error with this message.
    Errored(Seq<char>),
    /// A transition would panic.
    Crashed,
    /// Did not stop within the budget.
    OutOfFuel,
}

impl<S> Run<S> {
    /// The run stopped, one way or the other, within its budget.
    pub open spec fn finished(self) -> bool {
        !(self is OutOfFuel)
    }

    /// The run stopped or reported an error without crashing.
    pub open spec fn returned(self) -> bool {
        self is Halted || self is Errored
    }

    /// The same outcome, `k` more transitions later.
    pub open spec fn after(self, k: nat) -> Run<S> {
        match self {
            Run::Halted(s, n) => Run::Halted(s, n + k),
            other => other,
        }
    }
}

/// The initial Krivine state for a term: empty environment, stack and heap.
pub open spec fn kinit<T>(t: T) -> KState<T> {
    KState { cur: t, env: -1isize, stack: Seq::empty(), heap: Seq::empty() }
}

/// Climbs `n` parent links from `env` in the machine heap; the climb ends early
/// at a negative environment. `None` when an index falls outside the heap.
pub open spec fn climb<T>(heap: KHeap<T>, env: isize, n: nat) -> Option<isize>
    decreases n,
{
    if n == 0 || env < 0 {
        Some(env)
    } else if env >= heap.len() {
        None
    } else {
        climb(heap, heap[env as int].0, (n - 1) as nat)
    }
}

/// Climbs exactly `n` parent links from `env`; `None` when an environment on
/// the way is not an index of the heap.
pub open spec fn climb_exact(parents: Seq<isize>, env: isize, n: nat) -> Option<isize>
    decreases n,
{
    if n == 0 {
        Some(env)
    } else if env < 0 || env >= parents.len() {
        None
    } else {
        climb_exact(parents, parents[env as int], (n - 1) as nat)
    }
}

/// The parent links of a Krivine heap.
pub open spec fn kparents<T>(heap: KHeap<T>) -> Seq<isize> {
    heap.map_values(|frame: (isize, Seq<Clo<T>>)| frame.0)
}

} // verus!
