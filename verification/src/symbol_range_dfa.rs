//! The deterministic automaton: per state, a list of transitions labelled by
//! sorted, pairwise disjoint symbol ranges, and an optional output symbol
//! that marks the state as accepting.  The spec-level `run` function gives
//! the state reached after consuming a prefix of an input sequence; the
//! matcher and the tokenizer are specified in terms of it.

use vstd::prelude::*;

use crate::symbol_range::SymbolRange;

verus! {

/// One state of a deterministic automaton.
#[derive(Clone, Debug)]
pub struct DfaState {
    /// Outgoing transitions, sorted by range and pairwise disjoint.
    pub transitions: Vec<(SymbolRange, usize)>,
    /// The output symbol if this is an accepting state.
    pub output: Option<u32>,
}

/// A deterministic automaton over symbol ranges.  Execution always starts in
/// state `0`.
#[derive(Clone, Debug)]
pub struct SymbolRangeDfa {
    pub states: Vec<DfaState>,
}

impl SymbolRangeDfa {
    /// Well-formedness of one state: every range label is non-empty, every
    /// target exists, and the ranges are sorted and pairwise disjoint.
    pub open spec fn state_wf(self, state: int) -> bool {
        let ts = self.states@[state].transitions@;
        &&& forall|j: int|
            0 <= j < ts.len() ==> (#[trigger] ts[j]).0.valid() && ts[j].1 < self.states@.len()
        &&& forall|j: int, k: int|
            0 <= j < k < ts.len() ==> (#[trigger] ts[j]).0.high < (#[trigger] ts[k]).0.low
    }

    /// Well-formedness of the automaton: it has a start state and every
    /// state is well-formed.
    pub open spec fn wf(self) -> bool {
        &&& self.states@.len() > 0
        &&& forall|i: int| 0 <= i < self.states@.len() ==> self.state_wf(i)
    }

    /// Whether some transition of `state` covers `symbol`.
    pub open spec fn has_transition(self, state: int, symbol: u32) -> bool {
        let ts = self.states@[state].transitions@;
        exists|j: int| 0 <= j < ts.len() && (#[trigger] ts[j]).0.spec_contains(symbol)
    }

    /// The transition of `state` covering `symbol`; meaningful when
    /// `has_transition` holds (and unique under well-formedness).
    pub open spec fn covering_index(self, state: int, symbol: u32) -> int {
        let ts = self.states@[state].transitions@;
        choose|j: int| 0 <= j < ts.len() && (#[trigger] ts[j]).0.spec_contains(symbol)
    }

    /// One deterministic step: the target state for `symbol`, if any
    /// transition covers it.
    pub open spec fn step(self, state: int, symbol: u32) -> Option<int> {
        if 0 <= state < self.states@.len() {
            if self.has_transition(state, symbol) {
                let ts = self.states@[state].transitions@;
                Some(ts[self.covering_index(state, symbol)].1 as int)
            } else {
                None
            }
        } else {
            None
        }
    }

    /// The state reached from the start state after consuming the first `n`
    /// symbols of `input`, or `None` if the automaton got stuck first.
    pub open spec fn run(self, input: Seq<u32>, n: int) -> Option<int>
        decreases n,
    {
        if n <= 0 {
            Some(0int)
        } else {
            match self.run(input, n - 1) {
                None => None,
                Some(state) => self.step(state, input[n - 1]),
            }
        }
    }

    /// Whether the prefix of length `n` of `input` is accepted: the run
    /// reaches an accepting state.
    pub open spec fn accepts_prefix(self, input: Seq<u32>, n: int) -> bool {
        &&& 0 <= n <= input.len()
        &&& match self.run(input, n) {
            Some(state) => 0 <= state < self.states@.len() && self.states@[state].output is Some,
            None => false,
        }
    }

    /// The output symbol of the accepting state reached after `n` symbols;
    /// meaningful when `accepts_prefix` holds.
    pub open spec fn prefix_output(self, input: Seq<u32>, n: int) -> u32 {
        self.states@[self.run(input, n)->Some_0].output->Some_0
    }

    /// Determinism: under well-formedness, at most one transition of a state
    /// covers any given symbol.
    pub proof fn lemma_deterministic(self, state: int, symbol: u32, j: int, k: int)
        requires
            self.wf(),
            0 <= state < self.states@.len(),
            0 <= j < self.states@[state].transitions@.len(),
            0 <= k < self.states@[state].transitions@.len(),
            self.states@[state].transitions@[j].0.spec_contains(symbol),
            self.states@[state].transitions@[k].0.spec_contains(symbol),
        ensures
            j == k,
    {
        assert(self.state_wf(state));
    }

    /// Disjointness: under well-formedness, two distinct transitions of a
    /// state never share a symbol.
    pub proof fn lemma_disjoint_ranges(self, state: int, j: int, k: int)
        requires
            self.wf(),
            0 <= state < self.states@.len(),
            0 <= j < self.states@[state].transitions@.len(),
            0 <= k < self.states@[state].transitions@.len(),
            j != k,
        ensures
            !self.states@[state].transitions@[j].0.spec_overlaps(
                self.states@[state].transitions@[k].0,
            ),
    {
        assert(self.state_wf(state));
    }

    /// An automaton without accepting states rejects every input: no
    /// prefix of any input is ever accepted.  A tokenizer prepared from
    /// zero patterns yields such an automaton, since each of its output
    /// symbols would have to come from one of the patterns.
    pub proof fn lemma_no_accepting_states_rejects(self, input: Seq<u32>, n: int)
        requires
            forall|st: int|
                0 <= st < self.states@.len() ==> (#[trigger] self.states@[st]).output is None,
        ensures
            !self.accepts_prefix(input, n),
    {
    }

    /// A run of a well-formed automaton only ever reaches existing states.
    pub proof fn lemma_run_in_bounds(self, input: Seq<u32>, n: int)
        requires
            self.wf(),
            self.run(input, n) is Some,
        ensures
            0 <= self.run(input, n)->Some_0 < self.states@.len(),
        decreases n,
    {
        if n <= 0 {
        } else {
            match self.run(input, n - 1) {
                None => {},
                Some(state) => {
                    self.lemma_run_in_bounds(input, n - 1);
                    if self.has_transition(state, input[n - 1]) {
                        assert(self.state_wf(state));
                    }
                },
            }
        }
    }

    /// Once a run is stuck it stays stuck for every longer prefix.
    pub proof fn lemma_run_stuck(self, input: Seq<u32>, n: int, m: int)
        requires
            0 <= n <= m,
            self.run(input, n) is None,
        ensures
            self.run(input, m) is None,
        decreases m - n,
    {
        if m > n {
            self.lemma_run_stuck(input, n, m - 1);
        }
    }

    /// The run after `n` symbols depends only on the first `n` symbols.
    pub proof fn lemma_run_prefix(self, a: Seq<u32>, b: Seq<u32>, n: int)
        requires
            0 <= n <= a.len(),
            n <= b.len(),
            forall|i: int| 0 <= i < n ==> a[i] == b[i],
        ensures
            self.run(a, n) == self.run(b, n),
        decreases n,
    {
        if n > 0 {
            self.lemma_run_prefix(a, b, n - 1);
        }
    }

    /// The number of states in the automaton.
    pub fn count_states(&self) -> (n: usize)
        ensures
            n == self.states@.len(),
    {
        self.states.len()
    }

    /// The output symbol of a state, if it is an accepting state.
    pub fn output_for_state(&self, state: usize) -> (r: Option<u32>)
        requires
            state < self.states@.len(),
        ensures
            r == self.states@[state as int].output,
    {
        self.states[state].output
    }

    /// Binary-searches the transitions of `state` for the range containing
    /// `symbol` and returns its target, the unique deterministic choice.
    pub fn next_state(&self, state: usize, symbol: u32) -> (r: Option<usize>)
        requires
            self.wf(),
            state < self.states@.len(),
        ensures
            match r {
                Some(target) => self.step(state as int, symbol) == Some(target as int) && target
                    < self.states@.len(),
                None => self.step(state as int, symbol) is None,
            },
    {
        let transitions = &self.states[state].transitions;
        let ghost ts = transitions@;
        let mut lo: usize = 0;
        let mut hi: usize = transitions.len();
        proof {
            assert(self.state_wf(state as int));
        }
        while lo < hi
            invariant
                self.wf(),
                state < self.states@.len(),
                ts == self.states@[state as int].transitions@,
                lo <= hi <= ts.len(),
                forall|j: int| 0 <= j < lo ==> (#[trigger] ts[j]).0.high < symbol,
                forall|j: int| hi <= j < ts.len() ==> symbol < (#[trigger] ts[j]).0.low,
            decreases hi - lo,
        {
            let mid = lo + (hi - lo) / 2;
            let (range, target) = self.states[state].transitions[mid];
            if range.high < symbol {
                proof {
                    assert(self.state_wf(state as int));
                    assert(forall|j: int| 0 <= j <= mid ==> (#[trigger] ts[j]).0.high < symbol)
                        by {
                        assert(forall|j: int|
                            0 <= j < mid ==> (#[trigger] ts[j]).0.high < ts[mid as int].0.low);
                        assert(ts[mid as int].0.valid());
                    }
                }
                lo = mid + 1;
            } else if symbol < range.low {
                proof {
                    assert(self.state_wf(state as int));
                    assert(forall|j: int|
                        mid <= j < ts.len() ==> symbol < (#[trigger] ts[j]).0.low) by {
                        assert(forall|j: int|
                            mid < j < ts.len() ==> ts[mid as int].0.high < (
                            #[trigger] ts[j]).0.low);
                    }
                }
                hi = mid;
            } else {
                proof {
                    assert(ts[mid as int].0.spec_contains(symbol));
                    assert(self.has_transition(state as int, symbol));
                    let j = self.covering_index(state as int, symbol);
                    assert(0 <= j < ts.len() && ts[j].0.spec_contains(symbol));
                    self.lemma_deterministic(state as int, symbol, j, mid as int);
                    assert(self.state_wf(state as int));
                }
                return Some(target);
            }
        }
        proof {
            if self.has_transition(state as int, symbol) {
                let j = self.covering_index(state as int, symbol);
                assert(0 <= j < ts.len() && ts[j].0.spec_contains(symbol));
            }
        }
        None
    }
}

} // verus!
