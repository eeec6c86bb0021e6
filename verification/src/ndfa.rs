//! The nondeterministic automaton: a mutable bag of states, each with
//! range-labelled transitions, epsilon transitions and an optional output
//! symbol.  Patterns are compiled into it, overlapping range labels are then
//! split apart, and the subset construction turns it into a deterministic
//! automaton.

use vstd::pervasive::VecAdditionalExecFns;
use vstd::prelude::*;

use crate::overlapping_symbols::atomic_form;
use crate::overlapping_symbols::cross_equal_or_disjoint;
use crate::overlapping_symbols::insert_breakpoint;
use crate::overlapping_symbols::lemma_atomic_entries_equal_or_disjoint;
use crate::overlapping_symbols::ranges_equal_or_disjoint;
use crate::overlapping_symbols::same_coverage;
use crate::overlapping_symbols::split_transitions;
use crate::overlapping_symbols::strictly_sorted;
use crate::symbol_range::SymbolRange;

verus! {

/// One state of a nondeterministic automaton.
#[derive(Clone, Debug)]
pub struct NdfaState {
    /// Outgoing transitions labelled by symbol ranges.
    pub transitions: Vec<(SymbolRange, usize)>,
    /// Outgoing epsilon transitions, taken without consuming a symbol.
    pub epsilons: Vec<usize>,
    /// The output symbol if this is an accepting state.
    pub output: Option<u32>,
}

/// A nondeterministic automaton over symbol ranges.  It always starts in
/// state `0`, which exists from construction on.
#[derive(Clone, Debug)]
pub struct Ndfa {
    pub states: Vec<NdfaState>,
}

impl Ndfa {
    /// Well-formedness: the start state exists, every range label is
    /// non-empty and every transition target exists.
    pub open spec fn wf(self) -> bool {
        &&& self.states@.len() > 0
        &&& forall|i: int|
            0 <= i < self.states@.len() ==> {
                let ts = (#[trigger] self.states@[i]).transitions@;
                forall|j: int|
                    0 <= j < ts.len() ==> (#[trigger] ts[j]).0.valid() && ts[j].1
                        < self.states@.len()
            }
        &&& forall|i: int|
            0 <= i < self.states@.len() ==> {
                let es = (#[trigger] self.states@[i]).epsilons@;
                forall|j: int| 0 <= j < es.len() ==> (#[trigger] es[j]) < self.states@.len()
            }
    }

    /// Whether the automaton has an epsilon transition from `p` to `q`.
    pub open spec fn has_eps_edge(self, p: usize, q: usize) -> bool {
        p < self.states@.len() && self.states@[p as int].epsilons@.contains(q)
    }

    /// Whether `s` can be reached from the states of `init` by at most `k`
    /// epsilon transitions.
    pub open spec fn eps_reach_n(self, init: Seq<usize>, s: usize, k: nat) -> bool
        decreases k,
    {
        if init.contains(s) {
            true
        } else if k == 0 {
            false
        } else {
            exists|p: usize| self.eps_reach_n(init, p, (k - 1) as nat) && self.has_eps_edge(p, s)
        }
    }

    /// Whether `s` lies in the epsilon closure of the states of `init`.
    pub open spec fn eps_reachable(self, init: Seq<usize>, s: usize) -> bool {
        exists|k: nat| self.eps_reach_n(init, s, k)
    }

    /// Creates a new automaton holding only the start state.
    pub fn new() -> (r: Ndfa)
        ensures
            r.wf(),
            r.states@.len() == 1,
            r.states@[0].transitions@ == Seq::<(SymbolRange, usize)>::empty(),
            r.states@[0].epsilons@ == Seq::<usize>::empty(),
            r.states@[0].output is None,
    {
        let mut states: Vec<NdfaState> = Vec::new();
        states.push(NdfaState { transitions: Vec::new(), epsilons: Vec::new(), output: None });
        Ndfa { states }
    }

    /// The number of states: one more than the highest allocated id.
    pub fn count_states(&self) -> (n: usize)
        ensures
            n == self.states@.len(),
    {
        self.states.len()
    }

    /// Allocates a fresh state and returns its id.
    pub fn add_state(&mut self) -> (id: usize)
        requires
            old(self).wf(),
        ensures
            final(self).wf(),
            extends(*old(self), *final(self)),
            id == old(self).states@.len(),
            final(self).states@.len() == old(self).states@.len() + 1,
            forall|i: int|
                0 <= i < old(self).states@.len() ==> final(self).states@[i] == old(
                    self,
                ).states@[i],
            final(self).states@[id as int].transitions@ == Seq::<(SymbolRange, usize)>::empty(),
            final(self).states@[id as int].epsilons@ == Seq::<usize>::empty(),
            final(self).states@[id as int].output is None,
    {
        let id = self.states.len();
        self.states.push(
            NdfaState { transitions: Vec::new(), epsilons: Vec::new(), output: None },
        );
        proof {
            assert forall|i: int|
                0 <= i < old(self).states@.len() implies extends_state(
                old(self).states@[i],
                #[trigger] final(self).states@[i],
            ) by {
                assert(final(self).states@[i] == old(self).states@[i]);
                lemma_extends_state_refl(old(self).states@[i]);
            }
        }
        id
    }

    /// Adds a transition between two existing states on a range of symbols.
    pub fn add_transition(&mut self, state: usize, range: SymbolRange, target: usize)
        requires
            old(self).wf(),
            state < old(self).states@.len(),
            target < old(self).states@.len(),
            range.valid(),
        ensures
            final(self).wf(),
            extends(*old(self), *final(self)),
            final(self).states@.len() == old(self).states@.len(),
            forall|i: int|
                0 <= i < old(self).states@.len() && i != state ==> final(self).states@[i] == old(
                    self,
                ).states@[i],
            final(self).states@[state as int].transitions@ == old(
                self,
            ).states@[state as int].transitions@.push((range, target)),
            final(self).states@[state as int].epsilons@ == old(
                self,
            ).states@[state as int].epsilons@,
            final(self).states@[state as int].output == old(self).states@[state as int].output,
    {
        let mut st = self.states.remove(state);
        st.transitions.push((range, target));
        self.states.insert(state, st);
        proof {
            assert(final(self).states@ =~= old(self).states@.update(
                state as int,
                final(self).states@[state as int],
            ));
            assert forall|i: int|
                0 <= i < old(self).states@.len() implies extends_state(
                old(self).states@[i],
                #[trigger] final(self).states@[i],
            ) by {
                if i != state {
                    assert(final(self).states@[i] == old(self).states@[i]);
                    lemma_extends_state_refl(old(self).states@[i]);
                } else {
                    assert(old(self).states@[i].transitions@ =~= final(self).states@[i].transitions@.subrange(
                        0,
                        old(self).states@[i].transitions@.len() as int,
                    ));
                    assert(old(self).states@[i].epsilons@ =~= final(self).states@[i].epsilons@.subrange(
                        0,
                        old(self).states@[i].epsilons@.len() as int,
                    ));
                }
            }
        }
    }

    /// Adds an epsilon transition between two existing states.
    pub fn add_epsilon(&mut self, state: usize, target: usize)
        requires
            old(self).wf(),
            state < old(self).states@.len(),
            target < old(self).states@.len(),
        ensures
            final(self).wf(),
            extends(*old(self), *final(self)),
            final(self).states@.len() == old(self).states@.len(),
            forall|i: int|
                0 <= i < old(self).states@.len() && i != state ==> final(self).states@[i] == old(
                    self,
                ).states@[i],
            final(self).states@[state as int].epsilons@ == old(
                self,
            ).states@[state as int].epsilons@.push(target),
            final(self).states@[state as int].transitions@ == old(
                self,
            ).states@[state as int].transitions@,
            final(self).states@[state as int].output == old(self).states@[state as int].output,
    {
        let mut st = self.states.remove(state);
        st.epsilons.push(target);
        self.states.insert(state, st);
        proof {
            assert(final(self).states@ =~= old(self).states@.update(
                state as int,
                final(self).states@[state as int],
            ));
            assert forall|i: int|
                0 <= i < old(self).states@.len() implies extends_state(
                old(self).states@[i],
                #[trigger] final(self).states@[i],
            ) by {
                if i != state {
                    assert(final(self).states@[i] == old(self).states@[i]);
                    lemma_extends_state_refl(old(self).states@[i]);
                } else {
                    assert(old(self).states@[i].transitions@ =~= final(self).states@[i].transitions@.subrange(
                        0,
                        old(self).states@[i].transitions@.len() as int,
                    ));
                    assert(old(self).states@[i].epsilons@ =~= final(self).states@[i].epsilons@.subrange(
                        0,
                        old(self).states@[i].epsilons@.len() as int,
                    ));
                }
            }
        }
    }

    /// Sets the output symbol of an existing state, making it accepting.
    pub fn set_output_symbol(&mut self, state: usize, output: u32)
        requires
            old(self).wf(),
            state < old(self).states@.len(),
        ensures
            final(self).wf(),
            extends(*old(self), *final(self)),
            final(self).states@.len() == old(self).states@.len(),
            forall|i: int|
                0 <= i < old(self).states@.len() && i != state ==> final(self).states@[i] == old(
                    self,
                ).states@[i],
            final(self).states@[state as int].output == Some(output),
            final(self).states@[state as int].transitions@ == old(
                self,
            ).states@[state as int].transitions@,
            final(self).states@[state as int].epsilons@ == old(
                self,
            ).states@[state as int].epsilons@,
    {
        let mut st = self.states.remove(state);
        st.output = Some(output);
        self.states.insert(state, st);
        proof {
            assert(final(self).states@ =~= old(self).states@.update(
                state as int,
                final(self).states@[state as int],
            ));
            assert forall|i: int|
                0 <= i < old(self).states@.len() implies extends_state(
                old(self).states@[i],
                #[trigger] final(self).states@[i],
            ) by {
                if i != state {
                    assert(final(self).states@[i] == old(self).states@[i]);
                    lemma_extends_state_refl(old(self).states@[i]);
                } else {
                    assert(old(self).states@[i].transitions@ =~= final(self).states@[i].transitions@.subrange(
                        0,
                        old(self).states@[i].transitions@.len() as int,
                    ));
                    assert(old(self).states@[i].epsilons@ =~= final(self).states@[i].epsilons@.subrange(
                        0,
                        old(self).states@[i].epsilons@.len() as int,
                    ));
                }
            }
        }
    }

    /// The output symbol of a state, if it is an accepting state.
    pub fn output_symbol_for_state(&self, state: usize) -> (r: Option<u32>)
        requires
            state < self.states@.len(),
        ensures
            r == self.states@[state as int].output,
    {
        self.states[state].output
    }

    /// A membership bitmap closed under epsilon transitions and containing
    /// `init` holds the whole epsilon closure of `init`.
    proof fn lemma_closed_contains_reachable(
        self,
        init: Seq<usize>,
        visited: Seq<bool>,
        s: usize,
        k: nat,
    )
        requires
            self.wf(),
            visited.len() == self.states@.len(),
            forall|i: int| 0 <= i < init.len() ==> visited[#[trigger] init[i] as int],
            forall|i: int| 0 <= i < init.len() ==> (#[trigger] init[i]) < self.states@.len(),
            forall|p: usize, q: usize|
                visited[p as int] && #[trigger] self.has_eps_edge(p, q) ==> visited[q as int],
            self.eps_reach_n(init, s, k),
        ensures
            s < self.states@.len(),
            visited[s as int],
        decreases k,
    {
        if init.contains(s) {
            let i = choose|i: int| 0 <= i < init.len() && init[i] == s;
            assert(visited[init[i] as int]);
        } else {
            let p = choose|p: usize|
                self.eps_reach_n(init, p, (k - 1) as nat) && self.has_eps_edge(p, s);
            self.lemma_closed_contains_reachable(init, visited, p, (k - 1) as nat);
            assert(self.states@[p as int].epsilons@.contains(s));
            let j = choose|j: int|
                0 <= j < self.states@[p as int].epsilons@.len()
                    && self.states@[p as int].epsilons@[j] == s;
            assert(self.states@[p as int].epsilons@[j] < self.states@.len());
        }
    }

    /// Whether all range labels of the automaton, within each state and
    /// across states, are pairwise equal or disjoint.
    pub open spec fn atomic_ranges(self) -> bool {
        forall|i1: int, i2: int|
            0 <= i1 < self.states@.len() && 0 <= i2 < self.states@.len()
                ==> cross_equal_or_disjoint(
                (#[trigger] self.states@[i1]).transitions@,
                (#[trigger] self.states@[i2]).transitions@,
            )
    }

    /// Rewrites every state so that all range labels of the automaton are
    /// pairwise equal or disjoint, leaving the moves of the automaton —
    /// which `(symbol, target)` pairs each state allows — unchanged.
    pub fn fix_overlapping_ranges(&mut self)
        requires
            old(self).wf(),
        ensures
            final(self).wf(),
            final(self).atomic_ranges(),
            final(self).states@.len() == old(self).states@.len(),
            forall|i: int|
                0 <= i < old(self).states@.len() ==> {
                    &&& (#[trigger] final(self).states@[i]).epsilons@ == old(
                        self,
                    ).states@[i].epsilons@
                    &&& final(self).states@[i].output == old(self).states@[i].output
                    &&& ranges_equal_or_disjoint(final(self).states@[i].transitions@)
                    &&& same_coverage(
                        final(self).states@[i].transitions@,
                        old(self).states@[i].transitions@,
                    )
                },
    {
        let n = self.states.len();
        let mut breaks: Vec<u64> = Vec::new();
        let mut i: usize = 0;
        while i < n
            invariant
                *self == *old(self),
                old(self).wf(),
                n == self.states@.len(),
                i <= n,
                strictly_sorted(breaks@),
                forall|x: u64| breaks@.contains(x) ==> x <= 0x1_0000_0000u64,
                forall|p: int, j: int|
                    0 <= p < i && 0 <= j < self.states@[p].transitions@.len() ==> breaks@.contains(
                        (#[trigger] self.states@[p].transitions@[j]).0.low as u64,
                    ) && breaks@.contains(((self.states@[p].transitions@[j].0.high + 1) as u64)),
            decreases n - i,
        {
            let transition_count = self.states[i].transitions.len();
            let mut j: usize = 0;
            while j < transition_count
                invariant
                    *self == *old(self),
                    old(self).wf(),
                    n == self.states@.len(),
                    i < n,
                    j <= transition_count,
                    transition_count == self.states@[i as int].transitions@.len(),
                    strictly_sorted(breaks@),
                    forall|x: u64| breaks@.contains(x) ==> x <= 0x1_0000_0000u64,
                    forall|p: int, jj: int|
                        0 <= p < i && 0 <= jj < self.states@[p].transitions@.len()
                            ==> breaks@.contains(
                            (#[trigger] self.states@[p].transitions@[jj]).0.low as u64,
                        ) && breaks@.contains(
                            ((self.states@[p].transitions@[jj].0.high + 1) as u64),
                        ),
                    forall|jj: int|
                        0 <= jj < j ==> breaks@.contains(
                            (#[trigger] self.states@[i as int].transitions@[jj]).0.low as u64,
                        ) && breaks@.contains(
                            ((self.states@[i as int].transitions@[jj].0.high + 1) as u64),
                        ),
                decreases transition_count - j,
            {
                let (range, _) = self.states[i].transitions[j];
                proof {
                    assert(self.states@[i as int].transitions@[j as int].0.valid());
                }
                insert_breakpoint(&mut breaks, range.low as u64);
                insert_breakpoint(&mut breaks, range.high as u64 + 1);
                j = j + 1;
            }
            i = i + 1;
        }
        let mut new_states: Vec<NdfaState> = Vec::new();
        let ghost mut forms_all: Seq<Seq<int>> = Seq::empty();
        let mut i: usize = 0;
        while i < n
            invariant
                *self == *old(self),
                old(self).wf(),
                n == self.states@.len(),
                i <= n,
                strictly_sorted(breaks@),
                forall|x: u64| breaks@.contains(x) ==> x <= 0x1_0000_0000u64,
                forall|p: int, j: int|
                    0 <= p < n && 0 <= j < self.states@[p].transitions@.len() ==> breaks@.contains(
                        (#[trigger] self.states@[p].transitions@[j]).0.low as u64,
                    ) && breaks@.contains(((self.states@[p].transitions@[j].0.high + 1) as u64)),
                new_states@.len() == i,
                forms_all.len() == i,
                forall|p: int|
                    0 <= p < i ==> {
                        &&& (#[trigger] new_states@[p]).epsilons@ == old(
                            self,
                        ).states@[p].epsilons@
                        &&& new_states@[p].output == old(self).states@[p].output
                        &&& ranges_equal_or_disjoint(new_states@[p].transitions@)
                        &&& same_coverage(
                            new_states@[p].transitions@,
                            old(self).states@[p].transitions@,
                        )
                        &&& forms_all[p].len() == new_states@[p].transitions@.len()
                        &&& forall|e: int|
                            0 <= e < new_states@[p].transitions@.len() ==> (
                            #[trigger] new_states@[p].transitions@[e]).0.valid()
                                && new_states@[p].transitions@[e].1 < n && atomic_form(
                                new_states@[p].transitions@[e],
                                breaks@,
                                forms_all[p][e],
                            )
                    },
            decreases n - i,
        {
            proof {
                assert(forall|j: int|
                    0 <= j < self.states@[i as int].transitions@.len() ==> (
                    #[trigger] self.states@[i as int].transitions@[j]).0.valid()
                        && self.states@[i as int].transitions@[j].1 < n);
            }
            proof {
                assert forall|b: int|
                    0 <= b < breaks@.len() implies (#[trigger] breaks@[b]) <= 0x1_0000_0000u64 by {
                    assert(breaks@.contains(breaks@[b]));
                }
            }
            let (new_trans, ghost_forms) = split_transitions(&self.states[i].transitions, &breaks);
            proof {
                assert forall|e: int|
                    0 <= e < new_trans@.len() implies (#[trigger] new_trans@[e]).0.valid()
                    && new_trans@[e].1 < n by {
                    let j = choose|j: int|
                        0 <= j < self.states@[i as int].transitions@.len() && (
                        #[trigger] self.states@[i as int].transitions@[j]).1 == new_trans@[e].1
                            && self.states@[i as int].transitions@[j].0.low <= new_trans@[e].0.low
                            && new_trans@[e].0.high
                            <= self.states@[i as int].transitions@[j].0.high;
                    assert(self.states@[i as int].transitions@[j].1 < n);
                }
                forms_all = forms_all.push(ghost_forms@);
            }
            let eps = copy_state_ids(&self.states[i].epsilons);
            let output = self.states[i].output;
            new_states.push(NdfaState { transitions: new_trans, epsilons: eps, output });
            i = i + 1;
        }
        self.states = new_states;
        proof {
            assert forall|i1: int, i2: int|
                0 <= i1 < self.states@.len() && 0 <= i2 < self.states@.len()
                implies cross_equal_or_disjoint(
                (#[trigger] self.states@[i1]).transitions@,
                (#[trigger] self.states@[i2]).transitions@,
            ) by {
                let a = self.states@[i1].transitions@;
                let b = self.states@[i2].transitions@;
                assert forall|j: int, k: int|
                    0 <= j < a.len() && 0 <= k < b.len() implies ((#[trigger] a[j]).0 == (
                #[trigger] b[k]).0 || !a[j].0.spec_overlaps(b[k].0)) by {
                    lemma_atomic_entries_equal_or_disjoint(
                        breaks@,
                        a[j],
                        b[k],
                        forms_all[i1][j],
                        forms_all[i2][k],
                    );
                }
            }
        }
    }

    /// Computes the epsilon closure of a set of states as a membership
    /// bitmap: position `s` is set exactly when `s` is reachable from the
    /// given states by epsilon transitions alone.
    pub fn closure(&self, initial: &Vec<usize>) -> (r: Vec<bool>)
        requires
            self.wf(),
            forall|i: int|
                0 <= i < initial@.len() ==> (#[trigger] initial@[i]) < self.states@.len(),
        ensures
            r@.len() == self.states@.len(),
            forall|s: usize|
                (s as int) < r@.len() ==> (r@[s as int] <==> self.eps_reachable(initial@, s)),
    {
        let n = self.states.len();
        let mut visited: Vec<bool> = Vec::new();
        let mut i: usize = 0;
        while i < n
            invariant
                i <= n,
                visited@.len() == i,
                forall|j: int| 0 <= j < i ==> !(#[trigger] visited@[j]),
            decreases n - i,
        {
            visited.push(false);
            i = i + 1;
        }
        let mut stack: Vec<usize> = Vec::new();
        let mut i: usize = 0;
        while i < initial.len()
            invariant
                self.wf(),
                forall|j: int|
                    0 <= j < initial@.len() ==> (#[trigger] initial@[j]) < self.states@.len(),
                i <= initial@.len(),
                visited@.len() == self.states@.len(),
                forall|j: int| 0 <= j < i ==> visited@[#[trigger] initial@[j] as int],
                forall|s: usize|
                    (s as int) < visited@.len() && visited@[s as int] ==> self.eps_reachable(
                        initial@,
                        s,
                    ),
                forall|j: int|
                    0 <= j < stack@.len() ==> (#[trigger] stack@[j]) < self.states@.len()
                        && visited@[stack@[j] as int],
                forall|s: usize|
                    (s as int) < visited@.len() && visited@[s as int] ==> stack@.contains(s),
            decreases initial@.len() - i,
        {
            let s = initial[i];
            if !visited[s] {
                let ghost stack_before = stack@;
                visited.set(s, true);
                stack.push(s);
                proof {
                    assert(self.eps_reach_n(initial@, s, 0));
                    assert(self.eps_reachable(initial@, s));
                    assert forall|t: usize|
                        (t as int) < visited@.len() && visited@[t as int] implies stack@.contains(
                        t,
                    ) by {
                        if t != s {
                            let j = choose|j: int|
                                0 <= j < stack_before.len() && stack_before[j] == t;
                            assert(stack@[j] == t);
                        } else {
                            assert(stack@[stack@.len() - 1] == s);
                        }
                    }
                }
            } else {
                proof {
                    assert(stack@.contains(s));
                }
            }
            i = i + 1;
        }
        while stack.len() > 0
            invariant
                self.wf(),
                forall|j: int|
                    0 <= j < initial@.len() ==> (#[trigger] initial@[j]) < self.states@.len(),
                visited@.len() == self.states@.len(),
                forall|j: int| 0 <= j < initial@.len() ==> visited@[#[trigger] initial@[j] as int],
                forall|s: usize|
                    (s as int) < visited@.len() && visited@[s as int] ==> self.eps_reachable(
                        initial@,
                        s,
                    ),
                forall|j: int|
                    0 <= j < stack@.len() ==> (#[trigger] stack@[j]) < self.states@.len()
                        && visited@[stack@[j] as int],
                forall|p: usize, q: usize|
                    (p as int) < visited@.len() && visited@[p as int] && !stack@.contains(p)
                        && #[trigger] self.has_eps_edge(p, q) ==> visited@[q as int],
            decreases visited@.len() - count_set(visited@), stack@.len(),
        {
            proof {
                lemma_count_set_bounds(visited@);
            }
            let ghost stack_before_pop = stack@;
            let s = stack.pop().unwrap();
            proof {
                assert forall|p: usize, q: usize|
                    (p as int) < visited@.len() && visited@[p as int] && !stack@.contains(p) && p
                        != s && #[trigger] self.has_eps_edge(p, q) implies visited@[q as int] by {
                    if stack_before_pop.contains(p) {
                        let j = choose|j: int|
                            0 <= j < stack_before_pop.len() && stack_before_pop[j] == p;
                        assert(j < stack_before_pop.len() - 1);
                        assert(stack@[j] == p);
                    }
                }
            }
            let ghost visited_at_pop = visited@;
            let ghost stack_len_at_pop = stack@.len() as int;
            let eps_count = self.states[s].epsilons.len();
            let mut k: usize = 0;
            while k < eps_count
                invariant
                    self.wf(),
                    forall|j: int|
                        0 <= j < initial@.len() ==> (#[trigger] initial@[j]) < self.states@.len(),
                    visited@.len() == self.states@.len(),
                    forall|j: int|
                        0 <= j < initial@.len() ==> visited@[#[trigger] initial@[j] as int],
                    forall|t: usize|
                        (t as int) < visited@.len() && visited@[t as int] ==> self.eps_reachable(
                            initial@,
                            t,
                        ),
                    forall|j: int|
                        0 <= j < stack@.len() ==> (#[trigger] stack@[j]) < self.states@.len()
                            && visited@[stack@[j] as int],
                    forall|p: usize, q: usize|
                        (p as int) < visited@.len() && visited@[p as int] && !stack@.contains(p)
                            && p != s && #[trigger] self.has_eps_edge(p, q) ==> visited@[q as int],
                    s < self.states@.len(),
                    visited@[s as int],
                    k <= eps_count,
                    eps_count == self.states@[s as int].epsilons@.len(),
                    forall|m: int|
                        0 <= m < k ==> visited@[#[trigger] self.states@[s as int].epsilons@[m] as int],
                    visited_at_pop.len() == visited@.len(),
                    forall|t: int|
                        0 <= t < visited@.len() && visited_at_pop[t] ==> visited@[t],
                    count_set(visited@) >= count_set(visited_at_pop),
                    stack@.len() + count_set(visited_at_pop) <= stack_len_at_pop + count_set(
                        visited@,
                    ),
                decreases eps_count - k,
            {
                let t = self.states[s].epsilons[k];
                proof {
                    assert(self.states@[s as int].epsilons@[k as int] == t);
                    assert(self.states@[s as int].epsilons@.contains(t));
                    assert(t < self.states@.len());
                }
                if !visited[t] {
                    let ghost stack_before = stack@;
                    let ghost visited_before = visited@;
                    visited.set(t, true);
                    stack.push(t);
                    proof {
                        lemma_count_set_update(visited_before, t as int);
                        assert forall|x: usize| stack_before.contains(x) implies stack@.contains(
                            x,
                        ) by {
                            let j = choose|j: int|
                                0 <= j < stack_before.len() && stack_before[j] == x;
                            assert(stack@[j] == x);
                        }
                        assert(stack@[stack@.len() - 1] == t);
                        assert(stack@.contains(t));
                        assert(self.has_eps_edge(s, t));
                        let ks = choose|ks: nat| self.eps_reach_n(initial@, s, ks);
                        assert(self.eps_reach_n(initial@, t, ks + 1)) by {
                            if !initial@.contains(t) {
                                assert(self.eps_reach_n(initial@, s, ks) && self.has_eps_edge(
                                    s,
                                    t,
                                ));
                            }
                        }
                        assert(self.eps_reachable(initial@, t));
                    }
                }
                k = k + 1;
            }
            proof {
                lemma_count_set_bounds(visited@);
                assert forall|p: usize, q: usize|
                    (p as int) < visited@.len() && visited@[p as int] && !stack@.contains(p)
                        && #[trigger] self.has_eps_edge(p, q) implies visited@[q as int] by {
                    if p == s {
                        let j = choose|j: int|
                            0 <= j < self.states@[s as int].epsilons@.len()
                                && self.states@[s as int].epsilons@[j] == q;
                        assert(visited@[self.states@[s as int].epsilons@[j] as int]);
                    }
                }
            }
        }
        proof {
            assert forall|s: usize|
                (s as int) < visited@.len() && self.eps_reachable(initial@, s) implies visited@[s
                as int] by {
                let k = choose|k: nat| self.eps_reach_n(initial@, s, k);
                self.lemma_closed_contains_reachable(initial@, visited@, s, k);
            }
        }
        visited
    }
}

/// Whether `new_state` holds everything `old_state` held: the old
/// transitions and epsilon transitions stand unchanged at the front of the
/// new ones.
pub open spec fn extends_state(old_state: NdfaState, new_state: NdfaState) -> bool {
    &&& old_state.transitions@.len() <= new_state.transitions@.len()
    &&& old_state.epsilons@.len() <= new_state.epsilons@.len()
    &&& old_state.transitions@ == new_state.transitions@.subrange(
        0,
        old_state.transitions@.len() as int,
    )
    &&& old_state.epsilons@ == new_state.epsilons@.subrange(0, old_state.epsilons@.len() as int)
}

/// Whether `new_ndfa` only grows `old_ndfa`: every old state still exists
/// and keeps its transitions and epsilon transitions.
pub open spec fn extends(old_ndfa: Ndfa, new_ndfa: Ndfa) -> bool {
    &&& old_ndfa.states@.len() <= new_ndfa.states@.len()
    &&& forall|i: int|
        0 <= i < old_ndfa.states@.len() ==> extends_state(
            old_ndfa.states@[i],
            #[trigger] new_ndfa.states@[i],
        )
}

/// Every state extends itself.
pub proof fn lemma_extends_state_refl(state: NdfaState)
    ensures
        extends_state(state, state),
{
    assert(state.transitions@ =~= state.transitions@.subrange(
        0,
        state.transitions@.len() as int,
    ));
    assert(state.epsilons@ =~= state.epsilons@.subrange(0, state.epsilons@.len() as int));
}

/// Every automaton extends itself.
pub broadcast proof fn lemma_extends_refl(n: Ndfa)
    ensures
        #[trigger] extends(n, n),
{
    assert forall|i: int|
        0 <= i < n.states@.len() implies extends_state(
        n.states@[i],
        #[trigger] n.states@[i],
    ) by {
        assert(n.states@[i].transitions@ =~= n.states@[i].transitions@.subrange(
            0,
            n.states@[i].transitions@.len() as int,
        ));
        assert(n.states@[i].epsilons@ =~= n.states@[i].epsilons@.subrange(
            0,
            n.states@[i].epsilons@.len() as int,
        ));
    }
}

/// Growing an automaton twice grows it.
pub broadcast proof fn lemma_extends_trans(a: Ndfa, b: Ndfa, c: Ndfa)
    requires
        #[trigger] extends(a, b),
        #[trigger] extends(b, c),
    ensures
        extends(a, c),
{
    assert forall|i: int|
        0 <= i < a.states@.len() implies extends_state(
        a.states@[i],
        #[trigger] c.states@[i],
    ) by {
        assert(extends_state(a.states@[i], b.states@[i]));
        assert(extends_state(b.states@[i], c.states@[i]));
        assert(a.states@[i].transitions@ =~= c.states@[i].transitions@.subrange(
            0,
            a.states@[i].transitions@.len() as int,
        ));
        assert(a.states@[i].epsilons@ =~= c.states@[i].epsilons@.subrange(
            0,
            a.states@[i].epsilons@.len() as int,
        ));
    }
}

/// Copies a list of state ids.
fn copy_state_ids(v: &Vec<usize>) -> (r: Vec<usize>)
    ensures
        r@ == v@,
{
    let mut r: Vec<usize> = Vec::new();
    let mut i: usize = 0;
    while i < v.len()
        invariant
            i <= v@.len(),
            r@ == v@.subrange(0, i as int),
        decreases v@.len() - i,
    {
        r.push(v[i]);
        i = i + 1;
        proof {
            assert(r@ =~= v@.subrange(0, i as int));
        }
    }
    proof {
        assert(v@.subrange(0, v@.len() as int) =~= v@);
    }
    r
}

/// How many positions of a bitmap are set.
pub open spec fn count_set(s: Seq<bool>) -> int
    decreases s.len(),
{
    if s.len() == 0 {
        0
    } else {
        count_set(s.drop_last()) + if s.last() {
            1int
        } else {
            0int
        }
    }
}

/// A bitmap has between zero and its length many set positions.
pub proof fn lemma_count_set_bounds(s: Seq<bool>)
    ensures
        0 <= count_set(s) <= s.len(),
    decreases s.len(),
{
    if s.len() > 0 {
        lemma_count_set_bounds(s.drop_last());
    }
}

/// Setting an unset position raises the count by one.
pub proof fn lemma_count_set_update(s: Seq<bool>, i: int)
    requires
        0 <= i < s.len(),
        !s[i],
    ensures
        count_set(s.update(i, true)) == count_set(s) + 1,
    decreases s.len(),
{
    let updated = s.update(i, true);
    if i == s.len() - 1 {
        assert(updated.drop_last() =~= s.drop_last());
    } else {
        assert(updated.drop_last() =~= s.drop_last().update(i, true));
        lemma_count_set_update(s.drop_last(), i);
    }
}

} // verus!
