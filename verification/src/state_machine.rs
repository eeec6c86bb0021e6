//! The state machine interface: a read surface shared by nondeterministic
//! and deterministic automata, a mutation surface for automata under
//! construction, and a marker for deterministic machines.

use vstd::prelude::*;

use crate::ndfa::Ndfa;
use crate::symbol_range::SymbolRange;
use crate::symbol_range_dfa::SymbolRangeDfa;

verus! {

/// Identifies a state in a state machine.  State machines always start in
/// state `0`.
pub type StateId = usize;

/// The read surface of a state machine over symbol ranges.
pub trait StateMachine {
    /// The number of states.
    spec fn spec_count(&self) -> nat;

    /// The range-labelled transitions of a state.
    spec fn spec_transitions(&self, state: int) -> Seq<(SymbolRange, usize)>;

    /// The output symbol of a state, when it is an accepting state.
    spec fn spec_output(&self, state: int) -> Option<u32>;

    /// Returns the number of states in this state machine.
    fn count_states(&self) -> (n: StateId)
        ensures
            n == self.spec_count(),
    ;

    /// Returns the transitions for a particular state.
    fn get_transitions_for_state(&self, state: StateId) -> (r: Vec<(SymbolRange, usize)>)
        requires
            state < self.spec_count(),
        ensures
            r@ == self.spec_transitions(state as int),
    ;

    /// If a state is an accepting state, returns the output symbol that is
    /// produced when it ends the longest match.
    fn output_symbol_for_state(&self, state: StateId) -> (r: Option<u32>)
        requires
            state < self.spec_count(),
        ensures
            r == self.spec_output(state as int),
    ;
}

/// The mutation surface of a state machine under construction.
pub trait MutableStateMachine: StateMachine {
    /// Adds a transition between two existing states on a range of symbols.
    fn add_transition(&mut self, state: StateId, for_symbol: SymbolRange, new_state: StateId)
        requires
            state < old(self).spec_count(),
            new_state < old(self).spec_count(),
            for_symbol.valid(),
        ensures
            final(self).spec_count() == old(self).spec_count(),
            final(self).spec_transitions(state as int) == old(self).spec_transitions(
                state as int,
            ).push((for_symbol, new_state)),
            forall|i: int|
                0 <= i < old(self).spec_count() && i != state
                    ==> final(self).spec_transitions(i) == old(self).spec_transitions(i),
            forall|i: int|
                0 <= i < old(self).spec_count() ==> final(self).spec_output(i) == old(
                    self,
                ).spec_output(i),
    ;

    /// Sets the output symbol of an existing state, making it accepting.
    fn set_output_symbol(&mut self, state: StateId, new_output_symbol: u32)
        requires
            state < old(self).spec_count(),
        ensures
            final(self).spec_count() == old(self).spec_count(),
            final(self).spec_output(state as int) == Some(new_output_symbol),
            forall|i: int|
                0 <= i < old(self).spec_count() && i != state ==> final(self).spec_output(i)
                    == old(self).spec_output(i),
            forall|i: int|
                0 <= i < old(self).spec_count() ==> final(self).spec_transitions(i) == old(
                    self,
                ).spec_transitions(i),
    ;
}

/// Marker for state machines with at most one transition per symbol from
/// any state.
pub trait DeterministicStateMachine: StateMachine {

}

impl StateMachine for Ndfa {
    open spec fn spec_count(&self) -> nat {
        self.states@.len()
    }

    open spec fn spec_transitions(&self, state: int) -> Seq<(SymbolRange, usize)> {
        self.states@[state].transitions@
    }

    open spec fn spec_output(&self, state: int) -> Option<u32> {
        self.states@[state].output
    }

    fn count_states(&self) -> (n: StateId) {
        self.states.len()
    }

    fn get_transitions_for_state(&self, state: StateId) -> (r: Vec<(SymbolRange, usize)>) {
        copy_transitions(&self.states[state].transitions)
    }

    fn output_symbol_for_state(&self, state: StateId) -> (r: Option<u32>) {
        self.states[state].output
    }
}

impl MutableStateMachine for Ndfa {
    fn add_transition(
        &mut self,
        state: StateId,
        for_symbol: SymbolRange,
        new_state: StateId,
    ) {
        let mut st = self.states.remove(state);
        st.transitions.push((for_symbol, new_state));
        self.states.insert(state, st);
        proof {
            assert(final(self).states@ =~= old(self).states@.update(
                state as int,
                final(self).states@[state as int],
            ));
        }
    }

    fn set_output_symbol(&mut self, state: StateId, new_output_symbol: u32) {
        let mut st = self.states.remove(state);
        st.output = Some(new_output_symbol);
        self.states.insert(state, st);
        proof {
            assert(final(self).states@ =~= old(self).states@.update(
                state as int,
                final(self).states@[state as int],
            ));
        }
    }
}

impl StateMachine for SymbolRangeDfa {
    open spec fn spec_count(&self) -> nat {
        self.states@.len()
    }

    open spec fn spec_transitions(&self, state: int) -> Seq<(SymbolRange, usize)> {
        self.states@[state].transitions@
    }

    open spec fn spec_output(&self, state: int) -> Option<u32> {
        self.states@[state].output
    }

    fn count_states(&self) -> (n: StateId) {
        self.states.len()
    }

    fn get_transitions_for_state(&self, state: StateId) -> (r: Vec<(SymbolRange, usize)>) {
        copy_transitions(&self.states[state].transitions)
    }

    fn output_symbol_for_state(&self, state: StateId) -> (r: Option<u32>) {
        self.states[state].output
    }
}

impl DeterministicStateMachine for SymbolRangeDfa {

}

/// Copies a transition list.
fn copy_transitions(v: &Vec<(SymbolRange, usize)>) -> (r: Vec<(SymbolRange, usize)>)
    ensures
        r@ == v@,
{
    let mut r: Vec<(SymbolRange, usize)> = Vec::new();
    let mut i: usize = 0;
    while i < v.len()
        invariant
            i <= v@.len(),
            r@ == v@.subrange(0, i as int),
        decreases v@.len() - i,
    {
        r.push(v[i]);
        i = i + 1;
        proof {
            assert(r@ =~= v@.subrange(0, i as int));
        }
    }
    proof {
        assert(v@.subrange(0, v@.len() as int) =~= v@);
    }
    r
}

} // verus!
