//! Preparing patterns for matching.  A pattern that will be matched many
//! times is prepared once: compiled through the nondeterministic automaton,
//! its range labels split apart, and subset-constructed into a
//! deterministic automaton that can be executed repeatedly.

use vstd::prelude::*;

use crate::dfa_compiler::build_dfa;
use crate::dfa_compiler::lemma_min_output_is_member_output;
use crate::dfa_compiler::min_output;
use crate::ndfa::Ndfa;
use crate::regular_pattern::Pattern;
use crate::symbol_range_dfa::SymbolRangeDfa;

verus! {

/// Things that can be turned into a ready-to-run deterministic automaton.
pub trait PrepareToMatch: Sized {
    /// Whether this value is fit to prepare: its patterns are valid.
    spec fn ready(&self) -> bool;

    /// Which deterministic automata this value can prepare into.  How tight
    /// this relation is depends on the implementation: an already prepared
    /// automaton prepares only into itself.
    spec fn models(&self, dfa: SymbolRangeDfa) -> bool;

    /// Builds the deterministic automaton that matches this value's
    /// pattern.
    fn prepare_to_match(self) -> (r: SymbolRangeDfa)
        requires
            self.ready(),
        ensures
            r.wf(),
            self.models(r),
    ;
}

impl PrepareToMatch for Pattern {
    open spec fn ready(&self) -> bool {
        self.valid()
    }

    /// The automaton is well-formed and every accepting state carries the
    /// unit output, `0`, which a lone pattern prepares with.  The relation
    /// between the pattern's language and the prepared automaton is not
    /// verified: the construction is checked for the automaton invariants,
    /// not for language correctness.
    open spec fn models(&self, dfa: SymbolRangeDfa) -> bool {
        &&& dfa.wf()
        &&& forall|st: int|
            0 <= st < dfa.states@.len() && (#[trigger] dfa.states@[st]).output is Some
                ==> dfa.states@[st].output == Some(0u32)
    }

    fn prepare_to_match(self) -> (r: SymbolRangeDfa) {
        let mut ndfa = Ndfa::new();
        let ghost fresh = ndfa;
        let accept = self.compile(&mut ndfa, 0);
        proof {
            assert forall|st: int|
                0 <= st < ndfa.states@.len() implies (#[trigger] ndfa.states@[st]).output
                is None by {
                if st == 0 {
                    assert(ndfa.states@[st].output == fresh.states@[st].output);
                }
            }
        }
        ndfa.set_output_symbol(accept, 0);
        proof {
            assert forall|st: int|
                0 <= st < ndfa.states@.len() && (#[trigger] ndfa.states@[st]).output is Some
                    implies ndfa.states@[st].output == Some(0u32) by {
                assert(st == accept || ndfa.states@[st].output is None);
            }
        }
        let ghost before_fix = ndfa;
        ndfa.fix_overlapping_ranges();
        proof {
            assert forall|st: int|
                0 <= st < ndfa.states@.len() && (#[trigger] ndfa.states@[st]).output is Some
                    implies ndfa.states@[st].output == Some(0u32) by {
                assert(ndfa.states@[st].output == before_fix.states@[st].output);
            }
        }
        let built = build_dfa(&ndfa);
        let r = built.0;
        proof {
            let views = built.1@;
            assert forall|st: int|
                0 <= st < r.states@.len() && (#[trigger] r.states@[st]).output is Some
                    implies r.states@[st].output == Some(0u32) by {
                assert(r.states@[st].output == min_output(ndfa, views[st]));
                lemma_min_output_is_member_output(ndfa, views[st], views[st].len() as int);
                let s2 = choose|s2: int|
                    0 <= s2 < views[st].len() && #[trigger] views[st][s2]
                        && ndfa.states@[s2].output == min_output(ndfa, views[st]);
                assert(ndfa.states@[s2].output is Some);
            }
        }
        r
    }
}

impl PrepareToMatch for SymbolRangeDfa {
    open spec fn ready(&self) -> bool {
        self.wf()
    }

    /// Preparing an automaton that is already deterministic is the
    /// identity.
    open spec fn models(&self, dfa: SymbolRangeDfa) -> bool {
        dfa == *self
    }

    fn prepare_to_match(self) -> (r: SymbolRangeDfa) {
        self
    }
}

} // verus!
