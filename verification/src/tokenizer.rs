//! The tokenizer: an ordered collection of patterns, each producing its own
//! output symbol.  All patterns are compiled into one automaton from the
//! shared start state; when two patterns accept the same longest prefix,
//! the lower-ordered output symbol wins, because the subset construction
//! keeps the minimum output of the states it merges.

use vstd::prelude::*;

use crate::dfa_compiler::build_dfa;
use crate::dfa_compiler::lemma_min_output_is_member_output;
use crate::dfa_compiler::min_output;
use crate::ndfa::Ndfa;
use crate::prepare::PrepareToMatch;
use crate::regular_pattern::Pattern;
use crate::symbol_range_dfa::SymbolRangeDfa;

verus! {

/// Generates tokenizing pattern matchers from a list of patterns and their
/// output symbols.
pub struct Tokenizer {
    pub patterns: Vec<(Pattern, u32)>,
}

impl Tokenizer {
    /// Whether every pattern added so far is valid.
    pub open spec fn patterns_valid(self) -> bool {
        forall|i: int|
            0 <= i < self.patterns@.len() ==> (#[trigger] self.patterns@[i]).0.valid()
    }

    /// Creates a new tokenizer with no patterns.
    pub fn new() -> (r: Tokenizer)
        ensures
            r.patterns@.len() == 0,
            r.patterns_valid(),
    {
        Tokenizer { patterns: Vec::new() }
    }

    /// Adds a pattern that will generate the given output symbol.
    pub fn add_pattern(&mut self, pattern: Pattern, output: u32)
        ensures
            final(self).patterns@ == old(self).patterns@.push((pattern, output)),
            old(self).patterns_valid() && pattern.valid() ==> final(self).patterns_valid(),
    {
        self.patterns.push((pattern, output));
        proof {
            if old(self).patterns_valid() && pattern.valid() {
                assert forall|i: int|
                    0 <= i < self.patterns@.len() implies (
                #[trigger] self.patterns@[i]).0.valid() by {
                    if i < old(self).patterns@.len() {
                        assert(self.patterns@[i] == old(self).patterns@[i]);
                    }
                }
            }
        }
    }

    /// Checks at run time that every added pattern is valid, for callers
    /// built outside the library.
    pub fn patterns_are_valid(&self) -> (r: bool)
        ensures
            r == self.patterns_valid(),
    {
        let mut i: usize = 0;
        while i < self.patterns.len()
            invariant
                i <= self.patterns@.len(),
                forall|j: int| 0 <= j < i ==> (#[trigger] self.patterns@[j]).0.valid(),
            decreases self.patterns@.len() - i,
        {
            if !self.patterns[i].0.is_valid() {
                return false;
            }
            i = i + 1;
        }
        true
    }

    /// Compiles every pattern into one automaton from the shared start
    /// state, sets each pattern's output on its accept state, and splits
    /// overlapping ranges so that a deterministic automaton can be built.
    /// The ghost result names each pattern's accept state: every one of
    /// them is an accepting state, and when the accept states are pairwise
    /// distinct each carries exactly its own pattern's output symbol.
    pub fn to_ndfa(&self) -> (res: (Ndfa, Ghost<Seq<int>>))
        requires
            self.patterns_valid(),
        ensures
            res.0.wf(),
            res.0.atomic_ranges(),
            res.1@.len() == self.patterns@.len(),
            forall|i: int| 0 <= i < res.1@.len() ==> 0 <= #[trigger] res.1@[i] < res.0.states@.len(),
            forall|i: int|
                0 <= i < res.1@.len() ==> res.0.states@[#[trigger] res.1@[i]].output is Some,
            (forall|i: int, j: int| 0 <= i < j < res.1@.len() ==> res.1@[i] != res.1@[j])
                ==> forall|i: int|
                0 <= i < res.1@.len() ==> res.0.states@[#[trigger] res.1@[i]].output == Some(
                    self.patterns@[i].1,
                ),
            forall|st: int|
                0 <= st < res.0.states@.len() && (#[trigger] res.0.states@[st]).output is Some
                    ==> exists|i: int|
                    0 <= i < self.patterns@.len() && res.0.states@[st].output == Some(
                        (#[trigger] self.patterns@[i]).1,
                    ),
    {
        let mut ndfa = Ndfa::new();
        let ghost mut accepts: Seq<int> = Seq::empty();
        let mut i: usize = 0;
        while i < self.patterns.len()
            invariant
                self.patterns_valid(),
                ndfa.wf(),
                ndfa.states@.len() >= 1,
                i <= self.patterns@.len(),
                accepts.len() == i,
                forall|k: int| 0 <= k < i ==> 0 <= #[trigger] accepts[k] < ndfa.states@.len(),
                forall|k: int|
                    0 <= k < i ==> ndfa.states@[#[trigger] accepts[k]].output is Some,
                (forall|k: int, l: int| 0 <= k < l < i ==> accepts[k] != accepts[l]) ==> forall|
                    k: int,
                |
                    0 <= k < i ==> ndfa.states@[#[trigger] accepts[k]].output == Some(
                        self.patterns@[k].1,
                    ),
                forall|st: int|
                    0 <= st < ndfa.states@.len() && (#[trigger] ndfa.states@[st]).output is Some
                        ==> exists|k: int|
                        0 <= k < i && ndfa.states@[st].output == Some(
                            (#[trigger] self.patterns@[k]).1,
                        ),
            decreases self.patterns@.len() - i,
        {
            let ghost before_compile = ndfa;
            let end_state = self.patterns[i].0.compile(&mut ndfa, 0);
            let output = self.patterns[i].1;
            let ghost before_output = ndfa;
            ndfa.set_output_symbol(end_state, output);
            proof {
                let accepts_before = accepts;
                accepts = accepts.push(end_state as int);
                assert forall|k: int|
                    0 <= k < i + 1 implies ndfa.states@[#[trigger] accepts[k]].output is Some by {
                    if k < i {
                        assert(accepts[k] == accepts_before[k]);
                        if accepts[k] != end_state {
                            assert(ndfa.states@[accepts[k]] == before_output.states@[accepts[k]]);
                            assert(before_output.states@[accepts[k]].output
                                == before_compile.states@[accepts[k]].output);
                        }
                    } else {
                        assert(accepts[k] == end_state as int);
                    }
                }
                if forall|k: int, l: int| 0 <= k < l < i + 1 ==> accepts[k] != accepts[l] {
                    assert forall|k2: int, l2: int|
                        0 <= k2 < l2 < i implies accepts_before[k2] != accepts_before[l2] by {
                        assert(accepts_before[k2] == accepts[k2]);
                        assert(accepts_before[l2] == accepts[l2]);
                    }
                    assert forall|k: int|
                        0 <= k < i + 1 implies ndfa.states@[#[trigger] accepts[k]].output == Some(
                        self.patterns@[k].1,
                    ) by {
                        if k < i {
                            assert(accepts[k] == accepts_before[k]);
                            assert(before_compile.states@[accepts_before[k]].output == Some(
                                self.patterns@[k].1,
                            ));
                            assert(accepts[k] != accepts[i as int]);
                            assert(ndfa.states@[accepts[k]] == before_output.states@[accepts[k]]);
                            assert(before_output.states@[accepts[k]].output
                                == before_compile.states@[accepts[k]].output);
                        } else {
                            assert(accepts[k] == end_state as int);
                        }
                    }
                }
                assert forall|st: int|
                    0 <= st < ndfa.states@.len() && (#[trigger] ndfa.states@[st]).output is Some
                        implies exists|k: int|
                    0 <= k < i + 1 && ndfa.states@[st].output == Some(
                        (#[trigger] self.patterns@[k]).1,
                    ) by {
                    if st == end_state {
                        assert(ndfa.states@[st].output == Some((self.patterns@[i as int]).1));
                    } else {
                        assert(ndfa.states@[st].output == before_output.states@[st].output);
                        if st < before_compile.states@.len() {
                            assert(before_output.states@[st].output
                                == before_compile.states@[st].output);
                            let k = choose|k: int|
                                0 <= k < i && before_compile.states@[st].output == Some(
                                    (#[trigger] self.patterns@[k]).1,
                                );
                            assert(ndfa.states@[st].output == Some((self.patterns@[k]).1));
                        } else {
                            assert(before_output.states@[st].output is None);
                        }
                    }
                }
            }
            i = i + 1;
        }
        let ghost before_fix = ndfa;
        ndfa.fix_overlapping_ranges();
        proof {
            assert forall|st: int|
                0 <= st < ndfa.states@.len() && (#[trigger] ndfa.states@[st]).output is Some
                    implies exists|k: int|
                0 <= k < self.patterns@.len() && ndfa.states@[st].output == Some(
                    (#[trigger] self.patterns@[k]).1,
                ) by {
                assert(ndfa.states@[st].output == before_fix.states@[st].output);
                let k = choose|k: int|
                    0 <= k < self.patterns@.len() && before_fix.states@[st].output == Some(
                        (#[trigger] self.patterns@[k]).1,
                    );
                assert(ndfa.states@[st].output == Some((self.patterns@[k]).1));
            }
        }
        (ndfa, Ghost(accepts))
    }
}

impl<'a> PrepareToMatch for &'a Tokenizer {
    open spec fn ready(&self) -> bool {
        (**self).patterns_valid()
    }

    /// The automaton is well-formed and emits only this tokenizer's own
    /// output symbols.  The relation between the patterns' languages and
    /// the prepared automaton is not verified: the pipeline is checked for
    /// the automaton invariants, the priority tie-break and this output
    /// provenance, not for language correctness.
    open spec fn models(&self, dfa: SymbolRangeDfa) -> bool {
        &&& dfa.wf()
        &&& forall|st: int|
            0 <= st < dfa.states@.len() && (#[trigger] dfa.states@[st]).output is Some
                ==> exists|i: int|
                0 <= i < (**self).patterns@.len() && dfa.states@[st].output == Some(
                    (#[trigger] (**self).patterns@[i]).1,
                )
    }

    fn prepare_to_match(self) -> (r: SymbolRangeDfa) {
        let (ndfa, _) = self.to_ndfa();
        let built = build_dfa(&ndfa);
        let r = built.0;
        proof {
            let views = built.1@;
            assert forall|st: int|
                0 <= st < r.states@.len() && (#[trigger] r.states@[st]).output is Some
                    implies exists|i: int|
                0 <= i < self.patterns@.len() && r.states@[st].output == Some(
                    (#[trigger] self.patterns@[i]).1,
                ) by {
                assert(r.states@[st].output == min_output(ndfa, views[st]));
                lemma_min_output_is_member_output(ndfa, views[st], views[st].len() as int);
                let s2 = choose|s2: int|
                    0 <= s2 < views[st].len() && #[trigger] views[st][s2]
                        && ndfa.states@[s2].output == min_output(ndfa, views[st]);
                assert(ndfa.states@[s2].output is Some);
                let i = choose|i: int|
                    0 <= i < self.patterns@.len() && ndfa.states@[s2].output == Some(
                        (#[trigger] self.patterns@[i]).1,
                    );
                assert(r.states@[st].output == Some((self.patterns@[i]).1));
            }
        }
        r
    }
}

} // verus!
