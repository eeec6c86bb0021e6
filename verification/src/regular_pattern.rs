//! Regular patterns: an algebraic model of regular expressions over symbol
//! ranges, with combinators for building them and a compiler that expands a
//! pattern into a nondeterministic automaton.

use vstd::prelude::*;

use crate::ndfa::extends;
use crate::ndfa::lemma_extends_refl;
use crate::ndfa::lemma_extends_trans;
use crate::ndfa::Ndfa;
use crate::symbol_range::SymbolRange;

verus! {

/// A regular pattern over symbols.
#[derive(Debug)]
#[verifier::ext_equal]
pub enum Pattern {
    /// Matches one symbol between the two bounds, inclusive.
    MatchRange(u32, u32),
    /// Matches the empty input.
    Epsilon,
    /// Matches the first pattern followed by the second.
    Concat(Box<Pattern>, Box<Pattern>),
    /// Matches either pattern.
    Alt(Box<Pattern>, Box<Pattern>),
    /// Matches at least the given number of repetitions of the pattern, and
    /// at most the bound when one is given.
    Repeat(Box<Pattern>, u32, Option<u32>),
    /// Matches exactly the given symbols in order.
    Literal(Vec<u32>),
}

impl Pattern {
    /// A pattern is valid when every range bound pair is ordered and every
    /// bounded repetition has its bounds ordered.
    pub open spec fn valid(self) -> bool
        decreases self,
    {
        match self {
            Pattern::MatchRange(low, high) => low <= high,
            Pattern::Epsilon => true,
            Pattern::Concat(a, b) => a.valid() && b.valid(),
            Pattern::Alt(a, b) => a.valid() && b.valid(),
            Pattern::Repeat(p, min, max) => p.valid() && match max {
                Some(m) => min <= m,
                None => true,
            },
            Pattern::Literal(_) => true,
        }
    }

    /// Checks validity at run time, for callers built outside the library.
    pub fn is_valid(&self) -> (r: bool)
        ensures
            r == self.valid(),
        decreases *self,
    {
        match self {
            Pattern::MatchRange(low, high) => *low <= *high,
            Pattern::Epsilon => true,
            Pattern::Concat(a, b) => a.is_valid() && b.is_valid(),
            Pattern::Alt(a, b) => a.is_valid() && b.is_valid(),
            Pattern::Repeat(p, min, max) => p.is_valid() && match max {
                Some(m) => *min <= *m,
                None => true,
            },
            Pattern::Literal(_) => true,
        }
    }

    /// Expands this pattern into the automaton, starting at `from_state`,
    /// and returns the accept state the pattern ends in.  Fresh states are
    /// allocated as needed; the outputs of the states that already existed
    /// are left alone.
    pub fn compile(&self, ndfa: &mut Ndfa, from_state: usize) -> (accept: usize)
        requires
            self.valid(),
            old(ndfa).wf(),
            from_state < old(ndfa).states@.len(),
        ensures
            final(ndfa).wf(),
            accept < final(ndfa).states@.len(),
            final(ndfa).states@.len() >= old(ndfa).states@.len(),
            extends(*old(ndfa), *final(ndfa)),
            forall|i: int|
                0 <= i < old(ndfa).states@.len() ==> (#[trigger] final(ndfa).states@[i]).output
                    == old(ndfa).states@[i].output,
            forall|i: int|
                old(ndfa).states@.len() <= i < final(ndfa).states@.len() ==> (
                #[trigger] final(ndfa).states@[i]).output is None,
        decreases *self,
    {
        match self {
            Pattern::MatchRange(low, high) => {
                let next = ndfa.add_state();
                let ghost n1 = *ndfa;
                ndfa.add_transition(from_state, SymbolRange::new(*low, *high), next);
                proof {
                    lemma_extends_trans(*old(ndfa), n1, *ndfa);
                }
                next
            },
            Pattern::Epsilon => {
                proof {
                    lemma_extends_refl(*ndfa);
                }
                from_state
            },
            Pattern::Concat(a, b) => {
                let middle = a.compile(ndfa, from_state);
                let ghost n1 = *ndfa;
                let accept = b.compile(ndfa, middle);
                proof {
                    lemma_extends_trans(*old(ndfa), n1, *ndfa);
                }
                accept
            },
            Pattern::Alt(a, b) => {
                let left_start = ndfa.add_state();
                let ghost n1 = *ndfa;
                ndfa.add_epsilon(from_state, left_start);
                proof {
                    lemma_extends_trans(*old(ndfa), n1, *ndfa);
                }
                let ghost n2 = *ndfa;
                let left_accept = a.compile(ndfa, left_start);
                proof {
                    lemma_extends_trans(*old(ndfa), n2, *ndfa);
                }
                let ghost n3 = *ndfa;
                let right_start = ndfa.add_state();
                proof {
                    lemma_extends_trans(*old(ndfa), n3, *ndfa);
                }
                let ghost n4 = *ndfa;
                ndfa.add_epsilon(from_state, right_start);
                proof {
                    lemma_extends_trans(*old(ndfa), n4, *ndfa);
                }
                let ghost n5 = *ndfa;
                let right_accept = b.compile(ndfa, right_start);
                proof {
                    lemma_extends_trans(*old(ndfa), n5, *ndfa);
                }
                let ghost n6 = *ndfa;
                let accept = ndfa.add_state();
                proof {
                    lemma_extends_trans(*old(ndfa), n6, *ndfa);
                }
                let ghost n7 = *ndfa;
                ndfa.add_epsilon(left_accept, accept);
                proof {
                    lemma_extends_trans(*old(ndfa), n7, *ndfa);
                }
                let ghost n8 = *ndfa;
                ndfa.add_epsilon(right_accept, accept);
                proof {
                    lemma_extends_trans(*old(ndfa), n8, *ndfa);
                }
                accept
            },
            Pattern::Repeat(p, min, max) => {
                let mut current = from_state;
                let mut i: u32 = 0;
                proof {
                    lemma_extends_refl(*ndfa);
                }
                #[verifier::loop_isolation(false)]
                while i < *min
                    invariant
                        p.valid(),
                        ndfa.wf(),
                        current < ndfa.states@.len(),
                        ndfa.states@.len() >= old(ndfa).states@.len(),
                        extends(*old(ndfa), *ndfa),
                        i <= *min,
                        forall|s: int|
                            0 <= s < old(ndfa).states@.len() ==> (
                            #[trigger] ndfa.states@[s]).output == old(ndfa).states@[s].output,
                        forall|s: int|
                            old(ndfa).states@.len() <= s < ndfa.states@.len() ==> (
                            #[trigger] ndfa.states@[s]).output is None,
                    decreases *min - i,
                {
                    let ghost before = *ndfa;
                    current = p.compile(ndfa, current);
                    proof {
                        lemma_extends_trans(*old(ndfa), before, *ndfa);
                    }
                    i = i + 1;
                }
                let ghost after_copies = *ndfa;
                let accept = ndfa.add_state();
                proof {
                    lemma_extends_trans(*old(ndfa), after_copies, *ndfa);
                }
                let ghost with_accept = *ndfa;
                ndfa.add_epsilon(current, accept);
                proof {
                    lemma_extends_trans(*old(ndfa), with_accept, *ndfa);
                }
                match max {
                    None => {
                        // Unbounded: one more copy of the body loops back
                        // into the accept state.
                        let ghost before_body = *ndfa;
                        let again = p.compile(ndfa, accept);
                        proof {
                            lemma_extends_trans(*old(ndfa), before_body, *ndfa);
                        }
                        let ghost with_body = *ndfa;
                        ndfa.add_epsilon(again, accept);
                        proof {
                            lemma_extends_trans(*old(ndfa), with_body, *ndfa);
                        }
                        accept
                    },
                    Some(m) => {
                        // Bounded: up to `m - min` further optional copies,
                        // each able to stop at the accept state.
                        let mut j: u32 = *min;
                        #[verifier::loop_isolation(false)]
                        while j < *m
                            invariant
                                p.valid(),
                                ndfa.wf(),
                                current < ndfa.states@.len(),
                                accept < ndfa.states@.len(),
                                ndfa.states@.len() >= old(ndfa).states@.len(),
                                extends(*old(ndfa), *ndfa),
                                j <= *m,
                                forall|s: int|
                                    0 <= s < old(ndfa).states@.len() ==> (
                                    #[trigger] ndfa.states@[s]).output == old(
                                        ndfa,
                                    ).states@[s].output,
                                forall|s: int|
                                    old(ndfa).states@.len() <= s < ndfa.states@.len() ==> (
                                    #[trigger] ndfa.states@[s]).output is None,
                            decreases *m - j,
                        {
                            let ghost before = *ndfa;
                            current = p.compile(ndfa, current);
                            proof {
                                lemma_extends_trans(*old(ndfa), before, *ndfa);
                            }
                            let ghost mid = *ndfa;
                            ndfa.add_epsilon(current, accept);
                            proof {
                                lemma_extends_trans(*old(ndfa), mid, *ndfa);
                            }
                            j = j + 1;
                        }
                        accept
                    },
                }
            },
            Pattern::Literal(symbols) => {
                let mut current = from_state;
                let mut i: usize = 0;
                proof {
                    lemma_extends_refl(*ndfa);
                }
                #[verifier::loop_isolation(false)]
                while i < symbols.len()
                    invariant
                        ndfa.wf(),
                        current < ndfa.states@.len(),
                        ndfa.states@.len() >= old(ndfa).states@.len(),
                        extends(*old(ndfa), *ndfa),
                        i <= symbols@.len(),
                        forall|s: int|
                            0 <= s < old(ndfa).states@.len() ==> (
                            #[trigger] ndfa.states@[s]).output == old(ndfa).states@[s].output,
                        forall|s: int|
                            old(ndfa).states@.len() <= s < ndfa.states@.len() ==> (
                            #[trigger] ndfa.states@[s]).output is None,
                    decreases symbols@.len() - i,
                {
                    let symbol = symbols[i];
                    let ghost before = *ndfa;
                    let next = ndfa.add_state();
                    proof {
                        lemma_extends_trans(*old(ndfa), before, *ndfa);
                    }
                    let ghost mid = *ndfa;
                    ndfa.add_transition(current, SymbolRange::new(symbol, symbol), next);
                    proof {
                        lemma_extends_trans(*old(ndfa), mid, *ndfa);
                    }
                    current = next;
                    i = i + 1;
                }
                current
            },
        }
    }

}

/// A pattern matching exactly the given symbols in order.
pub fn exactly(symbols: Vec<u32>) -> (r: Pattern)
    ensures
        r == Pattern::Literal(symbols),
        r.valid(),
{
    Pattern::Literal(symbols)
}

/// A pattern matching one symbol between the two bounds, inclusive.
pub fn range(low: u32, high: u32) -> (r: Pattern)
    requires
        low <= high,
    ensures
        r == Pattern::MatchRange(low, high),
        r.valid(),
{
    Pattern::MatchRange(low, high)
}

/// A pattern matching either of the two patterns.
pub fn alt(p: Pattern, q: Pattern) -> (r: Pattern)
    ensures
        r == Pattern::Alt(Box::new(p), Box::new(q)),
        p.valid() && q.valid() ==> r.valid(),
{
    Pattern::Alt(Box::new(p), Box::new(q))
}

/// A pattern matching the first pattern followed by the second.
pub fn concat(p: Pattern, q: Pattern) -> (r: Pattern)
    ensures
        r == Pattern::Concat(Box::new(p), Box::new(q)),
        p.valid() && q.valid() ==> r.valid(),
{
    Pattern::Concat(Box::new(p), Box::new(q))
}

/// A pattern matching any of the given patterns; with none it matches the
/// empty input only.
pub fn any_of(patterns: Vec<Pattern>) -> (r: Pattern)
    requires
        forall|i: int| 0 <= i < patterns@.len() ==> (#[trigger] patterns@[i]).valid(),
    ensures
        r.valid(),
{
    let mut rest = patterns;
    let mut combined = Pattern::Epsilon;
    let mut first = true;
    while rest.len() > 0
        invariant
            forall|i: int| 0 <= i < rest@.len() ==> (#[trigger] rest@[i]).valid(),
            combined.valid(),
        decreases rest@.len(),
    {
        let ghost rest_before = rest@;
        let next = rest.remove(0);
        proof {
            assert(next.valid());
            assert forall|i: int| 0 <= i < rest@.len() implies (#[trigger] rest@[i]).valid() by {
                assert(rest@[i] == rest_before[i + 1]);
            }
        }
        if first {
            combined = next;
            first = false;
        } else {
            combined = Pattern::Alt(Box::new(combined), Box::new(next));
        }
    }
    combined
}

/// A pattern matching exactly `times` repetitions of the pattern.
pub fn repeat(p: Pattern, times: u32) -> (r: Pattern)
    ensures
        r == Pattern::Repeat(Box::new(p), times, Some(times)),
        p.valid() ==> r.valid(),
{
    Pattern::Repeat(Box::new(p), times, Some(times))
}

/// A pattern matching between `min` and `max` repetitions of the pattern.
pub fn repeat_bounded(p: Pattern, min: u32, max: u32) -> (r: Pattern)
    requires
        min <= max,
    ensures
        r == Pattern::Repeat(Box::new(p), min, Some(max)),
        p.valid() ==> r.valid(),
{
    Pattern::Repeat(Box::new(p), min, Some(max))
}

/// A pattern matching at least `min` repetitions of the pattern, with no
/// upper bound.
pub fn repeat_forever(p: Pattern, min: u32) -> (r: Pattern)
    ensures
        r == Pattern::Repeat(Box::new(p), min, None),
        p.valid() ==> r.valid(),
{
    Pattern::Repeat(Box::new(p), min, None)
}

} // verus!
