//! The matching engine: executes a deterministic automaton against a symbol
//! source with longest-match semantics.  The matcher reports the length of
//! the longest accepted prefix of the input and the output symbol of the
//! accepting state that ends it.

use vstd::prelude::*;

use crate::symbol_range_dfa::SymbolRangeDfa;
use crate::symbol_reader::read_all;
use crate::symbol_reader::SymbolReader;

verus! {

/// The terminal state of one match: either the longest accepted prefix with
/// its length and output symbol, or a rejection.
#[derive(Clone, Copy, PartialEq, Eq, Structural, Debug)]
pub enum MatchResult {
    /// The longest accepted prefix had this many symbols and ended in an
    /// accepting state with this output.
    Accept(usize, u32),
    /// No prefix of the input was accepted.
    Reject,
}

impl MatchResult {
    /// Whether the match accepted, producing the given output symbol.
    pub fn is_accepted(&self, output: u32) -> (r: bool)
        ensures
            r == (self is Accept && self->Accept_1 == output),
    {
        match self {
            MatchResult::Accept(_, o) => *o == output,
            MatchResult::Reject => false,
        }
    }
}

/// What it means for `r` to describe the longest accepted prefix of `input`
/// under the automaton `dfa`.
pub open spec fn is_longest_match(dfa: SymbolRangeDfa, input: Seq<u32>, r: Option<usize>) -> bool {
    match r {
        Some(n) => {
            &&& dfa.accepts_prefix(input, n as int)
            &&& forall|m: int| n < m <= input.len() ==> !dfa.accepts_prefix(input, m)
        },
        None => forall|m: int| 0 <= m <= input.len() ==> !dfa.accepts_prefix(input, m),
    }
}

/// Runs the automaton over `input` starting at position `start` and returns
/// the length of the longest accepted prefix of the remaining input together
/// with the output symbol of its accepting state.
pub fn match_from(dfa: &SymbolRangeDfa, input: &Vec<u32>, start: usize) -> (r: Option<
    (usize, u32),
>)
    requires
        dfa.wf(),
        start <= input@.len(),
    ensures
        ({
            let suffix = input@.subrange(start as int, input@.len() as int);
            match r {
                Some(p) => {
                    &&& p.0 <= suffix.len()
                    &&& dfa.accepts_prefix(suffix, p.0 as int)
                    &&& p.1 == dfa.prefix_output(suffix, p.0 as int)
                    &&& forall|m: int| p.0 < m <= suffix.len() ==> !dfa.accepts_prefix(suffix, m)
                },
                None => forall|m: int| 0 <= m <= suffix.len() ==> !dfa.accepts_prefix(suffix, m),
            }
        }),
{
    let ghost suffix = input@.subrange(start as int, input@.len() as int);
    let mut state: usize = 0;
    let mut position: usize = start;
    let mut consumed: usize = 0;
    let mut best: Option<(usize, u32)> = None;
    if let Some(output) = dfa.output_for_state(0) {
        best = Some((0, output));
    }
    while position < input.len()
        invariant
            dfa.wf(),
            start <= input@.len(),
            suffix == input@.subrange(start as int, input@.len() as int),
            consumed <= suffix.len(),
            position == start + consumed,
            dfa.run(suffix, consumed as int) == Some(state as int),
            state < dfa.states@.len(),
            match best {
                Some(p) => {
                    &&& p.0 <= consumed
                    &&& dfa.accepts_prefix(suffix, p.0 as int)
                    &&& p.1 == dfa.prefix_output(suffix, p.0 as int)
                    &&& forall|m: int|
                        0 <= m <= consumed && dfa.accepts_prefix(suffix, m) ==> m <= p.0
                },
                None => forall|m: int| 0 <= m <= consumed ==> !dfa.accepts_prefix(suffix, m),
            },
        decreases input@.len() - position,
    {
        let symbol = input[position];
        proof {
            assert(suffix[consumed as int] == input@[position as int]);
        }
        match dfa.next_state(state, symbol) {
            Some(target) => {
                state = target;
                position = position + 1;
                consumed = consumed + 1;
                proof {
                    assert(dfa.run(suffix, consumed as int) == Some(state as int));
                }
                if let Some(output) = dfa.output_for_state(state) {
                    best = Some((consumed, output));
                }
            },
            None => {
                proof {
                    assert(dfa.run(suffix, consumed + 1) is None);
                    assert forall|m: int|
                        consumed < m <= suffix.len() implies !dfa.accepts_prefix(suffix, m) by {
                        dfa.lemma_run_stuck(suffix, consumed + 1, m);
                    }
                }
                return best;
            },
        }
    }
    best
}

/// Runs the automaton against everything a reader still has to produce and
/// returns the length of the longest accepted prefix, if any prefix is
/// accepted at all.
pub fn matches_symbol_range<R: SymbolReader>(dfa: &SymbolRangeDfa, symbol_reader: &mut R) -> (r:
    Option<usize>)
    requires
        dfa.wf(),
    ensures
        is_longest_match(*dfa, old(symbol_reader).pending(), r),
        final(symbol_reader).pending().len() == 0,
{
    let input = read_all(symbol_reader);
    proof {
        assert(input@.subrange(0, input@.len() as int) =~= input@);
    }
    match match_from(dfa, &input, 0) {
        Some((count, _)) => Some(count),
        None => None,
    }
}

/// Runs the automaton against everything a reader still has to produce and
/// reports the longest accepted prefix together with its output symbol.
pub fn match_pattern<R: SymbolReader>(dfa: &SymbolRangeDfa, symbol_reader: &mut R) -> (r:
    MatchResult)
    requires
        dfa.wf(),
    ensures
        ({
            let input = old(symbol_reader).pending();
            match r {
                MatchResult::Accept(n, output) => {
                    &&& dfa.accepts_prefix(input, n as int)
                    &&& output == dfa.prefix_output(input, n as int)
                    &&& forall|m: int| n < m <= input.len() ==> !dfa.accepts_prefix(input, m)
                },
                MatchResult::Reject => forall|m: int|
                    0 <= m <= input.len() ==> !dfa.accepts_prefix(input, m),
            }
        }),
        final(symbol_reader).pending().len() == 0,
{
    let input = read_all(symbol_reader);
    proof {
        assert(input@.subrange(0, input@.len() as int) =~= input@);
    }
    match match_from(dfa, &input, 0) {
        Some((count, output)) => MatchResult::Accept(count, output),
        None => MatchResult::Reject,
    }
}

/// Longest match is monotone: when a prefix `u` of `v` and `v` itself are
/// both accepted in full, the longest accepted prefix of `v` is at least as
/// long as the longest accepted prefix of `u`.
pub proof fn lemma_longest_match_monotone(
    dfa: SymbolRangeDfa,
    u: Seq<u32>,
    v: Seq<u32>,
    ru: Option<usize>,
    rv: Option<usize>,
)
    requires
        dfa.wf(),
        u.len() <= v.len(),
        u == v.subrange(0, u.len() as int),
        dfa.accepts_prefix(u, u.len() as int),
        dfa.accepts_prefix(v, v.len() as int),
        is_longest_match(dfa, u, ru),
        is_longest_match(dfa, v, rv),
    ensures
        ru is Some,
        rv is Some,
        ru->Some_0 <= rv->Some_0,
{
    if ru is None {
        assert(!dfa.accepts_prefix(u, u.len() as int));
    }
    if rv is None {
        assert(!dfa.accepts_prefix(v, v.len() as int));
    }
    let nv = rv->Some_0 as int;
    if nv < v.len() {
        assert(!dfa.accepts_prefix(v, v.len() as int));
    }
    assert(nv == v.len());
    assert(ru->Some_0 <= u.len());
}

} // verus!
