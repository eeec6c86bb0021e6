//! Matching a symbol source against a pattern in one call: the pattern is
//! prepared into a deterministic automaton, and the matcher reports the
//! length of the longest accepted prefix of the source.

use vstd::prelude::*;

use crate::pattern_matcher::is_longest_match;
use crate::pattern_matcher::matches_symbol_range;
use crate::prepare::PrepareToMatch;
use crate::symbol_range_dfa::SymbolRangeDfa;
use crate::symbol_reader::SymbolSource;

verus! {

/// Matches a source stream against a pattern: `Some(n)` when the longest
/// accepted prefix of the source has `n` symbols, `None` when no prefix is
/// accepted.  The result is the longest-match semantics of an automaton
/// the pattern prepares into; how tightly that automaton is pinned down is
/// the `models` relation of the pattern's `PrepareToMatch` implementation —
/// exact for an already prepared automaton.
pub fn matches<Source: SymbolSource, Prepare: PrepareToMatch>(source: Source, pattern: Prepare) -> (r:
    Option<usize>)
    requires
        pattern.ready(),
    ensures
        exists|dfa: SymbolRangeDfa|
            #[trigger] pattern.models(dfa) && dfa.wf() && is_longest_match(
                dfa,
                source.symbols(),
                r,
            ),
        r matches Some(n) ==> n <= source.symbols().len(),
{
    let matcher = pattern.prepare_to_match();
    let mut reader = source.read_symbols();
    let result = matches_symbol_range(&matcher, &mut reader);
    proof {
        assert(pattern.models(matcher) && matcher.wf() && is_longest_match(
            matcher,
            source.symbols(),
            result,
        ));
        if result is Some {
            assert(matcher.accepts_prefix(source.symbols(), result->Some_0 as int));
        }
    }
    result
}

} // verus!
