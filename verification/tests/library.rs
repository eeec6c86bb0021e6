//! End-to-end tests of the automata library: tokenizing, annotated-stream
//! queries, manual annotation, matching, pattern combinators, and the
//! alphabet and range primitives.

use concordance::annotated_stream::AnnotatedStream;
use concordance::annotated_stream::Annotator;
use concordance::annotated_stream::Span;
use concordance::countable::predecessor;
use concordance::countable::successor;
use concordance::countable::AlphabetError;
use concordance::ndfa::Ndfa;
use concordance::pattern_matcher::match_pattern;
use concordance::prepare::PrepareToMatch;
use concordance::regular_pattern::alt;
use concordance::regular_pattern::any_of;
use concordance::regular_pattern::exactly;
use concordance::regular_pattern::range;
use concordance::regular_pattern::repeat;
use concordance::regular_pattern::repeat_bounded;
use concordance::regular_pattern::repeat_forever;
use concordance::symbol_range::SymbolRange;
use concordance::symbol_reader::SymbolReader;
use concordance::symbol_reader::SymbolSource;
use concordance::tokenizer::Tokenizer;

const DIGIT: u32 = 0;
const WHITESPACE: u32 = 1;

const ALL_AS: u32 = 0;
const ALL_BS: u32 = 1;

fn syms(s: &str) -> Vec<u32> {
    s.chars().map(|c| c as u32).collect()
}

fn text(v: &[u32]) -> String {
    v.iter().map(|&c| char::from_u32(c).unwrap()).collect()
}

fn digit_space_tokenizer() -> Tokenizer {
    let mut token_matcher = Tokenizer::new();
    token_matcher.add_pattern(repeat_forever(range('0' as u32, '9' as u32), 0), DIGIT);
    token_matcher.add_pattern(repeat_forever(exactly(syms(" ")), 0), WHITESPACE);
    token_matcher
}

fn annotated_digits() -> AnnotatedStream {
    let token_matcher = digit_space_tokenizer();
    let dfa = (&token_matcher).prepare_to_match();
    AnnotatedStream::from_tokenizer(&dfa, syms("12 42 13").read_symbols())
}

#[test]
fn can_annotate_stream() {
    let annotated = annotated_digits();

    let annotated_input = annotated.read_input().clone();
    let annotated_output = annotated.read_output();
    let annotated_tokens = annotated.read_tokens();

    assert!(annotated_input == syms("12 42 13"));
    assert!(annotated_output == vec![DIGIT, WHITESPACE, DIGIT, WHITESPACE, DIGIT]);

    assert!(annotated_tokens[0].location.start == 0);
    assert!(annotated_tokens[0].location.end == 2);
    assert!(annotated_tokens[0].output == DIGIT);
}

#[test]
fn can_find_token() {
    let annotated = annotated_digits();

    let fortytwo = annotated.find_token(4).expect("No token");
    let whitespace = annotated.find_token(5).expect("No token");

    assert!(fortytwo.location.start == 3);
    assert!(fortytwo.location.end == 5);
    assert!(fortytwo.output == DIGIT);
    assert!(annotated.input_for_token(&fortytwo) == syms("42"));

    assert!(whitespace.location.start == 5);
    assert!(whitespace.location.end == 6);
    assert!(whitespace.output == WHITESPACE);
    assert!(annotated.input_for_token(&whitespace) == syms(" "));
}

#[test]
fn can_read_token_range() {
    let annotated = annotated_digits();

    let some_output = annotated.read_tokens_in_range(Span { start: 4, end: 7 });
    let input_strings_vec: Vec<String> = some_output
        .iter()
        .map(|token| text(&annotated.input_for_token(token)))
        .collect();

    assert!(input_strings_vec == vec!["42", " ", "13"]);

    let different_output = annotated.read_tokens_in_range(Span { start: 0, end: 4 });
    let different_strings_vec: Vec<String> = different_output
        .iter()
        .map(|token| text(&annotated.input_for_token(token)))
        .collect();

    assert!(different_strings_vec == vec!["12", " ", "42"]);
}

#[test]
fn can_get_input_length() {
    let annotated = annotated_digits();
    assert!(annotated.input_len() == 8);
}

#[test]
fn can_get_output_length() {
    let annotated = annotated_digits();
    assert!(annotated.output_len() == 5);
}

#[test]
fn can_get_input_range() {
    let annotated = annotated_digits();
    assert!(annotated.input_for_range(Span { start: 3, end: 6 }) == syms("42 "));
}

#[test]
fn can_annotate_manually() {
    let mut annotator = Annotator::new();

    annotator.push_input('1' as u32);
    annotator.push_input('2' as u32);
    annotator.token(DIGIT);

    annotator.push_input(' ' as u32);
    annotator.token(WHITESPACE);

    annotator.push_input('4' as u32);
    annotator.push_input('2' as u32);
    annotator.token(DIGIT);

    annotator.push_input(' ' as u32);
    annotator.token(WHITESPACE);

    annotator.append_input(syms("13"));
    annotator.token(DIGIT);

    let annotated = annotator.finish();

    assert!(annotated.input_for_range(Span { start: 3, end: 6 }) == syms("42 "));
    assert!(annotated.output_len() == 5);
    assert!(annotated.input_len() == 8);

    let fortytwo = annotated.find_token(4).expect("No token");
    let whitespace = annotated.find_token(5).expect("No token");

    assert!(fortytwo.location.start == 3);
    assert!(fortytwo.location.end == 5);
    assert!(fortytwo.output == DIGIT);
    assert!(annotated.input_for_token(&fortytwo) == syms("42"));

    assert!(whitespace.location.start == 5);
    assert!(whitespace.location.end == 6);
    assert!(whitespace.output == WHITESPACE);
    assert!(annotated.input_for_token(&whitespace) == syms(" "));
}

#[test]
fn can_read_from_vec() {
    let source: Vec<u32> = vec![1, 2, 3];
    let mut reader = source.read_symbols();

    assert!(reader.next_symbol() == Some(1));
    assert!(reader.next_symbol() == Some(2));
    assert!(reader.next_symbol() == Some(3));
    assert!(reader.next_symbol() == None);
}

#[test]
fn can_match_tokenizer_like_any_other_pattern() {
    let mut tokenizer = Tokenizer::new();
    tokenizer.add_pattern(repeat_forever(exactly(syms("a")), 1), ALL_AS);
    tokenizer.add_pattern(repeat_forever(exactly(syms("b")), 1), ALL_BS);

    assert!(concordance::matches::matches(syms("aaaa"), &tokenizer) == Some(4));
    assert!(concordance::matches::matches(syms("bbbbb"), &tokenizer) == Some(5));
    assert!(concordance::matches::matches(syms("abbb"), &tokenizer) == Some(1));
    assert!(concordance::matches::matches(syms("bbaaa"), &tokenizer) == Some(2));
}

#[test]
fn can_distinguish_simple_tokens() {
    let mut tokenizer = Tokenizer::new();
    tokenizer.add_pattern(repeat_forever(exactly(syms("a")), 1), ALL_AS);
    tokenizer.add_pattern(repeat_forever(exactly(syms("b")), 1), ALL_BS);

    let matcher = (&tokenizer).prepare_to_match();

    assert!(match_pattern(&matcher, &mut syms("aaaaa").read_symbols()).is_accepted(ALL_AS));
    assert!(match_pattern(&matcher, &mut syms("bbbb").read_symbols()).is_accepted(ALL_BS));
}

#[test]
fn matches_repeated_literal() {
    assert!(concordance::matches::matches(syms("abcabc"), repeat_forever(exactly(syms("abc")), 1)) == Some(6));
    assert!(concordance::matches::matches(syms("abcabcabc"), repeat_forever(exactly(syms("abc")), 1)) == Some(9));
    assert!(concordance::matches::matches(syms("def"), repeat_forever(exactly(syms("abc")), 1)) == None);
}

#[test]
fn priority_prefers_lower_output() {
    // Two patterns accepting the same prefix: the lower-ordered output wins.
    let mut tokenizer = Tokenizer::new();
    tokenizer.add_pattern(repeat_forever(exactly(syms("a")), 1), 5);
    tokenizer.add_pattern(repeat_forever(exactly(syms("a")), 1), 2);

    let dfa = (&tokenizer).prepare_to_match();
    let annotated = AnnotatedStream::from_tokenizer(&dfa, syms("aaa").read_symbols());
    assert!(annotated.read_output() == vec![2]);

    let matcher = (&tokenizer).prepare_to_match();
    assert!(match_pattern(&matcher, &mut syms("aaa").read_symbols()).is_accepted(2));
}

#[test]
fn empty_tokenizer_rejects_everything() {
    let tokenizer = Tokenizer::new();
    assert!(concordance::matches::matches(syms("a"), &tokenizer) == None);
    assert!(concordance::matches::matches(syms(""), &tokenizer) == None);

    let dfa = (&tokenizer).prepare_to_match();
    let annotated = AnnotatedStream::from_tokenizer(&dfa, syms("ab").read_symbols());
    assert!(annotated.input_len() == 2);
    assert!(annotated.output_len() == 0);
    assert!(annotated.find_token(0).is_none());
}

#[test]
fn skips_unmatched_input() {
    let mut tokenizer = Tokenizer::new();
    tokenizer.add_pattern(repeat_forever(range('0' as u32, '9' as u32), 1), DIGIT);

    let dfa = (&tokenizer).prepare_to_match();
    let annotated = AnnotatedStream::from_tokenizer(&dfa, syms("1a2").read_symbols());

    let tokens = annotated.read_tokens();
    assert!(tokens.len() == 2);
    assert!(tokens[0].location.start == 0 && tokens[0].location.end == 1);
    assert!(tokens[1].location.start == 2 && tokens[1].location.end == 3);
    assert!(annotated.find_token(1).is_none());
}

#[test]
fn bounded_repetition() {
    assert!(concordance::matches::matches(syms("ababab"), repeat_bounded(exactly(syms("ab")), 1, 2)) == Some(4));
    assert!(concordance::matches::matches(syms("abab"), repeat(exactly(syms("ab")), 1)) == Some(2));
    assert!(concordance::matches::matches(syms(""), repeat_bounded(exactly(syms("ab")), 1, 2)) == None);
}

#[test]
fn pattern_combinators() {
    assert!(concordance::matches::matches(syms("dogs"), alt(exactly(syms("cat")), exactly(syms("dog")))) == Some(3));
    assert!(concordance::matches::matches(syms("catdog"), concordance::regular_pattern::concat(exactly(syms("cat")), exactly(syms("dog")))) == Some(6));
    let options = vec![exactly(syms("one")), exactly(syms("two")), exactly(syms("three"))];
    assert!(concordance::matches::matches(syms("twofold"), any_of(options)) == Some(3));
    assert!(concordance::matches::matches(syms("anything"), any_of(Vec::new())) == Some(0));
}

#[test]
fn alphabet_bounds() {
    assert!(successor(5) == Ok(6));
    assert!(predecessor(5) == Ok(4));
    assert!(successor(u32::MAX) == Err(AlphabetError::AlphabetBound));
    assert!(predecessor(0) == Err(AlphabetError::AlphabetBound));
}

#[test]
fn symbol_range_operations() {
    let digits = SymbolRange::new('0' as u32, '9' as u32);
    let low = SymbolRange::new('0' as u32, '4' as u32);
    let letters = SymbolRange::new('a' as u32, 'z' as u32);

    assert!(digits.contains('5' as u32));
    assert!(!digits.contains('a' as u32));
    assert!(digits.overlaps(&low));
    assert!(!digits.overlaps(&letters));

    let both = digits.intersect(&low).expect("overlapping ranges");
    assert!(both.low == '0' as u32 && both.high == '4' as u32);
    assert!(digits.intersect(&letters).is_none());

    let (below, above) = digits.subtract(&SymbolRange::new('3' as u32, '5' as u32));
    let below = below.expect("part below");
    let above = above.expect("part above");
    assert!(below.low == '0' as u32 && below.high == '2' as u32);
    assert!(above.low == '6' as u32 && above.high == '9' as u32);
}

#[test]
fn epsilon_closure_reaches_through_chains() {
    let mut ndfa = Ndfa::new();
    let a = ndfa.add_state();
    let b = ndfa.add_state();
    let c = ndfa.add_state();
    ndfa.add_epsilon(0, a);
    ndfa.add_epsilon(a, b);
    ndfa.add_transition(b, SymbolRange::new(7, 7), c);

    let closure = ndfa.closure(&vec![0]);
    assert!(closure == vec![true, true, true, false]);

    let from_c = ndfa.closure(&vec![c]);
    assert!(from_c == vec![false, false, false, true]);
}

#[test]
fn annotator_equals_tokenizer_queries() {
    let annotated = annotated_digits();

    let mut annotator = Annotator::new();
    annotator.append_input(syms("12"));
    annotator.token(DIGIT);
    annotator.push_input(' ' as u32);
    annotator.token(WHITESPACE);
    annotator.append_input(syms("42"));
    annotator.token(DIGIT);
    annotator.push_input(' ' as u32);
    annotator.token(WHITESPACE);
    annotator.append_input(syms("13"));
    annotator.token(DIGIT);
    let manual = annotator.finish();

    assert!(manual.read_input() == annotated.read_input());
    assert!(manual.read_tokens() == annotated.read_tokens());
    for position in 0..9 {
        assert!(manual.find_token(position) == annotated.find_token(position));
    }
    assert!(
        manual.read_tokens_in_range(Span { start: 2, end: 6 })
            == annotated.read_tokens_in_range(Span { start: 2, end: 6 })
    );
}

#[test]
fn find_token_past_end_gives_none() {
    let annotated = annotated_digits();
    assert!(annotated.find_token(8).is_none());
    assert!(annotated.find_token(100).is_none());
}

#[test]
fn built_dfa_ranges_are_disjoint_and_sorted() {
    let token_matcher = digit_space_tokenizer();
    let dfa = (&token_matcher).prepare_to_match();
    for state in &dfa.states {
        for window in state.transitions.windows(2) {
            let (earlier, _) = window[0];
            let (later, _) = window[1];
            assert!(earlier.high < later.low);
        }
        for (range, target) in &state.transitions {
            assert!(range.low <= range.high);
            assert!(*target < dfa.states.len());
        }
    }
}

#[test]
fn longest_match_is_monotone_on_accepted_prefixes() {
    let shorter = concordance::matches::matches(
        syms("abc"),
        repeat_forever(exactly(syms("abc")), 1),
    );
    let longer = concordance::matches::matches(
        syms("abcabc"),
        repeat_forever(exactly(syms("abc")), 1),
    );
    assert!(shorter == Some(3));
    assert!(longer == Some(6));
    assert!(shorter.unwrap() <= longer.unwrap());
}

#[test]
fn round_trip_concatenation() {
    let mut tokenizer = Tokenizer::new();
    tokenizer.add_pattern(repeat_forever(range('0' as u32, '9' as u32), 1), DIGIT);

    let dfa = (&tokenizer).prepare_to_match();
    let annotated = AnnotatedStream::from_tokenizer(&dfa, syms("1a22b333").read_symbols());

    let mut concatenated: Vec<u32> = Vec::new();
    for token in annotated.read_tokens() {
        concatenated.extend(annotated.input_for_token(&token));
    }
    assert!(concatenated == syms("122333"));

    let full = annotated_digits();
    let mut everything: Vec<u32> = Vec::new();
    for token in full.read_tokens() {
        everything.extend(full.input_for_token(&token));
    }
    assert!(everything == syms("12 42 13"));
}
