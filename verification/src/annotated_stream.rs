//! An annotated stream binds a tokenized output back to the input it came
//! from: it owns the original symbols and an ordered list of tokens, each
//! tagged with the half-open range of input positions it spans.  Token
//! ranges are sorted, non-empty and non-overlapping; gaps between them are
//! input that was skipped.

use vstd::prelude::*;

use crate::pattern_matcher::match_from;
use crate::symbol_range_dfa::SymbolRangeDfa;
use crate::symbol_reader::read_all;
use crate::symbol_reader::SymbolReader;

verus! {

/// A half-open range `[start, end)` of positions in an input stream.
#[derive(Clone, Copy, PartialEq, Eq, Structural, Debug)]
pub struct Span {
    pub start: usize,
    pub end: usize,
}

impl Span {
    /// Creates the half-open range `[start, end)`.
    pub fn new(start: usize, end: usize) -> (r: Span)
        ensures
            r == (Span { start, end }),
    {
        Span { start, end }
    }
}

/// An individual item of an annotated stream: an output symbol together
/// with the input positions it was matched from.
#[derive(Clone, Copy, PartialEq, Eq, Structural, Debug)]
pub struct Token {
    /// Where this token appears in the original input.
    pub location: Span,
    /// The output symbol that was matched for this token.
    pub output: u32,
}

impl Token {
    /// Creates a new token.
    pub fn new(location: Span, output: u32) -> (r: Token)
        ensures
            r == (Token { location, output }),
    {
        Token { location, output }
    }
}

/// Whether a token's range contains the given input position.
pub open spec fn token_covers(token: Token, position: int) -> bool {
    token.location.start <= position < token.location.end
}

/// Whether any token of the list covers the given input position.
pub open spec fn has_covering_token(tokens: Seq<Token>, position: int) -> bool {
    exists|i: int| 0 <= i < tokens.len() && token_covers(#[trigger] tokens[i], position)
}

/// The index of the token covering the position; meaningful when
/// `has_covering_token` holds (and unique for a well-formed stream).
pub open spec fn covering_token_index(tokens: Seq<Token>, position: int) -> int {
    choose|i: int| 0 <= i < tokens.len() && token_covers(#[trigger] tokens[i], position)
}

/// The index of the first token whose start position is at least `position`;
/// the length of the list when there is none.
pub open spec fn lower_bound(tokens: Seq<Token>, position: int) -> int
    decreases tokens.len(),
{
    if tokens.len() == 0 {
        0
    } else if tokens[0].location.start >= position {
        0
    } else {
        1 + lower_bound(tokens.drop_first(), position)
    }
}

/// The index where a search for `position` lands: the covering token if
/// there is one, and the first token starting at or after `position`
/// otherwise.
pub open spec fn search_index(tokens: Seq<Token>, position: int) -> int {
    if has_covering_token(tokens, position) {
        covering_token_index(tokens, position)
    } else {
        lower_bound(tokens, position)
    }
}

/// Whether the maximal accepted prefix of `suffix` has length `n >= 1`: the
/// condition under which the tokenizer emits a token of `n` symbols.
pub open spec fn token_match_at(dfa: SymbolRangeDfa, suffix: Seq<u32>, n: int) -> bool {
    &&& 1 <= n <= suffix.len()
    &&& dfa.accepts_prefix(suffix, n)
    &&& forall|m: int| n < m <= suffix.len() ==> !dfa.accepts_prefix(suffix, m)
}

/// The tokens the tokenizer produces from `input` starting at `pos`: at each
/// position the longest non-empty accepted prefix becomes a token, and a
/// position where nothing non-empty is accepted is skipped.
pub open spec fn spec_tokens(dfa: SymbolRangeDfa, input: Seq<u32>, pos: int) -> Seq<Token>
    decreases input.len() - pos,
    when 0 <= pos <= input.len()
{
    if pos >= input.len() {
        Seq::empty()
    } else {
        let suffix = input.subrange(pos, input.len() as int);
        if exists|n: int| token_match_at(dfa, suffix, n) {
            let n = choose|n: int| token_match_at(dfa, suffix, n);
            let token = Token {
                location: Span { start: pos as usize, end: (pos + n) as usize },
                output: dfa.prefix_output(suffix, n),
            };
            seq![token] + spec_tokens(dfa, input, pos + n)
        } else {
            spec_tokens(dfa, input, pos + 1)
        }
    }
}

/// An original stream together with the ordered tokens produced from it.
#[derive(Clone, Debug)]
pub struct AnnotatedStream {
    /// The original stream that was tokenized.
    pub original: Vec<u32>,
    /// The tokens and where in the original they appear, in order.
    pub tokenized: Vec<Token>,
}

impl AnnotatedStream {
    /// The invariant of an annotated stream: token ranges are non-empty,
    /// lie within the original input, and are sorted and non-overlapping.
    pub open spec fn wf(self) -> bool {
        let tokens = self.tokenized@;
        &&& forall|i: int|
            0 <= i < tokens.len() ==> (#[trigger] tokens[i]).location.start
                < tokens[i].location.end && tokens[i].location.end <= self.original@.len()
        &&& forall|i: int, j: int|
            0 <= i < j < tokens.len() ==> (#[trigger] tokens[i]).location.end <= (
            #[trigger] tokens[j]).location.start
    }

    /// Start positions of a well-formed stream strictly increase.
    pub proof fn lemma_starts_increase(self, i: int, j: int)
        requires
            self.wf(),
            0 <= i < j < self.tokenized@.len(),
        ensures
            self.tokenized@[i].location.start < self.tokenized@[j].location.start,
    {
    }

    /// At most one token of a well-formed stream covers any position.
    pub proof fn lemma_covering_unique(self, position: int, i: int, j: int)
        requires
            self.wf(),
            0 <= i < self.tokenized@.len(),
            0 <= j < self.tokenized@.len(),
            token_covers(self.tokenized@[i], position),
            token_covers(self.tokenized@[j], position),
        ensures
            i == j,
    {
    }

    /// Tokenizes everything a reader has to produce with the given
    /// automaton, remembering the original symbols.  The tokens are exactly
    /// the greedy longest-match tokenization of the input, skipped positions
    /// left as gaps.
    pub fn from_tokenizer<R: SymbolReader>(dfa: &SymbolRangeDfa, reader: R) -> (r: AnnotatedStream)
        requires
            dfa.wf(),
        ensures
            r.original@ == reader.pending(),
            r.tokenized@ == spec_tokens(*dfa, reader.pending(), 0),
            r.wf(),
    {
        let mut reader_m = reader;
        let original = read_all(&mut reader_m);
        let mut tokens: Vec<Token> = Vec::new();
        let mut pos: usize = 0;
        while pos < original.len()
            invariant
                dfa.wf(),
                pos <= original@.len(),
                spec_tokens(*dfa, original@, 0) == tokens@ + spec_tokens(
                    *dfa,
                    original@,
                    pos as int,
                ),
                forall|i: int|
                    0 <= i < tokens@.len() ==> (#[trigger] tokens@[i]).location.start
                        < tokens@[i].location.end && tokens@[i].location.end <= pos,
                forall|i: int, j: int|
                    0 <= i < j < tokens@.len() ==> (#[trigger] tokens@[i]).location.end <= (
                    #[trigger] tokens@[j]).location.start,
            decreases original@.len() - pos,
        {
            let ghost suffix = original@.subrange(pos as int, original@.len() as int);
            let matched = match_from(dfa, &original, pos);
            match matched {
                Some((count, output)) => {
                    if count > 0 {
                        proof {
                            assert(token_match_at(*dfa, suffix, count as int));
                            let n = choose|n: int| token_match_at(*dfa, suffix, n);
                            if n < count {
                                assert(!dfa.accepts_prefix(suffix, count as int));
                            }
                            if n > count {
                                assert(!dfa.accepts_prefix(suffix, n));
                            }
                            assert(n == count);
                        }
                        let token = Token {
                            location: Span { start: pos, end: pos + count },
                            output,
                        };
                        let ghost tokens_before = tokens@;
                        tokens.push(token);
                        proof {
                            assert(spec_tokens(*dfa, original@, pos as int) == seq![token]
                                + spec_tokens(*dfa, original@, pos + count));
                            assert(tokens@ + spec_tokens(*dfa, original@, pos + count)
                                =~= tokens_before + spec_tokens(*dfa, original@, pos as int));
                        }
                        pos = pos + count;
                    } else {
                        proof {
                            assert(forall|n: int| !token_match_at(*dfa, suffix, n));
                            assert(spec_tokens(*dfa, original@, pos as int) == spec_tokens(
                                *dfa,
                                original@,
                                pos + 1,
                            ));
                        }
                        pos = pos + 1;
                    }
                },
                None => {
                    proof {
                        assert(forall|n: int| !token_match_at(*dfa, suffix, n));
                        assert(spec_tokens(*dfa, original@, pos as int) == spec_tokens(
                            *dfa,
                            original@,
                            pos + 1,
                        ));
                    }
                    pos = pos + 1;
                },
            }
        }
        proof {
            assert(spec_tokens(*dfa, original@, original@.len() as int) =~= Seq::<Token>::empty());
            assert(tokens@ =~= tokens@ + Seq::<Token>::empty());
        }
        AnnotatedStream { original, tokenized: tokens }
    }

    /// The original input this stream was produced from.
    pub fn read_input(&self) -> (r: &Vec<u32>)
        ensures
            r@ == self.original@,
    {
        &self.original
    }

    /// The input symbols a particular token was matched from.
    pub fn input_for_token(&self, token: &Token) -> (r: Vec<u32>)
        requires
            token.location.start <= token.location.end,
            token.location.end <= self.original@.len(),
        ensures
            r@ == self.original@.subrange(
                token.location.start as int,
                token.location.end as int,
            ),
    {
        self.input_for_range(token.location)
    }

    /// The input symbols at a particular range of positions.
    pub fn input_for_range(&self, range: Span) -> (r: Vec<u32>)
        requires
            range.start <= range.end,
            range.end <= self.original@.len(),
        ensures
            r@ == self.original@.subrange(range.start as int, range.end as int),
    {
        let mut r: Vec<u32> = Vec::new();
        let mut i = range.start;
        while i < range.end
            invariant
                range.start <= i <= range.end,
                range.end <= self.original@.len(),
                r@ == self.original@.subrange(range.start as int, i as int),
            decreases range.end - i,
        {
            r.push(self.original[i]);
            i = i + 1;
            proof {
                assert(r@ =~= self.original@.subrange(range.start as int, i as int));
            }
        }
        r
    }

    /// The number of symbols in the original input.
    pub fn input_len(&self) -> (n: usize)
        ensures
            n == self.original@.len(),
    {
        self.original.len()
    }

    /// The number of tokens in the output.
    pub fn output_len(&self) -> (n: usize)
        ensures
            n == self.tokenized@.len(),
    {
        self.tokenized.len()
    }

    /// The output symbols of the recognised tokens, in order.
    pub fn read_output(&self) -> (r: Vec<u32>)
        ensures
            r@ == self.tokenized@.map_values(|t: Token| t.output),
    {
        let mut r: Vec<u32> = Vec::new();
        let mut i: usize = 0;
        while i < self.tokenized.len()
            invariant
                i <= self.tokenized@.len(),
                r@ == self.tokenized@.subrange(0, i as int).map_values(|t: Token| t.output),
            decreases self.tokenized@.len() - i,
        {
            r.push(self.tokenized[i].output);
            i = i + 1;
            proof {
                assert(r@ =~= self.tokenized@.subrange(0, i as int).map_values(
                    |t: Token| t.output,
                ));
            }
        }
        proof {
            assert(self.tokenized@.subrange(0, self.tokenized@.len() as int) =~= self.tokenized@);
        }
        r
    }

    /// Finds the index of the token covering `position`, by binary search
    /// on the sorted start positions.  When no token covers the position,
    /// reports the index of the first token starting at or after it.
    fn find_token_index(&self, position: usize) -> (r: Result<usize, usize>)
        requires
            self.wf(),
        ensures
            match r {
                Ok(i) => has_covering_token(self.tokenized@, position as int) && i
                    == covering_token_index(self.tokenized@, position as int),
                Err(i) => !has_covering_token(self.tokenized@, position as int) && i
                    == lower_bound(self.tokenized@, position as int),
            },
    {
        let ghost tokens = self.tokenized@;
        proof {
            self.lemma_wf_starts_sorted();
        }
        let mut lo: usize = 0;
        let mut hi: usize = self.tokenized.len();
        while lo < hi
            invariant
                self.wf(),
                tokens == self.tokenized@,
                lo <= hi <= tokens.len(),
                forall|j: int| 0 <= j < lo ==> (#[trigger] tokens[j]).location.start < position,
                forall|j: int|
                    hi <= j < tokens.len() ==> (#[trigger] tokens[j]).location.start > position,
            decreases hi - lo,
        {
            let mid = lo + (hi - lo) / 2;
            let start = self.tokenized[mid].location.start;
            if start == position {
                proof {
                    assert(token_covers(tokens[mid as int], position as int));
                    let i = covering_token_index(tokens, position as int);
                    self.lemma_covering_unique(position as int, i, mid as int);
                }
                return Ok(mid);
            } else if start < position {
                proof {
                    assert(forall|j: int|
                        0 <= j <= mid ==> (#[trigger] tokens[j]).location.start < position) by {
                        assert(forall|j: int|
                            0 <= j < mid ==> (#[trigger] tokens[j]).location.start
                                < tokens[mid as int].location.start);
                    }
                }
                lo = mid + 1;
            } else {
                proof {
                    assert(forall|j: int|
                        mid <= j < tokens.len() ==> (#[trigger] tokens[j]).location.start
                            > position) by {
                        assert(forall|j: int|
                            mid < j < tokens.len() ==> (#[trigger] tokens[j]).location.start
                                > tokens[mid as int].location.start);
                    }
                }
                hi = mid;
            }
        }
        proof {
            lemma_lower_bound_props(tokens, position as int);
        }
        if lo > 0 {
            let candidate = lo - 1;
            if self.tokenized[candidate].location.end > position {
                proof {
                    assert(token_covers(tokens[candidate as int], position as int));
                    let i = covering_token_index(tokens, position as int);
                    self.lemma_covering_unique(position as int, i, candidate as int);
                }
                return Ok(candidate);
            }
            proof {
                assert forall|i: int|
                    0 <= i < tokens.len() implies !token_covers(
                    #[trigger] tokens[i],
                    position as int,
                ) by {
                    if i < candidate {
                        assert(tokens[i].location.end <= tokens[candidate as int].location.start);
                    }
                }
                let lb = lower_bound(tokens, position as int);
                if lo < lb {
                    assert(tokens[lo as int].location.start < position);
                    assert(tokens[lo as int].location.start > position);
                }
                if lb < lo {
                    assert(tokens[lb].location.start >= position);
                    assert(tokens[lb].location.start < position);
                }
                assert(lo == lb);
            }
            Err(lo)
        } else {
            proof {
                assert forall|i: int|
                    0 <= i < tokens.len() implies !token_covers(
                    #[trigger] tokens[i],
                    position as int,
                ) by {
                    assert(tokens[i].location.start > position);
                }
                let lb = lower_bound(tokens, position as int);
                if lb > 0 {
                    assert(tokens[0].location.start < position);
                    assert(tokens[0].location.start > position);
                }
                assert(lo == lb);
            }
            Err(lo)
        }
    }

    /// Restates well-formedness as strict sortedness of start positions.
    proof fn lemma_wf_starts_sorted(self)
        requires
            self.wf(),
        ensures
            forall|i: int, j: int|
                0 <= i < j < self.tokenized@.len() ==> (
                #[trigger] self.tokenized@[i]).location.start < (
                #[trigger] self.tokenized@[j]).location.start,
    {
        assert forall|i: int, j: int|
            0 <= i < j < self.tokenized@.len() implies (
        #[trigger] self.tokenized@[i]).location.start < (
        #[trigger] self.tokenized@[j]).location.start by {
            self.lemma_starts_increase(i, j);
        }
    }

    /// Finds the token covering `position` in this stream, if any: the one
    /// token whose range contains the position.
    pub fn find_token(&self, position: usize) -> (r: Option<Token>)
        requires
            self.wf(),
        ensures
            match r {
                Some(token) => has_covering_token(self.tokenized@, position as int) && token
                    == self.tokenized@[covering_token_index(self.tokenized@, position as int)],
                None => !has_covering_token(self.tokenized@, position as int),
            },
    {
        match self.find_token_index(position) {
            Ok(index) => Some(self.tokenized[index]),
            Err(_) => None,
        }
    }

    /// The contiguous run of tokens reaching into the range `search`: it
    /// begins at the search index for `search.start` and ends before the
    /// first token starting at or after `search.end`.
    pub fn read_tokens_in_range(&self, search: Span) -> (r: Vec<Token>)
        requires
            self.wf(),
        ensures
            ({
                let tokens = self.tokenized@;
                let si = search_index(tokens, search.start as int);
                let ei = if lower_bound(tokens, search.end as int) >= si {
                    lower_bound(tokens, search.end as int)
                } else {
                    si
                };
                r@ == tokens.subrange(si, ei)
            }),
    {
        let ghost tokens = self.tokenized@;
        proof {
            self.lemma_wf_starts_sorted();
            lemma_lower_bound_props(tokens, search.end as int);
        }
        let start_index = match self.find_token_index(search.start) {
            Ok(index) => index,
            Err(index) => index,
        };
        proof {
            assert(start_index == search_index(tokens, search.start as int));
            if has_covering_token(tokens, search.start as int) {
                assert(0 <= covering_token_index(tokens, search.start as int) < tokens.len());
            } else {
                lemma_lower_bound_props(tokens, search.start as int);
            }
        }
        let ghost si = start_index as int;
        let mut end_index = start_index;
        let mut r: Vec<Token> = Vec::new();
        while end_index < self.tokenized.len() && self.tokenized[end_index].location.start
            < search.end
            invariant
                self.wf(),
                tokens == self.tokenized@,
                si == start_index,
                start_index <= end_index <= tokens.len(),
                forall|j: int|
                    si <= j < end_index ==> (#[trigger] tokens[j]).location.start < search.end,
                r@ == tokens.subrange(si, end_index as int),
            decreases tokens.len() - end_index,
        {
            let token = self.tokenized[end_index];
            r.push(token);
            end_index = end_index + 1;
            proof {
                assert(r@ =~= tokens.subrange(si, end_index as int));
            }
        }
        proof {
            let lb = lower_bound(tokens, search.end as int);
            if lb >= si {
                if end_index < tokens.len() {
                    assert(tokens[end_index as int].location.start >= search.end);
                    assert(forall|j: int|
                        end_index <= j < tokens.len() ==> (#[trigger] tokens[j]).location.start
                            >= tokens[end_index as int].location.start || j == end_index);
                }
                assert forall|j: int|
                    end_index <= j < tokens.len() implies (
                #[trigger] tokens[j]).location.start >= search.end by {
                    if j > end_index {
                        self.lemma_starts_increase(end_index as int, j);
                    }
                }
                if end_index < lb {
                    assert(tokens[end_index as int].location.start < search.end);
                }
                if lb < end_index {
                    assert(tokens[lb].location.start < search.end);
                    assert(tokens[lb].location.start >= search.end);
                }
                assert(end_index == lb);
            } else {
                if end_index > si {
                    assert(tokens[si].location.start < search.end);
                    assert(tokens[si].location.start >= search.end);
                }
                assert(end_index == si);
                assert(r@ =~= tokens.subrange(si, si));
            }
        }
        r
    }

    /// The annotated stream as a list of tokens.
    pub fn read_tokens(&self) -> (r: Vec<Token>)
        ensures
            r@ == self.tokenized@,
    {
        let mut r: Vec<Token> = Vec::new();
        let mut i: usize = 0;
        while i < self.tokenized.len()
            invariant
                i <= self.tokenized@.len(),
                r@ == self.tokenized@.subrange(0, i as int),
            decreases self.tokenized@.len() - i,
        {
            r.push(self.tokenized[i]);
            i = i + 1;
            proof {
                assert(r@ =~= self.tokenized@.subrange(0, i as int));
            }
        }
        proof {
            assert(self.tokenized@.subrange(0, self.tokenized@.len() as int) =~= self.tokenized@);
        }
        r
    }
}

/// For strictly sorted start positions, `lower_bound` splits the tokens:
/// every earlier token starts before `position` and every token from the
/// bound on starts at or after it.
pub proof fn lemma_lower_bound_props(tokens: Seq<Token>, position: int)
    requires
        forall|i: int, j: int|
            0 <= i < j < tokens.len() ==> (#[trigger] tokens[i]).location.start < (
            #[trigger] tokens[j]).location.start,
    ensures
        0 <= lower_bound(tokens, position) <= tokens.len(),
        forall|j: int|
            0 <= j < lower_bound(tokens, position) ==> (#[trigger] tokens[j]).location.start
                < position,
        forall|j: int|
            lower_bound(tokens, position) <= j < tokens.len() ==> (
            #[trigger] tokens[j]).location.start >= position,
    decreases tokens.len(),
{
    if tokens.len() == 0 {
    } else if tokens[0].location.start >= position {
        assert forall|j: int|
            0 <= j < tokens.len() implies (#[trigger] tokens[j]).location.start >= position by {
            if j > 0 {
                assert(tokens[0].location.start < tokens[j].location.start);
            }
        }
    } else {
        let rest = tokens.drop_first();
        assert forall|i: int, j: int|
            0 <= i < j < rest.len() implies (#[trigger] rest[i]).location.start < (
        #[trigger] rest[j]).location.start by {
            assert(rest[i] == tokens[i + 1]);
            assert(rest[j] == tokens[j + 1]);
        }
        lemma_lower_bound_props(rest, position);
        let lb = lower_bound(tokens, position);
        assert(lb == 1 + lower_bound(rest, position));
        assert forall|j: int| 0 <= j < lb implies (#[trigger] tokens[j]).location.start
            < position by {
            if j > 0 {
                assert(tokens[j] == rest[j - 1]);
            }
        }
        assert forall|j: int| lb <= j < tokens.len() implies (#[trigger] tokens[j]).location.start
            >= position by {
            assert(tokens[j] == rest[j - 1]);
        }
    }
}

/// An annotator builds an annotated stream by hand: input symbols are
/// pushed one or several at a time, and each call to `token` closes the
/// open range of symbols since the last token (or skip) into a new token.
pub struct Annotator {
    /// The stream being built.
    pub stream: AnnotatedStream,
    /// The start position of the open range.
    pub start_pos: usize,
}

impl Annotator {
    /// The invariant: the stream built so far is well-formed and the open
    /// range begins after every recorded token and within the input.
    pub open spec fn wf(self) -> bool {
        &&& self.stream.wf()
        &&& self.start_pos <= self.stream.original@.len()
        &&& forall|i: int|
            0 <= i < self.stream.tokenized@.len() ==> (
            #[trigger] self.stream.tokenized@[i]).location.end <= self.start_pos
    }

    /// Creates a new annotator with empty input and no tokens.
    pub fn new() -> (r: Annotator)
        ensures
            r.wf(),
            r.stream.original@ == Seq::<u32>::empty(),
            r.stream.tokenized@ == Seq::<Token>::empty(),
            r.start_pos == 0,
    {
        Annotator {
            stream: AnnotatedStream { original: Vec::new(), tokenized: Vec::new() },
            start_pos: 0,
        }
    }

    /// Adds one input symbol to the open range.
    pub fn push_input(&mut self, symbol: u32)
        requires
            old(self).wf(),
        ensures
            final(self).wf(),
            final(self).stream.original@ == old(self).stream.original@.push(symbol),
            final(self).stream.tokenized@ == old(self).stream.tokenized@,
            final(self).start_pos == old(self).start_pos,
    {
        self.stream.original.push(symbol);
    }

    /// Appends several input symbols to the open range.
    pub fn append_input(&mut self, input: Vec<u32>)
        requires
            old(self).wf(),
        ensures
            final(self).wf(),
            final(self).stream.original@ == old(self).stream.original@ + input@,
            final(self).stream.tokenized@ == old(self).stream.tokenized@,
            final(self).start_pos == old(self).start_pos,
    {
        let mut rest = input;
        self.stream.original.append(&mut rest);
    }

    /// Closes the open range with the given output symbol, when it is
    /// non-empty, and starts a fresh open range at the end of the input.
    pub fn token(&mut self, output: u32)
        requires
            old(self).wf(),
        ensures
            final(self).wf(),
            final(self).stream.original@ == old(self).stream.original@,
            final(self).start_pos == old(self).stream.original@.len(),
            old(self).start_pos < old(self).stream.original@.len()
                ==> final(self).stream.tokenized@ == old(self).stream.tokenized@.push(
                Token {
                    location: Span {
                        start: old(self).start_pos,
                        end: old(self).stream.original@.len() as usize,
                    },
                    output,
                },
            ),
            old(self).start_pos >= old(self).stream.original@.len()
                ==> final(self).stream.tokenized@ == old(self).stream.tokenized@,
    {
        let pos = self.stream.original.len();
        if self.start_pos < pos {
            self.stream.tokenized.push(
                Token { location: Span { start: self.start_pos, end: pos }, output },
            );
        }
        self.start_pos = pos;
    }

    /// Discards the open range, leaving its symbols without a token.
    pub fn skip(&mut self)
        requires
            old(self).wf(),
        ensures
            final(self).wf(),
            final(self).stream.original@ == old(self).stream.original@,
            final(self).stream.tokenized@ == old(self).stream.tokenized@,
            final(self).start_pos == old(self).stream.original@.len(),
    {
        self.start_pos = self.stream.original.len();
    }

    /// Finishes the annotation and hands back the stream.
    pub fn finish(self) -> (r: AnnotatedStream)
        requires
            self.wf(),
        ensures
            r == self.stream,
            r.wf(),
    {
        self.stream
    }
}

/// The input symbols of the tokens from index `k` on, concatenated in
/// order.
pub open spec fn concat_from(original: Seq<u32>, tokens: Seq<Token>, k: int) -> Seq<u32>
    decreases tokens.len() - k,
    when 0 <= k <= tokens.len()
{
    if k >= tokens.len() {
        Seq::empty()
    } else {
        original.subrange(tokens[k].location.start as int, tokens[k].location.end as int)
            + concat_from(original, tokens, k + 1)
    }
}

/// The concatenation of every token's input symbols, in order.
pub open spec fn tokens_concat(original: Seq<u32>, tokens: Seq<Token>) -> Seq<u32> {
    concat_from(original, tokens, 0)
}

/// The original symbols from position `p` on, keeping exactly the
/// positions that some token covers: the input minus the skipped ranges.
pub open spec fn unskipped_from(original: Seq<u32>, tokens: Seq<Token>, p: int) -> Seq<u32>
    decreases original.len() - p,
    when 0 <= p <= original.len()
{
    if p >= original.len() {
        Seq::empty()
    } else if has_covering_token(tokens, p) {
        seq![original[p]] + unskipped_from(original, tokens, p + 1)
    } else {
        unskipped_from(original, tokens, p + 1)
    }
}

/// The original input minus the skipped ranges: the symbols at positions
/// some token covers, in order.
pub open spec fn unskipped(original: Seq<u32>, tokens: Seq<Token>) -> Seq<u32> {
    unskipped_from(original, tokens, 0)
}

/// Skipping over positions no token covers leaves the unskipped symbols
/// unchanged.
proof fn lemma_skip_uncovered(original: Seq<u32>, tokens: Seq<Token>, p: int, p2: int)
    requires
        0 <= p <= p2 <= original.len(),
        forall|q: int| p <= q < p2 ==> !has_covering_token(tokens, q),
    ensures
        unskipped_from(original, tokens, p) == unskipped_from(original, tokens, p2),
    decreases p2 - p,
{
    if p < p2 {
        lemma_skip_uncovered(original, tokens, p + 1, p2);
    }
}

/// A block of covered positions contributes exactly its slice of the
/// original input.
proof fn lemma_take_covered(original: Seq<u32>, tokens: Seq<Token>, p: int, p2: int)
    requires
        0 <= p <= p2 <= original.len(),
        forall|q: int| p <= q < p2 ==> has_covering_token(tokens, q),
    ensures
        unskipped_from(original, tokens, p) == original.subrange(p, p2) + unskipped_from(
            original,
            tokens,
            p2,
        ),
    decreases p2 - p,
{
    if p == p2 {
        assert(original.subrange(p, p2) + unskipped_from(original, tokens, p2) =~= unskipped_from(
            original,
            tokens,
            p2,
        ));
    } else {
        lemma_take_covered(original, tokens, p + 1, p2);
        assert(seq![original[p]] + (original.subrange(p + 1, p2) + unskipped_from(
            original,
            tokens,
            p2,
        )) =~= original.subrange(p, p2) + unskipped_from(original, tokens, p2));
    }
}

impl AnnotatedStream {
    /// From the end of token `k - 1` on, the unskipped symbols are the
    /// concatenation of the remaining tokens' slices.
    proof fn lemma_concat_from(self, k: int)
        requires
            self.wf(),
            0 <= k <= self.tokenized@.len(),
        ensures
            unskipped_from(
                self.original@,
                self.tokenized@,
                if k == 0 {
                    0int
                } else {
                    self.tokenized@[k - 1].location.end as int
                },
            ) == concat_from(self.original@, self.tokenized@, k),
        decreases self.tokenized@.len() - k,
    {
        let original = self.original@;
        let tokens = self.tokenized@;
        let p: int = if k == 0 {
            0int
        } else {
            tokens[k - 1].location.end as int
        };
        assert forall|j: int| 0 <= j < k implies (#[trigger] tokens[j]).location.end <= p by {
            if j < k - 1 {
                assert(tokens[j].location.end <= tokens[k - 1].location.start);
            }
        }
        if k == tokens.len() {
            assert forall|q: int| p <= q < original.len() implies !has_covering_token(
                tokens,
                q,
            ) by {
                if has_covering_token(tokens, q) {
                    let j = choose|j: int|
                        0 <= j < tokens.len() && token_covers(#[trigger] tokens[j], q);
                    assert(tokens[j].location.end <= p);
                }
            }
            lemma_skip_uncovered(original, tokens, p, original.len() as int);
        } else {
            let s = tokens[k].location.start as int;
            let e = tokens[k].location.end as int;
            assert(p <= s) by {
                if k > 0 {
                    assert(tokens[k - 1].location.end <= tokens[k].location.start);
                }
            }
            assert forall|q: int| p <= q < s implies !has_covering_token(tokens, q) by {
                if has_covering_token(tokens, q) {
                    let j = choose|j: int|
                        0 <= j < tokens.len() && token_covers(#[trigger] tokens[j], q);
                    if j < k {
                        assert(tokens[j].location.end <= p);
                    } else {
                        if j > k {
                            self.lemma_starts_increase(k, j);
                        }
                        assert(tokens[j].location.start >= s);
                    }
                }
            }
            lemma_skip_uncovered(original, tokens, p, s);
            assert forall|q: int| s <= q < e implies has_covering_token(tokens, q) by {
                assert(token_covers(tokens[k], q));
            }
            lemma_take_covered(original, tokens, s, e);
            self.lemma_concat_from(k + 1);
        }
    }

    /// Round trip: for a well-formed annotated stream, concatenating the
    /// input slices of its tokens in order yields exactly the original
    /// input minus the skipped ranges — the symbols at positions no token
    /// covers.
    pub proof fn lemma_round_trip(self)
        requires
            self.wf(),
        ensures
            tokens_concat(self.original@, self.tokenized@) == unskipped(
                self.original@,
                self.tokenized@,
            ),
    {
        self.lemma_concat_from(0);
    }
}

/// Annotator equivalence: two annotated streams that hold the same original
/// symbols and the same tokens — however each of them was produced — agree
/// on well-formedness and on every position query, so their query behaviour
/// is identical.
pub proof fn lemma_equal_streams_equal_queries(a: AnnotatedStream, b: AnnotatedStream)
    requires
        a.original@ == b.original@,
        a.tokenized@ == b.tokenized@,
    ensures
        a.wf() == b.wf(),
        forall|p: int|
            #[trigger] has_covering_token(a.tokenized@, p) == has_covering_token(b.tokenized@, p),
        forall|p: int|
            #[trigger] covering_token_index(a.tokenized@, p) == covering_token_index(
                b.tokenized@,
                p,
            ),
        forall|p: int| #[trigger] lower_bound(a.tokenized@, p) == lower_bound(b.tokenized@, p),
        forall|p: int| #[trigger] search_index(a.tokenized@, p) == search_index(b.tokenized@, p),
{
}

} // verus!
