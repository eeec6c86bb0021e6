//! Inclusive, non-empty ranges of symbols.  A `SymbolRange` stands for the
//! contiguous set of symbols between its two bounds; automata label their
//! transitions with such ranges.

use vstd::prelude::*;

verus! {

/// An inclusive pair `(low, high)` with `low <= high`: the non-empty set of
/// contiguous symbols from `low` to `high`.
#[derive(Clone, Copy, PartialEq, Eq, Structural, Debug)]
pub struct SymbolRange {
    pub low: u32,
    pub high: u32,
}

impl SymbolRange {
    /// A range is valid when its bounds are ordered; only valid ranges stand
    /// for non-empty symbol sets.
    pub open spec fn valid(self) -> bool {
        self.low <= self.high
    }

    /// The set of symbols this range stands for.
    pub open spec fn spec_contains(self, symbol: u32) -> bool {
        self.low <= symbol && symbol <= self.high
    }

    /// Two valid ranges overlap exactly when they share a symbol.
    pub open spec fn spec_overlaps(self, other: SymbolRange) -> bool {
        self.low <= other.high && other.low <= self.high
    }

    /// Creates a range; a pair with `low > high` is a contract violation and
    /// is excluded up front.
    pub fn new(low: u32, high: u32) -> (r: SymbolRange)
        requires
            low <= high,
        ensures
            r == (SymbolRange { low, high }),
            r.valid(),
    {
        SymbolRange { low, high }
    }

    /// Whether the range contains the given symbol.
    pub fn contains(&self, symbol: u32) -> (r: bool)
        ensures
            r == self.spec_contains(symbol),
    {
        self.low <= symbol && symbol <= self.high
    }

    /// Whether the two ranges share at least one symbol.
    pub fn overlaps(&self, other: &SymbolRange) -> (r: bool)
        requires
            self.valid(),
            other.valid(),
        ensures
            r == self.spec_overlaps(*other),
            r <==> exists|s: u32| self.spec_contains(s) && other.spec_contains(s),
    {
        proof {
            if self.low <= other.high && other.low <= self.high {
                let w: u32 = if self.low >= other.low {
                    self.low
                } else {
                    other.low
                };
                assert(self.spec_contains(w) && other.spec_contains(w));
            }
        }
        self.low <= other.high && other.low <= self.high
    }

    /// The range of symbols the two ranges have in common, if any.
    pub fn intersect(&self, other: &SymbolRange) -> (r: Option<SymbolRange>)
        requires
            self.valid(),
            other.valid(),
        ensures
            r is Some <==> self.spec_overlaps(*other),
            r is Some ==> r->Some_0.valid(),
            forall|s: u32|
                (r is Some && r->Some_0.spec_contains(s)) <==> (self.spec_contains(s)
                    && other.spec_contains(s)),
    {
        let low: u32 = if self.low >= other.low {
            self.low
        } else {
            other.low
        };
        let high: u32 = if self.high <= other.high {
            self.high
        } else {
            other.high
        };
        if low <= high {
            Some(SymbolRange { low, high })
        } else {
            None
        }
    }

    /// The parts of this range that lie outside the other: at most one part
    /// below it and one part above it.
    pub fn subtract(&self, other: &SymbolRange) -> (r: (Option<SymbolRange>, Option<SymbolRange>))
        requires
            self.valid(),
            other.valid(),
        ensures
            r.0 is Some ==> r.0->Some_0.valid(),
            r.1 is Some ==> r.1->Some_0.valid(),
            forall|s: u32|
                ((r.0 is Some && r.0->Some_0.spec_contains(s)) || (r.1 is Some
                    && r.1->Some_0.spec_contains(s))) <==> (self.spec_contains(s)
                    && !other.spec_contains(s)),
    {
        let below: Option<SymbolRange> = if self.low < other.low {
            let high: u32 = if self.high <= other.low - 1 {
                self.high
            } else {
                other.low - 1
            };
            Some(SymbolRange { low: self.low, high })
        } else {
            None
        };
        let above: Option<SymbolRange> = if self.high > other.high {
            let low: u32 = if self.low >= other.high + 1 {
                self.low
            } else {
                other.high + 1
            };
            Some(SymbolRange { low, high: self.high })
        } else {
            None
        };
        (below, above)
    }
}

} // verus!
