//! Splitting overlapping range labels.  The subset construction needs every
//! state's outgoing ranges to be equal or disjoint, so the labels of each
//! state are cut at every bound that occurs among them: each transition is
//! replaced by one copy per atomic piece of its range.  The set of
//! `(symbol, target)` pairs a state can move along is unchanged.

use vstd::prelude::*;

use crate::symbol_range::SymbolRange;

verus! {

/// Whether some transition of the list covers `symbol` and leads to
/// `target`.
pub open spec fn covers_to(ts: Seq<(SymbolRange, usize)>, symbol: u32, target: usize) -> bool {
    exists|j: int|
        0 <= j < ts.len() && (#[trigger] ts[j]).0.spec_contains(symbol) && ts[j].1 == target
}

/// Whether two transition lists allow exactly the same moves.
pub open spec fn same_coverage(a: Seq<(SymbolRange, usize)>, b: Seq<(SymbolRange, usize)>) -> bool {
    forall|symbol: u32, target: usize|
        #[trigger] covers_to(a, symbol, target) == covers_to(b, symbol, target)
}

/// Whether the range labels of two lists are pairwise equal or disjoint
/// between the lists.
pub open spec fn cross_equal_or_disjoint(
    a: Seq<(SymbolRange, usize)>,
    b: Seq<(SymbolRange, usize)>,
) -> bool {
    forall|j: int, k: int|
        0 <= j < a.len() && 0 <= k < b.len() ==> ((#[trigger] a[j]).0 == (#[trigger] b[k]).0
            || !a[j].0.spec_overlaps(b[k].0))
}

/// Whether the range labels of the list are pairwise equal or disjoint.
pub open spec fn ranges_equal_or_disjoint(ts: Seq<(SymbolRange, usize)>) -> bool {
    forall|j: int, k: int|
        0 <= j < ts.len() && 0 <= k < ts.len() ==> ((#[trigger] ts[j]).0 == (#[trigger] ts[k]).0
            || !ts[j].0.spec_overlaps(ts[k].0))
}

/// Whether the sequence is strictly increasing.
pub open spec fn strictly_sorted(breaks: Seq<u64>) -> bool {
    forall|i: int, j: int| 0 <= i < j < breaks.len() ==> breaks[i] < breaks[j]
}

/// Inserts a value into a strictly sorted sequence, keeping it sorted and
/// without duplicates.
pub(crate) fn insert_breakpoint(breaks: &mut Vec<u64>, value: u64)
    requires
        strictly_sorted(old(breaks)@),
    ensures
        strictly_sorted(final(breaks)@),
        final(breaks)@.contains(value),
        forall|x: u64| old(breaks)@.contains(x) ==> final(breaks)@.contains(x),
        forall|x: u64| final(breaks)@.contains(x) ==> old(breaks)@.contains(x) || x == value,
{
    let ghost before = breaks@;
    let mut idx: usize = 0;
    while idx < breaks.len() && breaks[idx] < value
        invariant
            breaks@ == before,
            idx <= breaks@.len(),
            forall|j: int| 0 <= j < idx ==> (#[trigger] breaks@[j]) < value,
        decreases breaks@.len() - idx,
    {
        idx = idx + 1;
    }
    if idx < breaks.len() && breaks[idx] == value {
        proof {
            assert(breaks@[idx as int] == value);
        }
        return ;
    }
    proof {
        assert(forall|j: int| idx <= j < breaks@.len() ==> (#[trigger] breaks@[j]) > value) by {
            if idx < breaks@.len() {
                assert(breaks@[idx as int] != value);
                assert(breaks@[idx as int] >= value);
                assert(forall|j: int|
                    idx < j < breaks@.len() ==> (#[trigger] breaks@[j]) > breaks@[idx as int]);
            }
        }
    }
    breaks.insert(idx, value);
    proof {
        let after = breaks@;
        assert forall|i: int, j: int| 0 <= i < j < after.len() implies after[i] < after[j] by {
            if j < idx {
                assert(after[i] == before[i] && after[j] == before[j]);
            } else if i > idx {
                assert(after[i] == before[i - 1] && after[j] == before[j - 1]);
            } else if i == idx {
                assert(after[i] == value && after[j] == before[j - 1]);
            } else if j == idx {
                assert(after[i] == before[i] && after[j] == value);
            } else {
                assert(after[i] == before[i] && after[j] == before[j - 1]);
                if i < idx && idx < j {
                    if i < idx - 1 || idx <= before.len() - 1 {
                    }
                    if j - 1 >= idx {
                        if i < j - 1 {
                        } else {
                            assert(i == idx - 1 || i == j - 1);
                        }
                    }
                }
            }
        }
        assert(after[idx as int] == value);
        assert(after.contains(value));
        assert forall|x: u64| before.contains(x) implies after.contains(x) by {
            let i = choose|i: int| 0 <= i < before.len() && before[i] == x;
            if i < idx {
                assert(after[i] == x);
            } else {
                assert(after[i + 1] == x);
            }
        }
        assert forall|x: u64| after.contains(x) implies before.contains(x) || x == value by {
            let i = choose|i: int| 0 <= i < after.len() && after[i] == x;
            if i < idx {
                assert(before[i] == x);
            } else if i > idx {
                assert(before[i - 1] == x);
            }
        }
    }
}

/// In a strictly sorted sequence, two members with a value between them
/// enclose an adjacent pair around that value.
proof fn lemma_interval_step(breaks: Seq<u64>, il: int, ih: int, sym: u64)
    requires
        strictly_sorted(breaks),
        0 <= il < ih < breaks.len(),
        breaks[il] <= sym,
        sym < breaks[ih],
    ensures
        exists|k: int| il <= k < ih && breaks[k] <= sym < breaks[#[trigger] (k + 1)],
    decreases ih - il,
{
    if ih == il + 1 {
        assert(breaks[il] <= sym < breaks[il + 1]);
    } else if breaks[ih - 1] <= sym {
        assert(breaks[ih - 1] <= sym < breaks[(ih - 1) + 1]);
    } else {
        lemma_interval_step(breaks, il, ih - 1, sym);
    }
}

/// Every symbol of a range whose bounds are among the breakpoints lies in
/// an atomic piece `[breaks[k], breaks[k+1])` contained in the range.
proof fn lemma_find_atomic(breaks: Seq<u64>, low: u64, past_high: u64, sym: u64)
    requires
        strictly_sorted(breaks),
        breaks.contains(low),
        breaks.contains(past_high),
        low <= sym < past_high,
    ensures
        exists|k: int|
            0 <= k < breaks.len() - 1 && breaks[k] <= sym < breaks[#[trigger] (k + 1)] && low
                <= breaks[k] && breaks[k + 1] <= past_high,
{
    let il = choose|i: int| 0 <= i < breaks.len() && breaks[i] == low;
    let ih = choose|i: int| 0 <= i < breaks.len() && breaks[i] == past_high;
    assert(il < ih);
    lemma_interval_step(breaks, il, ih, sym);
    let k = choose|k: int| il <= k < ih && breaks[k] <= sym < breaks[#[trigger] (k + 1)];
    assert(low <= breaks[k]);
    assert(breaks[k + 1] <= past_high);
    assert(0 <= k < breaks.len() - 1 && breaks[k] <= sym < breaks[k + 1] && low <= breaks[k]
        && breaks[k + 1] <= past_high);
}

/// An element stays in a sequence when another is pushed.
proof fn lemma_push_keeps(s: Seq<(SymbolRange, usize)>, x: (SymbolRange, usize), y: (
    SymbolRange,
    usize,
))
    requires
        s.contains(y),
    ensures
        s.push(x).contains(y),
{
    let i = choose|i: int| 0 <= i < s.len() && s[i] == y;
    assert(s.push(x)[i] == y);
}

/// The transition the splitter emits for breakpoint pair `k` of transition
/// `j`, when piece `k` lies inside the range of transition `j`.
pub open spec fn atomic_entry(
    ts: Seq<(SymbolRange, usize)>,
    breaks: Seq<u64>,
    j: int,
    k: int,
) -> (SymbolRange, usize) {
    (
        SymbolRange { low: breaks[k] as u32, high: (breaks[k + 1] - 1) as u32 },
        ts[j].1,
    )
}

/// Whether atomic piece `k` lies inside the range of transition `j`.
pub open spec fn piece_inside(ts: Seq<(SymbolRange, usize)>, breaks: Seq<u64>, j: int, k: int) -> bool {
    ts[j].0.low as u64 <= breaks[k] && breaks[k + 1] <= ts[j].0.high as u64 + 1
}

/// Whether the entry's range is exactly the atomic piece `[breaks[k], breaks[k+1])`.
pub open spec fn atomic_form(entry: (SymbolRange, usize), breaks: Seq<u64>, k: int) -> bool {
    &&& 0 <= k < breaks.len() - 1
    &&& entry.0.low as u64 == breaks[k]
    &&& entry.0.high as u64 + 1 == breaks[k + 1]
}

/// Two transitions whose ranges are atomic pieces of the same breakpoint
/// sequence carry equal or disjoint ranges.
pub proof fn lemma_atomic_entries_equal_or_disjoint(
    breaks: Seq<u64>,
    e1: (SymbolRange, usize),
    e2: (SymbolRange, usize),
    k1: int,
    k2: int,
)
    requires
        strictly_sorted(breaks),
        atomic_form(e1, breaks, k1),
        atomic_form(e2, breaks, k2),
    ensures
        e1.0 == e2.0 || !e1.0.spec_overlaps(e2.0),
{
    if k1 == k2 {
        assert(e1.0.low == e2.0.low && e1.0.high == e2.0.high);
        assert(e1.0 == e2.0);
    } else if k1 < k2 {
        assert(breaks[k1 + 1] <= breaks[k2]);
        assert(e1.0.high < e2.0.low);
    } else {
        assert(breaks[k2 + 1] <= breaks[k1]);
        assert(e2.0.high < e1.0.low);
    }
}

/// Whether the entry is a valid piece of transition `j`: same target, range
/// contained in the range of transition `j`.
pub open spec fn within_source(
    entry: (SymbolRange, usize),
    ts: Seq<(SymbolRange, usize)>,
    j: int,
) -> bool {
    &&& 0 <= j < ts.len()
    &&& ts[j].1 == entry.1
    &&& ts[j].0.low <= entry.0.low
    &&& entry.0.high <= ts[j].0.high
    &&& entry.0.valid()
}

/// Replaces each transition by one copy per atomic piece of its range
/// between the given breakpoints, so that afterwards all range labels are
/// atomic pieces — pairwise equal or disjoint, also across states split
/// against the same breakpoints — while exactly the same `(symbol, target)`
/// moves stay possible.  The returned ghost sequence names the atomic piece
/// of each produced transition.
#[verifier::rlimit(80)]
pub fn split_transitions(ts: &Vec<(SymbolRange, usize)>, breaks: &Vec<u64>) -> (res: (
    Vec<(SymbolRange, usize)>,
    Ghost<Seq<int>>,
))
    requires
        forall|j: int| 0 <= j < ts@.len() ==> (#[trigger] ts@[j]).0.valid(),
        strictly_sorted(breaks@),
        forall|j: int|
            0 <= j < ts@.len() ==> breaks@.contains((#[trigger] ts@[j]).0.low as u64)
                && breaks@.contains(((ts@[j].0.high + 1) as u64)),
        forall|i: int| 0 <= i < breaks@.len() ==> (#[trigger] breaks@[i]) <= 0x1_0000_0000u64,
    ensures
        ({
            let r = res.0;
            &&& res.1@.len() == r@.len()
            &&& forall|e: int|
                0 <= e < r@.len() ==> atomic_form(#[trigger] r@[e], breaks@, res.1@[e])
            &&& forall|e: int|
                0 <= e < r@.len() ==> (#[trigger] r@[e]).0.valid() && exists|j: int|
                    0 <= j < ts@.len() && (#[trigger] ts@[j]).1 == r@[e].1 && ts@[j].0.low
                        <= r@[e].0.low && r@[e].0.high <= ts@[j].0.high
            &&& same_coverage(r@, ts@)
            &&& ranges_equal_or_disjoint(r@)
        }),
{
    let ghost bs = breaks@;
    let mut r: Vec<(SymbolRange, usize)> = Vec::new();
    let ghost mut forms: Seq<int> = Seq::empty();
    let ghost mut srcs: Seq<int> = Seq::empty();
    let mut j: usize = 0;
    while j < ts.len()
        invariant
            forall|i: int| 0 <= i < ts@.len() ==> (#[trigger] ts@[i]).0.valid(),
            strictly_sorted(bs),
            bs == breaks@,
            forall|i: int|
                0 <= i < ts@.len() ==> bs.contains((#[trigger] ts@[i]).0.low as u64)
                    && bs.contains(((ts@[i].0.high + 1) as u64)),
            forall|i: int| 0 <= i < bs.len() ==> (#[trigger] bs[i]) <= 0x1_0000_0000u64,
            j <= ts@.len(),
            forms.len() == r@.len(),
            srcs.len() == r@.len(),
            forall|e: int|
                0 <= e < r@.len() ==> atomic_form(#[trigger] r@[e], bs, forms[e]),
            forall|e: int|
                0 <= e < r@.len() ==> within_source(#[trigger] r@[e], ts@, srcs[e]),
            forall|jj: int, k: int|
                0 <= jj < j && 0 <= k < bs.len() - 1 && piece_inside(ts@, bs, jj, k)
                    ==> r@.contains(#[trigger] atomic_entry(ts@, bs, jj, k)),
        decreases ts@.len() - j,
    {
        let (range, target) = ts[j];
        let mut k: usize = 0;
        let piece_count = if breaks.len() > 0 {
            breaks.len() - 1
        } else {
            0
        };
        while k < piece_count
            invariant
                forall|i: int| 0 <= i < ts@.len() ==> (#[trigger] ts@[i]).0.valid(),
                strictly_sorted(bs),
                bs == breaks@,
                forall|i: int|
                    0 <= i < ts@.len() ==> bs.contains((#[trigger] ts@[i]).0.low as u64)
                        && bs.contains(((ts@[i].0.high + 1) as u64)),
                forall|i: int| 0 <= i < bs.len() ==> (#[trigger] bs[i]) <= 0x1_0000_0000u64,
                j < ts@.len(),
                (range, target) == ts@[j as int],
                k <= piece_count,
                piece_count == if bs.len() > 0 {
                    bs.len() - 1
                } else {
                    0
                },
                forms.len() == r@.len(),
                srcs.len() == r@.len(),
                forall|e: int|
                    0 <= e < r@.len() ==> atomic_form(#[trigger] r@[e], bs, forms[e]),
                forall|e: int|
                    0 <= e < r@.len() ==> within_source(#[trigger] r@[e], ts@, srcs[e]),
                forall|jj: int, kk: int|
                    0 <= jj < j && 0 <= kk < bs.len() - 1 && piece_inside(ts@, bs, jj, kk)
                        ==> r@.contains(#[trigger] atomic_entry(ts@, bs, jj, kk)),
                forall|kk: int|
                    0 <= kk < k && piece_inside(ts@, bs, j as int, kk) ==> r@.contains(
                        #[trigger] atomic_entry(ts@, bs, j as int, kk),
                    ),
            decreases piece_count - k,
        {
            let b_low = breaks[k];
            let b_next = breaks[k + 1];
            proof {
                assert(bs[k as int] < bs[k as int + 1]);
            }
            if range.low as u64 <= b_low && b_next <= range.high as u64 + 1 {
                let piece = SymbolRange { low: b_low as u32, high: (b_next - 1) as u32 };
                let ghost r_before = r@;
                r.push((piece, target));
                proof {
                    forms = forms.push(k as int);
                    srcs = srcs.push(j as int);
                    assert(r@ == r_before.push((piece, target)));
                    assert(r@[r@.len() - 1] == (piece, target));
                    assert(piece.low as u64 == bs[k as int]);
                    assert(piece.high as u64 + 1 == bs[k as int + 1]);
                    assert(atomic_form((piece, target), bs, k as int));
                    assert((piece, target) == atomic_entry(ts@, bs, j as int, k as int));
                    assert(ts@[j as int].0.low <= piece.low && piece.high
                        <= ts@[j as int].0.high && piece.valid()) by {
                        assert(bs[k as int] < bs[k as int + 1] <= 0x1_0000_0000u64);
                        assert(range.low as u64 <= bs[k as int]);
                        assert(bs[k as int + 1] <= range.high as u64 + 1);
                    }
                    assert(within_source((piece, target), ts@, j as int));
                    assert forall|e: int|
                        0 <= e < r@.len() implies atomic_form(
                        #[trigger] r@[e],
                        bs,
                        forms[e],
                    ) by {
                        if e < r_before.len() {
                            assert(r@[e] == r_before[e]);
                        }
                    }
                    assert forall|e: int|
                        0 <= e < r@.len() implies within_source(
                        #[trigger] r@[e],
                        ts@,
                        srcs[e],
                    ) by {
                        if e < r_before.len() {
                            assert(r@[e] == r_before[e]);
                        }
                    }
                    assert forall|jj: int, kk: int|
                        0 <= jj < j && 0 <= kk < bs.len() - 1 && piece_inside(ts@, bs, jj, kk)
                            implies r@.contains(#[trigger] atomic_entry(ts@, bs, jj, kk)) by {
                        lemma_push_keeps(r_before, (piece, target), atomic_entry(ts@, bs, jj, kk));
                    }
                    assert forall|kk: int|
                        0 <= kk < k + 1 && piece_inside(ts@, bs, j as int, kk) implies r@.contains(
                        #[trigger] atomic_entry(ts@, bs, j as int, kk),
                    ) by {
                        if kk < k {
                            lemma_push_keeps(
                                r_before,
                                (piece, target),
                                atomic_entry(ts@, bs, j as int, kk),
                            );
                        } else {
                            assert(r@[r@.len() - 1] == atomic_entry(ts@, bs, j as int, kk));
                        }
                    }
                }
            } else {
                proof {
                    assert(!piece_inside(ts@, bs, j as int, k as int));
                }
            }
            k = k + 1;
        }
        j = j + 1;
    }
    proof {
        assert forall|e: int|
            0 <= e < r@.len() implies (#[trigger] r@[e]).0.valid() && exists|jj: int|
            0 <= jj < ts@.len() && (#[trigger] ts@[jj]).1 == r@[e].1 && ts@[jj].0.low
                <= r@[e].0.low && r@[e].0.high <= ts@[jj].0.high by {
            let jj = srcs[e];
            assert(within_source(r@[e], ts@, jj));
            assert(0 <= jj < ts@.len() && ts@[jj].1 == r@[e].1 && ts@[jj].0.low <= r@[e].0.low
                && r@[e].0.high <= ts@[jj].0.high);
        }
        assert forall|symbol: u32, target: usize|
            #[trigger] covers_to(r@, symbol, target) == covers_to(ts@, symbol, target) by {
            if covers_to(r@, symbol, target) {
                let e = choose|e: int|
                    0 <= e < r@.len() && (#[trigger] r@[e]).0.spec_contains(symbol) && r@[e].1
                        == target;
                let i = srcs[e];
                assert(within_source(r@[e], ts@, i));
                assert(ts@[i].0.spec_contains(symbol));
                assert(covers_to(ts@, symbol, target));
            }
            if covers_to(ts@, symbol, target) {
                let i = choose|i: int|
                    0 <= i < ts@.len() && (#[trigger] ts@[i]).0.spec_contains(symbol) && ts@[i].1
                        == target;
                lemma_find_atomic(
                    bs,
                    ts@[i].0.low as u64,
                    ((ts@[i].0.high + 1) as u64),
                    symbol as u64,
                );
                let k = choose|k: int|
                    0 <= k < bs.len() - 1 && bs[k] <= (symbol as u64) < bs[#[trigger] (k + 1)]
                        && ts@[i].0.low as u64 <= bs[k] && bs[k + 1] <= ts@[i].0.high as u64 + 1;
                assert(piece_inside(ts@, bs, i, k));
                assert(r@.contains(atomic_entry(ts@, bs, i, k)));
                let entry = atomic_entry(ts@, bs, i, k);
                let e = choose|e: int| 0 <= e < r@.len() && r@[e] == entry;
                assert(r@[e].0.spec_contains(symbol)) by {
                    assert(entry.0.low as u64 == bs[k]);
                    assert(entry.0.high as u64 == bs[k + 1] - 1);
                }
                assert(covers_to(r@, symbol, target));
            }
        }
        assert forall|e1: int, e2: int|
            0 <= e1 < r@.len() && 0 <= e2 < r@.len() implies ((#[trigger] r@[e1]).0 == (
        #[trigger] r@[e2]).0 || !r@[e1].0.spec_overlaps(r@[e2].0)) by {
            let k1 = forms[e1];
            let k2 = forms[e2];
            assert(atomic_form(r@[e1], bs, k1));
            assert(atomic_form(r@[e2], bs, k2));
            if k1 == k2 {
                assert(r@[e1].0.low == r@[e2].0.low && r@[e1].0.high == r@[e2].0.high);
                assert(r@[e1].0 == r@[e2].0);
            } else if k1 < k2 {
                assert(bs[k1 + 1] <= bs[k2]);
                assert(r@[e1].0.high < r@[e2].0.low);
            } else {
                assert(bs[k2 + 1] <= bs[k1]);
                assert(r@[e2].0.high < r@[e1].0.low);
            }
        }
    }
    (r, Ghost(forms))
}

} // verus!
