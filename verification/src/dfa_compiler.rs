//! The subset construction.  Each state of the produced deterministic
//! automaton stands for a set of states of the nondeterministic automaton,
//! represented as a membership bitmap.  New sets are discovered from the
//! epsilon closure of the targets of each atomic range label; the pending
//! sets form a worklist.  Termination rests on the fact that there are at
//! most `2^n` distinct bitmaps over `n` states.

use vstd::prelude::*;
use vstd::seq_lib::*;
use vstd::set_lib::lemma_int_range;
use vstd::set_lib::lemma_len_subset;
use vstd::set_lib::set_int_range;

use crate::ndfa::Ndfa;
use crate::overlapping_symbols::cross_equal_or_disjoint;
use crate::symbol_range::SymbolRange;
use crate::symbol_range_dfa::DfaState;
use crate::symbol_range_dfa::SymbolRangeDfa;

verus! {

/// Two to the power `n`.
pub open spec fn two_to(n: nat) -> int
    decreases n,
{
    if n == 0 {
        1
    } else {
        2 * two_to((n - 1) as nat)
    }
}

/// The number whose binary digits are the bitmap, lowest bit last.
pub open spec fn bitmask(s: Seq<bool>) -> int
    decreases s.len(),
{
    if s.len() == 0 {
        0
    } else {
        2 * bitmask(s.drop_last()) + if s.last() {
            1int
        } else {
            0int
        }
    }
}

/// Two to any power is positive.
proof fn lemma_two_to_pos(n: nat)
    ensures
        two_to(n) >= 1,
    decreases n,
{
    if n > 0 {
        lemma_two_to_pos((n - 1) as nat);
    }
}

/// A bitmap of length `n` encodes a number below `2^n`.
proof fn lemma_bitmask_bound(s: Seq<bool>)
    ensures
        0 <= bitmask(s) < two_to(s.len()),
    decreases s.len(),
{
    if s.len() > 0 {
        lemma_bitmask_bound(s.drop_last());
    }
}

/// Distinct bitmaps of equal length encode distinct numbers.
proof fn lemma_bitmask_injective(a: Seq<bool>, b: Seq<bool>)
    requires
        a.len() == b.len(),
        a != b,
    ensures
        bitmask(a) != bitmask(b),
    decreases a.len(),
{
    if a.len() == 0 {
        assert(a =~= b);
    } else {
        if a.last() == b.last() {
            if a.drop_last() =~= b.drop_last() {
                assert(a =~= b) by {
                    assert(forall|i: int|
                        0 <= i < a.len() - 1 ==> a[i] == a.drop_last()[i] && b[i]
                            == b.drop_last()[i]);
                }
            }
            lemma_bitmask_injective(a.drop_last(), b.drop_last());
        }
    }
}

/// There are at most `2^n` pairwise distinct bitmaps of length `n`.
proof fn lemma_distinct_bitmaps_bound(views: Seq<Seq<bool>>, n: nat)
    requires
        forall|p: int| 0 <= p < views.len() ==> (#[trigger] views[p]).len() == n,
        forall|p: int, q: int| 0 <= p < q < views.len() ==> views[p] != views[q],
    ensures
        views.len() <= two_to(n),
{
    let masks = Seq::new(views.len(), |p: int| bitmask(views[p]));
    assert forall|p: int, q: int| 0 <= p < masks.len() && 0 <= q < masks.len() && p != q implies
        masks[p] != masks[q] by {
        if p < q {
            lemma_bitmask_injective(views[p], views[q]);
        } else {
            lemma_bitmask_injective(views[q], views[p]);
        }
    }
    assert(masks.no_duplicates());
    masks.unique_seq_to_set();
    assert forall|x: int| masks.to_set().contains(x) implies set_int_range(
        0,
        two_to(n),
    ).contains(x) by {
        let i = choose|i: int| 0 <= i < masks.len() && masks[i] == x;
        lemma_bitmask_bound(views[i]);
    }
    assert(masks.to_set() <= set_int_range(0, two_to(n)));
    lemma_two_to_pos(n);
    lemma_int_range(0, two_to(n));
    lemma_len_subset(masks.to_set(), set_int_range(0, two_to(n)));
}

/// Copies a membership bitmap.
fn copy_bitmap(v: &Vec<bool>) -> (r: Vec<bool>)
    ensures
        r@ == v@,
{
    let mut r: Vec<bool> = Vec::new();
    let mut i: usize = 0;
    while i < v.len()
        invariant
            i <= v@.len(),
            r@ == v@.subrange(0, i as int),
        decreases v@.len() - i,
    {
        r.push(v[i]);
        i = i + 1;
        proof {
            assert(r@ =~= v@.subrange(0, i as int));
        }
    }
    proof {
        assert(v@.subrange(0, v@.len() as int) =~= v@);
    }
    r
}

/// Whether two bitmaps hold the same memberships.
fn bitmaps_equal(a: &Vec<bool>, b: &Vec<bool>) -> (r: bool)
    ensures
        r <==> a@ == b@,
{
    if a.len() != b.len() {
        proof {
            assert(a@ != b@);
        }
        return false;
    }
    let mut i: usize = 0;
    while i < a.len()
        invariant
            a@.len() == b@.len(),
            i <= a@.len(),
            forall|j: int| 0 <= j < i ==> a@[j] == b@[j],
        decreases a@.len() - i,
    {
        if a[i] != b[i] {
            return false;
        }
        i = i + 1;
    }
    proof {
        assert(a@ =~= b@);
    }
    true
}

/// Looks a bitmap up among the known sets, by contents.
fn find_set(sets: &Vec<Vec<bool>>, wanted: &Vec<bool>) -> (r: Option<usize>)
    ensures
        match r {
            Some(p) => p < sets@.len() && sets@[p as int]@ == wanted@,
            None => forall|p: int| 0 <= p < sets@.len() ==> (#[trigger] sets@[p])@ != wanted@,
        },
{
    let mut p: usize = 0;
    while p < sets.len()
        invariant
            p <= sets@.len(),
            forall|q: int| 0 <= q < p ==> (#[trigger] sets@[q])@ != wanted@,
        decreases sets@.len() - p,
    {
        if bitmaps_equal(&sets[p], wanted) {
            return Some(p);
        }
        p = p + 1;
    }
    None
}

/// Looks a range up in the list of collected range labels.
fn find_range(ranges: &Vec<SymbolRange>, wanted: SymbolRange) -> (r: Option<usize>)
    ensures
        match r {
            Some(p) => p < ranges@.len() && ranges@[p as int] == wanted,
            None => forall|p: int| 0 <= p < ranges@.len() ==> (#[trigger] ranges@[p]) != wanted,
        },
{
    let mut p: usize = 0;
    while p < ranges.len()
        invariant
            p <= ranges@.len(),
            forall|q: int| 0 <= q < p ==> (#[trigger] ranges@[q]) != wanted,
        decreases ranges@.len() - p,
    {
        let candidate = ranges[p];
        if candidate.low == wanted.low && candidate.high == wanted.high {
            proof {
                assert(ranges@[p as int] == wanted);
            }
            return Some(p);
        }
        p = p + 1;
    }
    None
}

/// Whether the transition list `ts` carries every range label that occurs
/// on a transition of a member state of `members`: the grouping step of the
/// subset construction misses no label.  The table names, for each member
/// transition, the produced transition carrying the same label.
pub open spec fn covers_member_labels(
    ndfa: Ndfa,
    members: Seq<bool>,
    ts: Seq<(SymbolRange, usize)>,
    table: Map<(int, int), int>,
) -> bool {
    forall|s: int, j: int|
        0 <= s < members.len() && members[s] && 0 <= j < ndfa.states@[s].transitions@.len()
            ==> 0 <= #[trigger] table[(s, j)] < ts.len() && ts[table[(s, j)]].0
            == ndfa.states@[s].transitions@[j].0
}

/// Whether the grouping table sends the label of transition `j2` of state
/// `s2` to a collected range equal to it.
pub open spec fn label_entry_ok(
    ndfa: Ndfa,
    label_at: Map<(int, int), int>,
    ranges: Seq<SymbolRange>,
    s2: int,
    j2: int,
) -> bool {
    &&& 0 <= label_at[(s2, j2)] < ranges.len()
    &&& ranges[label_at[(s2, j2)]] == ndfa.states@[s2].transitions@[j2].0
}

/// The minimum output among the first `upto` member states of the set, or
/// none when no such member is accepting.
pub open spec fn min_member_output(ndfa: Ndfa, members: Seq<bool>, upto: int) -> Option<u32>
    decreases upto,
    when 0 <= upto <= members.len()
{
    if upto <= 0 {
        None
    } else {
        let rest = min_member_output(ndfa, members, upto - 1);
        if members[upto - 1] {
            match ndfa.states@[upto - 1].output {
                Some(candidate) => match rest {
                    Some(existing) => if candidate < existing {
                        Some(candidate)
                    } else {
                        Some(existing)
                    },
                    None => Some(candidate),
                },
                None => rest,
            }
        } else {
            rest
        }
    }
}

/// The minimum output among the member states of the set, or none when no
/// member is accepting: the priority tie-break of the subset construction.
pub open spec fn min_output(ndfa: Ndfa, members: Seq<bool>) -> Option<u32> {
    min_member_output(ndfa, members, members.len() as int)
}

/// A defined minimum output is the output of one of the members.
pub proof fn lemma_min_output_is_member_output(ndfa: Ndfa, members: Seq<bool>, upto: int)
    requires
        0 <= upto <= members.len(),
        min_member_output(ndfa, members, upto) is Some,
    ensures
        exists|s: int|
            0 <= s < upto && #[trigger] members[s] && ndfa.states@[s].output == min_member_output(
                ndfa,
                members,
                upto,
            ),
    decreases upto,
{
    let result = min_member_output(ndfa, members, upto);
    let rest = min_member_output(ndfa, members, upto - 1);
    if members[upto - 1] && ndfa.states@[upto - 1].output is Some {
        if result == ndfa.states@[upto - 1].output {
            assert(members[upto - 1] && ndfa.states@[upto - 1].output == result);
        } else {
            lemma_min_output_is_member_output(ndfa, members, upto - 1);
            let s = choose|s: int|
                0 <= s < upto - 1 && #[trigger] members[s] && ndfa.states@[s].output == rest;
            assert(members[s] && ndfa.states@[s].output == result);
        }
    } else {
        lemma_min_output_is_member_output(ndfa, members, upto - 1);
        let s = choose|s: int|
            0 <= s < upto - 1 && #[trigger] members[s] && ndfa.states@[s].output == rest;
        assert(members[s] && ndfa.states@[s].output == result);
    }
}

/// Inserts a transition into a sorted list of pairwise disjoint
/// transitions, keeping it sorted; returns the insertion position.
fn insert_transition_sorted(
    trans: &mut Vec<(SymbolRange, usize)>,
    range: SymbolRange,
    target: usize,
) -> (pos: usize)
    requires
        forall|e: int| 0 <= e < old(trans)@.len() ==> (#[trigger] old(trans)@[e]).0.valid(),
        forall|e1: int, e2: int|
            0 <= e1 < e2 < old(trans)@.len() ==> (#[trigger] old(trans)@[e1]).0.high < (
            #[trigger] old(trans)@[e2]).0.low,
        range.valid(),
        forall|e: int|
            0 <= e < old(trans)@.len() ==> !range.spec_overlaps((#[trigger] old(trans)@[e]).0),
    ensures
        pos <= old(trans)@.len(),
        final(trans)@ == old(trans)@.insert(pos as int, (range, target)),
        forall|e: int| 0 <= e < final(trans)@.len() ==> (#[trigger] final(trans)@[e]).0.valid(),
        forall|e1: int, e2: int|
            0 <= e1 < e2 < final(trans)@.len() ==> (#[trigger] final(trans)@[e1]).0.high < (
            #[trigger] final(trans)@[e2]).0.low,
{
    let ghost before = trans@;
    let mut pos: usize = 0;
    while pos < trans.len() && trans[pos].0.low < range.low
        invariant
            trans@ == before,
            pos <= before.len(),
            forall|j: int| 0 <= j < pos ==> (#[trigger] before[j]).0.low < range.low,
        decreases before.len() - pos,
    {
        pos = pos + 1;
    }
    proof {
        assert forall|j: int| pos <= j < before.len() implies range.high < (
        #[trigger] before[j]).0.low by {
            assert(!range.spec_overlaps(before[j].0));
            assert(before[j].0.low >= range.low);
            if before[j].0.low == range.low {
                assert(range.spec_overlaps(before[j].0));
            }
            if before[j].0.low <= range.high {
                assert(range.spec_overlaps(before[j].0));
            }
        }
        assert forall|j: int| 0 <= j < pos implies (#[trigger] before[j]).0.high < range.low by {
            assert(!range.spec_overlaps(before[j].0));
            if before[j].0.high >= range.low {
                assert(before[j].0.low <= before[j].0.high);
                assert(range.spec_overlaps(before[j].0));
            }
        }
    }
    trans.insert(pos, (range, target));
    proof {
        let after = trans@;
        assert forall|e1: int, e2: int|
            0 <= e1 < e2 < after.len() implies (#[trigger] after[e1]).0.high < (
        #[trigger] after[e2]).0.low by {
            if e1 < pos {
                assert(after[e1] == before[e1]);
            } else if e1 == pos {
                assert(after[e1] == (range, target));
            } else {
                assert(after[e1] == before[e1 - 1]);
            }
            if e2 < pos {
                assert(after[e2] == before[e2]);
            } else if e2 == pos {
                assert(after[e2] == (range, target));
            } else {
                assert(after[e2] == before[e2 - 1]);
            }
        }
        assert forall|e: int| 0 <= e < after.len() implies (#[trigger] after[e]).0.valid() by {
            if e < pos {
                assert(after[e] == before[e]);
            } else if e > pos {
                assert(after[e] == before[e - 1]);
            }
        }
    }
    pos
}

/// Builds a deterministic automaton from a nondeterministic one whose range
/// labels are pairwise equal or disjoint, by subset construction.  The
/// result satisfies the deterministic automaton invariants: per state,
/// sorted and pairwise disjoint range labels and existing targets.  The
/// ghost result names the member set each produced state stands for: the
/// start state stands for the epsilon closure of state `0`, and every
/// produced state's output is the minimum of its members' outputs — the
/// priority tie-break.
#[verifier::rlimit(100)]
pub fn build_dfa(ndfa: &Ndfa) -> (res: (
    SymbolRangeDfa,
    Ghost<Seq<Seq<bool>>>,
    Ghost<Seq<Map<(int, int), int>>>,
))
    requires
        ndfa.wf(),
        ndfa.atomic_ranges(),
    ensures
        res.0.wf(),
        res.1@.len() == res.0.states@.len(),
        forall|p: int| 0 <= p < res.1@.len() ==> (#[trigger] res.1@[p]).len() == ndfa.states@.len(),
        forall|p: int|
            0 <= p < res.1@.len() ==> (#[trigger] res.0.states@[p]).output == min_output(
                *ndfa,
                res.1@[p],
            ),
        forall|s: usize|
            (s as int) < ndfa.states@.len() ==> (res.1@[0][s as int] <==> ndfa.eps_reachable(
                seq![0usize],
                s,
            )),
        res.2@.len() == res.0.states@.len(),
        forall|p: int|
            0 <= p < res.1@.len() ==> covers_member_labels(
                *ndfa,
                res.1@[p],
                (#[trigger] res.0.states@[p]).transitions@,
                res.2@[p],
            ),
{
    let n = ndfa.count_states();
    let mut start_ids: Vec<usize> = Vec::new();
    start_ids.push(0);
    let start_set = ndfa.closure(&start_ids);
    let mut sets: Vec<Vec<bool>> = Vec::new();
    sets.push(start_set);
    proof {
        assert(start_ids@ =~= seq![0usize]);
    }
    let mut dfa_states: Vec<DfaState> = Vec::new();
    let ghost mut tables: Seq<Map<(int, int), int>> = Seq::empty();
    let mut idx: usize = 0;
    while idx < sets.len()
        invariant
            ndfa.wf(),
            ndfa.atomic_ranges(),
            n == ndfa.states@.len(),
            idx <= sets@.len(),
            dfa_states@.len() == idx,
            sets@.len() >= 1,
            forall|p: int| 0 <= p < sets@.len() ==> (#[trigger] sets@[p])@.len() == n,
            forall|p: int, q: int| 0 <= p < q < sets@.len() ==> sets@[p]@ != sets@[q]@,
            forall|s: usize|
                (s as int) < n ==> (sets@[0]@[s as int] <==> ndfa.eps_reachable(seq![0usize], s)),
            forall|p: int|
                0 <= p < idx ==> (#[trigger] dfa_states@[p]).output == min_output(
                    *ndfa,
                    sets@[p]@,
                ),
            tables.len() == idx,
            forall|p: int|
                0 <= p < idx ==> covers_member_labels(
                    *ndfa,
                    sets@[p]@,
                    (#[trigger] dfa_states@[p]).transitions@,
                    tables[p],
                ),
            forall|p: int|
                0 <= p < idx ==> {
                    let ts = (#[trigger] dfa_states@[p]).transitions@;
                    &&& forall|e: int|
                        0 <= e < ts.len() ==> (#[trigger] ts[e]).0.valid() && ts[e].1
                            < sets@.len()
                    &&& forall|e1: int, e2: int|
                        0 <= e1 < e2 < ts.len() ==> (#[trigger] ts[e1]).0.high < (
                        #[trigger] ts[e2]).0.low
                },
        decreases two_to(n as nat) - idx,
    {
        proof {
            let views = Seq::new(sets@.len(), |p: int| sets@[p]@);
            assert forall|p: int, q: int| 0 <= p < q < views.len() implies views[p] != views[q] by {
                assert(views[p] == sets@[p]@ && views[q] == sets@[q]@);
            }
            lemma_distinct_bitmaps_bound(views, n as nat);
        }
        let current = copy_bitmap(&sets[idx]);
        proof {
            assert(current@.len() == n);
        }

        // Group the transitions of the member states by their range label.
        let mut ranges: Vec<SymbolRange> = Vec::new();
        let mut target_lists: Vec<Vec<usize>> = Vec::new();
        let ghost mut provenance: Seq<(int, int)> = Seq::empty();
        let ghost mut label_at: Map<(int, int), int> = Map::empty();
        let mut s: usize = 0;
        while s < n
            invariant
                ndfa.wf(),
                n == ndfa.states@.len(),
                current@.len() == n,
                s <= n,
                ranges@.len() == target_lists@.len(),
                provenance.len() == ranges@.len(),
                forall|pos: int|
                    0 <= pos < ranges@.len() ==> {
                        let ps = (#[trigger] provenance[pos]).0;
                        let pj = provenance[pos].1;
                        &&& 0 <= ps < n
                        &&& 0 <= pj < ndfa.states@[ps].transitions@.len()
                        &&& ndfa.states@[ps].transitions@[pj].0 == ranges@[pos]
                    },
                forall|p1: int, p2: int|
                    0 <= p1 < p2 < ranges@.len() ==> ranges@[p1] != ranges@[p2],
                forall|pos: int|
                    0 <= pos < target_lists@.len() ==> forall|m: int|
                        0 <= m < (#[trigger] target_lists@[pos])@.len() ==> (
                        #[trigger] target_lists@[pos]@[m]) < n,
                forall|s2: int, j2: int|
                    0 <= s2 < s && current@[s2] && 0 <= j2 < ndfa.states@[s2].transitions@.len()
                        ==> #[trigger] label_entry_ok(*ndfa, label_at, ranges@, s2, j2),
            decreases n - s,
        {
            if current[s] {
                let transition_count = ndfa.states[s].transitions.len();
                let mut j: usize = 0;
                while j < transition_count
                    invariant
                        ndfa.wf(),
                        n == ndfa.states@.len(),
                        current@.len() == n,
                        s < n,
                        j <= transition_count,
                        transition_count == ndfa.states@[s as int].transitions@.len(),
                        ranges@.len() == target_lists@.len(),
                        provenance.len() == ranges@.len(),
                        forall|pos: int|
                            0 <= pos < ranges@.len() ==> {
                                let ps = (#[trigger] provenance[pos]).0;
                                let pj = provenance[pos].1;
                                &&& 0 <= ps < n
                                &&& 0 <= pj < ndfa.states@[ps].transitions@.len()
                                &&& ndfa.states@[ps].transitions@[pj].0 == ranges@[pos]
                            },
                        forall|p1: int, p2: int|
                            0 <= p1 < p2 < ranges@.len() ==> ranges@[p1] != ranges@[p2],
                        forall|pos: int|
                            0 <= pos < target_lists@.len() ==> forall|m: int|
                                0 <= m < (#[trigger] target_lists@[pos])@.len() ==> (
                                #[trigger] target_lists@[pos]@[m]) < n,
                        forall|s2: int, j2: int|
                            0 <= s2 < s && current@[s2] && 0 <= j2
                                < ndfa.states@[s2].transitions@.len() ==> #[trigger] label_entry_ok(
                                *ndfa,
                                label_at,
                                ranges@,
                                s2,
                                j2,
                            ),
                        forall|j2: int|
                            0 <= j2 < j ==> #[trigger] label_entry_ok(
                                *ndfa,
                                label_at,
                                ranges@,
                                s as int,
                                j2,
                            ),
                    decreases transition_count - j,
                {
                    let (range, target) = ndfa.states[s].transitions[j];
                    proof {
                        assert(ndfa.states@[s as int].transitions@[j as int].1 < n);
                    }
                    proof {
                        assert(ndfa.states@[s as int].transitions@[j as int].0 == range);
                    }
                    let ghost label_at_before = label_at;
                    let ghost ranges_before = ranges@;
                    match find_range(&ranges, range) {
                        Some(pos) => {
                            let ghost lists_before = target_lists@;
                            let mut list = target_lists.remove(pos);
                            list.push(target);
                            target_lists.insert(pos, list);
                            proof {
                                assert(target_lists@ =~= lists_before.update(
                                    pos as int,
                                    target_lists@[pos as int],
                                ));
                                label_at = label_at.insert((s as int, j as int), pos as int);
                            }
                        },
                        None => {
                            let ghost new_pos = ranges@.len() as int;
                            ranges.push(range);
                            let mut list: Vec<usize> = Vec::new();
                            list.push(target);
                            target_lists.push(list);
                            proof {
                                provenance = provenance.push((s as int, j as int));
                                label_at = label_at.insert((s as int, j as int), new_pos);
                                assert(ranges@[new_pos] == range);
                            }
                        },
                    }
                    proof {
                        assert forall|s2: int, j2: int|
                            0 <= s2 < s && current@[s2] && 0 <= j2
                                < ndfa.states@[s2].transitions@.len() implies #[trigger] label_entry_ok(
                            *ndfa,
                            label_at,
                            ranges@,
                            s2,
                            j2,
                        ) by {
                            assert(label_entry_ok(*ndfa, label_at_before, ranges_before, s2, j2));
                            assert((s2, j2) != (s as int, j as int));
                            assert(label_at[(s2, j2)] == label_at_before[(s2, j2)]);
                            assert(ranges@[label_at_before[(s2, j2)]] == ranges_before[label_at_before[(s2, j2)]]);
                        }
                        assert forall|j2: int|
                            0 <= j2 < j + 1 implies #[trigger] label_entry_ok(
                            *ndfa,
                            label_at,
                            ranges@,
                            s as int,
                            j2,
                        ) by {
                            if j2 < j {
                                assert(label_entry_ok(
                                    *ndfa,
                                    label_at_before,
                                    ranges_before,
                                    s as int,
                                    j2,
                                ));
                                assert((s as int, j2) != (s as int, j as int));
                                assert(label_at[(s as int, j2)] == label_at_before[(s as int, j2)]);
                                assert(ranges@[label_at_before[(s as int, j2)]] == ranges_before[label_at_before[(s as int, j2)]]);
                            } else {
                                assert(ranges@[label_at[(s as int, j as int)]] == range);
                            }
                        }
                    }
                    j = j + 1;
                }
            }
            proof {
                assert forall|s2: int, j2: int|
                    0 <= s2 < s + 1 && current@[s2] && 0 <= j2
                        < ndfa.states@[s2].transitions@.len() implies #[trigger] label_entry_ok(
                    *ndfa,
                    label_at,
                    ranges@,
                    s2,
                    j2,
                ) by {
                    if s2 == s {
                        assert(label_entry_ok(*ndfa, label_at, ranges@, s as int, j2));
                    }
                }
            }
            s = s + 1;
        }

        // Build the transitions of this state: one per distinct range, to
        // the state standing for the closure of the grouped targets.
        let mut transitions: Vec<(SymbolRange, usize)> = Vec::new();
        let ghost mut trans_src: Seq<int> = Seq::empty();
        let ghost mut e_at: Seq<int> = Seq::empty();
        let mut pos: usize = 0;
        while pos < ranges.len()
            invariant
                ndfa.wf(),
                ndfa.atomic_ranges(),
                n == ndfa.states@.len(),
                pos <= ranges@.len(),
                ranges@.len() == target_lists@.len(),
                provenance.len() == ranges@.len(),
                forall|p: int|
                    0 <= p < ranges@.len() ==> {
                        let ps = (#[trigger] provenance[p]).0;
                        let pj = provenance[p].1;
                        &&& 0 <= ps < n
                        &&& 0 <= pj < ndfa.states@[ps].transitions@.len()
                        &&& ndfa.states@[ps].transitions@[pj].0 == ranges@[p]
                    },
                forall|p1: int, p2: int|
                    0 <= p1 < p2 < ranges@.len() ==> ranges@[p1] != ranges@[p2],
                forall|p: int|
                    0 <= p < target_lists@.len() ==> forall|m: int|
                        0 <= m < (#[trigger] target_lists@[p])@.len() ==> (
                        #[trigger] target_lists@[p]@[m]) < n,
                sets@.len() >= 1,
                idx < sets@.len(),
                current@ == sets@[idx as int]@,
                forall|p: int| 0 <= p < sets@.len() ==> (#[trigger] sets@[p])@.len() == n,
                forall|p: int, q: int| 0 <= p < q < sets@.len() ==> sets@[p]@ != sets@[q]@,
                forall|s: usize|
                    (s as int) < n ==> (sets@[0]@[s as int] <==> ndfa.eps_reachable(
                        seq![0usize],
                        s,
                    )),
                forall|p: int|
                    0 <= p < idx ==> (#[trigger] dfa_states@[p]).output == min_output(
                        *ndfa,
                        sets@[p]@,
                    ),
                tables.len() == idx,
                forall|p: int|
                    0 <= p < idx ==> covers_member_labels(
                        *ndfa,
                        sets@[p]@,
                        (#[trigger] dfa_states@[p]).transitions@,
                        tables[p],
                    ),
                dfa_states@.len() == idx,
                forall|p: int|
                    0 <= p < idx ==> {
                        let ts = (#[trigger] dfa_states@[p]).transitions@;
                        &&& forall|e: int|
                            0 <= e < ts.len() ==> (#[trigger] ts[e]).0.valid() && ts[e].1
                                < sets@.len()
                        &&& forall|e1: int, e2: int|
                            0 <= e1 < e2 < ts.len() ==> (#[trigger] ts[e1]).0.high < (
                            #[trigger] ts[e2]).0.low
                    },
                trans_src.len() == transitions@.len(),
                e_at.len() == pos,
                forall|pp: int|
                    0 <= pp < pos ==> 0 <= #[trigger] e_at[pp] < trans_src.len() && trans_src[e_at[pp]] == pp,
                forall|e: int| 0 <= e < transitions@.len() ==> 0 <= #[trigger] trans_src[e] < pos,
                forall|e: int|
                    0 <= e < transitions@.len() ==> (#[trigger] transitions@[e]).0
                        == ranges@[trans_src[e]],
                forall|e: int|
                    0 <= e < transitions@.len() ==> (#[trigger] transitions@[e]).1 < sets@.len(),
                forall|e: int|
                    0 <= e < transitions@.len() ==> (#[trigger] transitions@[e]).0.valid(),
                forall|e1: int, e2: int|
                    0 <= e1 < e2 < transitions@.len() ==> (
                    #[trigger] transitions@[e1]).0.high < (#[trigger] transitions@[e2]).0.low,
            decreases ranges@.len() - pos,
        {
            let target_set = ndfa.closure(&target_lists[pos]);
            let target_id = match find_set(&sets, &target_set) {
                Some(found) => found,
                None => {
                    let id = sets.len();
                    sets.push(target_set);
                    id
                },
            };
            let range = ranges[pos];
            proof {
                let ps = provenance[pos as int].0;
                let pj = provenance[pos as int].1;
                assert(ndfa.states@[ps].transitions@[pj].0 == range);
                assert(ndfa.states@[ps].transitions@[pj].0.valid());
                assert forall|e: int|
                    0 <= e < transitions@.len() implies !range.spec_overlaps(
                    (#[trigger] transitions@[e]).0,
                ) by {
                    let p2 = trans_src[e];
                    let qs = provenance[p2].0;
                    let qj = provenance[p2].1;
                    assert(ndfa.states@[qs].transitions@[qj].0 == transitions@[e].0);
                    assert(cross_equal_or_disjoint(
                        ndfa.states@[ps].transitions@,
                        ndfa.states@[qs].transitions@,
                    ));
                    assert(ndfa.states@[ps].transitions@[pj].0 == ndfa.states@[qs].transitions@[qj].0
                        || !ndfa.states@[ps].transitions@[pj].0.spec_overlaps(
                        ndfa.states@[qs].transitions@[qj].0,
                    ));
                    assert(range != transitions@[e].0);
                }
            }
            let ghost trans_before = transitions@;
            let ghost src_before = trans_src;
            let inserted_at = insert_transition_sorted(&mut transitions, range, target_id);
            proof {
                trans_src = src_before.insert(inserted_at as int, pos as int);
                assert(trans_src.len() == transitions@.len());
                assert forall|e: int|
                    0 <= e < transitions@.len() implies 0 <= #[trigger] trans_src[e] < pos + 1 && (
                transitions@[e]).0 == ranges@[trans_src[e]] && (transitions@[e]).1 < sets@.len() by {
                    if e < inserted_at {
                        assert(transitions@[e] == trans_before[e]);
                        assert(trans_src[e] == src_before[e]);
                        assert(0 <= src_before[e] < pos);
                        assert(trans_before[e].0 == ranges@[src_before[e]]);
                        assert(trans_before[e].1 < sets@.len());
                    } else if e == inserted_at {
                        assert(transitions@[e] == (range, target_id));
                        assert(trans_src[e] == pos as int);
                        assert(range == ranges@[pos as int]);
                        assert(target_id < sets@.len());
                    } else {
                        assert(transitions@[e] == trans_before[e - 1]);
                        assert(trans_src[e] == src_before[e - 1]);
                        assert(0 <= src_before[e - 1] < pos);
                        assert(trans_before[e - 1].0 == ranges@[src_before[e - 1]]);
                        assert(trans_before[e - 1].1 < sets@.len());
                    }
                }
                assert forall|e: int|
                    0 <= e < transitions@.len() implies (#[trigger] transitions@[e]).0
                    == ranges@[trans_src[e]] by {
                    assert(0 <= trans_src[e] < pos + 1);
                }
                assert forall|e: int|
                    0 <= e < transitions@.len() implies (#[trigger] transitions@[e]).1
                    < sets@.len() by {
                    assert(0 <= trans_src[e] < pos + 1);
                }
                let e_at_before = e_at;
                e_at = Seq::new(
                    (pos + 1) as nat,
                    |pp: int|
                        if pp == pos {
                            inserted_at as int
                        } else if e_at_before[pp] >= inserted_at {
                            e_at_before[pp] + 1
                        } else {
                            e_at_before[pp]
                        },
                );
                assert forall|pp: int|
                    0 <= pp < pos + 1 implies 0 <= #[trigger] e_at[pp] < trans_src.len()
                    && trans_src[e_at[pp]] == pp by {
                    if pp < pos {
                        let e0 = e_at_before[pp];
                        assert(0 <= e0 < src_before.len() && src_before[e0] == pp);
                        if e0 < inserted_at {
                            assert(trans_src[e0] == src_before[e0]);
                        } else {
                            assert(trans_src[e0 + 1] == src_before[e0]);
                        }
                    } else {
                        assert(trans_src[inserted_at as int] == pos as int);
                    }
                }
            }
            pos = pos + 1;
        }

        // The output of the state: the minimum output among its members.
        let mut output: Option<u32> = None;
        let mut s: usize = 0;
        while s < n
            invariant
                ndfa.wf(),
                n == ndfa.states@.len(),
                current@.len() == n,
                s <= n,
                output == min_member_output(*ndfa, current@, s as int),
            decreases n - s,
        {
            if current[s] {
                if let Some(candidate) = ndfa.output_symbol_for_state(s) {
                    output = match output {
                        Some(existing) => {
                            if candidate < existing {
                                Some(candidate)
                            } else {
                                Some(existing)
                            }
                        },
                        None => Some(candidate),
                    };
                }
            }
            s = s + 1;
        }

        proof {
            assert(output == min_output(*ndfa, current@));
            assert(current@ == sets@[idx as int]@);
        }
        let ghost table: Map<(int, int), int> = Map::new(
            |k: (int, int)| true,
            |k: (int, int)| e_at[label_at[k]],
        );
        proof {
            assert(covers_member_labels(*ndfa, current@, transitions@, table)) by {
                assert forall|s2: int, j2: int|
                    0 <= s2 < current@.len() && current@[s2] && 0 <= j2
                        < ndfa.states@[s2].transitions@.len() implies 0 <= #[trigger] table[(s2, j2)] < transitions@.len() && transitions@[table[(s2, j2)]].0
                    == ndfa.states@[s2].transitions@[j2].0 by {
                    assert(label_entry_ok(*ndfa, label_at, ranges@, s2, j2));
                    let pp = label_at[(s2, j2)];
                    assert(0 <= pp < ranges@.len());
                    assert(ranges@[pp] == ndfa.states@[s2].transitions@[j2].0);
                    let e = e_at[pp];
                    assert(0 <= e < trans_src.len() && trans_src[e] == pp);
                    assert(transitions@[e].0 == ranges@[trans_src[e]]);
                    assert(table[(s2, j2)] == e_at[label_at[(s2, j2)]]);
                }
            }
        }
        let ghost dfa_states_before = dfa_states@;
        let ghost tables_before = tables;
        dfa_states.push(DfaState { transitions, output });
        proof {
            tables = tables_before.push(table);
            assert forall|p: int|
                0 <= p < idx + 1 implies covers_member_labels(
                *ndfa,
                sets@[p]@,
                (#[trigger] dfa_states@[p]).transitions@,
                tables[p],
            ) by {
                if p < idx {
                    assert(covers_member_labels(
                        *ndfa,
                        sets@[p]@,
                        dfa_states_before[p].transitions@,
                        tables_before[p],
                    ));
                    assert(dfa_states@[p] == dfa_states_before[p]);
                    assert(tables[p] == tables_before[p]);
                } else {
                    assert(covers_member_labels(*ndfa, current@, transitions@, table));
                    assert(dfa_states@[p].transitions@ == transitions@);
                    assert(tables[p] == table);
                    assert(sets@[p]@ == current@);
                }
            }
        }
        idx = idx + 1;
    }
    let result = SymbolRangeDfa { states: dfa_states };
    let ghost views = Seq::new(sets@.len(), |p: int| sets@[p]@);
    proof {
        assert forall|i: int| 0 <= i < result.states@.len() implies result.state_wf(i) by {
            assert(result.states@[i] == dfa_states@[i]);
        }
    }
    (result, Ghost(views), Ghost(tables))
}

} // verus!
