use vstd::prelude::*;

use crate::code_path_segment::{ids_in_range, SegmentView};
use crate::debug_helpers::{dot_run, dot_start, dot_step, dot_walk, dot_fuel, next_ids_in_range, DotWalk};

verus! {

/// Segment `s` can be reached from `a` in at most `n` steps along
/// `all_next_segments`.
pub open spec fn reach_within(segs: Seq<SegmentView>, a: usize, s: usize, n: nat) -> bool
    decreases n,
{
    if n == 0 {
        s == a
    } else {
        reach_within(segs, a, s, (n - 1) as nat) || exists|p: usize|
            #![trigger segs[p as int].all_next_segments.contains(s)]
            reach_within(segs, a, p, (n - 1) as nat) && p < segs.len() && segs[p as int].all_next_segments.contains(s)
    }
}

/// Segment `s` can be reached from `a` along `all_next_segments`.
pub open spec fn reaches(segs: Seq<SegmentView>, a: usize, s: usize) -> bool {
    exists|n: nat| #[trigger] reach_within(segs, a, s, n)
}

/// For each segment of `segs`, whether it can be reached from `a`.
pub open spec fn reachable_from(segs: Seq<SegmentView>, a: usize) -> Seq<bool> {
    Seq::new(segs.len(), |s: int| reaches(segs, a, s as usize))
}

/// No segment of `segs` has more successors than a `usize` counts.
pub open spec fn successors_fit(segs: Seq<SegmentView>) -> bool {
    forall|s: int| 0 <= s < segs.len() ==> (#[trigger] segs[s]).all_next_segments.len() <= usize::MAX
}

/// Every walked segment and every segment on the stack can be reached from
/// `initial`; an entry past the start of its segment stands for a walked
/// segment; `initial` is walked or waits on the stack.
pub open spec fn dot_sound(segs: Seq<SegmentView>, initial: usize, w: DotWalk) -> bool {
    &&& w.done.len() == segs.len()
    &&& segs.len() <= usize::MAX
    &&& initial < segs.len()
    &&& forall|i: int|
        0 <= i < w.stack.len() ==> (#[trigger] w.stack[i]).0 < segs.len() && reaches(segs, initial, w.stack[i].0)
    &&& forall|s: int| 0 <= s < w.done.len() && #[trigger] w.done[s] ==> reaches(segs, initial, s as usize)
    &&& forall|i: int| 0 <= i < w.stack.len() && (#[trigger] w.stack[i]).1 > 0 ==> w.done[w.stack[i].0 as int]
    &&& w.done[initial as int] || w.stack.contains((initial, 0usize))
}

/// Each successor of a walked segment is walked, waits on the stack, or is
/// still to be taken from an entry of its predecessor on the stack.
pub open spec fn dot_closed(segs: Seq<SegmentView>, w: DotWalk) -> bool {
    forall|s: int, j: int|
        #![trigger w.done[s], segs[s].all_next_segments[j]]
        0 <= s < w.done.len() && w.done[s] && 0 <= j < segs[s].all_next_segments.len() ==> {
            let x = segs[s].all_next_segments[j];
            ||| w.done[x as int]
            ||| w.stack.contains((x, 0usize))
            ||| exists|k: usize| 0 < k <= j && #[trigger] w.stack.contains((s as usize, k))
        }
}

proof fn lemma_reach_step(segs: Seq<SegmentView>, a: usize, p: usize, s: usize)
    requires
        reaches(segs, a, p),
        p < segs.len(),
        segs[p as int].all_next_segments.contains(s),
    ensures
        reaches(segs, a, s),
{
    let n = choose|n: nat| #[trigger] reach_within(segs, a, p, n);
    assert(reach_within(segs, a, s, n + 1));
}

proof fn lemma_contains_shift(rest: Seq<(usize, usize)>, first: (usize, usize), last: (usize, usize), e: (usize, usize))
    requires
        rest.contains(e) || e == first || e == last,
    ensures
        (seq![first] + rest).push(last).contains(e),
{
    let t = (seq![first] + rest).push(last);
    if e == first {
        assert(t[0] == e);
    } else if e == last {
        assert(t[t.len() - 1] == e);
    } else {
        let i = choose|i: int| 0 <= i < rest.len() && rest[i] == e;
        assert(t[i + 1] == e);
    }
}

proof fn lemma_contains_drop(stack: Seq<(usize, usize)>, e: (usize, usize))
    requires
        stack.len() > 0,
        stack.contains(e),
        e != stack.last(),
    ensures
        stack.drop_last().contains(e),
{
    let i = choose|i: int| 0 <= i < stack.len() && stack[i] == e;
    assert(stack.drop_last()[i] == e);
}

proof fn lemma_dot_step_keeps(segs: Seq<SegmentView>, initial: usize, w: DotWalk)
    requires
        next_ids_in_range(segs),
        successors_fit(segs),
        w.stack.len() > 0,
        dot_sound(segs, initial, w),
        dot_closed(segs, w),
    ensures
        dot_sound(segs, initial, dot_step(segs, w)),
        dot_closed(segs, dot_step(segs, w)),
{
    let (segment, index) = w.stack.last();
    let rest = w.stack.drop_last();
    let w2 = dot_step(segs, w);
    assert(w.stack[w.stack.len() - 1] == (segment, index));
    assert(segment < segs.len());
    assert forall|e: (usize, usize)| w.stack.contains(e) && e != (segment, index) implies rest.contains(e) by {
        lemma_contains_drop(w.stack, e);
    }
    assert(segs[segment as int].all_next_segments.len() <= usize::MAX);
    if w.done[segment as int] && index == 0 {
        assert(w2.stack == rest);
        assert(w2.done == w.done);
        if !w.done[initial as int] {
            assert((initial, 0usize) != (segment, index));
            assert(rest.contains((initial, 0usize)));
        }
        assert forall|s: int, j: int|
            #![trigger w2.done[s], segs[s].all_next_segments[j]]
            0 <= s < w2.done.len() && w2.done[s] && 0 <= j < segs[s].all_next_segments.len() implies {
                let x = segs[s].all_next_segments[j];
                ||| w2.done[x as int]
                ||| w2.stack.contains((x, 0usize))
                ||| exists|k: usize| 0 < k <= j && #[trigger] w2.stack.contains((s as usize, k))
            } by {
            let x = segs[s].all_next_segments[j];
            assert(w.done[s] && segs[s].all_next_segments[j] == x);
            if !w.done[x as int] && !w.stack.contains((x, 0usize)) {
                let k = choose|k: usize| 0 < k <= j && #[trigger] w.stack.contains((s as usize, k));
                assert(rest.contains((s as usize, k)));
                assert(w2.stack.contains((s as usize, k)));
            } else if !w.done[x as int] {
                assert((x, 0usize) != (segment, index));
                assert(rest.contains((x, 0usize)));
                assert(w2.stack.contains((x, 0usize)));
            }
        }
    } else {
        let done = w.done.update(segment as int, true);
        let nexts = segs[segment as int].all_next_segments;
        assert(ids_in_range(nexts, segs.len()));
        assert(reaches(segs, initial, segment));
        if index >= nexts.len() {
            assert(w2.stack == rest);
            assert(w2.done == done);
            assert forall|s: int, j: int|
                #![trigger w2.done[s], segs[s].all_next_segments[j]]
                0 <= s < w2.done.len() && w2.done[s] && 0 <= j < segs[s].all_next_segments.len() implies {
                    let x = segs[s].all_next_segments[j];
                    ||| w2.done[x as int]
                    ||| w2.stack.contains((x, 0usize))
                    ||| exists|k: usize| 0 < k <= j && #[trigger] w2.stack.contains((s as usize, k))
                } by {
                let x = segs[s].all_next_segments[j];
                assert(ids_in_range(segs[s].all_next_segments, segs.len()));
                if s == segment && !w.done[s] {
                    // index == 0 here, and `segment` has no successor
                    assert(w.stack[w.stack.len() - 1].1 > 0 ==> w.done[w.stack[w.stack.len() - 1].0 as int]);
                    assert(index == 0);
                    assert(nexts.len() == 0);
                    assert(segs[s].all_next_segments == nexts);
                    assert(false);
                }
                assert(w.done[s]);
                assert(w.done[s] && segs[s].all_next_segments[j] == x);
                if !w.done[x as int] && !done[x as int] {
                    if w.stack.contains((x, 0usize)) {
                        if (x, 0usize) == (segment, index) {
                            assert(done[x as int]);
                        }
                        assert(rest.contains((x, 0usize)));
                        assert(w2.stack.contains((x, 0usize)));
                    } else {
                        let k = choose|k: usize| 0 < k <= j && #[trigger] w.stack.contains((s as usize, k));
                        if (s as usize, k) == (segment, index) {
                            assert(index <= j);
                            assert(false);
                        }
                        assert(rest.contains((s as usize, k)));
                        assert(w2.stack.contains((s as usize, k)));
                    }
                }
            }
            assert forall|i: int| 0 <= i < w2.stack.len() && (#[trigger] w2.stack[i]).1 > 0 implies w2.done[w2.stack[i].0 as int] by {
                assert(rest[i] == w.stack[i]);
            }
            assert forall|i: int| 0 <= i < w2.stack.len() implies (#[trigger] w2.stack[i]).0 < segs.len() && reaches(segs, initial, w2.stack[i].0) by {
                assert(rest[i] == w.stack[i]);
            }
            if !w.done[initial as int] && !(segment == initial) {
                assert((initial, 0usize) != (segment, index));
                assert(rest.contains((initial, 0usize)));
                assert(w2.stack.contains((initial, 0usize)));
            }
        } else {
            let next = nexts[index as int];
            assert(nexts.contains(next));
            lemma_reach_step(segs, initial, segment, next);
            let stack2 = (seq![(segment, (index + 1) as usize)] + rest).push((next, 0usize));
            assert(w2.stack == stack2);
            assert(w2.done == done);
            assert forall|e: (usize, usize)| rest.contains(e) implies stack2.contains(e) by {
                lemma_contains_shift(rest, (segment, (index + 1) as usize), (next, 0usize), e);
            }
            lemma_contains_shift(rest, (segment, (index + 1) as usize), (next, 0usize), (segment, (index + 1) as usize));
            lemma_contains_shift(rest, (segment, (index + 1) as usize), (next, 0usize), (next, 0usize));
            assert forall|s: int, j: int|
                #![trigger w2.done[s], segs[s].all_next_segments[j]]
                0 <= s < w2.done.len() && w2.done[s] && 0 <= j < segs[s].all_next_segments.len() implies {
                    let x = segs[s].all_next_segments[j];
                    ||| w2.done[x as int]
                    ||| w2.stack.contains((x, 0usize))
                    ||| exists|k: usize| 0 < k <= j && #[trigger] w2.stack.contains((s as usize, k))
                } by {
                let x = segs[s].all_next_segments[j];
                assert(ids_in_range(segs[s].all_next_segments, segs.len()));
                if s == segment {
                    if j == index {
                        assert(stack2.contains((x, 0usize)));
                        assert(w2.stack.contains((x, 0usize)));
                    } else if j > index {
                        assert(stack2.contains((s as usize, (index + 1) as usize)));
                        assert(w2.stack.contains((s as usize, (index + 1) as usize)));
                    } else {
                        // j < index: the entry was past the start, so `segment` was walked
                        assert(w.done[s]);
                        assert(w.done[s] && segs[s].all_next_segments[j] == x);
                        if !w.done[x as int] {
                            if w.stack.contains((x, 0usize)) {
                                if (x, 0usize) == (segment, index) {
                                    assert(done[x as int]);
                                } else {
                                    assert(rest.contains((x, 0usize)));
                                    assert(w2.stack.contains((x, 0usize)));
                                }
                            } else {
                                let k = choose|k: usize| 0 < k <= j && #[trigger] w.stack.contains((s as usize, k));
                                assert((s as usize, k) != (segment, index));
                                assert(rest.contains((s as usize, k)));
                                assert(stack2.contains((s as usize, k)));
                                assert(w2.stack.contains((s as usize, k)));
                            }
                        }
                    }
                } else {
                    assert(w.done[s]);
                    assert(w.done[s] && segs[s].all_next_segments[j] == x);
                    if !w.done[x as int] && !done[x as int] {
                        if w.stack.contains((x, 0usize)) {
                            if (x, 0usize) == (segment, index) {
                                assert(done[x as int]);
                            }
                            assert(rest.contains((x, 0usize)));
                            assert(w2.stack.contains((x, 0usize)));
                        } else {
                            let k = choose|k: usize| 0 < k <= j && #[trigger] w.stack.contains((s as usize, k));
                            assert((s as usize, k) != (segment, index));
                            assert(rest.contains((s as usize, k)));
                            assert(stack2.contains((s as usize, k)));
                            assert(w2.stack.contains((s as usize, k)));
                        }
                    }
                }
            }
            assert forall|i: int| 0 <= i < w2.stack.len() && (#[trigger] w2.stack[i]).1 > 0 implies w2.done[w2.stack[i].0 as int] by {
                if 0 < i < w2.stack.len() - 1 {
                    assert(stack2[i] == rest[i - 1]);
                    assert(rest[i - 1] == w.stack[i - 1]);
                }
            }
            assert forall|i: int| 0 <= i < w2.stack.len() implies (#[trigger] w2.stack[i]).0 < segs.len() && reaches(segs, initial, w2.stack[i].0) by {
                if 0 < i < w2.stack.len() - 1 {
                    assert(stack2[i] == rest[i - 1]);
                    assert(rest[i - 1] == w.stack[i - 1]);
                }
            }
            if !w.done[initial as int] && !(segment == initial) {
                assert((initial, 0usize) != (segment, index));
                assert(rest.contains((initial, 0usize)));
                assert(stack2.contains((initial, 0usize)));
                assert(w2.stack.contains((initial, 0usize)));
            }
        }
    }
}

proof fn lemma_dot_run_keeps(segs: Seq<SegmentView>, initial: usize, w: DotWalk, fuel: nat)
    requires
        next_ids_in_range(segs),
        successors_fit(segs),
        dot_sound(segs, initial, w),
        dot_closed(segs, w),
    ensures
        dot_sound(segs, initial, dot_run(segs, w, fuel)),
        dot_closed(segs, dot_run(segs, w, fuel)),
    decreases fuel,
{
    if fuel > 0 && w.stack.len() > 0 {
        lemma_dot_step_keeps(segs, initial, w);
        lemma_dot_run_keeps(segs, initial, dot_step(segs, w), (fuel - 1) as nat);
    }
}

proof fn lemma_reach_done(segs: Seq<SegmentView>, initial: usize, w: DotWalk, s: usize, n: nat)
    requires
        w.done.len() == segs.len(),
        segs.len() <= usize::MAX,
        w.stack.len() == 0,
        w.done[initial as int],
        dot_closed(segs, w),
        reach_within(segs, initial, s, n),
    ensures
        w.done[s as int],
    decreases n,
{
    if n > 0 && !reach_within(segs, initial, s, (n - 1) as nat) {
        let p = choose|p: usize|
            #![trigger segs[p as int].all_next_segments.contains(s)]
            reach_within(segs, initial, p, (n - 1) as nat) && p < segs.len() && segs[p as int].all_next_segments.contains(s);
        lemma_reach_done(segs, initial, w, p, (n - 1) as nat);
        let j = choose|j: int| 0 <= j < segs[p as int].all_next_segments.len() && segs[p as int].all_next_segments[j] == s;
        assert(w.done[p as int] && segs[p as int].all_next_segments[j] == s);
        assert(!w.stack.contains((s, 0usize)));
    } else if n > 0 {
        lemma_reach_done(segs, initial, w, s, (n - 1) as nat);
    }
}

/// The segments that the walk drawing a code path marks are exactly those
/// that can be reached from its initial segment along `all_next_segments`.
pub proof fn lemma_dot_walk_marks_reachable(segs: Seq<SegmentView>, initial: usize)
    requires
        next_ids_in_range(segs),
        initial < segs.len(),
        segs.len() <= usize::MAX,
        successors_fit(segs),
        dot_walk(segs, initial).stack.len() == 0,
    ensures
        dot_walk(segs, initial).done == reachable_from(segs, initial),
{
    let w0 = dot_start(segs, initial);
    assert(reach_within(segs, initial, initial, 0));
    assert(w0.stack[0] == (initial, 0usize));
    assert(w0.stack.contains((initial, 0usize)));
    lemma_dot_run_keeps(segs, initial, w0, dot_fuel(segs, initial));
    let w = dot_walk(segs, initial);
    assert(!w.stack.contains((initial, 0usize)));
    assert forall|s: int| 0 <= s < segs.len() implies w.done[s] == reachable_from(segs, initial)[s] by {
        let su = s as usize;
        assert(su as int == s);
        assert(reachable_from(segs, initial)[s] == reaches(segs, initial, su));
        if reaches(segs, initial, su) {
            let n = choose|n: nat| #[trigger] reach_within(segs, initial, su, n);
            lemma_reach_done(segs, initial, w, su, n);
        } else if w.done[s] {
            assert(reaches(segs, initial, su));
        }
    }
    assert(w.done =~= reachable_from(segs, initial));
}

} // verus!
