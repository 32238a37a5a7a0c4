use vstd::prelude::*;

use std::rc::Rc;

use crate::code_path_segment::{
    arena_wf, fresh_segment, ids_in_range, vec_contains, EnterOrExit, SegmentArena, SegmentView,
};
use crate::fork_context::{ForkContext, ForkContextArena, SingleOrSplitSegment};
use crate::id_generator::{next_count, IdGenerator};
use crate::text::{concat, decimal};

verus! {

/// What kind of code a code path runs.
#[derive(Copy, Clone, Debug, PartialEq, Eq, Structural)]
pub enum CodePathOrigin {
    Program,
    Function,
    ClassFieldInitializer,
    ClassStaticBlock,
}

/// Where a traversal starts (default: the initial segment of the code path)
/// and the segment after which it goes no further down that branch.
pub struct TraverseSegmentsOptions {
    pub first: Option<usize>,
    pub last: Option<usize>,
}

/// A depth-first walk over the segments of a code path that yields each
/// segment once, and only after every reachable predecessor of it (but those
/// reached by looping back) has been yielded. Between two steps the caller may
/// `skip` the rest of the current branch or `break_` the walk.
pub struct TraverseSegmentsController {
    /// Walk the lists of all successors (else only of reachable ones).
    pub all: bool,
    pub start_segment: usize,
    pub last_segment: Option<usize>,
    pub visited: Vec<bool>,
    pub stack: Vec<(usize, usize)>,
    pub skipped_segment: Option<usize>,
    pub broken: bool,
    /// The top of the stack was just yielded and not yet moved past.
    pub pending: bool,
    /// The segments visited so far, in the order they were visited.
    pub yielded: Ghost<Seq<usize>>,
    /// For each segment, how many of its successors the walk has moved on to.
    pub handed: Ghost<Seq<nat>>,
}

/// The successors that a walk follows from segment `s`.
pub open spec fn successors(segs: Seq<SegmentView>, s: int, all: bool) -> Seq<usize> {
    if all {
        segs[s].all_next_segments
    } else {
        segs[s].next_segments
    }
}

/// The number of segments not visited yet.
pub open spec fn unvisited(visited: Seq<bool>) -> nat
    decreases visited.len(),
{
    if visited.len() == 0 {
        0
    } else {
        unvisited(visited.drop_last()) + if visited.last() {
            0nat
        } else {
            1nat
        }
    }
}

/// What is left to do for the entries of a stack: an entry that has not been
/// entered yet costs one step; an entered one three per successor left, plus
/// one.
pub open spec fn stack_cost(segs: Seq<SegmentView>, stack: Seq<(usize, usize)>, all: bool) -> nat
    decreases stack.len(),
{
    if stack.len() == 0 {
        0
    } else {
        let (s, i) = stack.last();
        stack_cost(segs, stack.drop_last(), all) + if i == 0 {
            1nat
        } else {
            (3 * (successors(segs, s as int, all).len() - i) + 1) as nat
        }
    }
}

pub proof fn lemma_stack_cost_push(
    segs: Seq<SegmentView>,
    stack: Seq<(usize, usize)>,
    e: (usize, usize),
    all: bool,
)
    ensures
        stack_cost(segs, stack.push(e), all) == stack_cost(segs, stack, all) + if e.1 == 0 {
            1nat
        } else {
            (3 * (successors(segs, e.0 as int, all).len() - e.1) + 1) as nat
        },
{
    assert(stack.push(e).drop_last() =~= stack);
}

pub proof fn lemma_unvisited_set(visited: Seq<bool>, s: int)
    requires
        0 <= s < visited.len(),
        !visited[s],
    ensures
        unvisited(visited.update(s, true)) + 1 == unvisited(visited),
    decreases visited.len(),
{
    let u = visited.update(s, true);
    if s == visited.len() - 1 {
        assert(u.drop_last() =~= visited.drop_last());
    } else {
        assert(u.drop_last() =~= visited.drop_last().update(s, true));
        lemma_unvisited_set(visited.drop_last(), s);
    }
}


/// Each reachable predecessor of `y` that does not loop back to it is among
/// `seen`.
pub open spec fn prevs_among(segs: Seq<SegmentView>, y: usize, seen: Seq<usize>) -> bool {
    forall|m: int|
        0 <= m < segs[y as int].prev_segments.len() ==> {
            let p = #[trigger] segs[y as int].prev_segments[m];
            seen.contains(p) || segs[y as int].looped_prev_segments.contains(p)
        }
}

/// Some segment of `seen` leads on to `y`.
pub open spec fn led_to(segs: Seq<SegmentView>, seen: Seq<usize>, y: usize, all: bool) -> bool {
    exists|j: int| 0 <= j < seen.len() && #[trigger] successors(segs, seen[j] as int, all).contains(y)
}

/// Predecessor `p` of `y` keeps the walk from `y`: it does not loop back to
/// `y`, and it has not (yet) been visited and moved on to `y`.
pub open spec fn blocks(
    segs: Seq<SegmentView>,
    y: usize,
    p: usize,
    visited: Seq<bool>,
    handed: Seq<nat>,
    all: bool,
) -> bool {
    &&& !segs[y as int].looped_prev_segments.contains(p)
    &&& !(visited[p as int] && successors(segs, p as int, all).take(handed[p as int] as int).contains(y))
}

/// Some reachable predecessor of `y` keeps the walk from it.
pub open spec fn held_back(segs: Seq<SegmentView>, y: usize, visited: Seq<bool>, handed: Seq<nat>, all: bool) -> bool {
    exists|m: int|
        0 <= m < segs[y as int].prev_segments.len() && #[trigger] blocks(
            segs,
            y,
            segs[y as int].prev_segments[m],
            visited,
            handed,
            all,
        )
}

/// The `j`-th successor of `x`, once the walk has moved on to it, is
/// visited, waits on the stack, or is held back by a predecessor.
pub open spec fn successor_settled(
    segs: Seq<SegmentView>,
    visited: Seq<bool>,
    handed: Seq<nat>,
    stack: Seq<(usize, usize)>,
    all: bool,
    x: int,
    j: int,
) -> bool {
    let y = successors(segs, x, all)[j];
    visited[y as int] || stack.contains((y, 0usize)) || held_back(segs, y, visited, handed, all)
}

/// `order` is a walk of the segments of `segs` from `start`: it starts
/// there and names no segment twice; each later segment follows from one
/// before it and comes after each of its reachable predecessors that do not
/// loop back to it; and each successor of a segment of the walk is in it,
/// unless one of its reachable predecessors that does not loop back to it
/// is not in the walk or does not lead to it.
pub open spec fn is_walk(segs: Seq<SegmentView>, start: usize, all: bool, order: Seq<usize>) -> bool {
    &&& order.len() > 0
    &&& order[0] == start
    &&& order.no_duplicates()
    &&& forall|i: int| 0 <= i < order.len() ==> (#[trigger] order[i] as int) < segs.len()
    &&& forall|i: int|
        0 < i < order.len() ==> led_to(segs, order.take(i), #[trigger] order[i], all) && prevs_among(
            segs,
            order[i],
            order.take(i),
        )
    &&& forall|i: int, j: int|
        0 <= i < order.len() && 0 <= j < successors(segs, order[i] as int, all).len() ==> {
            let y = #[trigger] successors(segs, order[i] as int, all)[j];
            order.contains(y) || exists|m: int|
                0 <= m < segs[y as int].prev_segments.len() && {
                    let p = #[trigger] segs[y as int].prev_segments[m];
                    !segs[y as int].looped_prev_segments.contains(p) && (!order.contains(p)
                        || !successors(segs, p as int, all).contains(y))
                }
        }
}

impl TraverseSegmentsController {
    /// The walk is a plain one (no last segment, nothing skipped, not
    /// stopped) and its record of what it has done is consistent: what it
    /// has visited, in order, how far it has moved on from each segment,
    /// and what waits on its stack.
    pub open spec fn walk_inv(&self, segs: Seq<SegmentView>) -> bool {
        let v = self.visited@;
        let y = self.yielded@;
        let h = self.handed@;
        let st = self.stack@;
        let start = self.start_segment;
        &&& self.wf(segs)
        &&& self.skipped_segment is None
        &&& self.last_segment is None
        &&& !self.broken
        &&& h.len() == segs.len()
        &&& y.no_duplicates()
        &&& forall|i: int| 0 <= i < y.len() ==> (#[trigger] y[i] as int) < segs.len()
        &&& forall|x: int| 0 <= x < segs.len() ==> (v[x] <==> y.contains(x as usize))
        &&& y.len() == 0 ==> st == seq![(start, 0usize)] && !self.pending
        &&& y.len() > 0 ==> y[0] == start
        &&& forall|i: int|
            0 < i < y.len() ==> led_to(segs, y.take(i), #[trigger] y[i], self.all) && prevs_among(segs, y[i], y.take(i))
        &&& self.pending ==> y.len() > 0 && st.last() == (y.last(), 0usize) && h[y.last() as int] == 0
        &&& forall|k: int|
            0 <= k < st.len() && (#[trigger] st[k]).1 == 0 ==> st[k].0 == start || led_to(segs, y, st[k].0, self.all)
        &&& forall|k: int|
            0 <= k < st.len() && (#[trigger] st[k]).1 > 0 ==> v[st[k].0 as int] && h[st[k].0 as int] == st[k].1
        &&& forall|k1: int, k2: int|
            0 <= k1 < st.len() && 0 <= k2 < st.len() && (#[trigger] st[k1]).1 > 0 && (#[trigger] st[k2]).1 > 0
                && st[k1].0 == st[k2].0 ==> k1 == k2
        &&& forall|x: int|
            0 <= x < segs.len() ==> #[trigger] h[x] <= successors(segs, x, self.all).len() && h[x] <= usize::MAX && (
            !v[x] ==> h[x] == 0)
        &&& forall|x: int|
            0 <= x < segs.len() && v[x] && #[trigger] h[x] < successors(segs, x, self.all).len() ==> (h[x] > 0
                && st.contains((x as usize, h[x] as usize))) || (h[x] == 0 && self.pending && st.last() == (
            x as usize,
            0usize,
        ))
        &&& forall|x: int, j: int|
            0 <= x < segs.len() && v[x] && 0 <= j < h[x] ==> #[trigger] successor_settled(segs, v, h, st, self.all, x, j)
        &&& v[start as int] || (st.len() > 0 && st[0] == (start, 0usize))
    }
}

impl TraverseSegmentsController {
    /// The walk's state is consistent with `segs`.
    pub open spec fn wf(&self, segs: Seq<SegmentView>) -> bool {
        &&& arena_wf(segs)
        &&& self.visited@.len() == segs.len()
        &&& (self.start_segment as int) < segs.len()
        &&& forall|k: int|
            0 <= k < self.stack@.len() ==> {
                &&& (#[trigger] self.stack@[k]).0 < segs.len()
                &&& self.stack@[k].1 == 0 || self.stack@[k].1 < successors(
                    segs,
                    self.stack@[k].0 as int,
                    self.all,
                ).len()
            }
        &&& self.pending ==> self.stack@.len() > 0 && self.stack@.last().1 == 0
    }

    /// A walk from `options.first` (else `initial_segment`) over the segments
    /// of `arena`.
    pub fn new(
        arena: &SegmentArena,
        initial_segment: usize,
        options: Option<TraverseSegmentsOptions>,
        all: bool,
    ) -> (r: Self)
        requires
            arena_wf(arena@),
            (initial_segment as int) < arena@.len(),
            options matches Some(o) ==> (o.first matches Some(f) ==> (f as int) < arena@.len()),
        ensures
            r.wf(arena@),
            r.all == all,
            r.start_segment == (match options {
                Some(o) => match o.first {
                    Some(f) => f,
                    None => initial_segment,
                },
                None => initial_segment,
            }),
            r.last_segment == (match options {
                Some(o) => o.last,
                None => None,
            }),
            r.visited@ == Seq::new(arena@.len(), |i: int| false),
            r.stack@ == seq![(r.start_segment, 0usize)],
            r.skipped_segment == None::<usize>,
            !r.broken,
            !r.pending,
            r.yielded@ == Seq::<usize>::empty(),
            r.handed@ == Seq::new(arena@.len(), |i: int| 0nat),
    {
        let (start_segment, last_segment) = match options {
            Some(o) => (
                match o.first {
                    Some(f) => f,
                    None => initial_segment,
                },
                o.last,
            ),
            None => (initial_segment, None),
        };
        let mut visited: Vec<bool> = Vec::new();
        let n = arena.len();
        let mut i: usize = 0;
        while i < n
            invariant
                i <= n,
                n == arena@.len(),
                visited@ == Seq::new(i as nat, |j: int| false),
            decreases n - i,
        {
            visited.push(false);
            assert(visited@ =~= Seq::new((i + 1) as nat, |j: int| false));
            i = i + 1;
        }
        let mut stack: Vec<(usize, usize)> = Vec::new();
        stack.push((start_segment, 0));
        assert(stack@ =~= seq![(start_segment, 0usize)]);
        TraverseSegmentsController {
            all,
            start_segment,
            last_segment,
            visited,
            stack,
            skipped_segment: None,
            broken: false,
            pending: false,
            yielded: Ghost(Seq::empty()),
            handed: Ghost(Seq::new(arena@.len(), |i: int| 0nat)),
        }
    }
}


/// A walk that has not started yet is consistent.
proof fn lemma_fresh_walk_inv(w: &TraverseSegmentsController, segs: Seq<SegmentView>)
    requires
        w.wf(segs),
        w.visited@ == Seq::new(segs.len(), |i: int| false),
        w.stack@ == seq![(w.start_segment, 0usize)],
        w.skipped_segment is None,
        w.last_segment is None,
        !w.broken,
        !w.pending,
        w.yielded@ == Seq::<usize>::empty(),
        w.handed@ == Seq::new(segs.len(), |i: int| 0nat),
    ensures
        w.walk_inv(segs),
{
    assert forall|x: int| 0 <= x < segs.len() implies (w.visited@[x] <==> w.yielded@.contains(x as usize)) by {}
    assert(w.stack@[0] == (w.start_segment, 0usize));
}

proof fn lemma_take_more(s: Seq<usize>, i: int, y: usize)
    requires
        0 <= i < s.len(),
        s.take(i + 1).contains(y),
        !s.take(i).contains(y),
    ensures
        y == s[i],
{
    let k = choose|k: int| 0 <= k < i + 1 && #[trigger] s.take(i + 1)[k] == y;
    if k < i {
        assert(s.take(i)[k] == y);
    }
}

proof fn lemma_contains_drop_last(st: Seq<(usize, usize)>, e: (usize, usize))
    requires
        st.len() > 0,
        st.contains(e),
        e != st.last(),
    ensures
        st.drop_last().contains(e),
{
    let k = choose|k: int| 0 <= k < st.len() && #[trigger] st[k] == e;
    assert(k != st.len() - 1);
    assert(st.drop_last()[k] == e);
}

/// What moving past the top of the stack changes, spelled out.
pub open spec fn advance_facts(
    w0: TraverseSegmentsController,
    w1: TraverseSegmentsController,
    segs: Seq<SegmentView>,
    x: usize,
    i: usize,
) -> bool {
    let all = w0.all;
    let count = successors(segs, x as int, all).len();
    let s0 = w0.stack@;
    let s1 = w1.stack@;
    let h0 = w0.handed@;
    let h1 = w1.handed@;
    let rest = s0.drop_last();
    let nx = successors(segs, x as int, all)[i as int];
    &&& segs.len() <= usize::MAX
    &&& i < usize::MAX
    &&& (x as int) < segs.len()
    &&& w0.visited@[x as int]
    &&& h0[x as int] == i
    &&& w0.yielded@.len() > 0
    &&& s0.len() > 0
    &&& s0.last() == (x, i)
    &&& h1.len() == h0.len()
    &&& forall|z: int| 0 <= z < h0.len() && z != x as int ==> #[trigger] h1[z] == h0[z]
    &&& h1[x as int] == if i + 1 <= count { (i + 1) as nat } else { h0[x as int] }
    &&& forall|k: int| 0 <= k < rest.len() ==> #[trigger] s1[k] == s0[k]
    &&& i + 1 < count ==> s1.len() == rest.len() + 2 && s1[rest.len() as int] == (x, (i + 1) as usize)
        && s1[rest.len() + 1int] == (nx, 0usize)
    &&& i + 1 == count ==> s1.len() == rest.len() + 1 && s1[rest.len() as int] == (nx, 0usize)
    &&& i + 1 > count ==> s1.len() == rest.len()
    &&& i + 1 <= count ==> led_to(segs, w0.yielded@, nx, all)
}

/// The spelled-out changes of moving past the top of the stack.
proof fn lemma_advance_facts(
    w0: TraverseSegmentsController,
    w1: TraverseSegmentsController,
    segs: Seq<SegmentView>,
    x: usize,
    i: usize,
)
    requires
        w0.walk_inv(segs),
        w0.pending || w0.stack@.last().1 > 0,
        w0.stack@.len() > 0,
        w0.stack@.last() == (x, i),
        i < usize::MAX,
        ({
            let count = successors(segs, x as int, w0.all).len();
            let rest = w0.stack@.drop_last();
            ||| (i + 1 < count && w1.stack@ == rest.push((x, (i + 1) as usize)).push(
                (successors(segs, x as int, w0.all)[i as int], 0usize),
            ) && w1.handed@ == w0.handed@.update(x as int, (i + 1) as nat))
            ||| (i + 1 == count && w1.stack@ == rest.push((successors(segs, x as int, w0.all)[i as int], 0usize))
                && w1.handed@ == w0.handed@.update(x as int, (i + 1) as nat))
            ||| (i + 1 > count && w1.stack@ == rest && w1.handed@ == w0.handed@)
        }),
    ensures
        advance_facts(w0, w1, segs, x, i),
{
    let all = w0.all;
    let v = w0.visited@;
    let y = w0.yielded@;
    let h0 = w0.handed@;
    let h1 = w1.handed@;
    let s0 = w0.stack@;
    let s1 = w1.stack@;
    let count = successors(segs, x as int, all).len();
    let rest = s0.drop_last();
    let top = s0.len() - 1;
    assert(s0[top] == s0.last());
    assert(segs.len() <= usize::MAX) by {
        assert(w0.visited@.len() == w0.visited.len());
    }
    assert(v[x as int] && h0[x as int] == i) by {
        if !w0.pending {
            assert(s0[top].1 > 0);
        } else {
            assert(y.contains(y.last()));
            assert(y.last() == y[y.len() - 1]);
        }
    }
    assert(y.len() > 0) by {
        if y.len() == 0 {
            assert(s0 == seq![(w0.start_segment, 0usize)]);
        }
    }
    assert forall|z: int| 0 <= z < h0.len() && z != x as int implies #[trigger] h1[z] == h0[z] by {
        if i + 1 < count {
        } else if i + 1 == count {
        } else {
        }
    }
    assert forall|k: int| 0 <= k < rest.len() implies #[trigger] s1[k] == s0[k] by {
        if i + 1 < count {
        } else if i + 1 == count {
        } else {
        }
    }
    if i + 1 <= count {
        let nx = successors(segs, x as int, all)[i as int];
        assert(led_to(segs, y, nx, all)) by {
            assert(y.contains(x));
            assert(successors(segs, x as int, all).contains(nx));
            let j = y.index_of(x);
            assert(y[j] == x);
        }
    }
}

/// After moving past the top, the frames of the stack are as a plain walk
/// keeps them.
proof fn lemma_advance_frames(
    w0: TraverseSegmentsController,
    w1: TraverseSegmentsController,
    segs: Seq<SegmentView>,
    x: usize,
    i: usize,
)
    requires
        w0.walk_inv(segs),
        w0.pending || w0.stack@.last().1 > 0,
        advance_facts(w0, w1, segs, x, i),
        w1.all == w0.all,
        w1.start_segment == w0.start_segment,
        w1.visited@ == w0.visited@,
        w1.yielded@ == w0.yielded@,
    ensures
        forall|k: int|
            0 <= k < w1.stack@.len() && (#[trigger] w1.stack@[k]).1 == 0 ==> w1.stack@[k].0 == w1.start_segment
                || led_to(segs, w1.yielded@, w1.stack@[k].0, w1.all),
        forall|k: int|
            0 <= k < w1.stack@.len() && (#[trigger] w1.stack@[k]).1 > 0 ==> w1.visited@[w1.stack@[k].0 as int]
                && w1.handed@[w1.stack@[k].0 as int] == w1.stack@[k].1,
        forall|k1: int, k2: int|
            0 <= k1 < w1.stack@.len() && 0 <= k2 < w1.stack@.len() && (#[trigger] w1.stack@[k1]).1 > 0 && (
            #[trigger] w1.stack@[k2]).1 > 0 && w1.stack@[k1].0 == w1.stack@[k2].0 ==> k1 == k2,
        w1.visited@[w1.start_segment as int] || (w1.stack@.len() > 0 && w1.stack@[0] == (w1.start_segment, 0usize)),
{
    let all = w0.all;
    let v = w0.visited@;
    let h0 = w0.handed@;
    let h1 = w1.handed@;
    let s0 = w0.stack@;
    let s1 = w1.stack@;
    let start = w0.start_segment;
    let count = successors(segs, x as int, all).len();
    let rest = s0.drop_last();
    let top = s0.len() - 1;
    assert(s0[top] == s0.last());
    assert forall|k: int| 0 <= k < s1.len() && (#[trigger] s1[k]).1 > 0 implies v[s1[k].0 as int] && h1[s1[k].0 as int]
        == s1[k].1 by {
        if k < rest.len() {
            assert(s1[k] == s0[k]);
            if s0[k].0 == x {
                if i > 0 {
                    assert(k == top);
                } else {
                    assert(h0[x as int] == s0[k].1);
                }
            } else {
                assert((s0[k].0 as int) < segs.len());
            }
        } else if i + 1 < count {
            if k == rest.len() {
                assert(s1[k] == (x, (i + 1) as usize));
            } else {
                assert(s1[k].1 == 0);
            }
        } else if i + 1 == count {
            assert(s1[k].1 == 0);
        }
    }
    assert forall|k1: int, k2: int|
        0 <= k1 < s1.len() && 0 <= k2 < s1.len() && (#[trigger] s1[k1]).1 > 0 && (#[trigger] s1[k2]).1 > 0
            && s1[k1].0 == s1[k2].0 implies k1 == k2 by {
        if k1 < rest.len() && k2 < rest.len() {
            assert(s1[k1] == s0[k1] && s1[k2] == s0[k2]);
        } else if k1 < rest.len() {
            assert(s1[k1] == s0[k1]);
            assert(h0[x as int] == s0[k1].1);
            if i > 0 {
                assert(k1 == top);
            }
        } else if k2 < rest.len() {
            assert(s1[k2] == s0[k2]);
            assert(h0[x as int] == s0[k2].1);
            if i > 0 {
                assert(k2 == top);
            }
        }
    }
    assert forall|k: int| 0 <= k < s1.len() && (#[trigger] s1[k]).1 == 0 implies s1[k].0 == start || led_to(
        segs,
        w0.yielded@,
        s1[k].0,
        all,
    ) by {
        if k < rest.len() {
            assert(s1[k] == s0[k]);
        }
    }
    assert(v[start as int] || (s1.len() > 0 && s1[0] == (start, 0usize))) by {
        if !v[start as int] {
            assert(s0[0] == (start, 0usize));
            if top == 0 {
                assert(x == start);
            }
            assert(s1[0] == s0[0]);
        }
    }
}

/// After moving past the top, how far the walk has moved on from each
/// segment is as a plain walk keeps it.
proof fn lemma_advance_handed(
    w0: TraverseSegmentsController,
    w1: TraverseSegmentsController,
    segs: Seq<SegmentView>,
    x: usize,
    i: usize,
)
    requires
        w0.walk_inv(segs),
        w0.pending || w0.stack@.last().1 > 0,
        advance_facts(w0, w1, segs, x, i),
        w1.all == w0.all,
        w1.visited@ == w0.visited@,
        !w1.pending,
    ensures
        forall|z: int|
            0 <= z < segs.len() ==> #[trigger] w1.handed@[z] <= successors(segs, z, w1.all).len() && w1.handed@[z]
                <= usize::MAX && (!w1.visited@[z] ==> w1.handed@[z] == 0),
        forall|z: int|
            0 <= z < segs.len() && w1.visited@[z] && #[trigger] w1.handed@[z] < successors(segs, z, w1.all).len() ==> (
            w1.handed@[z] > 0 && w1.stack@.contains((z as usize, w1.handed@[z] as usize))) || (w1.handed@[z] == 0
                && w1.pending && w1.stack@.last() == (z as usize, 0usize)),
{
    let all = w0.all;
    let v = w0.visited@;
    let h0 = w0.handed@;
    let h1 = w1.handed@;
    let s0 = w0.stack@;
    let s1 = w1.stack@;
    let count = successors(segs, x as int, all).len();
    let rest = s0.drop_last();
    let top = s0.len() - 1;
    assert(s0[top] == s0.last());
    assert forall|z: int| 0 <= z < segs.len() implies #[trigger] h1[z] <= successors(segs, z, all).len() && h1[z]
        <= usize::MAX && (!v[z] ==> h1[z] == 0) by {
        assert(h0[z] <= successors(segs, z, all).len());
    }
    assert forall|z: int|
        0 <= z < segs.len() && v[z] && #[trigger] h1[z] < successors(segs, z, all).len() implies (h1[z] > 0
            && s1.contains((z as usize, h1[z] as usize))) || (h1[z] == 0 && w1.pending && s1.last() == (
        z as usize,
        0usize,
    )) by {
        if z == x as int {
            assert(i + 1 < count);
            assert(s1[rest.len() as int] == (x, (i + 1) as usize));
        } else {
            assert(h1[z] == h0[z]);
            assert(h0[z] < successors(segs, z, all).len());
            assert(!(h0[z] == 0 && w0.pending && s0.last() == (z as usize, 0usize)));
            assert(s0.contains((z as usize, h0[z] as usize)));
            let k = choose|k: int| 0 <= k < s0.len() && #[trigger] s0[k] == (z as usize, h0[z] as usize);
            assert(k != top);
            assert(s1[k] == s0[k]);
        }
    }
}

/// After moving past the top, each successor the walk has moved on to is
/// settled.
proof fn lemma_advance_settled(
    w0: TraverseSegmentsController,
    w1: TraverseSegmentsController,
    segs: Seq<SegmentView>,
    x: usize,
    i: usize,
)
    requires
        w0.walk_inv(segs),
        w0.pending || w0.stack@.last().1 > 0,
        advance_facts(w0, w1, segs, x, i),
        w1.all == w0.all,
        w1.visited@ == w0.visited@,
    ensures
        forall|z: int, j: int|
            0 <= z < segs.len() && w1.visited@[z] && 0 <= j < w1.handed@[z] ==> #[trigger] successor_settled(
                segs,
                w1.visited@,
                w1.handed@,
                w1.stack@,
                w1.all,
                z,
                j,
            ),
{
    let all = w0.all;
    let v = w0.visited@;
    let h0 = w0.handed@;
    let h1 = w1.handed@;
    let s0 = w0.stack@;
    let s1 = w1.stack@;
    let count = successors(segs, x as int, all).len();
    let rest = s0.drop_last();
    assert forall|z: int, j: int|
        0 <= z < segs.len() && v[z] && 0 <= j < h1[z] implies #[trigger] successor_settled(segs, v, h1, s1, all, z, j) by {
        let yy = successors(segs, z, all)[j];
        assert(ids_in_range(segs[z].next_segments, segs.len()));
        assert((yy as int) < segs.len());
        assert(ids_in_range(segs[yy as int].next_segments, segs.len()));
        if z == x as int && j == i as int {
            assert(s1[s1.len() - 1] == (yy, 0usize));
            assert(s1.contains((yy, 0usize)));
        } else {
            assert(j < h0[z]);
            assert(successor_settled(segs, v, h0, s0, all, z, j));
            if v[yy as int] {
            } else if s0.contains((yy, 0usize)) {
                if (yy, 0usize) == s0.last() {
                    assert(yy == x);
                } else {
                    lemma_contains_drop_last(s0, (yy, 0usize));
                    let k = choose|k: int| 0 <= k < rest.len() && #[trigger] rest[k] == (yy, 0usize);
                    assert(s1[k] == rest[k]);
                    assert(s1.contains((yy, 0usize)));
                }
            } else {
                let m = choose|m: int|
                    0 <= m < segs[yy as int].prev_segments.len() && #[trigger] blocks(
                        segs,
                        yy,
                        segs[yy as int].prev_segments[m],
                        v,
                        h0,
                        all,
                    );
                let p = segs[yy as int].prev_segments[m];
                assert(ids_in_range(segs[yy as int].prev_segments, segs.len()));
                assert((p as int) < segs.len());
                if blocks(segs, yy, p, v, h1, all) {
                    assert(held_back(segs, yy, v, h1, all));
                } else {
                    assert(p == x) by {
                        if p != x {
                            assert(h1[p as int] == h0[p as int]);
                        }
                    }
                    assert(h1[x as int] != h0[x as int]);
                    assert(h1[x as int] == i + 1);
                    assert(successors(segs, x as int, all).take(i + 1).contains(yy));
                    lemma_take_more(successors(segs, x as int, all), i as int, yy);
                    assert(s1[s1.len() - 1] == (yy, 0usize));
                    assert(s1.contains((yy, 0usize)));
                }
            }
        }
    }
}

/// Moving past the top of the stack keeps a plain walk consistent.
proof fn lemma_advance_keeps(
    w0: TraverseSegmentsController,
    w1: TraverseSegmentsController,
    segs: Seq<SegmentView>,
    x: usize,
    i: usize,
)
    requires
        w0.walk_inv(segs),
        w0.pending || w0.stack@.last().1 > 0,
        w0.stack@.len() > 0,
        w0.stack@.last() == (x, i),
        i < usize::MAX,
        w1.wf(segs),
        !w1.pending,
        w1.visited@ == w0.visited@,
        w1.yielded@ == w0.yielded@,
        w1.all == w0.all,
        w1.start_segment == w0.start_segment,
        w1.last_segment == w0.last_segment,
        w1.skipped_segment == w0.skipped_segment,
        w1.broken == w0.broken,
        ({
            let count = successors(segs, x as int, w0.all).len();
            let rest = w0.stack@.drop_last();
            ||| (i + 1 < count && w1.stack@ == rest.push((x, (i + 1) as usize)).push(
                (successors(segs, x as int, w0.all)[i as int], 0usize),
            ) && w1.handed@ == w0.handed@.update(x as int, (i + 1) as nat))
            ||| (i + 1 == count && w1.stack@ == rest.push((successors(segs, x as int, w0.all)[i as int], 0usize))
                && w1.handed@ == w0.handed@.update(x as int, (i + 1) as nat))
            ||| (i + 1 > count && w1.stack@ == rest && w1.handed@ == w0.handed@)
        }),
    ensures
        w1.walk_inv(segs),
{
    lemma_advance_facts(w0, w1, segs, x, i);
    lemma_advance_frames(w0, w1, segs, x, i);
    lemma_advance_handed(w0, w1, segs, x, i);
    lemma_advance_settled(w0, w1, segs, x, i);
}

/// Dropping a waiting segment from the top of the stack keeps a plain walk
/// consistent, where that segment is visited already or held back by a
/// reachable predecessor that has not been visited.
proof fn lemma_pop_keeps(w0: TraverseSegmentsController, w1: TraverseSegmentsController, segs: Seq<SegmentView>)
    requires
        w0.walk_inv(segs),
        !w0.pending,
        w0.stack@.len() > 0,
        w0.stack@.last().1 == 0,
        w0.visited@[w0.stack@.last().0 as int] || (w0.stack@.last().0 != w0.start_segment && exists|m: int|
            0 <= m < segs[w0.stack@.last().0 as int].prev_segments.len() && {
                let p = #[trigger] segs[w0.stack@.last().0 as int].prev_segments[m];
                !w0.visited@[p as int] && !segs[w0.stack@.last().0 as int].looped_prev_segments.contains(p)
            }),
        w1.wf(segs),
        w1.stack@ == w0.stack@.drop_last(),
        w1.visited@ == w0.visited@,
        w1.yielded@ == w0.yielded@,
        w1.handed@ == w0.handed@,
        w1.pending == w0.pending,
        w1.all == w0.all,
        w1.start_segment == w0.start_segment,
        w1.last_segment == w0.last_segment,
        w1.skipped_segment == w0.skipped_segment,
        w1.broken == w0.broken,
    ensures
        w1.walk_inv(segs),
{
    let all = w0.all;
    let v = w0.visited@;
    let y = w0.yielded@;
    let h = w0.handed@;
    let s0 = w0.stack@;
    let s1 = w1.stack@;
    let start = w0.start_segment;
    let top = s0.len() - 1;
    let t = s0.last().0;
    assert(s0[top] == s0.last());
    assert(segs.len() <= usize::MAX) by {
        assert(w0.visited@.len() == w0.visited.len());
    }
    assert forall|k: int| 0 <= k < s1.len() implies #[trigger] s1[k] == s0[k] by {}
    assert(y.len() > 0) by {
        if y.len() == 0 {
            assert(s0 == seq![(start, 0usize)]);
            assert(t == start);
            assert(!y.contains(start));
        }
    }
    assert forall|k: int| 0 <= k < s1.len() && (#[trigger] s1[k]).1 == 0 implies s1[k].0 == start || led_to(
        segs,
        y,
        s1[k].0,
        all,
    ) by {
        assert(s1[k] == s0[k]);
    }
    assert forall|k: int| 0 <= k < s1.len() && (#[trigger] s1[k]).1 > 0 implies v[s1[k].0 as int] && h[s1[k].0 as int]
        == s1[k].1 by {
        assert(s1[k] == s0[k]);
    }
    assert forall|k1: int, k2: int|
        0 <= k1 < s1.len() && 0 <= k2 < s1.len() && (#[trigger] s1[k1]).1 > 0 && (#[trigger] s1[k2]).1 > 0
            && s1[k1].0 == s1[k2].0 implies k1 == k2 by {
        assert(s1[k1] == s0[k1] && s1[k2] == s0[k2]);
    }
    assert forall|z: int|
        0 <= z < segs.len() && v[z] && #[trigger] h[z] < successors(segs, z, all).len() implies (h[z] > 0 && s1.contains(
            (z as usize, h[z] as usize),
        )) || (h[z] == 0 && w1.pending && s1.last() == (z as usize, 0usize)) by {
        assert(h[z] > 0);
        assert(s0.contains((z as usize, h[z] as usize)));
        let k = choose|k: int| 0 <= k < s0.len() && #[trigger] s0[k] == (z as usize, h[z] as usize);
        assert(k != top);
        assert(s1[k] == s0[k]);
    }
    assert forall|z: int, j: int|
        0 <= z < segs.len() && v[z] && 0 <= j < h[z] implies #[trigger] successor_settled(segs, v, h, s1, all, z, j) by {
        let yy = successors(segs, z, all)[j];
        assert(successor_settled(segs, v, h, s0, all, z, j));
        if !v[yy as int] && s0.contains((yy, 0usize)) {
            if (yy, 0usize) == s0.last() {
                let m = choose|m: int|
                    0 <= m < segs[t as int].prev_segments.len() && {
                        let p = #[trigger] segs[t as int].prev_segments[m];
                        !v[p as int] && !segs[t as int].looped_prev_segments.contains(p)
                    };
                assert(blocks(segs, yy, segs[yy as int].prev_segments[m], v, h, all));
            } else {
                lemma_contains_drop_last(s0, (yy, 0usize));
            }
        }
    }
    assert(v[start as int] || (s1.len() > 0 && s1[0] == (start, 0usize))) by {
        if !v[start as int] {
            assert(s0[0] == (start, 0usize));
            if top == 0 {
                assert(t == start);
            }
            assert(s1[0] == s0[0]);
        }
    }
}

/// Visiting the waiting segment at the top of the stack keeps a plain walk
/// consistent, where it may be visited.
proof fn lemma_enter_keeps(w0: TraverseSegmentsController, w1: TraverseSegmentsController, segs: Seq<SegmentView>)
    requires
        w0.walk_inv(segs),
        !w0.pending,
        w0.stack@.len() > 0,
        w0.stack@.last().1 == 0,
        !w0.visited@[w0.stack@.last().0 as int],
        w0.stack@.last().0 == w0.start_segment || prevs_among(segs, w0.stack@.last().0, w0.yielded@),
        w1.wf(segs),
        w1.stack@ == w0.stack@,
        w1.visited@ == w0.visited@.update(w0.stack@.last().0 as int, true),
        w1.yielded@ == w0.yielded@.push(w0.stack@.last().0),
        w1.handed@ == w0.handed@,
        w1.pending,
        w1.all == w0.all,
        w1.start_segment == w0.start_segment,
        w1.last_segment == w0.last_segment,
        w1.skipped_segment == w0.skipped_segment,
        w1.broken == w0.broken,
    ensures
        w1.walk_inv(segs),
{
    let all = w0.all;
    let v = w0.visited@;
    let v1 = w1.visited@;
    let y = w0.yielded@;
    let y1 = w1.yielded@;
    let h = w0.handed@;
    let st = w0.stack@;
    let start = w0.start_segment;
    let top = st.len() - 1;
    let t = st.last().0;
    assert(st[top] == st.last());
    assert(segs.len() <= usize::MAX) by {
        assert(w0.visited@.len() == w0.visited.len());
    }
    assert((t as int) < segs.len());
    assert(!y.contains(t));
    assert(h[t as int] == 0);
    assert(y1.no_duplicates()) by {
        assert forall|a: int, b: int| 0 <= a < y1.len() && 0 <= b < y1.len() && a != b implies y1[a] != y1[b] by {
            if a == y.len() as int {
                assert(y1[b] == y[b]);
            } else if b == y.len() as int {
                assert(y1[a] == y[a]);
            } else {
                assert(y1[a] == y[a] && y1[b] == y[b]);
            }
        }
    }
    assert forall|x: int| 0 <= x < segs.len() implies (v1[x] <==> y1.contains(x as usize)) by {
        if y1.contains(x as usize) {
            let k = choose|k: int| 0 <= k < y1.len() && #[trigger] y1[k] == x as usize;
            if k < y.len() {
                assert(y[k] == x as usize);
            }
        }
        if v[x] {
            let k = choose|k: int| 0 <= k < y.len() && #[trigger] y[k] == x as usize;
            assert(y1[k] == x as usize);
        }
        if x == t as int {
            assert(y1[y.len() as int] == t);
        }
    }
    assert forall|z: usize| led_to(segs, y, z, all) implies #[trigger] led_to(segs, y1, z, all) by {
        let i = choose|i: int| 0 <= i < y.len() && #[trigger] successors(segs, y[i] as int, all).contains(z);
        assert(y1[i] == y[i]);
    }
    if y.len() == 0 {
        assert(st == seq![(start, 0usize)]);
        assert(t == start);
        assert(y1[0] == start);
    } else {
        assert(y1[0] == y[0]);
        assert(y.contains(start)) by {
            assert(y[0] == start);
        }
        assert(t != start);
        assert(st[top].1 == 0);
        assert(led_to(segs, y, t, all));
    }
    assert forall|i: int|
        0 < i < y1.len() implies led_to(segs, y1.take(i), #[trigger] y1[i], all) && prevs_among(segs, y1[i], y1.take(i))
    by {
        if i < y.len() {
            assert(y1.take(i) =~= y.take(i));
            assert(y1[i] == y[i]);
        } else {
            assert(y1.take(i) =~= y);
            assert(y1[i] == t);
        }
    }
    assert forall|k: int| 0 <= k < st.len() && (#[trigger] st[k]).1 == 0 implies st[k].0 == start || led_to(
        segs,
        y1,
        st[k].0,
        all,
    ) by {
        if st[k].0 != start {
            assert(led_to(segs, y, st[k].0, all));
            let i = choose|i: int| 0 <= i < y.len() && #[trigger] successors(segs, y[i] as int, all).contains(st[k].0);
            assert(y1[i] == y[i]);
        }
    }
    assert forall|k: int| 0 <= k < st.len() && (#[trigger] st[k]).1 > 0 implies v1[st[k].0 as int] && h[st[k].0 as int]
        == st[k].1 by {}
    assert forall|z: int|
        0 <= z < segs.len() implies #[trigger] h[z] <= successors(segs, z, all).len() && h[z] <= usize::MAX && (!v1[z]
        ==> h[z] == 0) by {}
    assert forall|z: int|
        0 <= z < segs.len() && v1[z] && #[trigger] h[z] < successors(segs, z, all).len() implies (h[z] > 0 && st.contains(
            (z as usize, h[z] as usize),
        )) || (h[z] == 0 && w1.pending && st.last() == (z as usize, 0usize)) by {
        if z != t as int {
            assert(v[z]);
        }
    }
    assert forall|z: int, j: int|
        0 <= z < segs.len() && v1[z] && 0 <= j < h[z] implies #[trigger] successor_settled(segs, v1, h, st, all, z, j) by {
        assert(z != t as int);
        assert(v[z]);
        let yy = successors(segs, z, all)[j];
        assert(successor_settled(segs, v, h, st, all, z, j));
        if !v[yy as int] && !st.contains((yy, 0usize)) {
            let m = choose|m: int|
                0 <= m < segs[yy as int].prev_segments.len() && #[trigger] blocks(
                    segs,
                    yy,
                    segs[yy as int].prev_segments[m],
                    v,
                    h,
                    all,
                );
            let p = segs[yy as int].prev_segments[m];
            assert(ids_in_range(segs[z].next_segments, segs.len()));
            assert((yy as int) < segs.len());
            assert(ids_in_range(segs[yy as int].next_segments, segs.len()));
            assert((p as int) < segs.len());
            if p == t {
                assert(successors(segs, p as int, all).take(0) =~= Seq::<usize>::empty());
            }
            assert(blocks(segs, yy, p, v1, h, all));
        }
    }
}

/// A plain walk that has run to its end has visited the segments of a walk
/// (see `is_walk`), in the order it visited them.
pub proof fn lemma_finished_walk(w: TraverseSegmentsController, segs: Seq<SegmentView>)
    requires
        w.walk_inv(segs),
        w.stack@.len() == 0,
        !w.pending,
    ensures
        is_walk(segs, w.start_segment, w.all, w.yielded@),
{
    let all = w.all;
    let v = w.visited@;
    let y = w.yielded@;
    let h = w.handed@;
    let st = w.stack@;
    assert(y.len() > 0) by {
        if y.len() == 0 {
            assert(st == seq![(w.start_segment, 0usize)]);
        }
    }
    assert(segs.len() <= usize::MAX) by {
        assert(w.visited@.len() == w.visited.len());
    }
    // every visited segment has been moved past entirely
    assert forall|z: int| 0 <= z < segs.len() && v[z] implies #[trigger] h[z] == successors(segs, z, all).len() by {
        if h[z] < successors(segs, z, all).len() {
            if h[z] > 0 {
                assert(st.contains((z as usize, h[z] as usize)));
            }
        }
    }
    assert forall|i: int, j: int|
        0 <= i < y.len() && 0 <= j < successors(segs, y[i] as int, all).len() implies {
            let yy = #[trigger] successors(segs, y[i] as int, all)[j];
            y.contains(yy) || exists|m: int|
                0 <= m < segs[yy as int].prev_segments.len() && {
                    let p = #[trigger] segs[yy as int].prev_segments[m];
                    !segs[yy as int].looped_prev_segments.contains(p) && (!y.contains(p) || !successors(
                        segs,
                        p as int,
                        all,
                    ).contains(yy))
                }
        } by {
        let x = y[i] as int;
        assert(y.contains(y[i]));
        assert(v[x]);
        assert(h[x] == successors(segs, x, all).len());
        assert(successor_settled(segs, v, h, st, all, x, j));
        let yy = successors(segs, x, all)[j];
        assert(ids_in_range(segs[x].next_segments, segs.len()));
        assert((yy as int) < segs.len());
        assert(ids_in_range(segs[yy as int].next_segments, segs.len()));
        if !v[yy as int] {
            assert(!st.contains((yy, 0usize)));
            let m = choose|m: int|
                0 <= m < segs[yy as int].prev_segments.len() && #[trigger] blocks(
                    segs,
                    yy,
                    segs[yy as int].prev_segments[m],
                    v,
                    h,
                    all,
                );
            let p = segs[yy as int].prev_segments[m];
            assert((p as int) < segs.len());
            if v[p as int] {
                assert(h[p as int] == successors(segs, p as int, all).len());
                assert(successors(segs, p as int, all).take(h[p as int] as int) =~= successors(segs, p as int, all));
            }
        }
    }
}

impl TraverseSegmentsController {
    fn successor_count(&self, arena: &SegmentArena, s: usize) -> (n: usize)
        requires
            (s as int) < arena@.len(),
        ensures
            n == successors(arena@, s as int, self.all).len(),
    {
        assert(arena@[s as int] == arena.segments@[s as int]@);
        if self.all {
            arena.segments[s].all_next_segments.len()
        } else {
            arena.segments[s].next_segments.len()
        }
    }

    fn successor_at(&self, arena: &SegmentArena, s: usize, i: usize) -> (n: usize)
        requires
            (s as int) < arena@.len(),
            i < successors(arena@, s as int, self.all).len(),
        ensures
            n == successors(arena@, s as int, self.all)[i as int],
    {
        assert(arena@[s as int] == arena.segments@[s as int]@);
        if self.all {
            arena.segments[s].all_next_segments[i]
        } else {
            arena.segments[s].next_segments[i]
        }
    }

    /// Every reachable predecessor of `segment` has been visited or is
    /// reached by looping back.
    fn predecessors_done(&self, arena: &SegmentArena, segment: usize) -> (b: bool)
        requires
            self.wf(arena@),
            (segment as int) < arena@.len(),
        ensures
            b == forall|k: int|
                0 <= k < arena@[segment as int].prev_segments.len() ==> {
                    let p = #[trigger] arena@[segment as int].prev_segments[k];
                    self.visited@[p as int] || arena@[segment as int].looped_prev_segments.contains(p)
                },
    {
        assert(arena@.len() == arena.segments@.len());
        assert(arena@[segment as int] == arena.segments@[segment as int]@);
        let prevs = &arena.segments[segment].prev_segments;
        assert(ids_in_range(arena@[segment as int].next_segments, arena@.len()));
        let mut k: usize = 0;
        while k < prevs.len()
            invariant
                k <= prevs.len(),
                (segment as int) < arena@.len(),
                arena@.len() == arena.segments@.len(),
                arena@[segment as int] == arena.segments@[segment as int]@,
                prevs@ == arena@[segment as int].prev_segments,
                ids_in_range(prevs@, arena@.len()),
                self.visited@.len() == arena@.len(),
                forall|j: int|
                    0 <= j < k ==> {
                        let p = #[trigger] arena@[segment as int].prev_segments[j];
                        self.visited@[p as int] || arena@[segment as int].looped_prev_segments.contains(p)
                    },
            decreases prevs.len() - k,
        {
            let p = prevs[k];
            assert((prevs@[k as int] as int) < arena@.len());
            assert(arena@[segment as int].prev_segments[k as int] == p);
            if !self.visited[p] && !arena.segments[segment].is_looped_prev_segment(p) {
                return false;
            }
            k = k + 1;
        }
        true
    }

    /// Moves past the top of the stack: on to its next successor, or off the
    /// stack when it has none left.
    fn advance(&mut self, arena: &SegmentArena)
        requires
            old(self).wf(arena@),
            old(self).stack@.len() > 0,
        ensures
            final(self).wf(arena@),
            !final(self).pending,
            final(self).yielded@ == old(self).yielded@,
            old(self).walk_inv(arena@) && (old(self).pending || old(self).stack@.last().1 > 0) ==> final(self).walk_inv(
                arena@,
            ),
            final(self).visited@ == old(self).visited@,
            final(self).all == old(self).all,
            final(self).start_segment == old(self).start_segment,
            final(self).last_segment == old(self).last_segment,
            final(self).skipped_segment == old(self).skipped_segment,
            final(self).broken == old(self).broken,
            old(self).stack@.last().1 > 0 ==> stack_cost(arena@, final(self).stack@, final(self).all)
                < stack_cost(arena@, old(self).stack@, old(self).all),
    {
        let ghost segs = arena@;
        let ghost w0 = *self;
        self.pending = false;
        let len = self.stack.len();
        let (segment, index) = self.stack[len - 1];
        let count = self.successor_count(arena, segment);
        assert(ids_in_range(segs[segment as int].next_segments, segs.len()));
        let ghost old_stack = self.stack@;
        let ghost rest = old_stack.drop_last();
        assert(old_stack =~= rest.push((segment, index)));
        proof {
            lemma_stack_cost_push(segs, rest, (segment, index), self.all);
            lemma_stack_cost_push(segs, rest, (segment, (index + 1) as usize), self.all);
        }
        if index + 1 < count {
            let next = self.successor_at(arena, segment, index);
            self.stack.set(len - 1, (segment, index + 1));
            self.stack.push((next, 0));
            self.handed = Ghost(self.handed@.update(segment as int, (index + 1) as nat));
            proof {
                assert(self.stack@ =~= rest.push((segment, (index + 1) as usize)).push(
                    (next, 0usize),
                ));
                lemma_stack_cost_push(segs, rest.push((segment, (index + 1) as usize)), (next, 0usize), self.all);
            }
        } else if index + 1 == count {
            let next = self.successor_at(arena, segment, index);
            self.stack.set(len - 1, (next, 0));
            self.handed = Ghost(self.handed@.update(segment as int, (index + 1) as nat));
            proof {
                assert(self.stack@ =~= rest.push((next, 0usize)));
                lemma_stack_cost_push(segs, rest, (next, 0usize), self.all);
            }
        } else {
            self.stack.pop();
            proof {
                assert(self.stack@ =~= old_stack.drop_last());
            }
        }
        proof {
            if w0.walk_inv(segs) && (w0.pending || index > 0) {
                lemma_advance_keeps(w0, *self, segs, segment, index);
            }
        }
        proof {
            assert forall|k: int| 0 <= k < self.stack@.len() implies {
                &&& (#[trigger] self.stack@[k]).0 < segs.len()
                &&& self.stack@[k].1 == 0 || self.stack@[k].1 < successors(
                    segs,
                    self.stack@[k].0 as int,
                    self.all,
                ).len()
            } by {
                if k < len - 1 {
                    assert(self.stack@[k] == old_stack[k]);
                }
            }
        }
    }

    /// Stops the walk down the current branch: the segments below the
    /// segment just yielded are not yielded (the whole walk stops when it is
    /// the first one).
    pub fn skip(&mut self)
        ensures
            final(self).all == old(self).all,
            final(self).start_segment == old(self).start_segment,
            final(self).last_segment == old(self).last_segment,
            final(self).visited@ == old(self).visited@,
            final(self).stack@ == old(self).stack@,
            final(self).pending == old(self).pending,
            old(self).stack@.len() <= 1 ==> final(self).broken
                && final(self).skipped_segment == old(self).skipped_segment,
            old(self).stack@.len() > 1 ==> final(self).broken == old(self).broken
                && final(self).skipped_segment == Some(
                old(self).stack@[old(self).stack@.len() - 2].0,
            ),
    {
        if self.stack.len() <= 1 {
            self.broken = true;
        } else {
            self.skipped_segment = Some(self.stack[self.stack.len() - 2].0);
        }
    }

    /// Stops the walk.
    pub fn break_(&mut self)
        ensures
            final(self).broken,
            final(self).all == old(self).all,
            final(self).start_segment == old(self).start_segment,
            final(self).last_segment == old(self).last_segment,
            final(self).visited@ == old(self).visited@,
            final(self).stack@ == old(self).stack@,
            final(self).pending == old(self).pending,
            final(self).skipped_segment == old(self).skipped_segment,
    {
        self.broken = true;
    }

    /// The next segment of the walk, or `None` when the walk is over. A
    /// segment is yielded at most once, and (but for the first) only once each
    /// of its reachable predecessors has been visited or is reached by
    /// looping back.
    pub fn next_segment(&mut self, arena: &SegmentArena) -> (r: Option<usize>)
        requires
            old(self).wf(arena@),
        ensures
            final(self).wf(arena@),
            final(self).all == old(self).all,
            final(self).start_segment == old(self).start_segment,
            final(self).last_segment == old(self).last_segment,
            forall|i: int|
                0 <= i < arena@.len() && #[trigger] old(self).visited@[i] ==> final(self).visited@[i],
            unvisited(final(self).visited@) <= unvisited(old(self).visited@),
            old(self).broken ==> r is None && *final(self) == *old(self),
            r is None && !old(self).broken ==> !final(self).pending,
            r matches Some(s) ==> {
                &&& (s as int) < arena@.len()
                &&& !old(self).visited@[s as int]
                &&& final(self).visited@[s as int]
                &&& final(self).pending
                &&& final(self).stack@.last() == (s, 0usize)
                &&& unvisited(final(self).visited@) < unvisited(old(self).visited@)
                &&& (s == old(self).start_segment || forall|k: int|
                    0 <= k < arena@[s as int].prev_segments.len() ==> {
                        let p = #[trigger] arena@[s as int].prev_segments[k];
                        final(self).visited@[p as int]
                            || arena@[s as int].looped_prev_segments.contains(p)
                    })
            },
            old(self).walk_inv(arena@) ==> final(self).walk_inv(arena@) && match r {
                Some(s) => final(self).yielded@ == old(self).yielded@.push(s),
                None => final(self).yielded@ == old(self).yielded@ && final(self).stack@.len() == 0
                    && !final(self).pending,
            },
    {
        if self.broken {
            return None;
        }
        if self.pending {
            let top = self.stack[self.stack.len() - 1].0;
            let is_last = match self.last_segment {
                Some(last) => last == top,
                None => false,
            };
            if is_last {
                self.pending = false;
                self.skip();
                if self.broken {
                    return None;
                }
            }
            self.advance(arena);
        }
        let ghost start_visited = self.visited@;
        while self.stack.len() > 0
            invariant
                self.wf(arena@),
                !self.pending,
                !self.broken,
                !old(self).broken,
                self.all == old(self).all,
                self.start_segment == old(self).start_segment,
                self.last_segment == old(self).last_segment,
                forall|i: int|
                    0 <= i < arena@.len() && #[trigger] old(self).visited@[i] ==> self.visited@[i],
                unvisited(self.visited@) <= unvisited(old(self).visited@),
                old(self).walk_inv(arena@) ==> self.walk_inv(arena@) && self.yielded@ == old(self).yielded@,
            decreases unvisited(self.visited@), stack_cost(arena@, self.stack@, self.all),
        {
            let len = self.stack.len();
            let (segment, index) = self.stack[len - 1];
            let ghost w0 = *self;
            if index == 0 {
                if self.visited[segment] {
                    self.stack.pop();
                    proof {
                        if w0.walk_inv(arena@) {
                            lemma_pop_keeps(w0, *self, arena@);
                        }
                    }
                    continue;
                }
                if segment != self.start_segment {
                    let done = self.predecessors_done(arena, segment);
                    if !done {
                        self.stack.pop();
                        proof {
                            if w0.walk_inv(arena@) {
                                lemma_pop_keeps(w0, *self, arena@);
                            }
                        }
                        continue;
                    }
                }
                let ghost checked = self.visited@;
                match self.skipped_segment {
                    Some(skipped) => {
                        if vec_contains(&arena.segments[segment].prev_segments, skipped) {
                            self.skipped_segment = None;
                        }
                    },
                    None => {},
                }
                let ghost before = self.visited@;
                assert(!old(self).visited@[segment as int]) by {
                    if old(self).visited@[segment as int] {
                        assert(self.visited@[segment as int]);
                    }
                }
                self.visited.set(segment, true);
                self.yielded = Ghost(self.yielded@.push(segment));
                proof {
                    lemma_unvisited_set(before, segment as int);
                }
                if self.skipped_segment.is_none() {
                    self.pending = true;
                    proof {
                        if w0.walk_inv(arena@) {
                            assert(segment != w0.start_segment ==> prevs_among(arena@, segment, w0.yielded@)) by {
                                if segment != w0.start_segment {
                                    assert forall|m: int| 0 <= m < arena@[segment as int].prev_segments.len() implies {
                                        let p = #[trigger] arena@[segment as int].prev_segments[m];
                                        w0.yielded@.contains(p) || arena@[segment as int].looped_prev_segments.contains(p)
                                    } by {
                                        let p = arena@[segment as int].prev_segments[m];
                                        assert(ids_in_range(arena@[segment as int].next_segments, arena@.len()));
                                        assert(checked[p as int] || arena@[segment as int].looped_prev_segments.contains(p));
                                    }
                                }
                            }
                            lemma_enter_keeps(w0, *self, arena@);
                        }
                    }
                    assert(self.visited@[segment as int]);
                    assert(unvisited(self.visited@) < unvisited(old(self).visited@));
                    assert(self.stack@.last() == (segment, 0usize));
                    assert forall|k: int| segment != old(self).start_segment &&
                    0 <= k < arena@[segment as int].prev_segments.len() implies {
                        let p = #[trigger] arena@[segment as int].prev_segments[k];
                        self.visited@[p as int]
                            || arena@[segment as int].looped_prev_segments.contains(p)
                    } by {
                        let p = arena@[segment as int].prev_segments[k];
                        assert(checked[p as int] || arena@[segment as int].looped_prev_segments.contains(p));
                        assert(checked == before);
                        assert(ids_in_range(arena@[segment as int].next_segments, arena@.len()));
                        assert((p as int) < arena@.len());
                        if before[p as int] {
                            assert(self.visited@[p as int]);
                        }
                    }
                    assert(segment == old(self).start_segment || forall|k: int|
                    0 <= k < arena@[segment as int].prev_segments.len() ==> {
                        let p = #[trigger] arena@[segment as int].prev_segments[k];
                        self.visited@[p as int]
                            || arena@[segment as int].looped_prev_segments.contains(p)
                    });
                    return Some(segment);
                }
            }
            self.advance(arena);
        }
        None
    }
}


/// One code path: the segments of a program, a function, a class field
/// initializer or a class static block.
pub struct CodePath {
    pub id: String,
    pub origin: CodePathOrigin,
    pub upper: Option<usize>,
    pub child_code_paths: Vec<usize>,
    pub id_generator: IdGenerator,
    pub fork_context: usize,
    pub initial_segment: usize,
    pub final_segments: Vec<usize>,
    pub returned_segments: Vec<usize>,
    pub thrown_segments: Vec<usize>,
    pub current_segments: Option<Rc<SingleOrSplitSegment>>,
}

impl CodePath {
    /// The code path names only segments of an arena of `len` segments.
    pub open spec fn wf(&self, len: nat) -> bool {
        &&& (self.initial_segment as int) < len
        &&& ids_in_range(self.final_segments@, len)
        &&& ids_in_range(self.returned_segments@, len)
        &&& ids_in_range(self.thrown_segments@, len)
        &&& (self.current_segments matches Some(c) ==> c.wf() && ids_in_range(c.leaves(), len))
    }

    /// Makes a code path with a fresh reachable initial segment, records it
    /// as a child of `upper`, and returns its index.
    pub fn new(
        arena: &mut Vec<CodePath>,
        fork_context_arena: &mut ForkContextArena,
        code_path_segment_arena: &mut SegmentArena,
        id: String,
        origin: CodePathOrigin,
        upper: Option<usize>,
    ) -> (code_path: usize)
        requires
            arena_wf(old(code_path_segment_arena)@),
            old(code_path_segment_arena)@.len() + 1 < usize::MAX,
            upper matches Some(u) ==> (u as int) < old(arena)@.len(),
        ensures
            code_path == old(arena)@.len(),
            final(arena)@.len() == old(arena)@.len() + 1,
            final(arena)@[code_path as int].id@ == id@,
            final(arena)@[code_path as int].origin == origin,
            final(arena)@[code_path as int].upper == upper,
            final(arena)@[code_path as int].child_code_paths@ == Seq::<usize>::empty(),
            final(arena)@[code_path as int].initial_segment == old(code_path_segment_arena)@.len(),
            final(arena)@[code_path as int].final_segments@ == Seq::<usize>::empty(),
            final(arena)@[code_path as int].returned_segments@ == Seq::<usize>::empty(),
            final(arena)@[code_path as int].thrown_segments@ == Seq::<usize>::empty(),
            final(arena)@[code_path as int].current_segments == None::<Rc<SingleOrSplitSegment>>,
            final(arena)@[code_path as int].id_generator.prefix@ == id@ + seq!['_'],
            final(arena)@[code_path as int].id_generator.n == next_count(0),
            final(arena)@[code_path as int].fork_context == old(fork_context_arena).contexts@.len(),
            final(fork_context_arena).contexts@.len() == old(fork_context_arena).contexts@.len() + 1,
            forall|i: int|
                0 <= i < old(fork_context_arena).contexts@.len() ==> #[trigger] final(fork_context_arena).contexts@[i]
                    == old(fork_context_arena).contexts@[i],
            final(fork_context_arena).contexts@.last().segments_list@.len() == 1,
            final(fork_context_arena).contexts@.last().wf(final(code_path_segment_arena)@.len()),
            final(code_path_segment_arena)@ == old(code_path_segment_arena)@.push(
                fresh_segment(
                    old(code_path_segment_arena)@,
                    id@ + seq!['_'] + decimal(next_count(0) as nat),
                    Seq::empty(),
                    true,
                ),
            ),
            arena_wf(final(code_path_segment_arena)@),
            forall|i: int|
                0 <= i < old(arena)@.len() && Some(i as usize) != upper ==> #[trigger] final(arena)@[i] == old(arena)@[i],
            upper matches Some(u) ==> final(arena)@[u as int].child_code_paths@ == old(arena)@[u as int].child_code_paths@.push(code_path),
            upper matches Some(u) ==> final(arena)@[u as int].initial_segment == old(arena)@[u as int].initial_segment,
            upper matches Some(u) ==> final(arena)@[u as int].final_segments@ == old(arena)@[u as int].final_segments@,
            upper matches Some(u) ==> final(arena)@[u as int].returned_segments@ == old(arena)@[u as int].returned_segments@,
            upper matches Some(u) ==> final(arena)@[u as int].thrown_segments@ == old(arena)@[u as int].thrown_segments@,
            upper matches Some(u) ==> final(arena)@[u as int].current_segments == old(arena)@[u as int].current_segments,
            upper matches Some(u) ==> final(arena)@[u as int].fork_context == old(arena)@[u as int].fork_context,
            upper matches Some(u) ==> final(arena)@[u as int].upper == old(arena)@[u as int].upper,
            upper matches Some(u) ==> final(arena)@[u as int].id@ == old(arena)@[u as int].id@,
            upper matches Some(u) ==> final(arena)@[u as int].origin == old(arena)@[u as int].origin,
            upper matches Some(u) ==> final(arena)@[u as int].id_generator == old(arena)@[u as int].id_generator,
    {
        proof {
            reveal_strlit("_");
        }
        let mut id_generator = IdGenerator::new(&concat(id.as_str(), "_"));
        let ghost segs0 = code_path_segment_arena@;
        let ghost prefix = id_generator.prefix@;
        assert(prefix == id@ + seq!['_']);
        let fork_context = ForkContext::new_root(
            fork_context_arena,
            code_path_segment_arena,
            &mut id_generator,
        );
        assert(id_generator.n == next_count(0));
        assert(code_path_segment_arena@ == segs0.push(fresh_segment(segs0, prefix + decimal(next_count(0) as nat), Seq::empty(), true)));
        let initial_segment = code_path_segment_arena.len() - 1;
        let ret = arena.len();
        arena.push(
            CodePath {
                id,
                origin,
                upper,
                child_code_paths: Vec::new(),
                id_generator,
                fork_context,
                initial_segment,
                final_segments: Vec::new(),
                returned_segments: Vec::new(),
                thrown_segments: Vec::new(),
                current_segments: None,
            },
        );
        match upper {
            Some(u) => {
                arena[u].child_code_paths.push(ret);
            },
            None => {},
        }
        ret
    }

    pub fn initial_segment(&self) -> (s: usize)
        ensures
            s == self.initial_segment,
    {
        self.initial_segment
    }

    pub fn final_segments(&self) -> (s: &[usize])
        ensures
            s@ == self.final_segments@,
    {
        self.final_segments.as_slice()
    }

    pub fn returned_segments(&self) -> (s: &[usize])
        ensures
            s@ == self.returned_segments@,
    {
        self.returned_segments.as_slice()
    }

    pub fn thrown_segments(&self) -> (s: &[usize])
        ensures
            s@ == self.thrown_segments@,
    {
        self.thrown_segments.as_slice()
    }

    pub fn maybe_current_segments(&self) -> (s: Option<Rc<SingleOrSplitSegment>>)
        ensures
            s == self.current_segments,
    {
        match &self.current_segments {
            Some(c) => Some(Rc::clone(c)),
            None => None,
        }
    }

    pub fn current_segments(&self) -> (s: Rc<SingleOrSplitSegment>)
        requires
            self.current_segments is Some,
        ensures
            Some(s) == self.current_segments,
    {
        match &self.current_segments {
            Some(c) => Rc::clone(c),
            None => {
                assert(false);
                Rc::new(SingleOrSplitSegment::Single(0))
            },
        }
    }

    /// A walk over the reachable successors from the initial segment (or
    /// `options.first`).
    pub fn traverse_segments(
        &self,
        arena: &SegmentArena,
        options: Option<TraverseSegmentsOptions>,
    ) -> (r: TraverseSegmentsController)
        requires
            arena_wf(arena@),
            self.wf(arena@.len()),
            options matches Some(o) ==> (o.first matches Some(f) ==> (f as int) < arena@.len()),
        ensures
            r.wf(arena@),
            !r.all,
            !r.broken,
            !r.pending,
            r.skipped_segment == None::<usize>,
            r.last_segment == (match options {
                Some(o) => o.last,
                None => None,
            }),
            r.yielded@ == Seq::<usize>::empty(),
            (match options {
                Some(o) => o.last is None,
                None => true,
            }) ==> r.walk_inv(arena@),
            r.visited@ == Seq::new(arena@.len(), |i: int| false),
            r.stack@ == seq![(r.start_segment, 0usize)],
            r.start_segment == (match options {
                Some(o) => match o.first {
                    Some(f) => f,
                    None => self.initial_segment,
                },
                None => self.initial_segment,
            }),
    {
        let r = TraverseSegmentsController::new(arena, self.initial_segment, options, false);
        proof {
            if r.last_segment is None {
                lemma_fresh_walk_inv(&r, arena@);
            }
        }
        r
    }

    /// A walk over all successors, reachable or not, from the initial
    /// segment (or `options.first`).
    pub fn traverse_all_segments(
        &self,
        arena: &SegmentArena,
        options: Option<TraverseSegmentsOptions>,
    ) -> (r: TraverseSegmentsController)
        requires
            arena_wf(arena@),
            self.wf(arena@.len()),
            options matches Some(o) ==> (o.first matches Some(f) ==> (f as int) < arena@.len()),
        ensures
            r.wf(arena@),
            r.all,
            !r.broken,
            !r.pending,
            r.skipped_segment == None::<usize>,
            r.last_segment == (match options {
                Some(o) => o.last,
                None => None,
            }),
            r.yielded@ == Seq::<usize>::empty(),
            (match options {
                Some(o) => o.last is None,
                None => true,
            }) ==> r.walk_inv(arena@),
            r.visited@ == Seq::new(arena@.len(), |i: int| false),
            r.stack@ == seq![(r.start_segment, 0usize)],
            r.start_segment == (match options {
                Some(o) => match o.first {
                    Some(f) => f,
                    None => self.initial_segment,
                },
                None => self.initial_segment,
            }),
    {
        let r = TraverseSegmentsController::new(arena, self.initial_segment, options, true);
        proof {
            if r.last_segment is None {
                lemma_fresh_walk_inv(&r, arena@);
            }
        }
        r
    }

    /// The node that the code path starts at: the first node its initial
    /// segment entered.
    pub fn root_node(&self, code_path_segment_arena: &SegmentArena) -> (node: usize)
        requires
            (self.initial_segment as int) < code_path_segment_arena@.len(),
            code_path_segment_arena@[self.initial_segment as int].nodes.len() > 0,
        ensures
            node == code_path_segment_arena@[self.initial_segment as int].nodes[0].1,
    {
        assert(code_path_segment_arena@[self.initial_segment as int]
            == code_path_segment_arena.segments@[self.initial_segment as int]@);
        code_path_segment_arena.segments[self.initial_segment].nodes[0].1
    }
}

} // verus!
