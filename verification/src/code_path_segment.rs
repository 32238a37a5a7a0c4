use vstd::prelude::*;

verus! {

/// Whether a node was recorded when a segment entered it or when it left it.
#[derive(Copy, Clone, Debug, PartialEq, Eq, Structural)]
pub enum EnterOrExit {
    Enter,
    Exit,
}

/// One segment of a code path. Segments refer to one another by their index in
/// the `SegmentArena` that owns them.
pub struct CodePathSegment {
    pub id: String,
    pub next_segments: Vec<usize>,
    pub prev_segments: Vec<usize>,
    pub all_next_segments: Vec<usize>,
    pub all_prev_segments: Vec<usize>,
    pub reachable: bool,
    pub used: bool,
    pub looped_prev_segments: Vec<usize>,
    /// The nodes (by index in the caller's node table) that this segment
    /// entered or left, in order.
    pub nodes: Vec<(EnterOrExit, usize)>,
}

/// The mathematical value of a segment.
pub struct SegmentView {
    pub id: Seq<char>,
    pub next_segments: Seq<usize>,
    pub prev_segments: Seq<usize>,
    pub all_next_segments: Seq<usize>,
    pub all_prev_segments: Seq<usize>,
    pub reachable: bool,
    pub used: bool,
    pub looped_prev_segments: Seq<usize>,
    pub nodes: Seq<(EnterOrExit, usize)>,
}

impl View for CodePathSegment {
    type V = SegmentView;

    open spec fn view(&self) -> SegmentView {
        SegmentView {
            id: self.id@,
            next_segments: self.next_segments@,
            prev_segments: self.prev_segments@,
            all_next_segments: self.all_next_segments@,
            all_prev_segments: self.all_prev_segments@,
            reachable: self.reachable,
            used: self.used,
            looped_prev_segments: self.looped_prev_segments@,
            nodes: self.nodes@,
        }
    }
}

/// Owns every segment of the code paths of one file.
pub struct SegmentArena {
    pub segments: Vec<CodePathSegment>,
}

impl View for SegmentArena {
    type V = Seq<SegmentView>;

    open spec fn view(&self) -> Seq<SegmentView> {
        self.segments@.map_values(|s: CodePathSegment| s@)
    }
}

/// Every index in `ids` names a segment of an arena of `len` segments.
pub open spec fn ids_in_range(ids: Seq<usize>, len: nat) -> bool {
    forall|i: int| 0 <= i < ids.len() ==> (#[trigger] ids[i] as int) < len
}

/// The reachable members of `ids`, in order.
pub open spec fn reachable_ids(segs: Seq<SegmentView>, ids: Seq<usize>) -> Seq<usize>
    decreases ids.len(),
{
    if ids.len() == 0 {
        Seq::empty()
    } else {
        let rest = reachable_ids(segs, ids.drop_last());
        if segs[ids.last() as int].reachable {
            rest.push(ids.last())
        } else {
            rest
        }
    }
}

/// Some member of `ids` is reachable.
pub open spec fn any_reachable(segs: Seq<SegmentView>, ids: Seq<usize>) -> bool {
    exists|i: int| 0 <= i < ids.len() && #[trigger] segs[ids[i] as int].reachable
}

/// The arena `segs` is well formed: every segment names only segments of the
/// arena, and the reachable predecessors of a segment are exactly its
/// predecessors that are reachable, in order.
pub open spec fn arena_wf(segs: Seq<SegmentView>) -> bool {
    forall|s: int|
        0 <= s < segs.len() ==> {
            &&& ids_in_range(#[trigger] segs[s].next_segments, segs.len())
            &&& ids_in_range(segs[s].prev_segments, segs.len())
            &&& ids_in_range(segs[s].all_next_segments, segs.len())
            &&& ids_in_range(segs[s].all_prev_segments, segs.len())
            &&& ids_in_range(segs[s].looped_prev_segments, segs.len())
            &&& segs[s].prev_segments == reachable_ids(segs, segs[s].all_prev_segments)
        }
}

/// A segment freshly made from its predecessors: nothing follows it yet and it
/// has not been used.
pub open spec fn fresh_segment(
    segs: Seq<SegmentView>,
    id: Seq<char>,
    all_prev: Seq<usize>,
    reachable: bool,
) -> SegmentView {
    SegmentView {
        id,
        next_segments: Seq::empty(),
        prev_segments: reachable_ids(segs, all_prev),
        all_next_segments: Seq::empty(),
        all_prev_segments: all_prev,
        reachable,
        used: false,
        looped_prev_segments: Seq::empty(),
        nodes: Seq::empty(),
    }
}

/// `segs` after `s` is recorded as a successor of each of `prevs`, in every
/// successor list when `reachable_edge`, else only in the list of all
/// successors.
pub open spec fn add_successor(
    segs: Seq<SegmentView>,
    s: usize,
    prevs: Seq<usize>,
    reachable_edge: bool,
) -> Seq<SegmentView>
    decreases prevs.len(),
{
    if prevs.len() == 0 {
        segs
    } else {
        let w = add_successor(segs, s, prevs.drop_last(), reachable_edge);
        let p = prevs.last() as int;
        w.update(
            p,
            SegmentView {
                all_next_segments: w[p].all_next_segments.push(s),
                next_segments: if reachable_edge {
                    w[p].next_segments.push(s)
                } else {
                    w[p].next_segments
                },
                ..w[p]
            },
        )
    }
}

/// Two arenas that agree on which of their segments are reachable.
pub open spec fn same_reachability(a: Seq<SegmentView>, b: Seq<SegmentView>) -> bool {
    &&& a.len() <= b.len()
    &&& forall|i: int| 0 <= i < a.len() ==> #[trigger] a[i].reachable == b[i].reachable
}

pub proof fn lemma_reachable_ids_stable(a: Seq<SegmentView>, b: Seq<SegmentView>, ids: Seq<usize>)
    requires
        same_reachability(a, b),
        ids_in_range(ids, a.len()),
    ensures
        reachable_ids(a, ids) == reachable_ids(b, ids),
    decreases ids.len(),
{
    if ids.len() > 0 {
        lemma_reachable_ids_stable(a, b, ids.drop_last());
        assert(a[ids.last() as int].reachable == b[ids.last() as int].reachable);
    }
}

pub proof fn lemma_reachable_ids_in_range(segs: Seq<SegmentView>, ids: Seq<usize>, len: nat)
    requires
        ids_in_range(ids, len),
    ensures
        ids_in_range(reachable_ids(segs, ids), len),
        reachable_ids(segs, ids).len() <= ids.len(),
    decreases ids.len(),
{
    if ids.len() > 0 {
        lemma_reachable_ids_in_range(segs, ids.drop_last(), len);
    }
}

/// Recording successors keeps the length and reachability of every segment,
/// its predecessor lists, and names only `s` as a new successor.
pub proof fn lemma_add_successor_shape(
    segs: Seq<SegmentView>,
    s: usize,
    prevs: Seq<usize>,
    reachable_edge: bool,
)
    requires
        ids_in_range(prevs, segs.len()),
    ensures
        ({
            let w = add_successor(segs, s, prevs, reachable_edge);
            &&& w.len() == segs.len()
            &&& forall|i: int|
                0 <= i < segs.len() ==> {
                    &&& (#[trigger] w[i]).reachable == segs[i].reachable
                    &&& w[i].used == segs[i].used
                    &&& w[i].id == segs[i].id
                    &&& w[i].prev_segments == segs[i].prev_segments
                    &&& w[i].all_prev_segments == segs[i].all_prev_segments
                    &&& w[i].looped_prev_segments == segs[i].looped_prev_segments
                    &&& w[i].nodes == segs[i].nodes
                    &&& forall|k: int|
                        0 <= k < w[i].next_segments.len() ==> #[trigger] w[i].next_segments[k]
                            == s || (k < segs[i].next_segments.len()
                            && w[i].next_segments[k] == segs[i].next_segments[k])
                    &&& forall|k: int|
                        0 <= k < w[i].all_next_segments.len()
                            ==> #[trigger] w[i].all_next_segments[k] == s || (k
                            < segs[i].all_next_segments.len() && w[i].all_next_segments[k]
                            == segs[i].all_next_segments[k])
                }
        }),
    decreases prevs.len(),
{
    if prevs.len() > 0 {
        lemma_add_successor_shape(segs, s, prevs.drop_last(), reachable_edge);
        assert(prevs.last() == prevs[prevs.len() - 1]);
    }
}

impl SegmentArena {
    pub fn new() -> (arena: Self)
        ensures
            arena@ == Seq::<SegmentView>::empty(),
    {
        let arena = SegmentArena { segments: Vec::new() };
        assert(arena@ =~= Seq::<SegmentView>::empty());
        arena
    }

    pub fn len(&self) -> (n: usize)
        ensures
            n == self@.len(),
    {
        self.segments.len()
    }

    pub fn is_reachable(&self, segment: usize) -> (b: bool)
        requires
            segment < self@.len(),
        ensures
            b == self@[segment as int].reachable,
    {
        self.segments[segment].reachable
    }

    pub fn is_used(&self, segment: usize) -> (b: bool)
        requires
            segment < self@.len(),
        ensures
            b == self@[segment as int].used,
    {
        self.segments[segment].used
    }

    /// The reachable members of `ids`, in order.
    fn filter_reachable(&self, ids: &Vec<usize>) -> (r: Vec<usize>)
        requires
            ids_in_range(ids@, self@.len()),
        ensures
            r@ == reachable_ids(self@, ids@),
    {
        let mut r: Vec<usize> = Vec::new();
        let mut i: usize = 0;
        while i < ids.len()
            invariant
                i <= ids.len(),
                ids_in_range(ids@, self@.len()),
                r@ == reachable_ids(self@, ids@.take(i as int)),
            decreases ids.len() - i,
        {
            let p = ids[i];
            assert(ids@.take(i + 1).drop_last() == ids@.take(i as int));
            if self.segments[p].reachable {
                r.push(p);
            }
            i = i + 1;
        }
        assert(ids@.take(ids.len() as int) == ids@);
        r
    }

    /// Whether some member of `ids` is reachable.
    pub fn any_reachable(&self, ids: &[usize]) -> (b: bool)
        requires
            ids_in_range(ids@, self@.len()),
        ensures
            b == any_reachable(self@, ids@),
    {
        let mut i: usize = 0;
        while i < ids.len()
            invariant
                i <= ids.len(),
                ids_in_range(ids@, self@.len()),
                forall|j: int| 0 <= j < i ==> !#[trigger] self@[ids@[j] as int].reachable,
            decreases ids.len() - i,
        {
            if self.segments[ids[i]].reachable {
                assert(self@[ids@[i as int] as int].reachable);
                return true;
            }
            i = i + 1;
        }
        false
    }
}

/// `segs` with segment `s` marked as used.
pub open spec fn with_used(segs: Seq<SegmentView>, s: usize) -> Seq<SegmentView> {
    segs.update(s as int, SegmentView { used: true, ..segs[s as int] })
}

/// What marking segment `s` as used makes of `segs`: the first time, `s` is
/// recorded as a successor of each of its predecessors (as a reachable
/// successor too when `s` is reachable); after that, nothing changes.
pub open spec fn mark_used_spec(segs: Seq<SegmentView>, s: usize) -> Seq<SegmentView> {
    if segs[s as int].used {
        segs
    } else {
        add_successor(
            with_used(segs, s),
            s,
            segs[s as int].all_prev_segments,
            segs[s as int].reachable,
        )
    }
}

/// `acc` extended, in order, by the members of `prevs` not yet in it.
pub open spec fn add_new_ids(acc: Seq<usize>, prevs: Seq<usize>) -> Seq<usize>
    decreases prevs.len(),
{
    if prevs.len() == 0 {
        acc
    } else {
        let a = add_new_ids(acc, prevs.drop_last());
        if a.contains(prevs.last()) {
            a
        } else {
            a.push(prevs.last())
        }
    }
}

/// The list of segments that stand for `ids` once unused segments are
/// replaced by their predecessors: each used segment stands for itself and
/// each unused one for its predecessors; a segment appears at most once.
pub open spec fn flatten_unused(segs: Seq<SegmentView>, ids: Seq<usize>) -> Seq<usize>
    decreases ids.len(),
{
    if ids.len() == 0 {
        Seq::empty()
    } else {
        let acc = flatten_unused(segs, ids.drop_last());
        let seg = ids.last();
        if acc.contains(seg) {
            acc
        } else if !segs[seg as int].used {
            add_new_ids(acc, segs[seg as int].all_prev_segments)
        } else {
            acc.push(seg)
        }
    }
}

pub proof fn lemma_add_new_ids(acc: Seq<usize>, prevs: Seq<usize>, len: nat)
    requires
        acc.no_duplicates(),
        ids_in_range(acc, len),
        ids_in_range(prevs, len),
    ensures
        add_new_ids(acc, prevs).no_duplicates(),
        ids_in_range(add_new_ids(acc, prevs), len),
        add_new_ids(acc, prevs).len() <= acc.len() + prevs.len(),
    decreases prevs.len(),
{
    if prevs.len() > 0 {
        lemma_add_new_ids(acc, prevs.drop_last(), len);
    }
}

/// Flattening yields segments of the arena, each at most once.
pub proof fn lemma_flatten_unused_distinct(segs: Seq<SegmentView>, ids: Seq<usize>)
    requires
        arena_wf(segs),
        ids_in_range(ids, segs.len()),
    ensures
        flatten_unused(segs, ids).no_duplicates(),
        ids_in_range(flatten_unused(segs, ids), segs.len()),
    decreases ids.len(),
{
    if ids.len() > 0 {
        lemma_flatten_unused_distinct(segs, ids.drop_last());
        let seg = ids.last();
        assert(ids_in_range(segs[seg as int].next_segments, segs.len()));
        lemma_add_new_ids(
            flatten_unused(segs, ids.drop_last()),
            segs[seg as int].all_prev_segments,
            segs.len(),
        );
    }
}

impl CodePathSegment {
    /// Makes a segment whose predecessors are `all_prev_segments`; its
    /// reachable predecessors are those of them that are reachable.
    pub fn new(
        arena: &mut SegmentArena,
        id: String,
        all_prev_segments: Vec<usize>,
        reachable: bool,
    ) -> (segment: usize)
        requires
            arena_wf(old(arena)@),
            ids_in_range(all_prev_segments@, old(arena)@.len()),
            old(arena)@.len() < usize::MAX,
        ensures
            arena_wf(final(arena)@),
            segment == old(arena)@.len(),
            final(arena)@ == old(arena)@.push(
                fresh_segment(old(arena)@, id@, all_prev_segments@, reachable),
            ),
    {
        let prev_segments = arena.filter_reachable(&all_prev_segments);
        let ghost old_segs = arena@;
        let segment = CodePathSegment {
            id,
            next_segments: Vec::new(),
            prev_segments,
            all_next_segments: Vec::new(),
            all_prev_segments,
            reachable,
            used: false,
            looped_prev_segments: Vec::new(),
            nodes: Vec::new(),
        };
        let index = arena.segments.len();
        arena.segments.push(segment);
        proof {
            lemma_push_fresh_wf(old_segs, segment@.id, all_prev_segments@, reachable);
            assert(arena@ =~= old_segs.push(
                fresh_segment(old_segs, segment@.id, segment@.all_prev_segments, reachable),
            ));
        }
        index
    }
}


/// Adding a fresh segment whose predecessors are segments of the arena keeps
/// the arena well formed, and keeps the reachability of every segment.
pub proof fn lemma_push_fresh_wf(
    segs: Seq<SegmentView>,
    id: Seq<char>,
    all_prev: Seq<usize>,
    reachable: bool,
)
    requires
        arena_wf(segs),
        ids_in_range(all_prev, segs.len()),
    ensures
        arena_wf(segs.push(fresh_segment(segs, id, all_prev, reachable))),
        same_reachability(segs, segs.push(fresh_segment(segs, id, all_prev, reachable))),
{
    let new_segs = segs.push(fresh_segment(segs, id, all_prev, reachable));
    assert(same_reachability(segs, new_segs));
    lemma_reachable_ids_in_range(segs, all_prev, segs.len());
    assert forall|s: int| 0 <= s < new_segs.len() implies {
        &&& ids_in_range(#[trigger] new_segs[s].next_segments, new_segs.len())
        &&& ids_in_range(new_segs[s].prev_segments, new_segs.len())
        &&& ids_in_range(new_segs[s].all_next_segments, new_segs.len())
        &&& ids_in_range(new_segs[s].all_prev_segments, new_segs.len())
        &&& ids_in_range(new_segs[s].looped_prev_segments, new_segs.len())
        &&& new_segs[s].prev_segments == reachable_ids(new_segs, new_segs[s].all_prev_segments)
    } by {
        if s < segs.len() {
            assert(ids_in_range(segs[s].next_segments, segs.len()));
            assert(new_segs[s] == segs[s]);
            lemma_reachable_ids_stable(segs, new_segs, segs[s].all_prev_segments);
        } else {
            lemma_reachable_ids_stable(segs, new_segs, all_prev);
        }
    }
    assert(arena_wf(new_segs));
}

/// Marking a segment as used keeps the arena well formed.
pub proof fn lemma_mark_used_wf(segs: Seq<SegmentView>, s: usize)
    requires
        arena_wf(segs),
        s < segs.len(),
    ensures
        arena_wf(mark_used_spec(segs, s)),
        mark_used_spec(segs, s).len() == segs.len(),
        same_reachability(segs, mark_used_spec(segs, s)),
{
    if !segs[s as int].used {
        let u = with_used(segs, s);
        assert(ids_in_range(segs[s as int].next_segments, segs.len()));
        let prevs = segs[s as int].all_prev_segments;
        lemma_add_successor_shape(u, s, prevs, segs[s as int].reachable);
        let w = add_successor(u, s, prevs, segs[s as int].reachable);
        assert(same_reachability(segs, w)) by {
            assert forall|i: int| 0 <= i < segs.len() implies #[trigger] segs[i].reachable
                == w[i].reachable by {
                assert(u[i].reachable == segs[i].reachable);
                assert(w[i].reachable == u[i].reachable);
            }
        }
        assert forall|t: int| 0 <= t < w.len() implies {
            &&& ids_in_range(#[trigger] w[t].next_segments, w.len())
            &&& ids_in_range(w[t].prev_segments, w.len())
            &&& ids_in_range(w[t].all_next_segments, w.len())
            &&& ids_in_range(w[t].all_prev_segments, w.len())
            &&& ids_in_range(w[t].looped_prev_segments, w.len())
            &&& w[t].prev_segments == reachable_ids(w, w[t].all_prev_segments)
        } by {
            assert(ids_in_range(segs[t].next_segments, segs.len()));
            assert(w[t] == w[t]);
            assert(u[t].prev_segments == segs[t].prev_segments);
            assert(u[t].all_prev_segments == segs[t].all_prev_segments);
            lemma_reachable_ids_stable(segs, w, segs[t].all_prev_segments);
            assert forall|k: int| 0 <= k < w[t].next_segments.len() implies (
            #[trigger] w[t].next_segments[k] as int) < w.len() by {
                if !(w[t].next_segments[k] == s) {
                    assert(u[t].next_segments == segs[t].next_segments);
                    assert(segs[t].next_segments[k] == w[t].next_segments[k]);
                }
            }
            assert forall|k: int| 0 <= k < w[t].all_next_segments.len() implies (
            #[trigger] w[t].all_next_segments[k] as int) < w.len() by {
                if !(w[t].all_next_segments[k] == s) {
                    assert(u[t].all_next_segments == segs[t].all_next_segments);
                    assert(segs[t].all_next_segments[k] == w[t].all_next_segments[k]);
                }
            }
        }
    }
}

impl CodePathSegment {
    /// Whether `segment` was recorded as a predecessor of `self` reached by a
    /// loop.
    pub fn is_looped_prev_segment(&self, segment: usize) -> (b: bool)
        ensures
            b == self.looped_prev_segments@.contains(segment),
    {
        vec_contains(&self.looped_prev_segments, segment)
    }

    /// Makes the first segment of a code path: reachable, with no
    /// predecessor.
    pub fn new_root(arena: &mut SegmentArena, id: String) -> (segment: usize)
        requires
            arena_wf(old(arena)@),
            old(arena)@.len() < usize::MAX,
        ensures
            arena_wf(final(arena)@),
            segment == old(arena)@.len(),
            final(arena)@ == old(arena)@.push(
                fresh_segment(old(arena)@, id@, Seq::empty(), true),
            ),
    {
        Self::new(arena, id, Vec::new(), true)
    }

    /// Records `segment` as used: the first time, it becomes a successor of
    /// each of its predecessors.
    pub fn mark_used(arena: &mut SegmentArena, segment: usize)
        requires
            arena_wf(old(arena)@),
            segment < old(arena)@.len(),
        ensures
            final(arena)@ == mark_used_spec(old(arena)@, segment),
            arena_wf(final(arena)@),
    {
        proof {
            lemma_mark_used_wf(old(arena)@, segment);
        }
        if arena.segments[segment].used {
            return;
        }
        let ghost segs0 = arena@;
        arena.segments[segment].used = true;
        let ghost start = arena@;
        assert(start =~= with_used(segs0, segment));
        assert(ids_in_range(segs0[segment as int].next_segments, segs0.len()));
        let prevs = arena.segments[segment].all_prev_segments.clone();
        let reachable = arena.segments[segment].reachable;
        assert(prevs@ == segs0[segment as int].all_prev_segments);
        let mut i: usize = 0;
        while i < prevs.len()
            invariant
                i <= prevs.len(),
                ids_in_range(prevs@, start.len()),
                arena@ == add_successor(start, segment, prevs@.take(i as int), reachable),
                arena@.len() == start.len(),
            decreases prevs.len() - i,
        {
            let p = prevs[i];
            let ghost before = arena@;
            arena.segments[p].all_next_segments.push(segment);
            if reachable {
                arena.segments[p].next_segments.push(segment);
            }
            proof {
                let t = prevs@.take(i + 1);
                assert(t.drop_last() == prevs@.take(i as int));
                assert(t.last() == p);
                assert(arena@ =~= add_successor(start, segment, t, reachable));
            }
            i = i + 1;
        }
        assert(prevs@.take(prevs.len() as int) == prevs@);
    }

    /// Makes a segment that follows `all_prev_segments` (with unused ones
    /// replaced by their predecessors); it is reachable when one of
    /// `all_prev_segments` is.
    pub fn new_next(arena: &mut SegmentArena, id: String, all_prev_segments: &[usize]) -> (segment:
        usize)
        requires
            arena_wf(old(arena)@),
            ids_in_range(all_prev_segments@, old(arena)@.len()),
            old(arena)@.len() < usize::MAX,
        ensures
            arena_wf(final(arena)@),
            segment == old(arena)@.len(),
            final(arena)@ == old(arena)@.push(
                fresh_segment(
                    old(arena)@,
                    id@,
                    flatten_unused(old(arena)@, all_prev_segments@),
                    any_reachable(old(arena)@, all_prev_segments@),
                ),
            ),
    {
        let reachable = arena.any_reachable(all_prev_segments);
        let flattened = Self::flatten_unused_segments(arena, all_prev_segments);
        Self::new(arena, id, flattened, reachable)
    }

    /// Makes an unreachable segment that follows `all_prev_segments` (with
    /// unused ones replaced by their predecessors), and marks it used.
    pub fn new_unreachable(arena: &mut SegmentArena, id: String, all_prev_segments: &[usize]) -> (
        segment: usize)
        requires
            arena_wf(old(arena)@),
            ids_in_range(all_prev_segments@, old(arena)@.len()),
            old(arena)@.len() < usize::MAX,
        ensures
            arena_wf(final(arena)@),
            segment == old(arena)@.len(),
            final(arena)@ == mark_used_spec(
                old(arena)@.push(
                    fresh_segment(
                        old(arena)@,
                        id@,
                        flatten_unused(old(arena)@, all_prev_segments@),
                        false,
                    ),
                ),
                segment,
            ),
    {
        let flattened = Self::flatten_unused_segments(arena, all_prev_segments);
        let segment = Self::new(arena, id, flattened, false);
        Self::mark_used(arena, segment);
        segment
    }

    /// Makes a segment with no predecessor, reachable when one of
    /// `all_prev_segments` is.
    pub fn new_disconnected(arena: &mut SegmentArena, id: String, all_prev_segments: &[usize]) -> (
        segment: usize)
        requires
            arena_wf(old(arena)@),
            ids_in_range(all_prev_segments@, old(arena)@.len()),
            old(arena)@.len() < usize::MAX,
        ensures
            arena_wf(final(arena)@),
            segment == old(arena)@.len(),
            final(arena)@ == old(arena)@.push(
                fresh_segment(
                    old(arena)@,
                    id@,
                    Seq::empty(),
                    any_reachable(old(arena)@, all_prev_segments@),
                ),
            ),
    {
        let reachable = arena.any_reachable(all_prev_segments);
        Self::new(arena, id, Vec::new(), reachable)
    }

    /// Records `prev_segment` as a predecessor of `segment` reached by a loop.
    pub fn mark_prev_segment_as_looped(arena: &mut SegmentArena, segment: usize, prev_segment: usize)
        requires
            arena_wf(old(arena)@),
            segment < old(arena)@.len(),
            prev_segment < old(arena)@.len(),
        ensures
            arena_wf(final(arena)@),
            final(arena)@ == old(arena)@.update(
                segment as int,
                SegmentView {
                    looped_prev_segments: old(arena)@[segment as int].looped_prev_segments.push(
                        prev_segment,
                    ),
                    ..old(arena)@[segment as int]
                },
            ),
    {
        let ghost segs = arena@;
        arena.segments[segment].looped_prev_segments.push(prev_segment);
        proof {
            let w = arena@;
            assert(w =~= segs.update(
                segment as int,
                SegmentView {
                    looped_prev_segments: segs[segment as int].looped_prev_segments.push(prev_segment),
                    ..segs[segment as int]
                },
            ));
            assert(same_reachability(segs, w));
            assert forall|t: int| 0 <= t < w.len() implies {
                &&& ids_in_range(#[trigger] w[t].next_segments, w.len())
                &&& ids_in_range(w[t].prev_segments, w.len())
                &&& ids_in_range(w[t].all_next_segments, w.len())
                &&& ids_in_range(w[t].all_prev_segments, w.len())
                &&& ids_in_range(w[t].looped_prev_segments, w.len())
                &&& w[t].prev_segments == reachable_ids(w, w[t].all_prev_segments)
            } by {
                assert(ids_in_range(segs[t].next_segments, segs.len()));
                lemma_reachable_ids_stable(segs, w, segs[t].all_prev_segments);
            }
            assert(arena_wf(w));
        }
    }

    /// The segments that stand for `segments`: each used segment stands for
    /// itself, each unused one for its predecessors, and none appears twice.
    pub fn flatten_unused_segments(arena: &SegmentArena, segments: &[usize]) -> (r: Vec<usize>)
        requires
            arena_wf(arena@),
            ids_in_range(segments@, arena@.len()),
        ensures
            r@ == flatten_unused(arena@, segments@),
            r@.no_duplicates(),
            ids_in_range(r@, arena@.len()),
    {
        let mut retv: Vec<usize> = Vec::new();
        let mut i: usize = 0;
        while i < segments.len()
            invariant
                i <= segments.len(),
                arena_wf(arena@),
                ids_in_range(segments@, arena@.len()),
                retv@ == flatten_unused(arena@, segments@.take(i as int)),
            decreases segments.len() - i,
        {
            let segment = segments[i];
            proof {
                let t = segments@.take(i + 1);
                assert(t.drop_last() == segments@.take(i as int));
                assert(t.last() == segment);
            }
            if vec_contains(&retv, segment) {
            } else if !arena.segments[segment].used {
                let prevs = &arena.segments[segment].all_prev_segments;
                let ghost acc0 = retv@;
                let mut j: usize = 0;
                while j < prevs.len()
                    invariant
                        j <= prevs.len(),
                        retv@ == add_new_ids(acc0, prevs@.take(j as int)),
                    decreases prevs.len() - j,
                {
                    let p = prevs[j];
                    proof {
                        let t = prevs@.take(j + 1);
                        assert(t.drop_last() == prevs@.take(j as int));
                        assert(t.last() == p);
                    }
                    if !vec_contains(&retv, p) {
                        retv.push(p);
                    }
                    j = j + 1;
                }
                assert(prevs@.take(prevs.len() as int) == prevs@);
            } else {
                retv.push(segment);
            }
            i = i + 1;
        }
        assert(segments@.take(segments.len() as int) == segments@);
        proof {
            lemma_flatten_unused_distinct(arena@, segments@);
        }
        retv
    }
}

/// Whether `v` holds `x`.
pub fn vec_contains(v: &Vec<usize>, x: usize) -> (b: bool)
    ensures
        b == v@.contains(x),
{
    let mut i: usize = 0;
    while i < v.len()
        invariant
            i <= v.len(),
            forall|j: int| 0 <= j < i ==> v@[j] != x,
        decreases v.len() - i,
    {
        if v[i] == x {
            assert(v@[i as int] == x);
            return true;
        }
        i = i + 1;
    }
    false
}


/// Marking a segment as used leaves it used, and keeps whether each other
/// segment is used.
pub proof fn lemma_mark_used_marks(segs: Seq<SegmentView>, s: usize)
    requires
        arena_wf(segs),
        s < segs.len(),
    ensures
        mark_used_spec(segs, s)[s as int].used,
        forall|i: int| 0 <= i < segs.len() && i != s ==> #[trigger] mark_used_spec(segs, s)[i].used == segs[i].used,
{
    if !segs[s as int].used {
        let u = with_used(segs, s);
        assert(ids_in_range(segs[s as int].next_segments, segs.len()));
        lemma_add_successor_shape(u, s, segs[s as int].all_prev_segments, segs[s as int].reachable);
    }
}

/// A second `CodePathSegment::mark_used` of a segment leaves the arena as the
/// first call left it: a segment becomes a successor of its predecessors once
/// only.
pub proof fn lemma_mark_used_idempotent(segs: Seq<SegmentView>, s: usize)
    requires
        arena_wf(segs),
        s < segs.len(),
    ensures
        mark_used_spec(mark_used_spec(segs, s), s) == mark_used_spec(segs, s),
{
    lemma_mark_used_wf(segs, s);
    lemma_mark_used_marks(segs, s);
}
} // verus!
