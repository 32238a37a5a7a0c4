use std::rc::Rc;

use vstd::prelude::*;

use crate::code_path_segment::{
    any_reachable, arena_wf, flatten_unused, fresh_segment, ids_in_range,
    lemma_flatten_unused_distinct, lemma_mark_used_wf, lemma_push_fresh_wf, mark_used_spec,
    same_reachability, CodePathSegment, SegmentArena, SegmentView,
};
use crate::id_generator::{next_count, IdGenerator};
use crate::text::decimal;

verus! {

/// Either one segment, or a pair of halves of equal split depth: a full binary
/// tree whose leaves are segments.
pub enum SingleOrSplitSegment {
    Single(usize),
    Split(SplitSegment),
}

pub struct SplitSegment {
    pub split_depth: usize,
    pub segments: (Rc<SingleOrSplitSegment>, Rc<SingleOrSplitSegment>),
}

impl SingleOrSplitSegment {
    /// The depth the value records for itself.
    pub open spec fn depth(&self) -> nat {
        match self {
            SingleOrSplitSegment::Single(_) => 0,
            SingleOrSplitSegment::Split(s) => s.split_depth as nat,
        }
    }

    /// Both halves of every split have the same depth, one less than the
    /// depth the split records.
    pub open spec fn wf(&self) -> bool
        decreases self,
    {
        match self {
            SingleOrSplitSegment::Single(_) => true,
            SingleOrSplitSegment::Split(s) => {
                &&& s.segments.0.wf()
                &&& s.segments.1.wf()
                &&& s.segments.0.depth() == s.segments.1.depth()
                &&& s.split_depth == s.segments.0.depth() + 1
            }
        }
    }

    /// The segments at the leaves, left to right.
    pub open spec fn leaves(&self) -> Seq<usize>
        decreases self,
    {
        match self {
            SingleOrSplitSegment::Single(s) => seq![*s],
            SingleOrSplitSegment::Split(s) => s.segments.0.leaves() + s.segments.1.leaves(),
        }
    }

    /// The same tree with each leaf replaced by what `mapper` gives for it.
    pub fn map<F: Fn(usize) -> usize>(&self, mapper: &F) -> (r: Self)
        requires
            self.wf(),
            forall|k: int| 0 <= k < self.leaves().len() ==> call_requires(*mapper, (#[trigger] self.leaves()[k],)),
        ensures
            r.wf(),
            r.depth() == self.depth(),
            r.leaves().len() == self.leaves().len(),
            forall|k: int|
                0 <= k < self.leaves().len() ==> call_ensures(*mapper, (self.leaves()[k],), #[trigger] r.leaves()[k]),
        decreases self,
    {
        match self {
            SingleOrSplitSegment::Single(segment) => {
                assert(self.leaves()[0] == *segment);
                let m = mapper(*segment);
                let r = SingleOrSplitSegment::Single(m);
                assert(r.leaves()[0] == m);
                r
            },
            SingleOrSplitSegment::Split(split_segment) => {
                let ghost l = split_segment.segments.0.leaves();
                let ghost rl = split_segment.segments.1.leaves();
                assert(self.leaves() == l + rl);
                assert forall|k: int| 0 <= k < l.len() implies call_requires(*mapper, (#[trigger] l[k],)) by {
                    assert(l[k] == self.leaves()[k]);
                }
                assert forall|k: int| 0 <= k < rl.len() implies call_requires(*mapper, (#[trigger] rl[k],)) by {
                    assert(rl[k] == self.leaves()[l.len() + k]);
                }
                let left = split_segment.segments.0.map(mapper);
                let right = split_segment.segments.1.map(mapper);
                let r = SingleOrSplitSegment::Split(SplitSegment::new(Rc::new(left), Rc::new(right)));
                assert(r.leaves() == left.leaves() + right.leaves());
                assert forall|k: int| 0 <= k < self.leaves().len() implies call_ensures(
                    *mapper,
                    (self.leaves()[k],),
                    #[trigger] r.leaves()[k],
                ) by {
                    if k < l.len() {
                        assert(self.leaves()[k] == l[k]);
                        assert(r.leaves()[k] == left.leaves()[k]);
                    } else {
                        assert(self.leaves()[k] == rl[k - l.len()]);
                        assert(r.leaves()[k] == right.leaves()[k - l.len()]);
                    }
                }
                r
            },
        }
    }

    pub fn split_depth(&self) -> (d: usize)
        ensures
            d == self.depth(),
    {
        match self {
            SingleOrSplitSegment::Single(_) => 0,
            SingleOrSplitSegment::Split(split_segment) => split_segment.split_depth,
        }
    }
}


/// How the segments of a new fork are made from their predecessors.
#[derive(Copy, Clone, Debug, PartialEq, Eq, Structural)]
pub enum SegmentMaker {
    /// `CodePathSegment::new_next`
    Next,
    /// `CodePathSegment::new_unreachable`
    Unreachable,
    /// `CodePathSegment::new_disconnected`
    Disconnected,
}

/// The arena after one segment is made by `maker` from `prevs`.
pub open spec fn make_spec(
    segs: Seq<SegmentView>,
    maker: SegmentMaker,
    id: Seq<char>,
    prevs: Seq<usize>,
) -> Seq<SegmentView> {
    match maker {
        SegmentMaker::Next => segs.push(
            fresh_segment(segs, id, flatten_unused(segs, prevs), any_reachable(segs, prevs)),
        ),
        SegmentMaker::Unreachable => mark_used_spec(
            segs.push(fresh_segment(segs, id, flatten_unused(segs, prevs), false)),
            segs.len() as usize,
        ),
        SegmentMaker::Disconnected => segs.push(
            fresh_segment(segs, id, Seq::empty(), any_reachable(segs, prevs)),
        ),
    }
}

/// The counter of an identifier generator after `k` more identifiers.
pub open spec fn count_after(n: u64, k: nat) -> u64
    decreases k,
{
    if k == 0 {
        n
    } else {
        next_count(count_after(n, (k - 1) as nat))
    }
}

/// The arena after one segment is made by `maker` from each of `prevs` in
/// turn, named by a generator with `prefix` whose counter stood at `n`.
pub open spec fn make_all(
    segs: Seq<SegmentView>,
    prefix: Seq<char>,
    n: u64,
    maker: SegmentMaker,
    prevs: Seq<Seq<usize>>,
) -> Seq<SegmentView>
    decreases prevs.len(),
{
    if prevs.len() == 0 {
        segs
    } else {
        let before = make_all(segs, prefix, n, maker, prevs.drop_last());
        make_spec(
            before,
            maker,
            prefix + decimal(count_after(n, prevs.len()) as nat),
            prevs.last(),
        )
    }
}

/// Every list in `prevs` names segments of an arena of `len` segments.
pub open spec fn all_in_range(prevs: Seq<Seq<usize>>, len: nat) -> bool {
    forall|i: int| 0 <= i < prevs.len() ==> ids_in_range(#[trigger] prevs[i], len)
}

pub proof fn lemma_ids_in_range_grow(ids: Seq<usize>, a: nat, b: nat)
    requires
        ids_in_range(ids, a),
        a <= b,
    ensures
        ids_in_range(ids, b),
{
}

/// Making one segment adds one segment and keeps the arena well formed.
pub proof fn lemma_make_spec(segs: Seq<SegmentView>, maker: SegmentMaker, id: Seq<char>, prevs: Seq<usize>)
    requires
        arena_wf(segs),
        ids_in_range(prevs, segs.len()),
    ensures
        arena_wf(make_spec(segs, maker, id, prevs)),
        make_spec(segs, maker, id, prevs).len() == segs.len() + 1,
        same_reachability(segs, make_spec(segs, maker, id, prevs)),
{
    lemma_flatten_unused_distinct(segs, prevs);
    match maker {
        SegmentMaker::Next => {
            lemma_push_fresh_wf(segs, id, flatten_unused(segs, prevs), any_reachable(segs, prevs));
        },
        SegmentMaker::Unreachable => {
            let p = segs.push(fresh_segment(segs, id, flatten_unused(segs, prevs), false));
            lemma_push_fresh_wf(segs, id, flatten_unused(segs, prevs), false);
            lemma_mark_used_wf(p, segs.len() as usize);
        },
        SegmentMaker::Disconnected => {
            lemma_push_fresh_wf(segs, id, Seq::empty(), any_reachable(segs, prevs));
        },
    }
}

/// Making segments one after another adds one segment per list and keeps the
/// arena well formed.
pub proof fn lemma_make_all(
    segs: Seq<SegmentView>,
    prefix: Seq<char>,
    n: u64,
    maker: SegmentMaker,
    prevs: Seq<Seq<usize>>,
)
    requires
        arena_wf(segs),
        all_in_range(prevs, segs.len()),
    ensures
        arena_wf(make_all(segs, prefix, n, maker, prevs)),
        make_all(segs, prefix, n, maker, prevs).len() == segs.len() + prevs.len(),
        same_reachability(segs, make_all(segs, prefix, n, maker, prevs)),
    decreases prevs.len(),
{
    if prevs.len() > 0 {
        lemma_make_all(segs, prefix, n, maker, prevs.drop_last());
        let before = make_all(segs, prefix, n, maker, prevs.drop_last());
        assert(ids_in_range(prevs[prevs.len() - 1], segs.len()));
        lemma_ids_in_range_grow(prevs.last(), segs.len(), before.len());
        lemma_make_spec(
            before,
            maker,
            prefix + decimal(count_after(n, prevs.len()) as nat),
            prevs.last(),
        );
    }
}

pub proof fn lemma_count_after_add(n: u64, a: nat, b: nat)
    ensures
        count_after(count_after(n, a), b) == count_after(n, a + b),
    decreases b,
{
    if b > 0 {
        lemma_count_after_add(n, a, (b - 1) as nat);
    }
}

/// Making the segments of `p + q` is making those of `p`, then those of `q`.
pub proof fn lemma_make_all_append(
    segs: Seq<SegmentView>,
    prefix: Seq<char>,
    n: u64,
    maker: SegmentMaker,
    p: Seq<Seq<usize>>,
    q: Seq<Seq<usize>>,
)
    ensures
        make_all(segs, prefix, n, maker, p + q) == make_all(
            make_all(segs, prefix, n, maker, p),
            prefix,
            count_after(n, p.len()),
            maker,
            q,
        ),
    decreases q.len(),
{
    if q.len() == 0 {
        assert(p + q =~= p);
    } else {
        assert((p + q).drop_last() =~= p + q.drop_last());
        lemma_make_all_append(segs, prefix, n, maker, p, q.drop_last());
        lemma_count_after_add(n, p.len(), q.len());
        assert((p + q).last() == q.last());
    }
}

/// Makes one segment from `prevs` as `maker` says, named by `generator`.
pub fn make_segment(
    arena: &mut SegmentArena,
    generator: &mut IdGenerator,
    maker: SegmentMaker,
    prevs: &[usize],
) -> (segment: usize)
    requires
        arena_wf(old(arena)@),
        ids_in_range(prevs@, old(arena)@.len()),
        old(arena)@.len() < usize::MAX,
    ensures
        segment == old(arena)@.len(),
        final(generator).prefix@ == old(generator).prefix@,
        final(generator).n == next_count(old(generator).n),
        final(arena)@ == make_spec(
            old(arena)@,
            maker,
            old(generator).prefix@ + decimal(final(generator).n as nat),
            prevs@,
        ),
        arena_wf(final(arena)@),
{
    let id = generator.next();
    match maker {
        SegmentMaker::Next => CodePathSegment::new_next(arena, id, prevs),
        SegmentMaker::Unreachable => CodePathSegment::new_unreachable(arena, id, prevs),
        SegmentMaker::Disconnected => CodePathSegment::new_disconnected(arena, id, prevs),
    }
}


pub open spec fn pow2(d: nat) -> nat
    decreases d,
{
    if d == 0 {
        1
    } else {
        2 * pow2((d - 1) as nat)
    }
}

/// The leaf in position `i` of each item of `list`.
pub open spec fn column(list: Seq<Rc<SingleOrSplitSegment>>, i: int) -> Seq<usize> {
    Seq::new(list.len(), |j: int| list[j].leaves()[i])
}

/// The part of a column of predecessors that a new segment takes: the
/// positions from `begin` to `end` inclusive, or none at all.
pub open spec fn pick(col: Seq<usize>, range: Option<(usize, usize)>) -> Seq<usize> {
    match range {
        None => Seq::empty(),
        Some((b, e)) => col.subrange(b as int, e + 1),
    }
}

pub open spec fn range_ok(range: Option<(usize, usize)>, len: nat) -> bool {
    match range {
        None => true,
        Some((b, e)) => b <= e + 1 && e < len,
    }
}

/// The predecessors of each leaf of the value that `reduce` makes.
pub open spec fn reduce_prevs(
    list: Seq<Rc<SingleOrSplitSegment>>,
    d: nat,
    range: Option<(usize, usize)>,
) -> Seq<Seq<usize>> {
    Seq::new(pow2(d), |i: int| pick(column(list, i), range))
}

/// `n` indices counting up from `start`.
pub open spec fn consecutive(start: nat, n: nat) -> Seq<usize> {
    Seq::new(n, |i: int| (start + i) as usize)
}

/// Every item of `list` is well formed, of depth `d`.
pub open spec fn list_ok(list: Seq<Rc<SingleOrSplitSegment>>, d: nat) -> bool {
    forall|j: int| 0 <= j < list.len() ==> (#[trigger] list[j]).wf() && list[j].depth() == d
}

/// Every leaf of every item of `list` names a segment of an arena of `len`.
pub open spec fn list_in_range(list: Seq<Rc<SingleOrSplitSegment>>, len: nat) -> bool {
    forall|j: int| 0 <= j < list.len() ==> ids_in_range((#[trigger] list[j]).leaves(), len)
}

pub proof fn lemma_leaves_len(t: &SingleOrSplitSegment)
    requires
        t.wf(),
    ensures
        t.leaves().len() == pow2(t.depth()),
    decreases t,
{
    match t {
        SingleOrSplitSegment::Single(_) => {},
        SingleOrSplitSegment::Split(s) => {
            lemma_leaves_len(&*s.segments.0);
            lemma_leaves_len(&*s.segments.1);
        },
    }
}

pub proof fn lemma_pow2_pos(d: nat)
    ensures
        pow2(d) >= 1,
    decreases d,
{
    if d > 0 {
        lemma_pow2_pos((d - 1) as nat);
    }
}

pub proof fn lemma_any_reachable_append(segs: Seq<SegmentView>, a: Seq<usize>, b: Seq<usize>)
    ensures
        any_reachable(segs, a + b) == (any_reachable(segs, a) || any_reachable(segs, b)),
{
    if any_reachable(segs, a) {
        let i = choose|i: int| 0 <= i < a.len() && #[trigger] segs[a[i] as int].reachable;
        assert((a + b)[i] == a[i]);
    }
    if any_reachable(segs, b) {
        let i = choose|i: int| 0 <= i < b.len() && #[trigger] segs[b[i] as int].reachable;
        assert((a + b)[a.len() + i] == b[i]);
    }
    if any_reachable(segs, a + b) {
        let i = choose|i: int| 0 <= i < (a + b).len() && #[trigger] segs[(a + b)[i] as int].reachable;
        if i < a.len() {
            assert(segs[a[i] as int].reachable);
        } else {
            assert(segs[b[i - a.len()] as int].reachable);
        }
    }
}

impl SingleOrSplitSegment {
    /// The segments at the leaves, left to right.
    pub fn segments(&self) -> (r: Vec<usize>)
        ensures
            r@ == self.leaves(),
        decreases self,
    {
        match self {
            SingleOrSplitSegment::Single(segment) => {
                let mut r: Vec<usize> = Vec::new();
                r.push(*segment);
                assert(r@ =~= seq![*segment]);
                r
            },
            SingleOrSplitSegment::Split(split_segment) => split_segment.segments(),
        }
    }

    /// Whether one of the leaves is reachable.
    pub fn reachable(&self, arena: &SegmentArena) -> (b: bool)
        requires
            ids_in_range(self.leaves(), arena@.len()),
        ensures
            b == any_reachable(arena@, self.leaves()),
        decreases self,
    {
        match self {
            SingleOrSplitSegment::Single(segment) => {
                assert(self.leaves()[0] == *segment);
                let b = arena.is_reachable(*segment);
                b
            },
            SingleOrSplitSegment::Split(split_segment) => split_segment.reachable(arena),
        }
    }
}

impl SplitSegment {
    /// Pairs two halves of equal depth.
    pub fn new(left: Rc<SingleOrSplitSegment>, right: Rc<SingleOrSplitSegment>) -> (r: Self)
        requires
            left.depth() == right.depth(),
            left.depth() < usize::MAX,
        ensures
            r.split_depth == left.depth() + 1,
            r.segments.0 == left,
            r.segments.1 == right,
            left.wf() && right.wf() ==> SingleOrSplitSegment::Split(r).wf(),
            SingleOrSplitSegment::Split(r).leaves() == left.leaves() + right.leaves(),
    {
        let split_depth = left.split_depth() + 1;
        SplitSegment { split_depth, segments: (left, right) }
    }

    /// The segments at the leaves, left to right.
    pub fn segments(&self) -> (r: Vec<usize>)
        ensures
            r@ == self.segments.0.leaves() + self.segments.1.leaves(),
        decreases self,
    {
        let mut left = self.segments.0.segments();
        let mut right = self.segments.1.segments();
        left.append(&mut right);
        left
    }

    /// Whether one of the leaves of either half is reachable.
    pub fn reachable(&self, arena: &SegmentArena) -> (b: bool)
        requires
            ids_in_range(self.segments.0.leaves() + self.segments.1.leaves(), arena@.len()),
        ensures
            b == any_reachable(arena@, self.segments.0.leaves() + self.segments.1.leaves()),
        decreases self,
    {
        let ghost l = self.segments.0.leaves();
        let ghost r = self.segments.1.leaves();
        assert forall|i: int| 0 <= i < l.len() implies (#[trigger] l[i] as int) < arena@.len() by {
            assert((l + r)[i] == l[i]);
        }
        assert forall|i: int| 0 <= i < r.len() implies (#[trigger] r[i] as int) < arena@.len() by {
            assert((l + r)[l.len() + i] == r[i]);
        }
        proof {
            lemma_any_reachable_append(arena@, l, r);
        }
        self.segments.0.reachable(arena) || self.segments.1.reachable(arena)
    }
}


/// The left (`second == false`) or right half of a split.
pub open spec fn half(t: SingleOrSplitSegment, second: bool) -> Rc<SingleOrSplitSegment> {
    match t {
        SingleOrSplitSegment::Split(s) => if second {
            s.segments.1
        } else {
            s.segments.0
        },
        SingleOrSplitSegment::Single(_) => Rc::new(t),
    }
}

/// The predecessors of the leaves of a reduced value are those of its left
/// half, then those of its right half.
pub proof fn lemma_reduce_prevs_split(
    list: Seq<Rc<SingleOrSplitSegment>>,
    lefts: Seq<Rc<SingleOrSplitSegment>>,
    rights: Seq<Rc<SingleOrSplitSegment>>,
    d: nat,
    range: Option<(usize, usize)>,
)
    requires
        d >= 1,
        list_ok(list, d),
        lefts.len() == list.len(),
        rights.len() == list.len(),
        forall|j: int| 0 <= j < list.len() ==> #[trigger] lefts[j] == half(*list[j], false),
        forall|j: int| 0 <= j < list.len() ==> #[trigger] rights[j] == half(*list[j], true),
    ensures
        reduce_prevs(list, d, range) =~= reduce_prevs(lefts, (d - 1) as nat, range)
            + reduce_prevs(rights, (d - 1) as nat, range),
{
    let h = pow2((d - 1) as nat);
    assert forall|j: int| 0 <= j < list.len() implies {
        &&& (#[trigger] list[j]).leaves() == lefts[j].leaves() + rights[j].leaves()
        &&& lefts[j].leaves().len() == h
        &&& rights[j].leaves().len() == h
    } by {
        assert(list[j].wf() && list[j].depth() == d);
        lemma_leaves_len(&*lefts[j]);
        lemma_leaves_len(&*rights[j]);
    }
    assert forall|i: int| 0 <= i < pow2(d) implies #[trigger] reduce_prevs(list, d, range)[i] == (
    reduce_prevs(lefts, (d - 1) as nat, range) + reduce_prevs(rights, (d - 1) as nat, range))[i] by {
        if i < h {
            assert forall|j: int| 0 <= j < list.len() implies #[trigger] column(list, i)[j] == column(lefts, i)[j] by {
                assert(list[j].leaves() == lefts[j].leaves() + rights[j].leaves());
            }
            assert(column(list, i) =~= column(lefts, i));
        } else {
            assert forall|j: int| 0 <= j < list.len() implies #[trigger] column(list, i)[j] == column(rights, i - h)[j] by {
                assert(list[j].leaves() == lefts[j].leaves() + rights[j].leaves());
                assert(lefts[j].leaves().len() == h);
            }
            assert(column(list, i) =~= column(rights, i - h));
        }
    }
}

/// The predecessors of the leaves of a reduced value are segments of the arena.
pub proof fn lemma_reduce_prevs_in_range(
    list: Seq<Rc<SingleOrSplitSegment>>,
    d: nat,
    range: Option<(usize, usize)>,
    len: nat,
)
    requires
        list_ok(list, d),
        list_in_range(list, len),
        range_ok(range, list.len()),
    ensures
        all_in_range(reduce_prevs(list, d, range), len),
{
    assert forall|i: int| 0 <= i < pow2(d) implies ids_in_range(
        #[trigger] reduce_prevs(list, d, range)[i],
        len,
    ) by {
        let col = column(list, i);
        assert forall|j: int| 0 <= j < col.len() implies (#[trigger] col[j] as int) < len by {
            assert(list[j].wf() && list[j].depth() == d);
            lemma_leaves_len(&*list[j]);
            assert(ids_in_range(list[j].leaves(), len));
        }
        let p = pick(col, range);
        assert forall|k: int| 0 <= k < p.len() implies (#[trigger] p[k] as int) < len by {
            match range {
                Some((b, e)) => {
                    assert(p[k] == col[k + b]);
                },
                None => {},
            }
        }
    }
}

impl SingleOrSplitSegment {
    /// Makes one new segment for each leaf position of the items of `list`
    /// (all of depth `split_depth`), from the leaves in that position, in a
    /// value of the same shape.
    pub fn reduce(
        list: &Vec<Rc<SingleOrSplitSegment>>,
        split_depth: usize,
        arena: &mut SegmentArena,
        generator: &mut IdGenerator,
        maker: SegmentMaker,
        range: Option<(usize, usize)>,
    ) -> (r: SingleOrSplitSegment)
        requires
            list_ok(list@, split_depth as nat),
            list_in_range(list@, old(arena)@.len()),
            range_ok(range, list@.len()),
            arena_wf(old(arena)@),
            old(arena)@.len() + pow2(split_depth as nat) < usize::MAX,
        ensures
            r.wf(),
            r.depth() == split_depth,
            r.leaves() == consecutive(old(arena)@.len(), pow2(split_depth as nat)),
            final(arena)@ == make_all(
                old(arena)@,
                old(generator).prefix@,
                old(generator).n,
                maker,
                reduce_prevs(list@, split_depth as nat, range),
            ),
            final(generator).prefix@ == old(generator).prefix@,
            final(generator).n == count_after(old(generator).n, pow2(split_depth as nat)),
            arena_wf(final(arena)@),
        decreases split_depth,
    {
        let ghost segs0 = arena@;
        let ghost prefix = generator.prefix@;
        let ghost n0 = generator.n;
        if split_depth == 0 {
            let mut col: Vec<usize> = Vec::new();
            let mut j: usize = 0;
            while j < list.len()
                invariant
                    j <= list.len(),
                    list_ok(list@, 0),
                    col@ == column(list@, 0).take(j as int),
                decreases list.len() - j,
            {
                assert(list@[j as int].wf() && list@[j as int].depth() == 0);
                match &*list[j] {
                    SingleOrSplitSegment::Single(segment) => {
                        col.push(*segment);
                    },
                    SingleOrSplitSegment::Split(_) => {
                        assert(false);
                    },
                }
                assert(col@ =~= column(list@, 0).take(j + 1));
                j = j + 1;
            }
            assert(col@ =~= column(list@, 0));
            let mut picked: Vec<usize> = Vec::new();
            match range {
                None => {},
                Some((begin, end)) => {
                    let mut k: usize = begin;
                    while k <= end
                        invariant
                            begin <= k <= end + 1,
                            end < col.len(),
                            picked@ == col@.subrange(begin as int, k as int),
                        decreases end + 1 - k,
                    {
                        picked.push(col[k]);
                        assert(picked@ =~= col@.subrange(begin as int, k + 1));
                        k = k + 1;
                    }
                },
            }
            assert(picked@ == pick(col@, range));
            assert(ids_in_range(picked@, segs0.len())) by {
                assert forall|k: int| 0 <= k < picked@.len() implies (#[trigger] picked@[k] as int)
                    < segs0.len() by {
                    let b = match range {
                        Some((b, _)) => b as int,
                        None => 0,
                    };
                    let j = k + b;
                    assert(picked@[k] == col@[j]);
                    assert(ids_in_range(list@[j].leaves(), segs0.len()));
                    assert(list@[j].leaves()[0] == col@[j]);
                }
            }
            let segment = make_segment(arena, generator, maker, picked.as_slice());
            proof {
                let prevs = reduce_prevs(list@, 0, range);
                assert(prevs.drop_last() =~= Seq::<Seq<usize>>::empty());
                assert(prevs.last() == picked@);
                reveal_with_fuel(count_after, 2);
                reveal_with_fuel(make_all, 2);
                assert(count_after(n0, 1) == next_count(n0));
                assert(consecutive(segs0.len(), 1) =~= seq![segment]);
            }
            SingleOrSplitSegment::Single(segment)
        } else {
            let mut lefts: Vec<Rc<SingleOrSplitSegment>> = Vec::new();
            let mut rights: Vec<Rc<SingleOrSplitSegment>> = Vec::new();
            let mut j: usize = 0;
            while j < list.len()
                invariant
                    j <= list.len(),
                    split_depth >= 1,
                    list_ok(list@, split_depth as nat),
                    lefts@.len() == j,
                    rights@.len() == j,
                    forall|k: int| 0 <= k < j ==> #[trigger] lefts@[k] == half(*list@[k], false),
                    forall|k: int| 0 <= k < j ==> #[trigger] rights@[k] == half(*list@[k], true),
                decreases list.len() - j,
            {
                assert(list@[j as int].wf() && list@[j as int].depth() == split_depth);
                match &*list[j] {
                    SingleOrSplitSegment::Split(split_segment) => {
                        lefts.push(Rc::clone(&split_segment.segments.0));
                        rights.push(Rc::clone(&split_segment.segments.1));
                    },
                    SingleOrSplitSegment::Single(_) => {
                        assert(false);
                    },
                }
                j = j + 1;
            }
            let ghost h = pow2((split_depth - 1) as nat);
            proof {
                assert forall|k: int| 0 <= k < list@.len() implies {
                    &&& (#[trigger] lefts@[k]).wf()
                    &&& lefts@[k].depth() == split_depth - 1
                    &&& rights@[k].wf()
                    &&& rights@[k].depth() == split_depth - 1
                    &&& ids_in_range(lefts@[k].leaves(), segs0.len())
                    &&& ids_in_range(rights@[k].leaves(), segs0.len())
                } by {
                    assert(list@[k].wf() && list@[k].depth() == split_depth);
                    assert(ids_in_range(list@[k].leaves(), segs0.len()));
                    let l = lefts@[k].leaves();
                    let r = rights@[k].leaves();
                    assert(list@[k].leaves() == l + r);
                    assert forall|i: int| 0 <= i < l.len() implies (#[trigger] l[i] as int) < segs0.len() by {
                        assert((l + r)[i] == l[i]);
                    }
                    assert forall|i: int| 0 <= i < r.len() implies (#[trigger] r[i] as int) < segs0.len() by {
                        assert((l + r)[l.len() + i] == r[i]);
                    }
                }
                assert forall|k: int| 0 <= k < list@.len() implies {
                    &&& (#[trigger] rights@[k]).wf()
                    &&& rights@[k].depth() == split_depth - 1
                    &&& ids_in_range(rights@[k].leaves(), segs0.len())
                } by {
                    assert(lefts@[k].wf());
                }
                assert(list_ok(lefts@, (split_depth - 1) as nat));
                assert(list_ok(rights@, (split_depth - 1) as nat));
                assert(list_in_range(lefts@, segs0.len()));
                assert(list_in_range(rights@, segs0.len()));
                lemma_pow2_pos((split_depth - 1) as nat);
            }
            let left = Self::reduce(&lefts, split_depth - 1, arena, generator, maker, range);
            let ghost segs1 = arena@;
            let ghost n1 = generator.n;
            proof {
                lemma_reduce_prevs_in_range(lefts@, (split_depth - 1) as nat, range, segs0.len());
                lemma_make_all(segs0, prefix, n0, maker, reduce_prevs(lefts@, (split_depth - 1) as nat, range));
                assert forall|k: int| 0 <= k < rights@.len() implies ids_in_range(
                    (#[trigger] rights@[k]).leaves(),
                    segs1.len(),
                ) by {
                    assert(ids_in_range(rights@[k].leaves(), segs0.len()));
                }
            }
            let right = Self::reduce(&rights, split_depth - 1, arena, generator, maker, range);
            proof {
                lemma_leaves_len(&left);
                lemma_reduce_prevs_split(list@, lefts@, rights@, split_depth as nat, range);
                lemma_make_all_append(
                    segs0,
                    prefix,
                    n0,
                    maker,
                    reduce_prevs(lefts@, (split_depth - 1) as nat, range),
                    reduce_prevs(rights@, (split_depth - 1) as nat, range),
                );
                lemma_count_after_add(n0, h, h);
                assert(left.leaves() + right.leaves() =~= consecutive(segs0.len(), pow2(split_depth as nat)));
            }
            let split = SplitSegment::new(Rc::new(left), Rc::new(right));
            SingleOrSplitSegment::Split(split)
        }
    }
}


/// One list of two predecessors per position: the leaves in the same
/// position of the two halves.
pub open spec fn pair_prevs(a: Seq<usize>, b: Seq<usize>) -> Seq<Seq<usize>> {
    Seq::new(a.len(), |i: int| seq![a[i], b[i]])
}

impl SplitSegment {
    /// Both halves are well formed and of the depth one less than recorded.
    pub open spec fn wf(&self) -> bool {
        SingleOrSplitSegment::Split(*self).wf()
    }

    /// Merges the two halves: the leaf in each position of the result is a new
    /// segment that follows the leaves in that position of both halves.
    pub fn unsplit(&self, arena: &mut SegmentArena, generator: &mut IdGenerator) -> (r:
        SingleOrSplitSegment)
        requires
            self.wf(),
            ids_in_range(self.segments.0.leaves(), old(arena)@.len()),
            ids_in_range(self.segments.1.leaves(), old(arena)@.len()),
            arena_wf(old(arena)@),
            old(arena)@.len() + pow2(self.segments.0.depth()) < usize::MAX,
        ensures
            r.wf(),
            r.depth() == self.split_depth - 1,
            r.leaves() == consecutive(old(arena)@.len(), pow2(self.segments.0.depth())),
            final(arena)@ == make_all(
                old(arena)@,
                old(generator).prefix@,
                old(generator).n,
                SegmentMaker::Next,
                pair_prevs(self.segments.0.leaves(), self.segments.1.leaves()),
            ),
            final(generator).prefix@ == old(generator).prefix@,
            final(generator).n == count_after(old(generator).n, pow2(self.segments.0.depth())),
            arena_wf(final(arena)@),
        decreases self.split_depth,
    {
        let ghost segs0 = arena@;
        let ghost prefix = generator.prefix@;
        let ghost n0 = generator.n;
        let ghost a = self.segments.0.leaves();
        let ghost b = self.segments.1.leaves();
        proof {
            reveal_with_fuel(SingleOrSplitSegment::wf, 3);
            lemma_leaves_len(&*self.segments.0);
            lemma_leaves_len(&*self.segments.1);
        }
        if self.split_depth == 1 {
            let left = match &*self.segments.0 {
                SingleOrSplitSegment::Single(segment) => *segment,
                SingleOrSplitSegment::Split(_) => {
                    assert(false);
                    0
                },
            };
            let right = match &*self.segments.1 {
                SingleOrSplitSegment::Single(segment) => *segment,
                SingleOrSplitSegment::Split(_) => {
                    assert(false);
                    0
                },
            };
            let mut prevs: Vec<usize> = Vec::new();
            prevs.push(left);
            prevs.push(right);
            assert(a[0] == left && b[0] == right);
            assert(prevs@ =~= seq![a[0], b[0]]);
            let segment = make_segment(arena, generator, SegmentMaker::Next, prevs.as_slice());
            proof {
                let p = pair_prevs(a, b);
                reveal_with_fuel(count_after, 2);
                reveal_with_fuel(make_all, 2);
                assert(p.drop_last() =~= Seq::<Seq<usize>>::empty());
                assert(p.last() == prevs@);
                assert(consecutive(segs0.len(), 1) =~= seq![segment]);
            }
            SingleOrSplitSegment::Single(segment)
        } else {
            let (l0, l1) = match &*self.segments.0 {
                SingleOrSplitSegment::Split(split_segment) => (
                    Rc::clone(&split_segment.segments.0),
                    Rc::clone(&split_segment.segments.1),
                ),
                SingleOrSplitSegment::Single(_) => {
                    assert(false);
                    (Rc::clone(&self.segments.0), Rc::clone(&self.segments.0))
                },
            };
            let (r0, r1) = match &*self.segments.1 {
                SingleOrSplitSegment::Split(split_segment) => (
                    Rc::clone(&split_segment.segments.0),
                    Rc::clone(&split_segment.segments.1),
                ),
                SingleOrSplitSegment::Single(_) => {
                    assert(false);
                    (Rc::clone(&self.segments.1), Rc::clone(&self.segments.1))
                },
            };
            let ghost q = pow2((self.split_depth - 2) as nat);
            proof {
                lemma_leaves_len(&*l0);
                lemma_leaves_len(&*r0);
                lemma_leaves_len(&*l1);
                lemma_leaves_len(&*r1);
                lemma_pow2_pos((self.split_depth - 2) as nat);
                assert(a == l0.leaves() + l1.leaves());
                assert(b == r0.leaves() + r1.leaves());
                assert forall|k: int| 0 <= k < q implies (#[trigger] l0.leaves()[k] as int) < segs0.len() by {
                    assert(a[k] == l0.leaves()[k]);
                }
                assert forall|k: int| 0 <= k < q implies (#[trigger] l1.leaves()[k] as int) < segs0.len() by {
                    assert(a[k + q] == l1.leaves()[k]);
                }
                assert forall|k: int| 0 <= k < q implies (#[trigger] r0.leaves()[k] as int) < segs0.len() by {
                    assert(b[k] == r0.leaves()[k]);
                }
                assert forall|k: int| 0 <= k < q implies (#[trigger] r1.leaves()[k] as int) < segs0.len() by {
                    assert(b[k + q] == r1.leaves()[k]);
                }
            }
            let first = SplitSegment::new(l0, r0);
            let x = first.unsplit(arena, generator);
            let ghost segs1 = arena@;
            proof {
                lemma_make_all(segs0, prefix, n0, SegmentMaker::Next, pair_prevs(first.segments.0.leaves(), first.segments.1.leaves()));
                lemma_ids_in_range_grow(l1.leaves(), segs0.len(), segs1.len());
                lemma_ids_in_range_grow(r1.leaves(), segs0.len(), segs1.len());
            }
            let second = SplitSegment::new(l1, r1);
            let y = second.unsplit(arena, generator);
            proof {
                lemma_make_all_append(
                    segs0,
                    prefix,
                    n0,
                    SegmentMaker::Next,
                    pair_prevs(first.segments.0.leaves(), first.segments.1.leaves()),
                    pair_prevs(second.segments.0.leaves(), second.segments.1.leaves()),
                );
                assert(pair_prevs(a, b) =~= pair_prevs(first.segments.0.leaves(), first.segments.1.leaves())
                    + pair_prevs(second.segments.0.leaves(), second.segments.1.leaves()));
                lemma_count_after_add(n0, q, q);
                lemma_leaves_len(&x);
                assert(x.leaves() + y.leaves() =~= consecutive(segs0.len(), pow2(self.segments.0.depth())));
            }
            SingleOrSplitSegment::Split(SplitSegment::new(Rc::new(x), Rc::new(y)))
        }
    }
}

impl SingleOrSplitSegment {
    /// One level less of splitting: a split is merged (see
    /// `SplitSegment::unsplit`); a single segment stays as it is.
    pub fn unsplit(
        self: Rc<Self>,
        arena: &mut SegmentArena,
        generator: &mut IdGenerator,
    ) -> (r: Rc<SingleOrSplitSegment>)
        requires
            self.wf(),
            ids_in_range(self.leaves(), old(arena)@.len()),
            arena_wf(old(arena)@),
            old(arena)@.len() + pow2(self.depth()) < usize::MAX,
        ensures
            r.wf(),
            arena_wf(final(arena)@),
            final(generator).prefix@ == old(generator).prefix@,
            match *self {
                SingleOrSplitSegment::Single(_) => {
                    &&& r == self
                    &&& final(arena)@ == old(arena)@
                    &&& final(generator).n == old(generator).n
                },
                SingleOrSplitSegment::Split(s) => {
                    &&& r.depth() == s.split_depth - 1
                    &&& r.leaves() == consecutive(old(arena)@.len(), pow2(s.segments.0.depth()))
                    &&& final(arena)@ == make_all(
                        old(arena)@,
                        old(generator).prefix@,
                        old(generator).n,
                        SegmentMaker::Next,
                        pair_prevs(s.segments.0.leaves(), s.segments.1.leaves()),
                    )
                    &&& final(generator).n == count_after(
                        old(generator).n,
                        pow2(s.segments.0.depth()),
                    )
                },
            },
    {
        match &*self {
            SingleOrSplitSegment::Single(_) => Rc::clone(&self),
            SingleOrSplitSegment::Split(split_segment) => {
                proof {
                    let l = split_segment.segments.0.leaves();
                    let r = split_segment.segments.1.leaves();
                    assert forall|i: int| 0 <= i < l.len() implies (#[trigger] l[i] as int) < old(arena)@.len() by {
                        assert((l + r)[i] == l[i]);
                    }
                    assert forall|i: int| 0 <= i < r.len() implies (#[trigger] r[i] as int) < old(arena)@.len() by {
                        assert((l + r)[l.len() + i] == r[i]);
                    }
                    assert(pow2(split_segment.split_depth as nat) == 2 * pow2(split_segment.segments.0.depth()));
                }
                Rc::new(split_segment.unsplit(arena, generator))
            },
        }
    }
}


/// The arena and counter after merging a value of `depth` with leaves
/// `leaves` down to `target` depth: each level merges the leaf in each position
/// of the left half with the one in the same position of the right half.
pub open spec fn merge_arena(
    segs: Seq<SegmentView>,
    prefix: Seq<char>,
    n: u64,
    leaves: Seq<usize>,
    depth: nat,
    target: nat,
) -> (Seq<SegmentView>, u64)
    decreases depth,
{
    if depth <= target {
        (segs, n)
    } else {
        let h = pow2((depth - 1) as nat);
        let segs2 = make_all(
            segs,
            prefix,
            n,
            SegmentMaker::Next,
            pair_prevs(leaves.take(h as int), leaves.skip(h as int)),
        );
        merge_arena(
            segs2,
            prefix,
            count_after(n, h),
            consecutive(segs.len(), h),
            (depth - 1) as nat,
            target,
        )
    }
}

proof fn lemma_pow2_monotone(a: nat, b: nat)
    requires
        a <= b,
    ensures
        pow2(a) <= pow2(b),
    decreases b,
{
    if a < b {
        lemma_pow2_monotone(a, (b - 1) as nat);
        lemma_pow2_pos((b - 1) as nat);
    }
}

/// Making segments as `SegmentMaker::Next` from each of `prevs` pushes one
/// segment per list and leaves the segments already there as they were.
pub proof fn lemma_make_all_next_pushes(
    segs: Seq<SegmentView>,
    prefix: Seq<char>,
    n: u64,
    prevs: Seq<Seq<usize>>,
)
    ensures
        make_all(segs, prefix, n, SegmentMaker::Next, prevs).len() == segs.len() + prevs.len(),
        make_all(segs, prefix, n, SegmentMaker::Next, prevs).subrange(0, segs.len() as int)
            == segs,
    decreases prevs.len(),
{
    if prevs.len() > 0 {
        lemma_make_all_next_pushes(segs, prefix, n, prevs.drop_last());
        let before = make_all(segs, prefix, n, SegmentMaker::Next, prevs.drop_last());
        let after = make_all(segs, prefix, n, SegmentMaker::Next, prevs);
        assert(after.subrange(0, segs.len() as int) =~= before.subrange(0, segs.len() as int));
    }
}

/// Merging a value of depth `depth` (with `pow2(depth)` leaves) down to
/// `target` adds exactly `pow2(depth) - pow2(target)` segments after those
/// already in the arena, which stay as they were; at equal depths it changes
/// neither the arena nor the counter.
pub proof fn lemma_merge_arena_count(
    segs: Seq<SegmentView>,
    prefix: Seq<char>,
    n: u64,
    leaves: Seq<usize>,
    depth: nat,
    target: nat,
)
    requires
        target <= depth,
        leaves.len() == pow2(depth),
    ensures
        merge_arena(segs, prefix, n, leaves, depth, target).0.len() + pow2(target) == segs.len()
            + pow2(depth),
        merge_arena(segs, prefix, n, leaves, depth, target).0.subrange(0, segs.len() as int)
            == segs,
        depth == target ==> merge_arena(segs, prefix, n, leaves, depth, target) == (segs, n),
    decreases depth,
{
    if depth > target {
        let h = pow2((depth - 1) as nat);
        let prevs = pair_prevs(leaves.take(h as int), leaves.skip(h as int));
        lemma_make_all_next_pushes(segs, prefix, n, prevs);
        let segs2 = make_all(segs, prefix, n, SegmentMaker::Next, prevs);
        lemma_merge_arena_count(
            segs2,
            prefix,
            count_after(n, h),
            consecutive(segs.len(), h),
            (depth - 1) as nat,
            target,
        );
        let r = merge_arena(segs2, prefix, count_after(n, h), consecutive(segs.len(), h), (depth - 1) as nat, target).0;
        lemma_pow2_monotone(target, (depth - 1) as nat);
        assert(r.subrange(0, segs.len() as int) =~= r.subrange(0, segs2.len() as int).subrange(0, segs.len() as int));
    } else {
        assert(segs.subrange(0, segs.len() as int) =~= segs);
    }
}

/// The leaves of the merged value (see `merge_arena`).
pub open spec fn merge_leaves(len: nat, leaves: Seq<usize>, depth: nat, target: nat) -> Seq<usize>
    decreases depth,
{
    if depth <= target {
        leaves
    } else {
        let h = pow2((depth - 1) as nat);
        merge_leaves(len + h, consecutive(len, h), (depth - 1) as nat, target)
    }
}

/// A position from the start, or counted back from the end when negative.
pub open spec fn normalize(i: int, len: nat) -> int {
    if i >= 0 {
        i
    } else {
        len + i
    }
}

/// `begin` and `end` name an inclusive run of positions of a list of `len`.
pub open spec fn bounds_ok(begin: isize, end: isize, len: nat) -> bool {
    &&& 0 <= normalize(begin as int, len) <= normalize(end as int, len) + 1
    &&& 0 <= normalize(end as int, len) < len
}

/// The position that `i` names in a list of `len` items.
fn normalize_index(i: isize, len: usize) -> (r: usize)
    requires
        0 <= normalize(i as int, len as nat) <= len,
    ensures
        r == normalize(i as int, len as nat),
{
    if i >= 0 {
        i as usize
    } else {
        let back: usize = (-(i + 1)) as usize + 1;
        len - back
    }
}

/// A stack of the heads of the paths that fork at one point: each item has the
/// split depth of the context.
pub struct ForkContext {
    pub upper: Option<usize>,
    pub split_depth: usize,
    pub segments_list: Vec<Rc<SingleOrSplitSegment>>,
}

/// Owns the fork contexts of one code path.
pub struct ForkContextArena {
    pub contexts: Vec<ForkContext>,
}

impl ForkContext {
    /// Every item is well formed, has the split depth of the context, and
    /// names segments of an arena of `len` segments.
    pub open spec fn wf(&self, len: nat) -> bool {
        &&& list_ok(self.segments_list@, self.split_depth as nat)
        &&& list_in_range(self.segments_list@, len)
    }

    pub fn new(arena: &mut ForkContextArena, upper: Option<usize>, split_depth: usize) -> (id:
        usize)
        ensures
            id == old(arena).contexts@.len(),
            final(arena).contexts@.len() == old(arena).contexts@.len() + 1,
            forall|i: int|
                0 <= i < old(arena).contexts@.len() ==> #[trigger] final(arena).contexts@[i]
                    == old(arena).contexts@[i],
            final(arena).contexts@[id as int].upper == upper,
            final(arena).contexts@[id as int].split_depth == split_depth,
            final(arena).contexts@[id as int].segments_list@ == Seq::<Rc<SingleOrSplitSegment>>::empty(),
    {
        let id = arena.contexts.len();
        arena.contexts.push(ForkContext { upper, split_depth, segments_list: Vec::new() });
        id
    }

    /// The last item, if any.
    pub fn maybe_head(&self) -> (r: Option<Rc<SingleOrSplitSegment>>)
        ensures
            r == (if self.segments_list@.len() == 0 {
                None
            } else {
                Some(self.segments_list@.last())
            }),
    {
        if self.segments_list.len() == 0 {
            None
        } else {
            Some(Rc::clone(&self.segments_list[self.segments_list.len() - 1]))
        }
    }

    /// The last item.
    pub fn head(&self) -> (r: Rc<SingleOrSplitSegment>)
        requires
            self.segments_list@.len() > 0,
        ensures
            r == self.segments_list@.last(),
    {
        Rc::clone(&self.segments_list[self.segments_list.len() - 1])
    }

    pub fn empty(&self) -> (b: bool)
        ensures
            b == (self.segments_list@.len() == 0),
    {
        self.segments_list.len() == 0
    }

    /// Whether the last item has a reachable leaf.
    pub fn reachable(&self, arena: &SegmentArena) -> (b: bool)
        requires
            self.wf(arena@.len()),
        ensures
            b == (self.segments_list@.len() > 0 && any_reachable(
                arena@,
                self.segments_list@.last().leaves(),
            )),
    {
        match self.maybe_head() {
            None => false,
            Some(head) => {
                assert(ids_in_range(self.segments_list@[self.segments_list@.len() - 1].leaves(), arena@.len()));
                head.reachable(arena)
            },
        }
    }

    fn make_segments(
        &self,
        arena: &mut SegmentArena,
        generator: &mut IdGenerator,
        maker: SegmentMaker,
        range: Option<(usize, usize)>,
    ) -> (r: Rc<SingleOrSplitSegment>)
        requires
            self.wf(old(arena)@.len()),
            range_ok(range, self.segments_list@.len()),
            arena_wf(old(arena)@),
            old(arena)@.len() + pow2(self.split_depth as nat) < usize::MAX,
        ensures
            r.wf(),
            r.depth() == self.split_depth,
            r.leaves() == consecutive(old(arena)@.len(), pow2(self.split_depth as nat)),
            final(arena)@ == make_all(
                old(arena)@,
                old(generator).prefix@,
                old(generator).n,
                maker,
                reduce_prevs(self.segments_list@, self.split_depth as nat, range),
            ),
            final(generator).prefix@ == old(generator).prefix@,
            final(generator).n == count_after(old(generator).n, pow2(self.split_depth as nat)),
            arena_wf(final(arena)@),
    {
        Rc::new(
            SingleOrSplitSegment::reduce(
                &self.segments_list,
                self.split_depth,
                arena,
                generator,
                maker,
                range,
            ),
        )
    }

    /// The inclusive run of positions that `begin` and `end` name.
    fn normalized_range(&self, begin: isize, end: isize) -> (r: Option<(usize, usize)>)
        requires
            bounds_ok(begin, end, self.segments_list@.len()),
        ensures
            r == Some(
                (
                    normalize(begin as int, self.segments_list@.len()) as usize,
                    normalize(end as int, self.segments_list@.len()) as usize,
                ),
            ),
            range_ok(r, self.segments_list@.len()),
    {
        let len = self.segments_list.len();
        let b = normalize_index(begin, len);
        let e = normalize_index(end, len);
        Some((b, e))
    }

    /// New reachable-if-any segments following the heads in positions
    /// `begin..=end` (negative positions count from the end).
    pub fn make_next(
        &self,
        arena: &mut SegmentArena,
        generator: &mut IdGenerator,
        begin: isize,
        end: isize,
    ) -> (r: Rc<SingleOrSplitSegment>)
        requires
            self.wf(old(arena)@.len()),
            bounds_ok(begin, end, self.segments_list@.len()),
            arena_wf(old(arena)@),
            old(arena)@.len() + pow2(self.split_depth as nat) < usize::MAX,
        ensures
            r.wf(),
            r.depth() == self.split_depth,
            r.leaves() == consecutive(old(arena)@.len(), pow2(self.split_depth as nat)),
            final(arena)@ == make_all(
                old(arena)@,
                old(generator).prefix@,
                old(generator).n,
                SegmentMaker::Next,
                reduce_prevs(
                    self.segments_list@,
                    self.split_depth as nat,
                    Some(
                        (
                            normalize(begin as int, self.segments_list@.len()) as usize,
                            normalize(end as int, self.segments_list@.len()) as usize,
                        ),
                    ),
                ),
            ),
            final(generator).prefix@ == old(generator).prefix@,
            final(generator).n == count_after(old(generator).n, pow2(self.split_depth as nat)),
            arena_wf(final(arena)@),
    {
        let range = self.normalized_range(begin, end);
        self.make_segments(arena, generator, SegmentMaker::Next, range)
    }

    /// New unreachable segments following the heads in positions
    /// `begin..=end` (negative positions count from the end).
    pub fn make_unreachable(
        &self,
        arena: &mut SegmentArena,
        generator: &mut IdGenerator,
        begin: isize,
        end: isize,
    ) -> (r: Rc<SingleOrSplitSegment>)
        requires
            self.wf(old(arena)@.len()),
            bounds_ok(begin, end, self.segments_list@.len()),
            arena_wf(old(arena)@),
            old(arena)@.len() + pow2(self.split_depth as nat) < usize::MAX,
        ensures
            r.wf(),
            r.depth() == self.split_depth,
            r.leaves() == consecutive(old(arena)@.len(), pow2(self.split_depth as nat)),
            final(arena)@ == make_all(
                old(arena)@,
                old(generator).prefix@,
                old(generator).n,
                SegmentMaker::Unreachable,
                reduce_prevs(
                    self.segments_list@,
                    self.split_depth as nat,
                    Some(
                        (
                            normalize(begin as int, self.segments_list@.len()) as usize,
                            normalize(end as int, self.segments_list@.len()) as usize,
                        ),
                    ),
                ),
            ),
            final(generator).prefix@ == old(generator).prefix@,
            final(generator).n == count_after(old(generator).n, pow2(self.split_depth as nat)),
            arena_wf(final(arena)@),
    {
        let range = self.normalized_range(begin, end);
        self.make_segments(arena, generator, SegmentMaker::Unreachable, range)
    }

    /// New unreachable segments with no predecessor, one per leaf position.
    #[allow(non_snake_case)]
    pub fn make_unreachable__missing_begin_end(
        &self,
        arena: &mut SegmentArena,
        generator: &mut IdGenerator,
    ) -> (r: Rc<SingleOrSplitSegment>)
        requires
            self.wf(old(arena)@.len()),
            arena_wf(old(arena)@),
            old(arena)@.len() + pow2(self.split_depth as nat) < usize::MAX,
        ensures
            r.wf(),
            r.depth() == self.split_depth,
            r.leaves() == consecutive(old(arena)@.len(), pow2(self.split_depth as nat)),
            final(arena)@ == make_all(
                old(arena)@,
                old(generator).prefix@,
                old(generator).n,
                SegmentMaker::Unreachable,
                reduce_prevs(self.segments_list@, self.split_depth as nat, None),
            ),
            final(generator).prefix@ == old(generator).prefix@,
            final(generator).n == count_after(old(generator).n, pow2(self.split_depth as nat)),
            arena_wf(final(arena)@),
    {
        self.make_segments(arena, generator, SegmentMaker::Unreachable, None)
    }

    /// New disconnected segments (no predecessor; reachable when one of the
    /// heads in positions `begin..=end` in the same leaf position is).
    pub fn make_disconnected(
        &self,
        arena: &mut SegmentArena,
        generator: &mut IdGenerator,
        begin: isize,
        end: isize,
    ) -> (r: Rc<SingleOrSplitSegment>)
        requires
            self.wf(old(arena)@.len()),
            bounds_ok(begin, end, self.segments_list@.len()),
            arena_wf(old(arena)@),
            old(arena)@.len() + pow2(self.split_depth as nat) < usize::MAX,
        ensures
            r.wf(),
            r.depth() == self.split_depth,
            r.leaves() == consecutive(old(arena)@.len(), pow2(self.split_depth as nat)),
            final(arena)@ == make_all(
                old(arena)@,
                old(generator).prefix@,
                old(generator).n,
                SegmentMaker::Disconnected,
                reduce_prevs(
                    self.segments_list@,
                    self.split_depth as nat,
                    Some(
                        (
                            normalize(begin as int, self.segments_list@.len()) as usize,
                            normalize(end as int, self.segments_list@.len()) as usize,
                        ),
                    ),
                ),
            ),
            final(generator).prefix@ == old(generator).prefix@,
            final(generator).n == count_after(old(generator).n, pow2(self.split_depth as nat)),
            arena_wf(final(arena)@),
    {
        let range = self.normalized_range(begin, end);
        self.make_segments(arena, generator, SegmentMaker::Disconnected, range)
    }
}


impl ForkContext {
    /// Merges `segments` down to the split depth of this context (see
    /// `merge_arena`); a value already of that depth is returned as it is.
    fn merge_extra_segments(
        &self,
        arena: &mut SegmentArena,
        generator: &mut IdGenerator,
        segments: Rc<SingleOrSplitSegment>,
    ) -> (r: Rc<SingleOrSplitSegment>)
        requires
            segments.wf(),
            segments.depth() >= self.split_depth,
            ids_in_range(segments.leaves(), old(arena)@.len()),
            arena_wf(old(arena)@),
            old(arena)@.len() + pow2(segments.depth()) < usize::MAX,
        ensures
            r.wf(),
            r.depth() == self.split_depth,
            segments.depth() == self.split_depth ==> r == segments,
            r.leaves() == merge_leaves(
                old(arena)@.len(),
                segments.leaves(),
                segments.depth(),
                self.split_depth as nat,
            ),
            (final(arena)@, final(generator).n) == merge_arena(
                old(arena)@,
                old(generator).prefix@,
                old(generator).n,
                segments.leaves(),
                segments.depth(),
                self.split_depth as nat,
            ),
            final(generator).prefix@ == old(generator).prefix@,
            ids_in_range(r.leaves(), final(arena)@.len()),
            arena_wf(final(arena)@),
            same_reachability(old(arena)@, final(arena)@),
    {
        let ghost segs0 = arena@;
        let ghost prefix = generator.prefix@;
        let ghost n0 = generator.n;
        if segments.split_depth() == self.split_depth {
            return segments;
        }
        let mut current_segments = segments;
        while current_segments.split_depth() > self.split_depth
            invariant
                current_segments.wf(),
                current_segments.depth() >= self.split_depth,
                ids_in_range(current_segments.leaves(), arena@.len()),
                arena_wf(arena@),
                arena@.len() + pow2(current_segments.depth()) == segs0.len() + pow2(
                    segments.depth(),
                ),
                segs0.len() + pow2(segments.depth()) < usize::MAX,
                generator.prefix@ == prefix,
                merge_arena(
                    arena@,
                    prefix,
                    generator.n,
                    current_segments.leaves(),
                    current_segments.depth(),
                    self.split_depth as nat,
                ) == merge_arena(
                    segs0,
                    prefix,
                    n0,
                    segments.leaves(),
                    segments.depth(),
                    self.split_depth as nat,
                ),
                merge_leaves(
                    arena@.len(),
                    current_segments.leaves(),
                    current_segments.depth(),
                    self.split_depth as nat,
                ) == merge_leaves(
                    segs0.len(),
                    segments.leaves(),
                    segments.depth(),
                    self.split_depth as nat,
                ),
                same_reachability(segs0, arena@),
            decreases current_segments.depth(),
        {
            let ghost before = arena@;
            let ghost n_before = generator.n;
            let ghost cur = current_segments;
            proof {
                lemma_pow2_pos(current_segments.depth());
                match &*cur {
                    SingleOrSplitSegment::Split(s) => {
                        lemma_leaves_len(&*s.segments.0);
                        lemma_leaves_len(&*s.segments.1);
                        let h = pow2((cur.depth() - 1) as nat);
                        assert(cur.leaves().take(h as int) =~= s.segments.0.leaves());
                        assert(cur.leaves().skip(h as int) =~= s.segments.1.leaves());
                        lemma_make_all(
                            before,
                            prefix,
                            n_before,
                            SegmentMaker::Next,
                            pair_prevs(s.segments.0.leaves(), s.segments.1.leaves()),
                        );
                    },
                    SingleOrSplitSegment::Single(_) => {},
                }
            }
            current_segments = current_segments.unsplit(arena, generator);
            proof {
                lemma_leaves_len(&*current_segments);
                assert forall|k: int| 0 <= k < current_segments.leaves().len() implies (
                #[trigger] current_segments.leaves()[k] as int) < arena@.len() by {}
                assert forall|i: int| 0 <= i < segs0.len() implies #[trigger] segs0[i].reachable
                    == arena@[i].reachable by {
                    assert(segs0[i].reachable == before[i].reachable);
                }
            }
        }
        current_segments
    }

    /// Pushes `segments`, merged down to the split depth of the context.
    pub fn add(
        &mut self,
        arena: &mut SegmentArena,
        generator: &mut IdGenerator,
        segments: Rc<SingleOrSplitSegment>,
    )
        requires
            old(self).wf(old(arena)@.len()),
            segments.wf(),
            segments.depth() >= old(self).split_depth,
            ids_in_range(segments.leaves(), old(arena)@.len()),
            arena_wf(old(arena)@),
            old(arena)@.len() + pow2(segments.depth()) < usize::MAX,
        ensures
            final(self).upper == old(self).upper,
            final(self).split_depth == old(self).split_depth,
            final(self).segments_list@.len() == old(self).segments_list@.len() + 1,
            final(self).segments_list@.drop_last() == old(self).segments_list@,
            segments.depth() == old(self).split_depth ==> final(self).segments_list@.last()
                == segments,
            final(self).segments_list@.last().leaves() == merge_leaves(
                old(arena)@.len(),
                segments.leaves(),
                segments.depth(),
                old(self).split_depth as nat,
            ),
            (final(arena)@, final(generator).n) == merge_arena(
                old(arena)@,
                old(generator).prefix@,
                old(generator).n,
                segments.leaves(),
                segments.depth(),
                old(self).split_depth as nat,
            ),
            final(generator).prefix@ == old(generator).prefix@,
            final(arena)@.len() + pow2(old(self).split_depth as nat) == old(arena)@.len() + pow2(
                segments.depth(),
            ),
            final(arena)@.subrange(0, old(arena)@.len() as int) == old(arena)@,
            final(self).segments_list@.last().depth() == old(self).split_depth,
            segments.depth() == old(self).split_depth ==> final(arena)@ == old(arena)@ && final(generator).n
                == old(generator).n,
            final(self).wf(final(arena)@.len()),
            arena_wf(final(arena)@),
            same_reachability(old(arena)@, final(arena)@),
    {
        proof {
            lemma_leaves_len(&*segments);
            lemma_merge_arena_count(
                old(arena)@,
                old(generator).prefix@,
                old(generator).n,
                segments.leaves(),
                segments.depth(),
                old(self).split_depth as nat,
            );
        }
        let merged = self.merge_extra_segments(arena, generator, segments);
        self.segments_list.push(merged);
        proof {
            assert(self.segments_list@.drop_last() =~= old(self).segments_list@);
            assert forall|j: int| 0 <= j < self.segments_list@.len() implies ids_in_range(
                (#[trigger] self.segments_list@[j]).leaves(),
                arena@.len(),
            ) by {
                if j < old(self).segments_list@.len() {
                    assert(ids_in_range(old(self).segments_list@[j].leaves(), old(arena)@.len()));
                    lemma_ids_in_range_grow(self.segments_list@[j].leaves(), old(arena)@.len(), arena@.len());
                }
            }
        }
    }

    /// Replaces the last item by `segments`, merged down to the split depth
    /// of the context.
    pub fn replace_head(
        &mut self,
        arena: &mut SegmentArena,
        generator: &mut IdGenerator,
        segments: Rc<SingleOrSplitSegment>,
    )
        requires
            old(self).wf(old(arena)@.len()),
            old(self).segments_list@.len() > 0,
            segments.wf(),
            segments.depth() >= old(self).split_depth,
            ids_in_range(segments.leaves(), old(arena)@.len()),
            arena_wf(old(arena)@),
            old(arena)@.len() + pow2(segments.depth()) < usize::MAX,
        ensures
            final(self).upper == old(self).upper,
            final(self).split_depth == old(self).split_depth,
            final(self).segments_list@.len() == old(self).segments_list@.len(),
            final(self).segments_list@.drop_last() == old(self).segments_list@.drop_last(),
            segments.depth() == old(self).split_depth ==> final(self).segments_list@.last()
                == segments,
            final(self).segments_list@.last().leaves() == merge_leaves(
                old(arena)@.len(),
                segments.leaves(),
                segments.depth(),
                old(self).split_depth as nat,
            ),
            (final(arena)@, final(generator).n) == merge_arena(
                old(arena)@,
                old(generator).prefix@,
                old(generator).n,
                segments.leaves(),
                segments.depth(),
                old(self).split_depth as nat,
            ),
            final(generator).prefix@ == old(generator).prefix@,
            final(self).wf(final(arena)@.len()),
            arena_wf(final(arena)@),
            same_reachability(old(arena)@, final(arena)@),
    {
        let merged = self.merge_extra_segments(arena, generator, segments);
        let last = self.segments_list.len() - 1;
        self.segments_list.set(last, merged);
        proof {
            assert(self.segments_list@.drop_last() =~= old(self).segments_list@.drop_last());
            assert forall|j: int| 0 <= j < self.segments_list@.len() implies ids_in_range(
                (#[trigger] self.segments_list@[j]).leaves(),
                arena@.len(),
            ) by {
                if j < last {
                    assert(ids_in_range(old(self).segments_list@[j].leaves(), old(arena)@.len()));
                    lemma_ids_in_range_grow(self.segments_list@[j].leaves(), old(arena)@.len(), arena@.len());
                }
            }
        }
    }

    /// Empties the context.
    pub fn clear(&mut self)
        ensures
            final(self).upper == old(self).upper,
            final(self).split_depth == old(self).split_depth,
            final(self).segments_list@ == Seq::<Rc<SingleOrSplitSegment>>::empty(),
    {
        self.segments_list.clear();
    }

    /// Appends the items of `context` to those of `self_` (both of the same
    /// split depth).
    pub fn add_all(arena: &mut ForkContextArena, self_: usize, context: usize)
        requires
            self_ < old(arena).contexts@.len(),
            context < old(arena).contexts@.len(),
            old(arena).contexts@[context as int].split_depth == old(arena).contexts@[self_ as int].split_depth,
        ensures
            final(arena).contexts@.len() == old(arena).contexts@.len(),
            forall|i: int|
                0 <= i < old(arena).contexts@.len() && i != self_ ==> #[trigger] final(arena).contexts@[i] == old(arena).contexts@[i],
            final(arena).contexts@[self_ as int].upper == old(arena).contexts@[self_ as int].upper,
            final(arena).contexts@[self_ as int].split_depth == old(arena).contexts@[self_ as int].split_depth,
            final(arena).contexts@[self_ as int].segments_list@ == old(arena).contexts@[self_ as int].segments_list@ + old(arena).contexts@[context as int].segments_list@,
    {
        let ghost src = old(arena).contexts@[context as int].segments_list@;
        let n = arena.contexts[context].segments_list.len();
        let mut i: usize = 0;
        while i < n
            invariant
                i <= n,
                n == src.len(),
                self_ < arena.contexts@.len(),
                context < arena.contexts@.len(),
                arena.contexts@.len() == old(arena).contexts@.len(),
                arena.contexts@[context as int].segments_list@.len() >= n,
                forall|k: int| 0 <= k < n ==> #[trigger] arena.contexts@[context as int].segments_list@[k] == src[k],
                forall|j: int|
                    0 <= j < old(arena).contexts@.len() && j != self_ ==> #[trigger] arena.contexts@[j]
                        == old(arena).contexts@[j],
                arena.contexts@[self_ as int].upper == old(arena).contexts@[self_ as int].upper,
                arena.contexts@[self_ as int].split_depth == old(arena).contexts@[self_ as int].split_depth,
                arena.contexts@[self_ as int].segments_list@ == old(arena).contexts@[self_ as int].segments_list@ + src.take(i as int),
            decreases n - i,
        {
            let item = Rc::clone(&arena.contexts[context].segments_list[i]);
            arena.contexts[self_].segments_list.push(item);
            assert(src.take(i + 1) == src.take(i as int).push(src[i as int]));
            i = i + 1;
        }
        assert(src.take(n as int) == src);
    }

    /// The first fork context of a code path: split depth 0, holding one new
    /// reachable root segment.
    pub fn new_root(
        arena: &mut ForkContextArena,
        code_path_segment_arena: &mut SegmentArena,
        generator: &mut IdGenerator,
    ) -> (context: usize)
        requires
            arena_wf(old(code_path_segment_arena)@),
            old(code_path_segment_arena)@.len() + 1 < usize::MAX,
        ensures
            context == old(arena).contexts@.len(),
            final(arena).contexts@.len() == old(arena).contexts@.len() + 1,
            forall|i: int|
                0 <= i < old(arena).contexts@.len() ==> #[trigger] final(arena).contexts@[i]
                    == old(arena).contexts@[i],
            final(arena).contexts@[context as int].upper == None::<usize>,
            final(arena).contexts@[context as int].split_depth == 0,
            final(arena).contexts@[context as int].segments_list@.len() == 1,
            final(arena).contexts@[context as int].segments_list@[0].leaves() == seq![
                old(code_path_segment_arena)@.len() as usize,
            ],
            final(arena).contexts@[context as int].wf(final(code_path_segment_arena)@.len()),
            final(code_path_segment_arena)@ == old(code_path_segment_arena)@.push(
                fresh_segment(
                    old(code_path_segment_arena)@,
                    old(generator).prefix@ + decimal(final(generator).n as nat),
                    Seq::empty(),
                    true,
                ),
            ),
            final(generator).prefix@ == old(generator).prefix@,
            final(generator).n == next_count(old(generator).n),
            arena_wf(final(code_path_segment_arena)@),
    {
        let context = Self::new(arena, None, 0);
        let id = generator.next();
        let segment = CodePathSegment::new_root(code_path_segment_arena, id);
        let single = Rc::new(SingleOrSplitSegment::Single(segment));
        assert(single.leaves() == seq![segment]);
        arena.contexts[context].segments_list.push(single);
        proof {
            let c = arena.contexts@[context as int];
            assert(c.segments_list@ =~= seq![single]);
            assert(list_ok(c.segments_list@, 0));
            assert(list_in_range(c.segments_list@, code_path_segment_arena@.len()));
        }
        context
    }

    /// A new empty context below `parent_context`, one split deeper when it
    /// forks the leaving path.
    pub fn new_empty(
        arena: &mut ForkContextArena,
        parent_context: usize,
        fork_leaving_path: Option<bool>,
    ) -> (context: usize)
        requires
            parent_context < old(arena).contexts@.len(),
            old(arena).contexts@[parent_context as int].split_depth < usize::MAX,
        ensures
            context == old(arena).contexts@.len(),
            final(arena).contexts@.len() == old(arena).contexts@.len() + 1,
            forall|i: int|
                0 <= i < old(arena).contexts@.len() ==> #[trigger] final(arena).contexts@[i]
                    == old(arena).contexts@[i],
            final(arena).contexts@[context as int].upper == Some(parent_context),
            final(arena).contexts@[context as int].split_depth == old(arena).contexts@[parent_context as int].split_depth + (if fork_leaving_path == Some(true) {
                1int
            } else {
                0
            }),
            final(arena).contexts@[context as int].segments_list@ == Seq::<
                Rc<SingleOrSplitSegment>,
            >::empty(),
    {
        let parent_context_split_depth = arena.contexts[parent_context].split_depth;
        let leaving = match fork_leaving_path {
            Some(b) => b,
            None => false,
        };
        Self::new(
            arena,
            Some(parent_context),
            if leaving {
                parent_context_split_depth + 1
            } else {
                parent_context_split_depth
            },
        )
    }
}

} // verus!
