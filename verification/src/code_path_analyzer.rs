use vstd::prelude::*;

use std::rc::Rc;

use crate::analyzer::{
    forward_current_to_head, get_innermost_code_path, get_segments_that_include_node,
    is_innermost, lemma_mark_all_used_wf, lemma_record_all, mark_all_used, marked_walks, record_all,
    record_node, started_segments,
};
use crate::code_path::{is_walk, CodePath, CodePathOrigin};
use crate::code_path_segment::{arena_wf, ids_in_range, EnterOrExit, SegmentArena};
use crate::fork_context::{list_in_range, list_ok, ForkContext, ForkContextArena, SingleOrSplitSegment};
use crate::id_generator::IdGenerator;
use crate::code_path_segment::SegmentView;
use crate::syntax_tree::{is_same_or_descendant_spec, NodeView, SyntaxTree};

verus! {

/// For each code path of `paths`, whether its root node (the first node its
/// initial segment entered) is `node` or one of its ancestors in `t`.
pub open spec fn holding_spec(segs: Seq<SegmentView>, paths: Seq<CodePath>, t: Seq<NodeView>, node: usize) -> Seq<
    bool,
> {
    Seq::new(
        paths.len(),
        |c: int| is_same_or_descendant_spec(t, node, segs[paths[c].initial_segment as int].nodes[0].1),
    )
}

/// The code paths of a file as the analysis builds them: every code path
/// in order of start, the one being built, and the arenas that own the
/// code paths, their fork contexts and their segments.
pub struct CodePathAnalyzer {
    pub code_paths: Vec<usize>,
    pub active_code_path: Option<usize>,
    pub id_generator: IdGenerator,
    pub code_path_arena: Vec<CodePath>,
    pub fork_context_arena: ForkContextArena,
    pub code_path_segment_arena: SegmentArena,
}

pub proof fn lemma_code_path_wf_grow(c: CodePath, a: nat, b: nat)
    requires
        c.wf(a),
        a <= b,
    ensures
        c.wf(b),
{
}

pub proof fn lemma_fork_context_wf_grow(f: ForkContext, a: nat, b: nat)
    requires
        f.wf(a),
        a <= b,
    ensures
        f.wf(b),
{
    assert forall|j: int| 0 <= j < f.segments_list@.len() implies ids_in_range(
        (#[trigger] f.segments_list@[j]).leaves(),
        b,
    ) by {
        assert(ids_in_range(f.segments_list@[j].leaves(), a));
    }
}

impl CodePathAnalyzer {
    /// The analysis is consistent: the segment arena is well formed; each
    /// code path names segments of it, a fork context that holds at least
    /// one item, and code paths of the analysis as its children; each fork
    /// context names segments of it; the code paths listed and the active
    /// one exist.
    pub open spec fn wf(&self) -> bool {
        let segs = self.code_path_segment_arena@;
        let paths = self.code_path_arena@;
        let contexts = self.fork_context_arena.contexts@;
        &&& arena_wf(segs)
        &&& forall|c: int|
            0 <= c < paths.len() ==> {
                &&& (#[trigger] paths[c]).wf(segs.len())
                &&& (paths[c].fork_context as int) < contexts.len()
                &&& contexts[paths[c].fork_context as int].segments_list@.len() > 0
                &&& forall|k: int|
                    0 <= k < paths[c].child_code_paths@.len() ==> (#[trigger] paths[c].child_code_paths@[k] as int)
                        < paths.len()
                &&& (paths[c].upper matches Some(u) ==> (u as int) < paths.len())
            }
        &&& forall|f: int| 0 <= f < contexts.len() ==> (#[trigger] contexts[f]).wf(segs.len())
        &&& forall|i: int| 0 <= i < self.code_paths@.len() ==> (#[trigger] self.code_paths@[i] as int) < paths.len()
        &&& (self.active_code_path matches Some(a) ==> (a as int) < paths.len())
    }

    /// An analysis with no code path yet; its code paths are named `s1`,
    /// `s2`, ...
    pub fn new() -> (r: Self)
        ensures
            r.wf(),
            r.code_paths@.len() == 0,
            r.active_code_path is None,
            r.code_path_arena@.len() == 0,
            r.code_path_segment_arena@.len() == 0,
            r.id_generator.prefix@ == "s"@,
            r.id_generator.n == 0,
    {
        CodePathAnalyzer {
            code_paths: Vec::new(),
            active_code_path: None,
            id_generator: IdGenerator::new("s"),
            code_path_arena: Vec::new(),
            fork_context_arena: ForkContextArena { contexts: Vec::new() },
            code_path_segment_arena: SegmentArena::new(),
        }
    }

    /// The segments that the head of the active code path's fork context
    /// holds.
    pub open spec fn head_leaves(&self, a: int) -> Seq<usize> {
        self.fork_context_arena.contexts@[self.code_path_arena@[a].fork_context as int].segments_list@.last().leaves()
    }

    /// The current segments of code path `a`, none where it has none.
    pub open spec fn current_leaves(&self, a: int) -> Seq<usize> {
        match self.code_path_arena@[a].current_segments {
            Some(c) => c.leaves(),
            None => Seq::empty(),
        }
    }

    /// Moves the current segments of the active code path to the head of its
    /// fork context: the segments that start are marked as used (see
    /// `started_segments`), and the head becomes the current segments.
    /// Returns the segments that started.
    pub fn forward_current_to_head(&mut self) -> (r: Vec<usize>)
        requires
            old(self).wf(),
            old(self).active_code_path is Some,
        ensures
            final(self).wf(),
            ({
                let a = old(self).active_code_path->0 as int;
                let head = old(self).fork_context_arena.contexts@[old(self).code_path_arena@[a].fork_context as int].segments_list@.last();
                &&& r@ == started_segments(old(self).current_leaves(a), old(self).head_leaves(a))
                &&& final(self).code_path_segment_arena@ == mark_all_used(
                    old(self).code_path_segment_arena@,
                    r@,
                )
                &&& final(self).code_path_arena@ == old(self).code_path_arena@.update(
                    a,
                    CodePath { current_segments: Some(head), ..old(self).code_path_arena@[a] },
                )
            }),
            final(self).code_paths@ == old(self).code_paths@,
            final(self).active_code_path == old(self).active_code_path,
            final(self).fork_context_arena.contexts@ == old(self).fork_context_arena.contexts@,
            final(self).id_generator == old(self).id_generator,
            final(self).code_path_segment_arena@.len() == old(self).code_path_segment_arena@.len(),
    {
        let a = match self.active_code_path {
            Some(a) => a,
            None => 0,
        };
        let ghost segs0 = self.code_path_segment_arena@;
        let fc = self.code_path_arena[a].fork_context;
        assert(self.fork_context_arena.contexts@[fc as int].wf(segs0.len()));
        let head: Rc<SingleOrSplitSegment> = self.fork_context_arena.contexts[fc].head();
        let head_leaves = head.segments();
        let current: Vec<usize> = match &self.code_path_arena[a].current_segments {
            Some(c) => c.segments(),
            None => Vec::new(),
        };
        proof {
            let list = self.fork_context_arena.contexts@[fc as int].segments_list@;
            assert(list[list.len() - 1] == list.last());
            assert(list_in_range(list, segs0.len()));
            assert(ids_in_range(list[list.len() - 1].leaves(), segs0.len()));
        }
        let started = forward_current_to_head(&mut self.code_path_segment_arena, current.as_slice(), head_leaves.as_slice());
        proof {
            crate::analyzer::lemma_started_in_range(current@, head_leaves@, segs0.len());
        }
        let ghost paths0 = self.code_path_arena@;
        let mut path = self.code_path_arena.remove(a);
        path.current_segments = Some(head);
        self.code_path_arena.insert(a, path);
        proof {
            lemma_mark_all_used_wf(segs0, started@);
            crate::analyzer::lemma_started_in_range(current@, head_leaves@, segs0.len());
            let list = self.fork_context_arena.contexts@[fc as int].segments_list@;
            assert(list_ok(list, self.fork_context_arena.contexts@[fc as int].split_depth as nat));
            assert(list[list.len() - 1] == list.last());
            assert(self.code_path_arena@ =~= paths0.update(a as int, CodePath { current_segments: Some(list.last()), ..paths0[a as int] }));
        }
        started
    }

    /// Leaves the current segments of the active code path: it has no
    /// current segments any more. Returns the segments that end.
    pub fn leave_from_current_segment(&mut self) -> (r: Vec<usize>)
        requires
            old(self).wf(),
            old(self).active_code_path is Some,
        ensures
            final(self).wf(),
            ({
                let a = old(self).active_code_path->0 as int;
                &&& r@ == old(self).current_leaves(a)
                &&& final(self).code_path_arena@ == old(self).code_path_arena@.update(
                    a,
                    CodePath { current_segments: None, ..old(self).code_path_arena@[a] },
                )
            }),
            final(self).code_path_segment_arena@ == old(self).code_path_segment_arena@,
            final(self).code_paths@ == old(self).code_paths@,
            final(self).active_code_path == old(self).active_code_path,
            final(self).fork_context_arena.contexts@ == old(self).fork_context_arena.contexts@,
    {
        let a = match self.active_code_path {
            Some(a) => a,
            None => 0,
        };
        let ended: Vec<usize> = match &self.code_path_arena[a].current_segments {
            Some(c) => c.segments(),
            None => Vec::new(),
        };
        let ghost paths0 = self.code_path_arena@;
        let mut path = self.code_path_arena.remove(a);
        path.current_segments = None;
        self.code_path_arena.insert(a, path);
        assert(self.code_path_arena@ =~= paths0.update(a as int, CodePath { current_segments: None, ..paths0[a as int] }));
        ended
    }

    /// Starts a code path of origin `origin` inside the active one (whose
    /// current segments first move to its head): it gets the next
    /// identifier, becomes a child of the active code path, joins the list of
    /// code paths, and becomes the active one. Returns its index.
    pub fn start_code_path(&mut self, origin: CodePathOrigin) -> (c: usize)
        requires
            old(self).wf(),
            old(self).code_path_segment_arena@.len() + 2 < usize::MAX,
        ensures
            final(self).wf(),
            c == old(self).code_path_arena@.len(),
            final(self).code_path_arena@.len() == c + 1,
            final(self).code_path_arena@[c as int].origin == origin,
            final(self).code_path_arena@[c as int].upper == old(self).active_code_path,
            final(self).code_path_arena@[c as int].id@ == old(self).id_generator.prefix@ + crate::text::decimal(
                crate::id_generator::next_count(old(self).id_generator.n) as nat,
            ),
            final(self).code_paths@ == old(self).code_paths@.push(c),
            final(self).active_code_path == Some(c),
            final(self).code_path_segment_arena@.len() == old(self).code_path_segment_arena@.len() + 1,
            old(self).active_code_path matches Some(u) ==> final(self).code_path_arena@[u as int].child_code_paths@
                == old(self).code_path_arena@[u as int].child_code_paths@.push(c),
    {
        match self.active_code_path {
            Some(_) => {
                self.forward_current_to_head();
            },
            None => {},
        }
        let upper = self.active_code_path;
        let ghost paths0 = self.code_path_arena@;
        let ghost contexts0 = self.fork_context_arena.contexts@;
        let ghost segs0 = self.code_path_segment_arena@;
        let ghost generator0 = self.id_generator;
        let id = self.id_generator.next();
        let c = CodePath::new(
            &mut self.code_path_arena,
            &mut self.fork_context_arena,
            &mut self.code_path_segment_arena,
            id,
            origin,
            upper,
        );
        self.code_paths.push(c);
        self.active_code_path = Some(c);
        proof {
            let segs = self.code_path_segment_arena@;
            let paths = self.code_path_arena@;
            let contexts = self.fork_context_arena.contexts@;
            assert forall|f: int| 0 <= f < contexts.len() implies (#[trigger] contexts[f]).wf(segs.len()) by {
                if f < contexts0.len() {
                    assert(contexts[f] == contexts0[f]);
                    lemma_fork_context_wf_grow(contexts0[f], segs0.len(), segs.len());
                } else {
                    assert(contexts[f] == contexts.last());
                }
            }
            assert forall|p: int| 0 <= p < paths.len() implies {
                &&& (#[trigger] paths[p]).wf(segs.len())
                &&& (paths[p].fork_context as int) < contexts.len()
                &&& contexts[paths[p].fork_context as int].segments_list@.len() > 0
                &&& forall|k: int|
                    0 <= k < paths[p].child_code_paths@.len() ==> (#[trigger] paths[p].child_code_paths@[k] as int)
                        < paths.len()
                &&& (paths[p].upper matches Some(u) ==> (u as int) < paths.len())
            } by {
                if p < paths0.len() {
                    let q = paths0[p];
                    assert(q.wf(segs0.len()));
                    lemma_code_path_wf_grow(q, segs0.len(), segs.len());
                    if Some(p as usize) != upper {
                        assert(paths[p] == q);
                    } else {
                        assert(paths[p].child_code_paths@ == q.child_code_paths@.push(c));
                        assert forall|k: int| 0 <= k < paths[p].child_code_paths@.len() implies (#[trigger] paths[p].child_code_paths@[k] as int)
                            < paths.len() by {
                            if k < q.child_code_paths@.len() {
                                assert(paths[p].child_code_paths@[k] == q.child_code_paths@[k]);
                            }
                        }
                    }
                    assert(contexts[q.fork_context as int] == contexts0[q.fork_context as int]);
                } else {
                    assert(p == c);
                    assert(paths[p].fork_context == contexts0.len());
                    assert(contexts[paths[p].fork_context as int] == contexts.last());
                    assert(paths[p].wf(segs.len()));
                }
            }
        }
        c
    }

    /// The innermost code path that holds a node: the first code path, in
    /// order of start, whose root holds the node while none of its children
    /// does (`holds[c]` says whether code path `c`'s root is the node or an
    /// ancestor of it).
    pub fn get_innermost_code_path(&self, holds: &Vec<bool>) -> (r: usize)
        requires
            self.wf(),
            holds@.len() == self.code_path_arena@.len(),
            exists|i: int|
                0 <= i < self.code_paths@.len() && is_innermost(
                    self.code_path_arena@,
                    holds@,
                    #[trigger] self.code_paths@[i] as int,
                ),
        ensures
            exists|i: int|
                0 <= i < self.code_paths@.len() && self.code_paths@[i] == r && is_innermost(
                    self.code_path_arena@,
                    holds@,
                    r as int,
                ) && forall|j: int|
                    0 <= j < i ==> !is_innermost(self.code_path_arena@, holds@, #[trigger] self.code_paths@[j] as int),
    {
        get_innermost_code_path(&self.code_path_arena, &self.code_paths, holds)
    }

    /// Which code paths hold `node` of `tree`: for each code path, whether its
    /// root node (the first node its initial segment entered) is `node` or
    /// one of its ancestors.
    pub fn code_paths_holding(&self, tree: &SyntaxTree, node: usize) -> (r: Vec<bool>)
        requires
            self.wf(),
            tree.wf(),
            node < tree@.len(),
            forall|c: int|
                0 <= c < self.code_path_arena@.len() ==> self.code_path_segment_arena@[(
                #[trigger] self.code_path_arena@[c]).initial_segment as int].nodes.len() > 0,
        ensures
            r@ == holding_spec(self.code_path_segment_arena@, self.code_path_arena@, tree@, node),
    {
        let mut r: Vec<bool> = Vec::new();
        let mut c: usize = 0;
        while c < self.code_path_arena.len()
            invariant
                self.wf(),
                tree.wf(),
                node < tree@.len(),
                forall|c: int|
                    0 <= c < self.code_path_arena@.len() ==> self.code_path_segment_arena@[(
                    #[trigger] self.code_path_arena@[c]).initial_segment as int].nodes.len() > 0,
                c <= self.code_path_arena@.len(),
                r@ == holding_spec(self.code_path_segment_arena@, self.code_path_arena@, tree@, node).take(
                    c as int,
                ),
            decreases self.code_path_arena.len() - c,
        {
            let path = &self.code_path_arena[c];
            assert(path.wf(self.code_path_segment_arena@.len()));
            let root = path.root_node(&self.code_path_segment_arena);
            let holds = tree.is_same_or_descendant_of(node, root);
            r.push(holds);
            assert(r@ =~= holding_spec(self.code_path_segment_arena@, self.code_path_arena@, tree@, node).take(
                c + 1,
            ));
            c = c + 1;
        }
        assert(r@ =~= holding_spec(self.code_path_segment_arena@, self.code_path_arena@, tree@, node));
        r
    }

    /// The innermost code path that holds `node` of `tree` (see
    /// `get_innermost_code_path`), with which code paths hold it read off
    /// the tree.
    pub fn get_innermost_code_path_of_node(&self, tree: &SyntaxTree, node: usize) -> (r: usize)
        requires
            self.wf(),
            tree.wf(),
            node < tree@.len(),
            forall|c: int|
                0 <= c < self.code_path_arena@.len() ==> self.code_path_segment_arena@[(
                #[trigger] self.code_path_arena@[c]).initial_segment as int].nodes.len() > 0,
            exists|i: int|
                0 <= i < self.code_paths@.len() && is_innermost(
                    self.code_path_arena@,
                    holding_spec(self.code_path_segment_arena@, self.code_path_arena@, tree@, node),
                    #[trigger] self.code_paths@[i] as int,
                ),
        ensures
            exists|i: int|
                0 <= i < self.code_paths@.len() && self.code_paths@[i] == r && is_innermost(
                    self.code_path_arena@,
                    holding_spec(self.code_path_segment_arena@, self.code_path_arena@, tree@, node),
                    r as int,
                ) && forall|j: int|
                    0 <= j < i ==> !is_innermost(
                        self.code_path_arena@,
                        holding_spec(self.code_path_segment_arena@, self.code_path_arena@, tree@, node),
                        #[trigger] self.code_paths@[j] as int,
                    ),
    {
        let holds = self.code_paths_holding(tree, node);
        self.get_innermost_code_path(&holds)
    }

    /// The segments of all code paths that recorded entering `node`.
    pub fn get_segments_that_include_node_enter(&self, node: usize) -> (r: Vec<usize>)
        requires
            self.wf(),
        ensures
            forall|k: int|
                0 <= k < r@.len() ==> (#[trigger] r@[k] as int) < self.code_path_segment_arena@.len()
                    && self.code_path_segment_arena@[r@[k] as int].nodes.contains((EnterOrExit::Enter, node)),
            exists|walks: Seq<Seq<usize>>|
                {
                    &&& walks.len() == self.code_paths@.len()
                    &&& forall|k: int|
                        0 <= k < walks.len() ==> is_walk(
                            self.code_path_segment_arena@,
                            self.code_path_arena@[self.code_paths@[k] as int].initial_segment,
                            true,
                            #[trigger] walks[k],
                        )
                    &&& r@ == marked_walks(self.code_path_segment_arena@, walks, (EnterOrExit::Enter, node))
                },
    {
        get_segments_that_include_node(
            &self.code_path_segment_arena,
            &self.code_path_arena,
            &self.code_paths,
            EnterOrExit::Enter,
            node,
        )
    }

    /// The segments of all code paths that recorded leaving `node`.
    pub fn get_segments_that_include_node_exit(&self, node: usize) -> (r: Vec<usize>)
        requires
            self.wf(),
        ensures
            forall|k: int|
                0 <= k < r@.len() ==> (#[trigger] r@[k] as int) < self.code_path_segment_arena@.len()
                    && self.code_path_segment_arena@[r@[k] as int].nodes.contains((EnterOrExit::Exit, node)),
            exists|walks: Seq<Seq<usize>>|
                {
                    &&& walks.len() == self.code_paths@.len()
                    &&& forall|k: int|
                        0 <= k < walks.len() ==> is_walk(
                            self.code_path_segment_arena@,
                            self.code_path_arena@[self.code_paths@[k] as int].initial_segment,
                            true,
                            #[trigger] walks[k],
                        )
                    &&& r@ == marked_walks(self.code_path_segment_arena@, walks, (EnterOrExit::Exit, node))
                },
    {
        get_segments_that_include_node(
            &self.code_path_segment_arena,
            &self.code_path_arena,
            &self.code_paths,
            EnterOrExit::Exit,
            node,
        )
    }

    /// Records `node` in the current segments of the active code path, as
    /// entered or (when `leaving`) as left.
    pub fn record_node(&mut self, node: usize, leaving: bool)
        requires
            old(self).wf(),
            old(self).active_code_path is Some,
        ensures
            final(self).wf(),
            final(self).code_path_segment_arena@ == record_all(
                old(self).code_path_segment_arena@,
                old(self).current_leaves(old(self).active_code_path->0 as int),
                (if leaving { EnterOrExit::Exit } else { EnterOrExit::Enter }, node),
            ),
            final(self).code_path_arena@ == old(self).code_path_arena@,
            final(self).code_paths@ == old(self).code_paths@,
            final(self).active_code_path == old(self).active_code_path,
            final(self).fork_context_arena.contexts@ == old(self).fork_context_arena.contexts@,
    {
        let a = match self.active_code_path {
            Some(a) => a,
            None => 0,
        };
        let ghost segs0 = self.code_path_segment_arena@;
        let current: Vec<usize> = match &self.code_path_arena[a].current_segments {
            Some(c) => c.segments(),
            None => Vec::new(),
        };
        assert(self.code_path_arena@[a as int].wf(segs0.len()));
        record_node(&mut self.code_path_segment_arena, current.as_slice(), node, leaving);
        proof {
            let mark = if leaving { EnterOrExit::Exit } else { EnterOrExit::Enter };
            lemma_record_all(segs0, current@, (mark, node));
        }
    }

    /// Ends the active code path (whose final segments its state has made):
    /// it leaves its current segments, and the code path it was started in
    /// becomes the active one. Returns the segments that end.
    pub fn end_code_path(&mut self) -> (r: Vec<usize>)
        requires
            old(self).wf(),
            old(self).active_code_path is Some,
        ensures
            final(self).wf(),
            ({
                let a = old(self).active_code_path->0 as int;
                &&& r@ == old(self).current_leaves(a)
                &&& final(self).code_path_arena@ == old(self).code_path_arena@.update(
                    a,
                    CodePath { current_segments: None, ..old(self).code_path_arena@[a] },
                )
                &&& final(self).active_code_path == old(self).code_path_arena@[a].upper
            }),
            final(self).code_path_segment_arena@ == old(self).code_path_segment_arena@,
            final(self).code_paths@ == old(self).code_paths@,
    {
        let a = match self.active_code_path {
            Some(a) => a,
            None => 0,
        };
        let upper = self.code_path_arena[a].upper;
        let ended = self.leave_from_current_segment();
        assert(self.code_path_arena@[a as int].upper == upper);
        self.active_code_path = upper;
        ended
    }

}

} // verus!
