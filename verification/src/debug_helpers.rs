use vstd::prelude::*;

pub mod reach;

use crate::code_path::CodePath;
use crate::code_path_segment::{ids_in_range, SegmentArena, SegmentView};
use crate::text::{concat, str_eq};

verus! {

/// How a segment is named in the dumps: its identifier, with `!` after an
/// unreachable one.
pub open spec fn segment_label_spec(s: SegmentView) -> Seq<char> {
    if s.reachable {
        s.id
    } else {
        s.id + seq!['!']
    }
}

pub fn get_id(arena: &SegmentArena, segment: usize) -> (r: String)
    requires
        segment < arena@.len(),
    ensures
        r@ == segment_label_spec(arena@[segment as int]),
{
    let s = &arena.segments[segment];
    assert(s@ == arena@[segment as int]);
    if s.reachable {
        s.id.clone()
    } else {
        proof {
            reveal_strlit("!");
        }
        concat(s.id.as_str(), "!")
    }
}

/// How a node is named in the dumps: its kind, `:` and the label where
/// there is one, and its text in parentheses where it is shown (for
/// identifiers and strings).
pub open spec fn node_to_string_spec(kind: Seq<char>, label: Option<Seq<char>>, text: Option<Seq<char>>) -> Seq<char> {
    let base = kind + match label {
        Some(l) => seq![':'] + l,
        None => Seq::empty(),
    };
    match text {
        Some(t) => base + seq![' ', '('] + t + seq![')'],
        None => base,
    }
}

pub fn node_to_string(kind: &str, label: Option<&str>, text: Option<&str>) -> (r: String)
    ensures
        r@ == node_to_string_spec(
            kind@,
            match label {
                Some(l) => Some(l@),
                None => None,
            },
            match text {
                Some(t) => Some(t@),
                None => None,
            },
        ),
{
    proof {
        reveal_strlit(":");
        reveal_strlit(" (");
        reveal_strlit(")");
    }
    let base = match label {
        Some(l) => {
            let with_colon = concat(kind, ":");
            concat(with_colon.as_str(), l)
        },
        None => String::from_str(kind),
    };
    let r = match text {
        Some(t) => {
            let a = concat(base.as_str(), " (");
            let b = concat(a.as_str(), t);
            concat(b.as_str(), ")")
        },
        None => base,
    };
    assert(r@ =~= node_to_string_spec(
        kind@,
        match label {
            Some(l) => Some(l@),
            None => None,
        },
        match text {
            Some(t) => Some(t@),
            None => None,
        },
    ));
    r
}

/// The work left for a segment not yet walked: two steps per successor,
/// plus two.
pub open spec fn segment_weight(segs: Seq<SegmentView>, s: int) -> nat {
    2 * segs[s].all_next_segments.len() + 2
}

/// The work left for the segments not yet walked.
pub open spec fn undone_weight(segs: Seq<SegmentView>, done: Seq<bool>) -> nat
    decreases done.len(),
{
    if done.len() == 0 {
        0
    } else {
        let i = done.len() - 1;
        undone_weight(segs, done.drop_last()) + if done.last() {
            0nat
        } else {
            segment_weight(segs, i)
        }
    }
}

/// The work left for one entry of the stack: a fresh entry is one step (it
/// is skipped or its segment's weight pays for it); an entry part-way
/// through a segment's successors two steps per successor left, plus one.
pub open spec fn entry_weight(segs: Seq<SegmentView>, e: (usize, usize)) -> nat {
    if e.1 == 0 {
        1
    } else {
        (2 * (segs[e.0 as int].all_next_segments.len() - e.1) + 1) as nat
    }
}

pub open spec fn stack_weight(segs: Seq<SegmentView>, stack: Seq<(usize, usize)>) -> nat
    decreases stack.len(),
{
    if stack.len() == 0 {
        0
    } else {
        stack_weight(segs, stack.drop_last()) + entry_weight(segs, stack.last())
    }
}

proof fn lemma_stack_weight_prepend(segs: Seq<SegmentView>, e: (usize, usize), stack: Seq<(usize, usize)>)
    ensures
        stack_weight(segs, seq![e] + stack) == entry_weight(segs, e) + stack_weight(segs, stack),
    decreases stack.len(),
{
    let t = seq![e] + stack;
    assert(t.len() > 0);
    assert(stack_weight(segs, t) == stack_weight(segs, t.drop_last()) + entry_weight(segs, t.last()));
    if stack.len() > 0 {
        lemma_stack_weight_prepend(segs, e, stack.drop_last());
        assert(t.drop_last() =~= seq![e] + stack.drop_last());
        assert(t.last() == stack.last());
    } else {
        assert(t.drop_last() =~= Seq::<(usize, usize)>::empty());
        assert(t.last() == e);
        assert(stack_weight(segs, Seq::<(usize, usize)>::empty()) == 0);
    }
}

proof fn lemma_undone_set(segs: Seq<SegmentView>, done: Seq<bool>, s: int)
    requires
        0 <= s < done.len(),
        !done[s],
    ensures
        undone_weight(segs, done.update(s, true)) + segment_weight(segs, s) == undone_weight(segs, done),
    decreases done.len(),
{
    let u = done.update(s, true);
    if s < done.len() - 1 {
        assert(u.drop_last() =~= done.drop_last().update(s, true));
        lemma_undone_set(segs, done.drop_last(), s);
    } else {
        assert(u.drop_last() =~= done.drop_last());
    }
}

proof fn lemma_undone_same(segs: Seq<SegmentView>, done: Seq<bool>, s: int)
    requires
        0 <= s < done.len(),
        done[s],
    ensures
        undone_weight(segs, done.update(s, true)) == undone_weight(segs, done),
{
    assert(done.update(s, true) =~= done);
}


/// Where the walk that draws a code path stands: the segments walked, the
/// stack of (segment, successor position) entries, the identifier the last
/// edge ended at, and the text so far.
pub struct DotWalk {
    pub done: Seq<bool>,
    pub stack: Seq<(usize, usize)>,
    pub last_id: Option<Seq<char>>,
    pub text: Seq<char>,
}

/// The identifier an optional string holds.
pub open spec fn id_view(o: Option<String>) -> Option<Seq<char>> {
    match o {
        Some(s) => Some(s@),
        None => None,
    }
}

/// One step of the walk: take the entry on top of the stack; an entry at
/// the start of a segment already walked is dropped; otherwise the segment
/// is walked and, where it has a successor at the entry's position, the
/// edge to it is written (going on from the last edge with `->` where that
/// ended at this segment, else as a new chain after `;` and a line break),
/// the entry for the next position goes to the bottom of the stack and the
/// successor's first entry to the top.
pub open spec fn dot_step(segs: Seq<SegmentView>, w: DotWalk) -> DotWalk {
    let (segment, index) = w.stack.last();
    let rest = w.stack.drop_last();
    if w.done[segment as int] && index == 0 {
        DotWalk { stack: rest, ..w }
    } else {
        let done = w.done.update(segment as int, true);
        let nexts = segs[segment as int].all_next_segments;
        if index >= nexts.len() {
            DotWalk { done, stack: rest, ..w }
        } else {
            let next = nexts[index as int];
            let sid = segs[segment as int].id;
            let nid = segs[next as int].id;
            DotWalk {
                done,
                stack: (seq![(segment, (index + 1) as usize)] + rest).push((next, 0usize)),
                last_id: Some(nid),
                text: if w.last_id == Some(sid) {
                    w.text + "->"@ + nid
                } else {
                    w.text + ";\n"@ + sid + "->"@ + nid
                },
            }
        }
    }
}

/// The walk after at most `fuel` steps (it stops when the stack is empty).
pub open spec fn dot_run(segs: Seq<SegmentView>, w: DotWalk, fuel: nat) -> DotWalk
    decreases fuel,
{
    if fuel == 0 || w.stack.len() == 0 {
        w
    } else {
        dot_run(segs, dot_step(segs, w), (fuel - 1) as nat)
    }
}

/// The walk from the initial segment, before its first step.
pub open spec fn dot_start(segs: Seq<SegmentView>, initial: usize) -> DotWalk {
    DotWalk {
        done: Seq::new(segs.len(), |i: int| false),
        stack: seq![(initial, 0usize)],
        last_id: Some(segs[initial as int].id),
        text: "initial->"@ + segs[initial as int].id,
    }
}

/// Steps enough for the walk from `initial` to end.
pub open spec fn dot_fuel(segs: Seq<SegmentView>, initial: usize) -> nat {
    undone_weight(segs, Seq::new(segs.len(), |i: int| false)) + stack_weight(segs, seq![(initial, 0usize)])
}

/// The whole walk from the initial segment of a code path.
pub open spec fn dot_walk(segs: Seq<SegmentView>, initial: usize) -> DotWalk {
    dot_run(segs, dot_start(segs, initial), dot_fuel(segs, initial))
}

/// The arrows from `list` to a final node (`arrow` is `->final` or
/// `->thrown`): the first goes on from the last edge where that ended at its
/// segment; each other one is a chain of its own.
pub open spec fn final_arrows(segs: Seq<SegmentView>, list: Seq<usize>, last: Option<Seq<char>>, arrow: Seq<char>) -> Seq<char>
    decreases list.len(),
{
    if list.len() == 0 {
        Seq::empty()
    } else {
        let id = segs[list.last() as int].id;
        let from = if list.len() == 1 {
            last
        } else {
            None
        };
        final_arrows(segs, list.drop_last(), last, arrow) + if from == Some(id) {
            arrow
        } else {
            ";\n"@ + id + arrow
        }
    }
}

/// The last identifier after arrows from `list` to a final node.
pub open spec fn last_after(list: Seq<usize>, last: Option<Seq<char>>) -> Option<Seq<char>> {
    if list.len() == 0 {
        last
    } else {
        None
    }
}

/// The `dot` text of a code path: the walk's edges, then the arrows from
/// its returned segments to `final` and from its thrown ones to `thrown`,
/// then `;`.
pub open spec fn dot_text(segs: Seq<SegmentView>, code_path: CodePath) -> Seq<char> {
    let w = dot_walk(segs, code_path.initial_segment);
    let returned = code_path.returned_segments@;
    w.text + final_arrows(segs, returned, w.last_id, "->final"@) + final_arrows(
        segs,
        code_path.thrown_segments@,
        last_after(returned, w.last_id),
        "->thrown"@,
    ) + ";"@
}

/// Every successor that a segment of `segs` names is a segment of `segs`.
pub open spec fn next_ids_in_range(segs: Seq<SegmentView>) -> bool {
    forall|s: int| 0 <= s < segs.len() ==> ids_in_range((#[trigger] segs[s]).all_next_segments, segs.len())
}

/// What drawing `code_path` over `segs` reads names segments of `segs`:
/// the successors of each segment, the initial segment, the returned and
/// thrown ones.
pub open spec fn dot_ready(segs: Seq<SegmentView>, code_path: CodePath) -> bool {
    &&& next_ids_in_range(segs)
    &&& (code_path.initial_segment as int) < segs.len()
    &&& ids_in_range(code_path.returned_segments@, segs.len())
    &&& ids_in_range(code_path.thrown_segments@, segs.len())
}

/// Whether `code_path` can be drawn over `arena` (see `dot_ready`).
pub fn dot_arrows_ready(arena: &SegmentArena, code_path: &CodePath) -> (b: bool)
    ensures
        b == dot_ready(arena@, *code_path),
{
    let n = arena.segments.len();
    let mut s: usize = 0;
    while s < n
        invariant
            n == arena@.len(),
            s <= n,
            forall|k: int| 0 <= k < s ==> ids_in_range((#[trigger] arena@[k]).all_next_segments, n as nat),
        decreases n - s,
    {
        assert(arena.segments@[s as int]@ == arena@[s as int]);
        if !ids_below(&arena.segments[s].all_next_segments, n) {
            return false;
        }
        s = s + 1;
    }
    code_path.initial_segment < n && ids_below(&code_path.returned_segments, n) && ids_below(
        &code_path.thrown_segments,
        n,
    )
}

/// Whether every member of `ids` is below `n`.
fn ids_below(ids: &Vec<usize>, n: usize) -> (b: bool)
    ensures
        b == ids_in_range(ids@, n as nat),
{
    let mut i: usize = 0;
    while i < ids.len()
        invariant
            i <= ids@.len(),
            forall|k: int| 0 <= k < i ==> (#[trigger] ids@[k] as int) < n,
        decreases ids.len() - i,
    {
        if ids[i] >= n {
            assert(!((ids@[i as int] as int) < n));
            return false;
        }
        i = i + 1;
    }
    true
}

/// `pat` stands somewhere in `s`.
pub open spec fn has_infix(s: Seq<char>, pat: Seq<char>) -> bool {
    exists|i: int| 0 <= i && i + pat.len() <= s.len() && #[trigger] s.subrange(i, i + pat.len()) == pat
}

proof fn lemma_final_arrows_end(segs: Seq<SegmentView>, list: Seq<usize>, last: Option<Seq<char>>, arrow: Seq<char>)
    requires
        list.len() > 0,
    ensures
        ({
            let f = final_arrows(segs, list, last, arrow);
            f.len() >= arrow.len() && f.subrange(f.len() - arrow.len(), f.len() as int) == arrow
        }),
{
    let id = segs[list.last() as int].id;
    let from = if list.len() == 1 {
        last
    } else {
        None
    };
    let before = final_arrows(segs, list.drop_last(), last, arrow);
    let tail = if from == Some(id) {
        arrow
    } else {
        ";\n"@ + id + arrow
    };
    let f = before + tail;
    assert(f.subrange(f.len() - arrow.len(), f.len() as int) =~= arrow);
}

/// The `dot` text of a code path with a returned segment draws an arrow to
/// `final`, and one with a thrown segment an arrow to `thrown`.
pub proof fn lemma_dot_text_final_arrows(segs: Seq<SegmentView>, code_path: CodePath)
    ensures
        code_path.returned_segments@.len() > 0 ==> has_infix(dot_text(segs, code_path), "->final"@),
        code_path.thrown_segments@.len() > 0 ==> has_infix(dot_text(segs, code_path), "->thrown"@),
{
    let w = dot_walk(segs, code_path.initial_segment);
    let returned = code_path.returned_segments@;
    let thrown = code_path.thrown_segments@;
    let fr = final_arrows(segs, returned, w.last_id, "->final"@);
    let ft = final_arrows(segs, thrown, last_after(returned, w.last_id), "->thrown"@);
    let text = dot_text(segs, code_path);
    assert(text == w.text + fr + ft + ";"@);
    if returned.len() > 0 {
        lemma_final_arrows_end(segs, returned, w.last_id, "->final"@);
        let i = w.text.len() + fr.len() - "->final"@.len();
        assert(text.subrange(i, i + "->final"@.len()) =~= fr.subrange(
            fr.len() - "->final"@.len(),
            fr.len() as int,
        ));
    }
    if thrown.len() > 0 {
        lemma_final_arrows_end(segs, thrown, last_after(returned, w.last_id), "->thrown"@);
        let i = w.text.len() + fr.len() + ft.len() - "->thrown"@.len();
        assert(text.subrange(i, i + "->thrown"@.len()) =~= ft.subrange(
            ft.len() - "->thrown"@.len(),
            ft.len() as int,
        ));
    }
}

proof fn lemma_stack_weight_pos(segs: Seq<SegmentView>, stack: Seq<(usize, usize)>)
    requires
        stack.len() > 0,
        stack.last().1 <= segs[stack.last().0 as int].all_next_segments.len(),
    ensures
        stack_weight(segs, stack) >= 1,
{
}

proof fn lemma_dot_run_step(segs: Seq<SegmentView>, w: DotWalk, fuel: nat)
    requires
        fuel > 0,
        w.stack.len() > 0,
    ensures
        dot_run(segs, w, fuel) == dot_run(segs, dot_step(segs, w), (fuel - 1) as nat),
{
}

/// The stack is made of segments of the arena; an entry part-way through a
/// segment names a walked segment and no position past its successors.
pub open spec fn stack_ok(segs: Seq<SegmentView>, done: Seq<bool>, stack: Seq<(usize, usize)>) -> bool {
    forall|k: int|
        0 <= k < stack.len() ==> {
            &&& (#[trigger] stack[k]).0 < segs.len()
            &&& stack[k].1 <= segs[stack[k].0 as int].all_next_segments.len()
            &&& (stack[k].1 > 0 ==> done[stack[k].0 as int])
        }
}

fn id_of(arena: &SegmentArena, segment: usize) -> (r: &String)
    requires
        segment < arena@.len(),
    ensures
        r@ == arena@[segment as int].id,
{
    assert(arena.segments@[segment as int]@ == arena@[segment as int]);
    &arena.segments[segment].id
}

fn append(text: &mut String, piece: &str)
    ensures
        final(text)@ == old(text)@ + piece@,
{
    let t = concat(text.as_str(), piece);
    *text = t;
}

/// The edges of a code path in the `dot` language, as a walk over all
/// successors from the initial segment writes them (a chain of edges goes on
/// with `->` while each starts where the last one ended), then the edges to
/// the final nodes of its returned and thrown segments; with the set of
/// segments walked. The text opens with the edge from `initial` and closes
/// with `;`.
pub fn make_dot_arrows(arena: &SegmentArena, code_path: &CodePath) -> (r: (String, Vec<bool>))
    requires
        dot_ready(arena@, *code_path),
    ensures
        r.1@.len() == arena@.len(),
        r.1@[code_path.initial_segment as int],
        r.0@.len() > 0 && r.0@.last() == ';',
        ({
            let prefix = "initial->"@ + arena@[code_path.initial_segment as int].id;
            r.0@.len() >= prefix.len() && r.0@.subrange(0, prefix.len() as int) == prefix
        }),
        r.0@ == dot_text(arena@, *code_path),
        code_path.returned_segments@.len() > 0 ==> has_infix(r.0@, "->final"@),
        code_path.thrown_segments@.len() > 0 ==> has_infix(r.0@, "->thrown"@),
        r.1@ == dot_walk(arena@, code_path.initial_segment).done,
        r.1@ == reach::reachable_from(arena@, code_path.initial_segment),
        dot_walk(arena@, code_path.initial_segment).stack.len() == 0,
{
    proof {
        lemma_dot_text_final_arrows(arena@, *code_path);
    }
    let ghost segs = arena@;
    let initial = code_path.initial_segment();
    let mut done: Vec<bool> = Vec::new();
    let n = arena.len();
    while done.len() < n
        invariant
            done@.len() <= n,
            n == segs.len(),
            forall|k: int| 0 <= k < done@.len() ==> !done@[k],
        decreases n - done@.len(),
    {
        done.push(false);
    }
    let mut stack: Vec<(usize, usize)> = Vec::new();
    stack.push((initial, 0));
    let mut last_id: Option<String> = Some(id_of(arena, initial).clone());
    let mut text = concat("initial->", id_of(arena, initial).as_str());
    let ghost prefix = "initial->"@ + segs[initial as int].id;
    let mut started = false;
    assert(done@ =~= Seq::new(segs.len(), |i: int| false));
    assert(stack@ =~= seq![(initial, 0usize)]);
    let ghost mut fuel: nat = dot_fuel(segs, initial);
    assert(DotWalk { done: done@, stack: stack@, last_id: id_view(last_id), text: text@ } == dot_start(segs, initial));
    while stack.len() > 0
        invariant
            dot_run(segs, DotWalk { done: done@, stack: stack@, last_id: id_view(last_id), text: text@ }, fuel)
                == dot_walk(segs, initial),
            fuel >= undone_weight(segs, done@) + stack_weight(segs, stack@),
            segs == arena@,
            next_ids_in_range(segs),
            n == segs.len(),
            (initial as int) < segs.len(),
            done@.len() == n,
            stack_ok(segs, done@, stack@),
            prefix == "initial->"@ + segs[initial as int].id,
            text@.len() >= prefix.len(),
            text@.subrange(0, prefix.len() as int) == prefix,
            started ==> done@[initial as int],
            !started ==> stack@ == seq![(initial, 0usize)] && !done@[initial as int],
        decreases undone_weight(segs, done@) + stack_weight(segs, stack@),
    {
        let ghost before = undone_weight(segs, done@) + stack_weight(segs, stack@);
        let ghost cur = DotWalk { done: done@, stack: stack@, last_id: id_view(last_id), text: text@ };
        proof {
            assert(stack@[stack@.len() - 1] == stack@.last());
            lemma_stack_weight_pos(segs, stack@);
            lemma_dot_run_step(segs, cur, fuel);
        }
        let ghost st = stack@;
        let (segment, index) = match stack.pop() {
            Some(e) => e,
            None => (0, 0),
        };
        assert(st.drop_last() == stack@);
        assert(st.last() == (segment, index));
        assert(stack_ok(segs, done@, stack@)) by {
            assert forall|k: int| 0 <= k < stack@.len() implies {
                &&& (#[trigger] stack@[k]).0 < segs.len()
                &&& stack@[k].1 <= segs[stack@[k].0 as int].all_next_segments.len()
                &&& (stack@[k].1 > 0 ==> done@[stack@[k].0 as int])
            } by {
                assert(stack@[k] == st[k]);
            }
        }
        assert(segment < segs.len()) by {
            assert(st[st.len() - 1] == st.last());
        }
        if done[segment] && index == 0 {
            assert(stack_weight(segs, st) == stack_weight(segs, stack@) + 1);
            assert(DotWalk { done: done@, stack: stack@, last_id: id_view(last_id), text: text@ } == dot_step(segs, cur));
            proof {
                fuel = (fuel - 1) as nat;
            }
            continue;
        }
        let ghost done_before = done@;
        if !done[segment] {
            proof {
                lemma_undone_set(segs, done@, segment as int);
            }
        } else {
            proof {
                lemma_undone_same(segs, done@, segment as int);
            }
        }
        done.set(segment, true);
        started = true;
        assert(stack_ok(segs, done@, stack@)) by {
            assert forall|k: int| 0 <= k < stack@.len() implies {
                &&& (#[trigger] stack@[k]).0 < segs.len()
                &&& stack@[k].1 <= segs[stack@[k].0 as int].all_next_segments.len()
                &&& (stack@[k].1 > 0 ==> done@[stack@[k].0 as int])
            } by {
                assert(done_before[stack@[k].0 as int] ==> done@[stack@[k].0 as int]);
            }
        }
        let nexts = &arena.segments[segment].all_next_segments;
        assert(nexts@ == segs[segment as int].all_next_segments);
        if index >= nexts.len() {
            assert(DotWalk { done: done@, stack: stack@, last_id: id_view(last_id), text: text@ } == dot_step(segs, cur));
            assert(entry_weight(segs, (segment, index)) >= 1);
            proof {
                fuel = (fuel - 1) as nat;
            }
            continue;
        }
        let next_segment = nexts[index];
        assert(ids_in_range(segs[segment as int].all_next_segments, segs.len()));
        assert(next_segment < segs.len());
        let segment_id = id_of(arena, segment);
        let next_id = id_of(arena, next_segment);
        let continues = match &last_id {
            Some(l) => str_eq(l.as_str(), segment_id.as_str()),
            None => false,
        };
        let ghost t0 = text@;
        if continues {
            append(&mut text, "->");
            append(&mut text, next_id.as_str());
        } else {
            append(&mut text, ";\n");
            append(&mut text, segment_id.as_str());
            append(&mut text, "->");
            append(&mut text, next_id.as_str());
        }
        assert(text@.subrange(0, prefix.len() as int) =~= t0.subrange(0, prefix.len() as int));
        last_id = Some(next_id.clone());
        let ghost mid = stack@;
        stack.insert(0, (segment, index + 1));
        assert(stack@ =~= seq![(segment, (index + 1) as usize)] + mid);
        proof {
            lemma_stack_weight_prepend(segs, (segment, (index + 1) as usize), mid);
        }
        let ghost with_front = stack@;
        stack.push((next_segment, 0));
        assert(stack@.drop_last() == with_front);
        assert(stack@ =~= (seq![(segment, (index + 1) as usize)] + mid).push((next_segment, 0usize)));
        assert(text@ =~= (if cur.last_id == Some(segs[segment as int].id) {
            cur.text + "->"@ + segs[next_segment as int].id
        } else {
            cur.text + ";\n"@ + segs[segment as int].id + "->"@ + segs[next_segment as int].id
        }));
        assert(DotWalk { done: done@, stack: stack@, last_id: id_view(last_id), text: text@ } == dot_step(segs, cur));
        proof {
            fuel = (fuel - 1) as nat;
        }
        assert(stack_ok(segs, done@, stack@)) by {
            assert forall|k: int| 0 <= k < stack@.len() implies {
                &&& (#[trigger] stack@[k]).0 < segs.len()
                &&& stack@[k].1 <= segs[stack@[k].0 as int].all_next_segments.len()
                &&& (stack@[k].1 > 0 ==> done@[stack@[k].0 as int])
            } by {
                if k == 0 {
                } else if k < stack@.len() - 1 {
                    assert(stack@[k] == mid[k - 1]);
                }
            }
        }
    }
    let ghost walk = dot_walk(segs, initial);
    assert(walk == DotWalk { done: done@, stack: stack@, last_id: id_view(last_id), text: text@ });
    let returned = code_path.returned_segments();
    let mut i: usize = 0;
    assert(returned@.take(0) =~= Seq::<usize>::empty());
    while i < returned.len()
        invariant
            segs == arena@,
            dot_ready(segs, *code_path),
            returned@ == code_path.returned_segments@,
            text@.len() >= prefix.len(),
            text@.subrange(0, prefix.len() as int) == prefix,
            i <= returned@.len(),
            text@ == walk.text + final_arrows(segs, returned@.take(i as int), walk.last_id, "->final"@),
            id_view(last_id) == last_after(returned@.take(i as int), walk.last_id),
        decreases returned.len() - i,
    {
        assert(returned@.take(i + 1).drop_last() =~= returned@.take(i as int));
        assert(returned@.take(i + 1).last() == returned@[i as int]);
        let final_segment = returned[i];
        assert((final_segment as int) < segs.len());
        let final_id = id_of(arena, final_segment);
        let continues = match &last_id {
            Some(l) => str_eq(l.as_str(), final_id.as_str()),
            None => false,
        };
        let ghost t0 = text@;
        if continues {
            append(&mut text, "->final");
        } else {
            append(&mut text, ";\n");
            append(&mut text, final_id.as_str());
            append(&mut text, "->final");
        }
        assert(text@.subrange(0, prefix.len() as int) =~= t0.subrange(0, prefix.len() as int));
        last_id = None;
        i = i + 1;
    }
    assert(returned@.take(returned@.len() as int) =~= returned@);
    let ghost after_returned = text@;
    let ghost last_returned = last_after(returned@, walk.last_id);
    let thrown = code_path.thrown_segments();
    let mut i: usize = 0;
    assert(thrown@.take(0) =~= Seq::<usize>::empty());
    while i < thrown.len()
        invariant
            segs == arena@,
            dot_ready(segs, *code_path),
            thrown@ == code_path.thrown_segments@,
            text@.len() >= prefix.len(),
            text@.subrange(0, prefix.len() as int) == prefix,
            i <= thrown@.len(),
            text@ == after_returned + final_arrows(segs, thrown@.take(i as int), last_returned, "->thrown"@),
            id_view(last_id) == last_after(thrown@.take(i as int), last_returned),
        decreases thrown.len() - i,
    {
        assert(thrown@.take(i + 1).drop_last() =~= thrown@.take(i as int));
        assert(thrown@.take(i + 1).last() == thrown@[i as int]);
        let final_segment = thrown[i];
        assert((final_segment as int) < segs.len());
        let final_id = id_of(arena, final_segment);
        let continues = match &last_id {
            Some(l) => str_eq(l.as_str(), final_id.as_str()),
            None => false,
        };
        let ghost t0 = text@;
        if continues {
            append(&mut text, "->thrown");
        } else {
            append(&mut text, ";\n");
            append(&mut text, final_id.as_str());
            append(&mut text, "->thrown");
        }
        assert(text@.subrange(0, prefix.len() as int) =~= t0.subrange(0, prefix.len() as int));
        last_id = None;
        i = i + 1;
    }
    assert(thrown@.take(thrown@.len() as int) =~= thrown@);
    let ghost t0 = text@;
    append(&mut text, ";");
    proof {
        reveal_strlit(";");
    }
    assert(text@.subrange(0, prefix.len() as int) =~= t0.subrange(0, prefix.len() as int));
    proof {
        assert forall|s: int| 0 <= s < arena@.len() implies (#[trigger] arena@[s]).all_next_segments.len()
            <= usize::MAX by {
            assert(arena@[s] == arena.segments@[s]@);
            assert(arena.segments@[s].all_next_segments.len() == arena.segments@[s].all_next_segments@.len());
        }
        assert(arena.segments.len() == arena@.len());
        reach::lemma_dot_walk_marks_reachable(arena@, code_path.initial_segment);
    }
    (text, done)
}

} // verus!
