use vstd::prelude::*;

use crate::ast_helpers::{comment_contents_spec, get_comment_contents, is_comment_text};
use crate::conf::globals::{json_scalar_of, visibility_of_json, Visibility};
use crate::pattern::{regex_compiles, regex_group, regex_split, Pattern};
use crate::text::{chars_of, str_eq, string_of, trim, trim_chars};

verus! {

/// What separates a directive from its justification: a run of two or more
/// dashes with white space on either side.
pub open spec fn justification_separator() -> Seq<char> {
    "\\s-{2,}\\s"@
}

/// The directives that a comment can hold: their name is the first capture
/// group.
pub open spec fn directives_pattern() -> Seq<char> {
    "^(eslint(?:-env|-enable|-disable(?:(?:-next)?-line)?)?|exported|globals?)(?:\\s|$)"@
}

fn trimmed(s: &str) -> (r: String)
    ensures
        r@ == trim(s@),
{
    let cs = chars_of(s);
    let t = trim_chars(&cs);
    string_of(&t, 0, t.len())
}

/// The directive part and the justification part of a comment's contents,
/// both trimmed: split at the first separator, the whole being the
/// directive where there is none.
pub open spec fn extract_directive_comment_spec(value: Seq<char>) -> (Seq<char>, Seq<char>) {
    if regex_compiles(justification_separator()) {
        match regex_split(justification_separator(), value) {
            Some((a, b)) => (trim(a), trim(b)),
            None => (trim(value), Seq::empty()),
        }
    } else {
        (trim(value), Seq::empty())
    }
}

pub fn extract_directive_comment(value: &str) -> (r: (String, String))
    ensures
        (r.0@, r.1@) == extract_directive_comment_spec(value@),
{
    let separator = "\\s-{2,}\\s";
    assert(separator@ == justification_separator());
    let split = match Pattern::new(separator) {
        Some(p) => p.split_at_first_match(value),
        None => None,
    };
    match split {
        Some((a, b)) => (trimmed(a.as_str()), trimmed(b.as_str())),
        None => (trimmed(value), String::new()),
    }
}

/// The directive a comment's directive part holds: its name and the text
/// after the name.
pub open spec fn directive_spec(part: Seq<char>) -> Option<(Seq<char>, Seq<char>)> {
    if regex_compiles(directives_pattern()) {
        regex_group(directives_pattern(), part)
    } else {
        None
    }
}

pub fn directive(part: &str) -> (r: Option<(String, String)>)
    ensures
        match r {
            Some((a, b)) => directive_spec(part@) == Some((a@, b@)),
            None => directive_spec(part@) is None,
        },
{
    let source = "^(eslint(?:-env|-enable|-disable(?:(?:-next)?-line)?)?|exported|globals?)(?:\\s|$)";
    assert(source@ == directives_pattern());
    match Pattern::new(source) {
        Some(p) => p.first_group(part),
        None => None,
    }
}

/// Whether a directive declares globals.
pub fn is_globals_directive(name: &str) -> (b: bool)
    ensures
        b == (name@ == "globals"@ || name@ == "global"@),
{
    str_eq(name, "globals") || str_eq(name, "global")
}

/// The visibility a global's setting in a directive gives it (a global
/// without a setting is read-only); `None` where the setting names none.
pub fn global_setting_visibility(value: Option<&str>) -> (r: Option<Visibility>)
    ensures
        r == visibility_of_json(json_scalar_of(
            match value {
                Some(v) => v@,
                None => "\"readonly\""@,
            },
        )),
{
    match value {
        Some(v) => Visibility::from_json(v),
        None => Visibility::from_json("\"readonly\""),
    }
}

/// A global enabled by directive comments: its visibility (as the last
/// directive set it) and the comments that mention it.
pub struct EnabledGlobal {
    pub name: String,
    pub value: Visibility,
    pub comments: Vec<usize>,
}

/// The globals enabled by the directive comments of a file, in the order
/// first met.
pub struct DirectiveComments {
    pub enabled_globals: Vec<EnabledGlobal>,
}

/// The position of the global named `name`, if any.
pub open spec fn position_of(globals: Seq<EnabledGlobal>, name: Seq<char>) -> Option<int>
    decreases globals.len(),
{
    if globals.len() == 0 {
        None
    } else {
        match position_of(globals.drop_last(), name) {
            Some(i) => Some(i),
            None => if globals.last().name@ == name {
                Some(globals.len() - 1)
            } else {
                None
            },
        }
    }
}

proof fn lemma_position_of(globals: Seq<EnabledGlobal>, name: Seq<char>)
    ensures
        position_of(globals, name) matches Some(i) ==> 0 <= i < globals.len() && globals[i].name@ == name,
        position_of(globals, name) is None ==> forall|j: int| 0 <= j < globals.len() ==> globals[j].name@ != name,
    decreases globals.len(),
{
    if globals.len() > 0 {
        let d = globals.drop_last();
        lemma_position_of(d, name);
        assert(forall|j: int| 0 <= j < d.len() ==> d[j] == globals[j]);
    }
}

/// `position_of` finds the first global with the name, and any global
/// whose name occurs nowhere before keeps its place.
proof fn lemma_position_of_first(globals: Seq<EnabledGlobal>, name: Seq<char>, i: int)
    requires
        0 <= i < globals.len(),
        globals[i].name@ == name,
        forall|j: int| 0 <= j < i ==> globals[j].name@ != name,
    ensures
        position_of(globals, name) == Some(i),
    decreases globals.len(),
{
    if i < globals.len() - 1 {
        let d = globals.drop_last();
        assert(forall|j: int| 0 <= j < d.len() ==> d[j] == globals[j]);
        lemma_position_of_first(d, name, i);
    } else {
        let d = globals.drop_last();
        assert(forall|j: int| 0 <= j < d.len() ==> d[j] == globals[j]);
        lemma_position_of(d, name);
    }
}

/// What recording that `comment` enables the global `name` with visibility
/// `value` makes of the globals `old`: a new global is added at the end; a
/// known one takes the new visibility; either way the comment is added to
/// its comments.
pub open spec fn record_post(
    old: Seq<EnabledGlobal>,
    new: Seq<EnabledGlobal>,
    name: Seq<char>,
    value: Visibility,
    comment: usize,
) -> bool {
    match position_of(old, name) {
        None => {
            &&& new.len() == old.len() + 1
            &&& new.drop_last() == old
            &&& new.last().name@ == name
            &&& new.last().value == value
            &&& new.last().comments@ == seq![comment]
        },
        Some(i) => {
            &&& new.len() == old.len()
            &&& forall|j: int| 0 <= j < old.len() && j != i ==> #[trigger] new[j] == old[j]
            &&& new[i].name@ == name
            &&& new[i].value == value
            &&& new[i].comments@ == old[i].comments@.push(comment)
        },
    }
}

/// After a directive enables a global, looking the global up gives the
/// visibility that directive set.
pub proof fn lemma_record_then_lookup(
    old: Seq<EnabledGlobal>,
    new: Seq<EnabledGlobal>,
    name: Seq<char>,
    value: Visibility,
    comment: usize,
)
    requires
        record_post(old, new, name, value, comment),
    ensures
        position_of(new, name) matches Some(i) && new[i].value == value,
{
    lemma_position_of(old, name);
    match position_of(old, name) {
        None => {
            assert forall|j: int| 0 <= j < new.len() - 1 implies new[j].name@ != name by {
                assert(new[j] == old[j]);
            }
            lemma_position_of_first(new, name, new.len() - 1);
        },
        Some(i) => {
            lemma_position_of_first_of(old, name);
            assert forall|j: int| 0 <= j < i implies new[j].name@ != name by {
                assert(new[j] == old[j]);
            }
            lemma_position_of_first(new, name, i);
        },
    }
}

proof fn lemma_position_of_first_of(globals: Seq<EnabledGlobal>, name: Seq<char>)
    ensures
        position_of(globals, name) matches Some(i) ==> forall|j: int| 0 <= j < i ==> globals[j].name@ != name,
    decreases globals.len(),
{
    if globals.len() > 0 {
        let d = globals.drop_last();
        lemma_position_of_first_of(d, name);
        lemma_position_of(d, name);
        assert(forall|j: int| 0 <= j < d.len() ==> d[j] == globals[j]);
    }
}

impl DirectiveComments {
    pub fn new() -> (r: Self)
        ensures
            r.enabled_globals@.len() == 0,
    {
        DirectiveComments { enabled_globals: Vec::new() }
    }

    fn find(&self, name: &str) -> (r: Option<usize>)
        ensures
            match r {
                Some(i) => position_of(self.enabled_globals@, name@) == Some(i as int),
                None => position_of(self.enabled_globals@, name@) is None,
            },
    {
        proof {
            lemma_position_of(self.enabled_globals@, name@);
        }
        let mut i: usize = 0;
        while i < self.enabled_globals.len()
            invariant
                i <= self.enabled_globals@.len(),
                forall|j: int| 0 <= j < i ==> self.enabled_globals@[j].name@ != name@,
            decreases self.enabled_globals.len() - i,
        {
            if str_eq(self.enabled_globals[i].name.as_str(), name) {
                proof {
                    lemma_position_of_first(self.enabled_globals@, name@, i as int);
                }
                return Some(i);
            }
            i = i + 1;
        }
        None
    }

    /// Records that `comment` enables the global `name` with visibility
    /// `value`: a new global is added at the end; a known one takes the new
    /// visibility; either way the comment is added to its comments.
    pub fn record(&mut self, name: String, value: Visibility, comment: usize)
        ensures
            record_post(old(self).enabled_globals@, final(self).enabled_globals@, name@, value, comment),
    {
        match self.find(name.as_str()) {
            None => {
                let mut comments: Vec<usize> = Vec::new();
                comments.push(comment);
                assert(comments@ =~= seq![comment]);
                self.enabled_globals.push(EnabledGlobal { name, value, comments });
                assert(self.enabled_globals@.drop_last() =~= old(self).enabled_globals@);
            },
            Some(i) => {
                proof {
                    lemma_position_of(self.enabled_globals@, name@);
                }
                let mut entry = self.enabled_globals.remove(i);
                entry.value = value;
                entry.comments.push(comment);
                self.enabled_globals.insert(i, entry);
                assert forall|j: int| 0 <= j < old(self).enabled_globals@.len() && j != i implies #[trigger] self.enabled_globals@[j]
                    == old(self).enabled_globals@[j] by {}
            },
        }
    }

    /// Looks up the visibility of the global `name`.
    pub fn visibility(&self, name: &str) -> (r: Option<Visibility>)
        ensures
            r == match position_of(self.enabled_globals@, name@) {
                Some(i) => Some(self.enabled_globals@[i].value),
                None => None,
            },
    {
        match self.find(name) {
            Some(i) => {
                proof {
                    lemma_position_of(self.enabled_globals@, name@);
                }
                Some(self.enabled_globals[i].value)
            },
            None => None,
        }
    }
}


/// The text after the name of the globals directive that comment `text`
/// holds, if it holds one: the comment's contents are split from their
/// justification, and the directive part names `globals` or `global`.
pub open spec fn globals_directive_spec(text: Seq<char>) -> Option<Seq<char>> {
    let part = extract_directive_comment_spec(comment_contents_spec(text)).0;
    match directive_spec(part) {
        Some((name, rest)) => if name == "globals"@ || name == "global"@ {
            Some(rest)
        } else {
            None
        },
        None => None,
    }
}

/// The settings text of the globals directive of comment `text`, if it
/// holds one (see `globals_directive_spec`).
pub fn globals_directive_value(text: &str) -> (r: Option<String>)
    requires
        is_comment_text(text@),
    ensures
        match r {
            Some(v) => globals_directive_spec(text@) == Some(v@),
            None => globals_directive_spec(text@) is None,
        },
{
    let contents = get_comment_contents(text);
    let (part, _justification) = extract_directive_comment(contents.as_str());
    match directive(part.as_str()) {
        Some((name, rest)) => if is_globals_directive(name.as_str()) {
            Some(rest)
        } else {
            None
        },
        None => None,
    }
}

/// The visibility of the global `name` among `globals`, if it is there.
pub open spec fn lookup(globals: Seq<EnabledGlobal>, name: Seq<char>) -> Option<Visibility> {
    match position_of(globals, name) {
        Some(i) => Some(globals[i].value),
        None => None,
    }
}

proof fn lemma_position_of_same_names(a: Seq<EnabledGlobal>, b: Seq<EnabledGlobal>, name: Seq<char>)
    requires
        a.len() == b.len(),
        forall|j: int| 0 <= j < a.len() ==> (#[trigger] a[j]).name@ == b[j].name@,
    ensures
        position_of(a, name) == position_of(b, name),
    decreases a.len(),
{
    if a.len() > 0 {
        let (da, db) = (a.drop_last(), b.drop_last());
        assert forall|j: int| 0 <= j < da.len() implies (#[trigger] da[j]).name@ == db[j].name@ by {
            assert(da[j] == a[j] && db[j] == b[j]);
        }
        lemma_position_of_same_names(da, db, name);
        assert(a.last() == a[a.len() - 1] && b.last() == b[b.len() - 1]);
    }
}

/// Recording a global leaves what the others look up to as it was.
pub proof fn lemma_record_keeps_others(
    old: Seq<EnabledGlobal>,
    new: Seq<EnabledGlobal>,
    name: Seq<char>,
    value: Visibility,
    comment: usize,
    other: Seq<char>,
)
    requires
        record_post(old, new, name, value, comment),
        other != name,
    ensures
        lookup(new, other) == lookup(old, other),
{
    lemma_position_of(old, name);
    lemma_position_of(old, other);
    match position_of(old, name) {
        None => {
            assert(new.drop_last() == old);
        },
        Some(i) => {
            assert forall|j: int| 0 <= j < old.len() implies (#[trigger] old[j]).name@ == new[j].name@ by {
                if j != i {
                    assert(new[j] == old[j]);
                }
            }
            lemma_position_of_same_names(old, new, other);
            if let Some(k) = position_of(old, other) {
                assert(k != i);
                assert(new[k] == old[k]);
            }
        },
    }
}

/// The visibility a setting of a globals directive gives (see
/// `global_setting_visibility`).
pub open spec fn setting_visibility(value: Option<String>) -> Option<Visibility> {
    visibility_of_json(json_scalar_of(
        match value {
            Some(v) => v@,
            None => "\"readonly\""@,
        },
    ))
}

/// The visibility that the last of `settings` that names `name` gives, if
/// one does.
pub open spec fn last_setting(settings: Seq<(String, Option<String>)>, name: Seq<char>) -> Option<Visibility>
    decreases settings.len(),
{
    if settings.len() == 0 {
        None
    } else if settings.last().0@ == name {
        setting_visibility(settings.last().1)
    } else {
        last_setting(settings.drop_last(), name)
    }
}

impl DirectiveComments {
    /// Records each setting of a globals directive of `comment`, in order.
    /// Afterwards a global looks up to the visibility its last setting gave,
    /// and one that no setting names to what it did before.
    pub fn record_globals(&mut self, comment: usize, settings: &Vec<(String, Option<String>)>)
        requires
            forall|k: int| 0 <= k < settings@.len() ==> setting_visibility(#[trigger] settings@[k].1) is Some,
        ensures
            forall|name: Seq<char>|
                #[trigger] lookup(final(self).enabled_globals@, name) == match last_setting(settings@, name) {
                    Some(v) => Some(v),
                    None => lookup(old(self).enabled_globals@, name),
                },
    {
        let ghost g0 = self.enabled_globals@;
        let mut i: usize = 0;
        while i < settings.len()
            invariant
                i <= settings@.len(),
                forall|k: int| 0 <= k < settings@.len() ==> setting_visibility(#[trigger] settings@[k].1) is Some,
                forall|name: Seq<char>|
                    #[trigger] lookup(self.enabled_globals@, name) == match last_setting(settings@.take(i as int), name) {
                        Some(v) => Some(v),
                        None => lookup(g0, name),
                    },
            decreases settings.len() - i,
        {
            let (name, value) = &settings[i];
            let visibility = match value {
                Some(v) => Visibility::from_json(v.as_str()),
                None => Visibility::from_json("\"readonly\""),
            };
            assert(visibility == setting_visibility(settings@[i as int].1));
            let v = match visibility {
                Some(v) => v,
                None => Visibility::Readonly,
            };
            let ghost before = self.enabled_globals@;
            self.record(name.clone(), v, comment);
            proof {
                let taken = settings@.take(i + 1);
                assert(taken.drop_last() == settings@.take(i as int));
                assert(taken.last() == settings@[i as int]);
                lemma_record_then_lookup(before, self.enabled_globals@, name@, v, comment);
                assert forall|n: Seq<char>|
                    #[trigger] lookup(self.enabled_globals@, n) == match last_setting(taken, n) {
                        Some(v) => Some(v),
                        None => lookup(g0, n),
                    } by {
                    if n != name@ {
                        lemma_record_keeps_others(before, self.enabled_globals@, name@, v, comment, n);
                    }
                }
            }
            i = i + 1;
        }
        assert(settings@.take(settings@.len() as int) == settings@);
    }
}

} // verus!
