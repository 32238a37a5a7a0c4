use vstd::prelude::*;

use crate::text::{chars_eq, chars_of, str_eq};

verus! {

/// Whether a global variable may be read, written, or not used at all.
#[derive(Copy, Clone, Debug, PartialEq, Eq, Structural)]
pub enum Visibility {
    Readonly,
    Writable,
    Off,
}

/// A JSON value, as far as a visibility setting is concerned.
pub enum JsonScalar {
    Bool(bool),
    Str(String),
    Null,
    /// A number, an array or an object.
    Other,
}

/// A JSON value as a visibility setting sees it, a string by its characters.
pub enum JsonScalarView {
    Bool(bool),
    Str(Seq<char>),
    Null,
    Other,
}

impl View for JsonScalar {
    type V = JsonScalarView;

    open spec fn view(&self) -> JsonScalarView {
        match self {
            JsonScalar::Bool(b) => JsonScalarView::Bool(*b),
            JsonScalar::Str(s) => JsonScalarView::Str(s@),
            JsonScalar::Null => JsonScalarView::Null,
            JsonScalar::Other => JsonScalarView::Other,
        }
    }
}

/// An optional JSON value by its view.
pub open spec fn json_view(v: Option<JsonScalar>) -> Option<JsonScalarView> {
    match v {
        Some(j) => Some(j@),
        None => None,
    }
}

/// What `serde_json` reads from `text`: `None` when it is no JSON value.
pub uninterp spec fn json_scalar_of(text: Seq<char>) -> Option<JsonScalarView>;

/// Reads `text` as one JSON value with `serde_json::from_str` (into a
/// `serde_json::Value`) and keeps its kind, and the text of a string. The
/// contract only names the result: it is a function of `text` alone.
#[verifier::external_body]
fn parse_json_scalar(text: &str) -> (r: Option<JsonScalar>)
    ensures
        json_view(r) == json_scalar_of(text@),
{
    match serde_json::from_str::<serde_json::Value>(text) {
        Ok(serde_json::Value::Bool(b)) => Some(JsonScalar::Bool(b)),
        Ok(serde_json::Value::String(s)) => Some(JsonScalar::Str(s)),
        Ok(serde_json::Value::Null) => Some(JsonScalar::Null),
        Ok(_) => Some(JsonScalar::Other),
        Err(_) => None,
    }
}

/// The visibility that a string setting names.
pub open spec fn visibility_of_str(s: Seq<char>) -> Option<Visibility> {
    if s == "readonly"@ || s == "readable"@ || s == "false"@ {
        Some(Visibility::Readonly)
    } else if s == "writable"@ || s == "writeable"@ || s == "true"@ {
        Some(Visibility::Writable)
    } else if s == "off"@ {
        Some(Visibility::Off)
    } else {
        None
    }
}

/// The visibility that a JSON setting names: `true` makes a global
/// writable, `false` and `null` read-only; a string names it.
pub open spec fn visibility_of_json(v: Option<JsonScalarView>) -> Option<Visibility> {
    match v {
        Some(JsonScalarView::Bool(b)) => Some(Visibility::from_bool_spec(b)),
        Some(JsonScalarView::Str(s)) => visibility_of_str(s),
        Some(JsonScalarView::Null) => Some(Visibility::Readonly),
        _ => None,
    }
}

/// The ways of writing a setting agree: the strings `"true"` and `"false"`
/// mean what the booleans mean, `null` means what `"readonly"` means,
/// `"readable"` is `"readonly"` and `"writeable"` is `"writable"`; the three
/// visibilities are told apart; and a string that is none of the seven names
/// names no visibility, as do numbers, arrays and objects.
pub proof fn lemma_settings_agree(s: Seq<char>)
    ensures
        visibility_of_json(Some(JsonScalarView::Str("true"@))) == visibility_of_json(Some(JsonScalarView::Bool(true))),
        visibility_of_json(Some(JsonScalarView::Str("false"@))) == visibility_of_json(Some(JsonScalarView::Bool(false))),
        visibility_of_json(Some(JsonScalarView::Null)) == visibility_of_json(Some(JsonScalarView::Str("readonly"@))),
        visibility_of_str("readable"@) == visibility_of_str("readonly"@),
        visibility_of_str("writeable"@) == visibility_of_str("writable"@),
        visibility_of_str("readonly"@) != visibility_of_str("writable"@),
        visibility_of_str("readonly"@) != visibility_of_str("off"@),
        visibility_of_str("writable"@) != visibility_of_str("off"@),
        visibility_of_str("off"@) is Some,
        visibility_of_str(s) is Some <==> (s == "readonly"@ || s == "readable"@ || s == "false"@ || s == "writable"@
            || s == "writeable"@ || s == "true"@ || s == "off"@),
        visibility_of_json(Some(JsonScalarView::Other)) is None,
        visibility_of_json(None) is None,
{
    reveal_strlit("readonly");
    reveal_strlit("readable");
    reveal_strlit("false");
    reveal_strlit("writable");
    reveal_strlit("writeable");
    reveal_strlit("true");
    reveal_strlit("off");
    assert("true"@ != "readonly"@ && "true"@ != "readable"@ && "true"@ != "false"@) by {
        assert("true"@.len() == 4 && "false"@.len() == 5 && "readonly"@.len() == 8 && "readable"@.len() == 8);
    }
    assert("writeable"@ != "readonly"@ && "writeable"@ != "readable"@ && "writeable"@ != "false"@) by {
        assert("writeable"@[0] == 'w' && "readonly"@[0] == 'r' && "readable"@[0] == 'r' && "false"@[0] == 'f');
    }
    assert("writable"@ != "readonly"@ && "writable"@ != "readable"@ && "writable"@ != "false"@) by {
        assert("writable"@[0] == 'w' && "readonly"@[0] == 'r' && "readable"@[0] == 'r' && "false"@[0] == 'f');
    }
    assert("off"@ != "readonly"@ && "off"@ != "readable"@ && "off"@ != "false"@ && "off"@ != "writable"@
        && "off"@ != "writeable"@ && "off"@ != "true"@) by {
        assert("off"@.len() == 3);
    }
}

impl Visibility {
    pub open spec fn from_bool_spec(value: bool) -> Visibility {
        if value {
            Visibility::Writable
        } else {
            Visibility::Readonly
        }
    }

    /// `true` makes a global writable, `false` read-only.
    pub fn from_bool(value: bool) -> (r: Visibility)
        ensures
            r == Self::from_bool_spec(value),
    {
        if value {
            Visibility::Writable
        } else {
            Visibility::Readonly
        }
    }

    /// The visibility a string names: `readonly`, `readable` and `false`
    /// are read-only, `writable`, `writeable` and `true` writable, `off` off.
    pub fn from_str_value(value: &str) -> (r: Option<Visibility>)
        ensures
            r == visibility_of_str(value@),
    {
        let cs = chars_of(value);
        if chars_eq(&cs, "readonly") || chars_eq(&cs, "readable") || chars_eq(&cs, "false") {
            Some(Visibility::Readonly)
        } else if chars_eq(&cs, "writable") || chars_eq(&cs, "writeable") || chars_eq(&cs, "true") {
            Some(Visibility::Writable)
        } else if chars_eq(&cs, "off") {
            Some(Visibility::Off)
        } else {
            None
        }
    }

    /// A missing setting (`null`) makes a global read-only.
    pub fn from_unit() -> (r: Visibility)
        ensures
            r == Visibility::Readonly,
    {
        Visibility::Readonly
    }

    /// The visibility a JSON value names, if it names one.
    pub fn from_json_scalar(value: &Option<JsonScalar>) -> (r: Option<Visibility>)
        ensures
            r == visibility_of_json(json_view(*value)),
    {
        match value {
            Some(JsonScalar::Bool(b)) => Some(Self::from_bool(*b)),
            Some(JsonScalar::Str(s)) => Self::from_str_value(s.as_str()),
            Some(JsonScalar::Null) => Some(Self::from_unit()),
            _ => None,
        }
    }

    /// Reads the JSON text of a visibility setting: `None` when it is no JSON
    /// value or names no visibility.
    pub fn from_json(text: &str) -> (r: Option<Visibility>)
        ensures
            r == visibility_of_json(json_scalar_of(text@)),
    {
        let value = parse_json_scalar(text);
        Self::from_json_scalar(&value)
    }
}


/// Global variables and their visibility. Later entries win over earlier
/// ones with the same name, as when a map is extended.
pub struct Globals {
    pub entries: Vec<(String, Visibility)>,
}

/// The map that a list of entries stands for: each entry in turn sets its
/// name's visibility.
pub open spec fn globals_map(entries: Seq<(String, Visibility)>) -> Map<Seq<char>, Visibility>
    decreases entries.len(),
{
    if entries.len() == 0 {
        Map::empty()
    } else {
        globals_map(entries.drop_last()).insert(entries.last().0@, entries.last().1)
    }
}

/// The names of a list of entries, in order.
pub open spec fn entry_names(entries: Seq<(String, Visibility)>) -> Seq<Seq<char>> {
    entries.map_values(|e: (String, Visibility)| e.0@)
}

/// Extending keeps every name: a name of `a` is still a name of `a + b`
/// (so each edition keeps every global of the one before it).
pub proof fn lemma_extend_keeps_names(a: Seq<(String, Visibility)>, b: Seq<(String, Visibility)>, name: Seq<char>)
    requires
        globals_map(a).dom().contains(name),
    ensures
        globals_map(a + b).dom().contains(name),
    decreases b.len(),
{
    if b.len() == 0 {
        assert(a + b =~= a);
    } else {
        lemma_extend_keeps_names(a, b.drop_last(), name);
        assert((a + b).drop_last() =~= a + b.drop_last());
        assert((a + b).last() == b.last());
    }
}

/// A name that no entry after position `i` sets has the visibility the
/// entries before `i` give it.
proof fn lemma_untouched_suffix(entries: Seq<(String, Visibility)>, i: int, name: Seq<char>)
    requires
        0 <= i <= entries.len(),
        forall|j: int| i <= j < entries.len() ==> (#[trigger] entries[j]).0@ != name,
    ensures
        globals_map(entries).dom().contains(name) == globals_map(entries.take(i)).dom().contains(name),
        globals_map(entries).dom().contains(name) ==> globals_map(entries)[name] == globals_map(entries.take(i))[name],
    decreases entries.len() - i,
{
    if i < entries.len() {
        let d = entries.drop_last();
        assert(forall|j: int| i <= j < d.len() ==> d[j] == entries[j]);
        lemma_untouched_suffix(d, i, name);
        assert(d.take(i) =~= entries.take(i));
        assert(entries.last() == entries[entries.len() - 1]);
    } else {
        assert(entries.take(i) =~= entries);
    }
}

impl Globals {
    pub open spec fn view_map(&self) -> Map<Seq<char>, Visibility> {
        globals_map(self.entries@)
    }

    /// The visibility of the global `name`, if it is one.
    pub fn get(&self, name: &str) -> (r: Option<Visibility>)
        ensures
            r == if self.view_map().dom().contains(name@) {
                Some(self.view_map()[name@])
            } else {
                None
            },
    {
        let mut i = self.entries.len();
        while i > 0
            invariant
                i <= self.entries@.len(),
                forall|j: int| i <= j < self.entries@.len() ==> (#[trigger] self.entries@[j]).0@ != name@,
            decreases i,
        {
            if str_eq(self.entries[i - 1].0.as_str(), name) {
                proof {
                    let e = self.entries@;
                    assert(forall|j: int| i <= j < e.len() ==> (#[trigger] e[j]).0@ != name@);
                    lemma_untouched_suffix(e, i as int, name@);
                    let t = e.take(i as int);
                    assert(t.last() == e[i - 1]);
                    assert(globals_map(t) == globals_map(t.drop_last()).insert(e[i - 1].0@, e[i - 1].1));
                }
                return Some(self.entries[i - 1].1);
            }
            i = i - 1;
        }
        proof {
            lemma_untouched_suffix(self.entries@, 0, name@);
            assert(self.entries@.take(0) =~= Seq::<(String, Visibility)>::empty());
        }
        None
    }

    /// These globals extended by `more`: each of `more` in turn sets its
    /// name's visibility.
    pub fn and_extend(self, more: Vec<(String, Visibility)>) -> (r: Self)
        ensures
            r.entries@ == self.entries@ + more@,
    {
        let mut entries = self.entries;
        let mut more = more;
        entries.append(&mut more);
        Globals { entries }
    }
}

fn push_entry(entries: &mut Vec<(String, Visibility)>, name: &str, visibility: Visibility)
    ensures
        final(entries)@.len() == old(entries)@.len() + 1,
        final(entries)@.drop_last() == old(entries)@,
        final(entries)@.last().0@ == name@,
        final(entries)@.last().1 == visibility,
{
    entries.push((String::from_str(name), visibility));
    assert(entries@.drop_last() =~= old(entries)@);
}

fn push_readonly(entries: &mut Vec<(String, Visibility)>, name: &str)
    ensures
        final(entries)@.len() == old(entries)@.len() + 1,
        final(entries)@.drop_last() == old(entries)@,
        final(entries)@.last().0@ == name@,
        final(entries)@.last().1 == Visibility::Readonly,
{
    push_entry(entries, name, Visibility::Readonly);
}

/// The globals of CommonJS modules: `exports` is writable, `global`,
/// `module` and `require` read-only.
pub fn commonjs() -> (g: Globals)
    ensures
        entry_names(g.entries@) == seq!["exports"@, "global"@, "module"@, "require"@],
        g.entries@[0].1 == Visibility::Writable,
        forall|i: int| 1 <= i < g.entries@.len() ==> (#[trigger] g.entries@[i]).1 == Visibility::Readonly,
{
    let mut entries: Vec<(String, Visibility)> = Vec::new();
    push_entry(&mut entries, "exports", Visibility::Writable);
    let ghost e1 = entries@;
    push_readonly(&mut entries, "global");
    let ghost e2 = entries@;
    push_readonly(&mut entries, "module");
    let ghost e3 = entries@;
    push_readonly(&mut entries, "require");
    assert(e2[0] == e1[0] && e3[0] == e2[0] && entries@[0] == e3[0]) by {
        assert(e2.drop_last()[0] == e2[0]);
        assert(e3.drop_last()[0] == e3[0]);
        assert(entries@.drop_last()[0] == entries@[0]);
    }
    assert(entry_names(entries@) =~= seq!["exports"@, "global"@, "module"@, "require"@]) by {
        assert(entries@[1] == e2[1]) by { assert(e3.drop_last()[1] == e3[1]); assert(entries@.drop_last()[1] == entries@[1]); }
        assert(entries@[2] == e3[2]) by { assert(entries@.drop_last()[2] == entries@[2]); }
    }
    Globals { entries }
}

/// The names of the globals of ES3.
pub open spec fn es3_names() -> Seq<Seq<char>> {
    seq!["Array"@, "Boolean"@, "constructor"@, "Date"@, "decodeURI"@, "decodeURIComponent"@, "encodeURI"@, "encodeURIComponent"@, "Error"@, "escape"@, "eval"@, "EvalError"@, "Function"@, "hasOwnProperty"@, "Infinity"@, "isFinite"@, "isNaN"@, "isPrototypeOf"@, "Math"@, "NaN"@, "Number"@, "Object"@, "parseFloat"@, "parseInt"@, "propertyIsEnumerable"@, "RangeError"@, "ReferenceError"@, "RegExp"@, "String"@, "SyntaxError"@, "toLocaleString"@, "toString"@, "TypeError"@, "undefined"@, "unescape"@, "URIError"@, "valueOf"@]
}

/// The globals of ES3, all read-only.
pub fn es3() -> (g: Globals)
    ensures
        entry_names(g.entries@) == es3_names(),
        forall|i: int| 0 <= i < g.entries@.len() ==> (#[trigger] g.entries@[i]).1 == Visibility::Readonly,
{
    let mut entries: Vec<(String, Visibility)> = Vec::new();
    push_readonly(&mut entries, "Array");
    push_readonly(&mut entries, "Boolean");
    push_readonly(&mut entries, "constructor");
    push_readonly(&mut entries, "Date");
    push_readonly(&mut entries, "decodeURI");
    push_readonly(&mut entries, "decodeURIComponent");
    push_readonly(&mut entries, "encodeURI");
    push_readonly(&mut entries, "encodeURIComponent");
    push_readonly(&mut entries, "Error");
    push_readonly(&mut entries, "escape");
    push_readonly(&mut entries, "eval");
    push_readonly(&mut entries, "EvalError");
    push_readonly(&mut entries, "Function");
    push_readonly(&mut entries, "hasOwnProperty");
    push_readonly(&mut entries, "Infinity");
    push_readonly(&mut entries, "isFinite");
    push_readonly(&mut entries, "isNaN");
    push_readonly(&mut entries, "isPrototypeOf");
    push_readonly(&mut entries, "Math");
    push_readonly(&mut entries, "NaN");
    push_readonly(&mut entries, "Number");
    push_readonly(&mut entries, "Object");
    push_readonly(&mut entries, "parseFloat");
    push_readonly(&mut entries, "parseInt");
    push_readonly(&mut entries, "propertyIsEnumerable");
    push_readonly(&mut entries, "RangeError");
    push_readonly(&mut entries, "ReferenceError");
    push_readonly(&mut entries, "RegExp");
    push_readonly(&mut entries, "String");
    push_readonly(&mut entries, "SyntaxError");
    push_readonly(&mut entries, "toLocaleString");
    push_readonly(&mut entries, "toString");
    push_readonly(&mut entries, "TypeError");
    push_readonly(&mut entries, "undefined");
    push_readonly(&mut entries, "unescape");
    push_readonly(&mut entries, "URIError");
    push_readonly(&mut entries, "valueOf");
    assert(entry_names(entries@) =~= es3_names());
    Globals { entries }
}

fn readonly_entries_2015() -> (v: Vec<(String, Visibility)>)
    ensures
        entry_names(v@) == seq!["ArrayBuffer"@, "DataView"@, "Float32Array"@, "Float64Array"@, "Int16Array"@, "Int32Array"@, "Int8Array"@, "Map"@, "Promise"@, "Proxy"@, "Reflect"@, "Set"@, "Symbol"@, "Uint16Array"@, "Uint32Array"@, "Uint8Array"@, "Uint8ClampedArray"@, "WeakMap"@, "WeakSet"@],
        forall|i: int| 0 <= i < v@.len() ==> (#[trigger] v@[i]).1 == Visibility::Readonly,
{
    let mut entries: Vec<(String, Visibility)> = Vec::new();
    push_readonly(&mut entries, "ArrayBuffer");
    push_readonly(&mut entries, "DataView");
    push_readonly(&mut entries, "Float32Array");
    push_readonly(&mut entries, "Float64Array");
    push_readonly(&mut entries, "Int16Array");
    push_readonly(&mut entries, "Int32Array");
    push_readonly(&mut entries, "Int8Array");
    push_readonly(&mut entries, "Map");
    push_readonly(&mut entries, "Promise");
    push_readonly(&mut entries, "Proxy");
    push_readonly(&mut entries, "Reflect");
    push_readonly(&mut entries, "Set");
    push_readonly(&mut entries, "Symbol");
    push_readonly(&mut entries, "Uint16Array");
    push_readonly(&mut entries, "Uint32Array");
    push_readonly(&mut entries, "Uint8Array");
    push_readonly(&mut entries, "Uint8ClampedArray");
    push_readonly(&mut entries, "WeakMap");
    push_readonly(&mut entries, "WeakSet");
    assert(entry_names(entries@) =~= seq!["ArrayBuffer"@, "DataView"@, "Float32Array"@, "Float64Array"@, "Int16Array"@, "Int32Array"@, "Int8Array"@, "Map"@, "Promise"@, "Proxy"@, "Reflect"@, "Set"@, "Symbol"@, "Uint16Array"@, "Uint32Array"@, "Uint8Array"@, "Uint8ClampedArray"@, "WeakMap"@, "WeakSet"@]);
    entries
}

fn readonly_entries_2017() -> (v: Vec<(String, Visibility)>)
    ensures
        entry_names(v@) == seq!["Atomics"@, "SharedArrayBuffer"@],
        forall|i: int| 0 <= i < v@.len() ==> (#[trigger] v@[i]).1 == Visibility::Readonly,
{
    let mut entries: Vec<(String, Visibility)> = Vec::new();
    push_readonly(&mut entries, "Atomics");
    push_readonly(&mut entries, "SharedArrayBuffer");
    assert(entry_names(entries@) =~= seq!["Atomics"@, "SharedArrayBuffer"@]);
    entries
}

fn readonly_entries_2020() -> (v: Vec<(String, Visibility)>)
    ensures
        entry_names(v@) == seq!["BigInt"@, "BigInt64Array"@, "BigUint64Array"@, "globalThis"@],
        forall|i: int| 0 <= i < v@.len() ==> (#[trigger] v@[i]).1 == Visibility::Readonly,
{
    let mut entries: Vec<(String, Visibility)> = Vec::new();
    push_readonly(&mut entries, "BigInt");
    push_readonly(&mut entries, "BigInt64Array");
    push_readonly(&mut entries, "BigUint64Array");
    push_readonly(&mut entries, "globalThis");
    assert(entry_names(entries@) =~= seq!["BigInt"@, "BigInt64Array"@, "BigUint64Array"@, "globalThis"@]);
    entries
}

fn readonly_entries_2021() -> (v: Vec<(String, Visibility)>)
    ensures
        entry_names(v@) == seq!["AggregateError"@, "FinalizationRegistry"@, "WeakRef"@],
        forall|i: int| 0 <= i < v@.len() ==> (#[trigger] v@[i]).1 == Visibility::Readonly,
{
    let mut entries: Vec<(String, Visibility)> = Vec::new();
    push_readonly(&mut entries, "AggregateError");
    push_readonly(&mut entries, "FinalizationRegistry");
    push_readonly(&mut entries, "WeakRef");
    assert(entry_names(entries@) =~= seq!["AggregateError"@, "FinalizationRegistry"@, "WeakRef"@]);
    entries
}

/// ES5: ES3 and `JSON`.
pub fn es5() -> (g: Globals)
    ensures
        entry_names(g.entries@) == es3_names().push("JSON"@),
        forall|i: int| 0 <= i < g.entries@.len() ==> (#[trigger] g.entries@[i]).1 == Visibility::Readonly,
{
    let mut more: Vec<(String, Visibility)> = Vec::new();
    push_readonly(&mut more, "JSON");
    let g = es3().and_extend(more);
    assert(entry_names(g.entries@) =~= es3_names().push("JSON"@));
    g
}

/// ES2015: ES5 and its typed arrays, collections, `Promise`, `Proxy`,
/// `Reflect` and `Symbol`.
pub fn es2015() -> (g: Globals)
    ensures
        entry_names(g.entries@) == es3_names().push("JSON"@) + seq!["ArrayBuffer"@, "DataView"@, "Float32Array"@, "Float64Array"@, "Int16Array"@, "Int32Array"@, "Int8Array"@, "Map"@, "Promise"@, "Proxy"@, "Reflect"@, "Set"@, "Symbol"@, "Uint16Array"@, "Uint32Array"@, "Uint8Array"@, "Uint8ClampedArray"@, "WeakMap"@, "WeakSet"@],
        forall|i: int| 0 <= i < g.entries@.len() ==> (#[trigger] g.entries@[i]).1 == Visibility::Readonly,
{
    let g = es5().and_extend(readonly_entries_2015());
    assert(entry_names(g.entries@) =~= es3_names().push("JSON"@) + seq!["ArrayBuffer"@, "DataView"@, "Float32Array"@, "Float64Array"@, "Int16Array"@, "Int32Array"@, "Int8Array"@, "Map"@, "Promise"@, "Proxy"@, "Reflect"@, "Set"@, "Symbol"@, "Uint16Array"@, "Uint32Array"@, "Uint8Array"@, "Uint8ClampedArray"@, "WeakMap"@, "WeakSet"@]);
    g
}

/// ES2017: ES2015 (as ES2016) and `Atomics`, `SharedArrayBuffer`.
pub fn es2017() -> (g: Globals)
    ensures
        entry_names(g.entries@) == es3_names().push("JSON"@) + seq!["ArrayBuffer"@, "DataView"@, "Float32Array"@, "Float64Array"@, "Int16Array"@, "Int32Array"@, "Int8Array"@, "Map"@, "Promise"@, "Proxy"@, "Reflect"@, "Set"@, "Symbol"@, "Uint16Array"@, "Uint32Array"@, "Uint8Array"@, "Uint8ClampedArray"@, "WeakMap"@, "WeakSet"@] + seq!["Atomics"@, "SharedArrayBuffer"@],
        forall|i: int| 0 <= i < g.entries@.len() ==> (#[trigger] g.entries@[i]).1 == Visibility::Readonly,
{
    let g = es2015().and_extend(readonly_entries_2017());
    assert(entry_names(g.entries@) =~= es3_names().push("JSON"@) + seq!["ArrayBuffer"@, "DataView"@, "Float32Array"@, "Float64Array"@, "Int16Array"@, "Int32Array"@, "Int8Array"@, "Map"@, "Promise"@, "Proxy"@, "Reflect"@, "Set"@, "Symbol"@, "Uint16Array"@, "Uint32Array"@, "Uint8Array"@, "Uint8ClampedArray"@, "WeakMap"@, "WeakSet"@] + seq!["Atomics"@, "SharedArrayBuffer"@]);
    g
}

/// ES2020: ES2017 (as ES2018 and ES2019) and the BigInt globals and
/// `globalThis`.
pub fn es2020() -> (g: Globals)
    ensures
        entry_names(g.entries@) == es3_names().push("JSON"@) + seq!["ArrayBuffer"@, "DataView"@, "Float32Array"@, "Float64Array"@, "Int16Array"@, "Int32Array"@, "Int8Array"@, "Map"@, "Promise"@, "Proxy"@, "Reflect"@, "Set"@, "Symbol"@, "Uint16Array"@, "Uint32Array"@, "Uint8Array"@, "Uint8ClampedArray"@, "WeakMap"@, "WeakSet"@] + seq!["Atomics"@, "SharedArrayBuffer"@] + seq!["BigInt"@, "BigInt64Array"@, "BigUint64Array"@, "globalThis"@],
        forall|i: int| 0 <= i < g.entries@.len() ==> (#[trigger] g.entries@[i]).1 == Visibility::Readonly,
{
    let g = es2017().and_extend(readonly_entries_2020());
    assert(entry_names(g.entries@) =~= es3_names().push("JSON"@) + seq!["ArrayBuffer"@, "DataView"@, "Float32Array"@, "Float64Array"@, "Int16Array"@, "Int32Array"@, "Int8Array"@, "Map"@, "Promise"@, "Proxy"@, "Reflect"@, "Set"@, "Symbol"@, "Uint16Array"@, "Uint32Array"@, "Uint8Array"@, "Uint8ClampedArray"@, "WeakMap"@, "WeakSet"@] + seq!["Atomics"@, "SharedArrayBuffer"@] + seq!["BigInt"@, "BigInt64Array"@, "BigUint64Array"@, "globalThis"@]);
    g
}

/// ES2021: ES2020 and `AggregateError`, `FinalizationRegistry`, `WeakRef`;
/// the later editions (and the built-in set) add nothing.
pub fn es2021() -> (g: Globals)
    ensures
        entry_names(g.entries@) == es3_names().push("JSON"@) + seq!["ArrayBuffer"@, "DataView"@, "Float32Array"@, "Float64Array"@, "Int16Array"@, "Int32Array"@, "Int8Array"@, "Map"@, "Promise"@, "Proxy"@, "Reflect"@, "Set"@, "Symbol"@, "Uint16Array"@, "Uint32Array"@, "Uint8Array"@, "Uint8ClampedArray"@, "WeakMap"@, "WeakSet"@] + seq!["Atomics"@, "SharedArrayBuffer"@] + seq!["BigInt"@, "BigInt64Array"@, "BigUint64Array"@, "globalThis"@] + seq!["AggregateError"@, "FinalizationRegistry"@, "WeakRef"@],
        forall|i: int| 0 <= i < g.entries@.len() ==> (#[trigger] g.entries@[i]).1 == Visibility::Readonly,
{
    let g = es2020().and_extend(readonly_entries_2021());
    assert(entry_names(g.entries@) =~= es3_names().push("JSON"@) + seq!["ArrayBuffer"@, "DataView"@, "Float32Array"@, "Float64Array"@, "Int16Array"@, "Int32Array"@, "Int8Array"@, "Map"@, "Promise"@, "Proxy"@, "Reflect"@, "Set"@, "Symbol"@, "Uint16Array"@, "Uint32Array"@, "Uint8Array"@, "Uint8ClampedArray"@, "WeakMap"@, "WeakSet"@] + seq!["Atomics"@, "SharedArrayBuffer"@] + seq!["BigInt"@, "BigInt64Array"@, "BigUint64Array"@, "globalThis"@] + seq!["AggregateError"@, "FinalizationRegistry"@, "WeakRef"@]);
    g
}

/// The built-in globals: those of the latest edition (ES2021's, which the
/// later editions keep as they are).
pub fn builtin() -> (g: Globals)
    ensures
        entry_names(g.entries@) == es3_names().push("JSON"@) + seq!["ArrayBuffer"@, "DataView"@, "Float32Array"@, "Float64Array"@, "Int16Array"@, "Int32Array"@, "Int8Array"@, "Map"@, "Promise"@, "Proxy"@, "Reflect"@, "Set"@, "Symbol"@, "Uint16Array"@, "Uint32Array"@, "Uint8Array"@, "Uint8ClampedArray"@, "WeakMap"@, "WeakSet"@] + seq!["Atomics"@, "SharedArrayBuffer"@] + seq!["BigInt"@, "BigInt64Array"@, "BigUint64Array"@, "globalThis"@] + seq!["AggregateError"@, "FinalizationRegistry"@, "WeakRef"@],
{
    es2021()
}

} // verus!
