use vstd::prelude::*;

use crate::ast_helpers::MethodDefinitionKind;
use crate::text::{concat, str_eq};
use crate::syntax_tree::{field_child, named_non_comment, NodeView, SyntaxTree};

verus! {

/// The options of the rule: which unpaired accessors it reports, and whether
/// it looks at classes.
#[derive(Copy, Clone, Debug, PartialEq, Eq, Structural)]
pub struct Options {
    pub get_without_set: bool,
    pub set_without_get: bool,
    pub enforce_for_class_members: bool,
}

impl Default for Options {
    fn default() -> (o: Self)
        ensures
            o == (Options {
                get_without_set: false,
                set_without_get: true,
                enforce_for_class_members: true,
            }),
    {
        Options { get_without_set: false, set_without_get: true, enforce_for_class_members: true }
    }
}

/// A token of a computed key: its kind and its text.
pub struct Token {
    pub kind: String,
    pub text: String,
}

/// What a getter or setter is known by: its static name, or (where it has
/// none) the tokens of its computed key.
pub enum AccessorKey {
    Name(String),
    Tokens(Vec<Token>),
}

/// The mathematical value of a key.
pub enum KeyView {
    Name(Seq<char>),
    Tokens(Seq<(Seq<char>, Seq<char>)>),
}

impl View for AccessorKey {
    type V = KeyView;

    open spec fn view(&self) -> KeyView {
        match self {
            AccessorKey::Name(s) => KeyView::Name(s@),
            AccessorKey::Tokens(ts) => KeyView::Tokens(ts@.map_values(|t: Token| (t.kind@, t.text@))),
        }
    }
}

/// A method definition of an object literal or a class body: the node it
/// stands for (by index in the caller's node table), its kind, its key, and
/// whether it is static.
pub struct Accessor {
    pub node: usize,
    pub kind: MethodDefinitionKind,
    pub key: AccessorKey,
    pub is_static: bool,
}

/// Which half of a pair is missing.
#[derive(Copy, Clone, Debug, PartialEq, Eq, Structural)]
pub enum Missing {
    Getter,
    Setter,
}

/// One report: the node of the lone accessor, and what it lacks.
#[derive(Copy, Clone, Debug, PartialEq, Eq, Structural)]
pub struct Report {
    pub node: usize,
    pub missing: Missing,
}

/// Two keys name the same property: two equal names, or two token lists
/// that agree token by token in kind and text.
pub fn keys_equal(a: &AccessorKey, b: &AccessorKey) -> (r: bool)
    ensures
        r == (a@ == b@),
{
    match (a, b) {
        (AccessorKey::Name(x), AccessorKey::Name(y)) => str_eq(x.as_str(), y.as_str()),
        (AccessorKey::Tokens(x), AccessorKey::Tokens(y)) => {
            let ghost xv = x@.map_values(|t: Token| (t.kind@, t.text@));
            let ghost yv = y@.map_values(|t: Token| (t.kind@, t.text@));
            if x.len() != y.len() {
                assert(xv.len() != yv.len());
                assert(a@ == KeyView::Tokens(xv));
                assert(b@ == KeyView::Tokens(yv));
                return false;
            }
            let mut i: usize = 0;
            while i < x.len()
                invariant
                    i <= x@.len(),
                    x@.len() == y@.len(),
                    xv == x@.map_values(|t: Token| (t.kind@, t.text@)),
                    yv == y@.map_values(|t: Token| (t.kind@, t.text@)),
                    a@ == KeyView::Tokens(xv),
                    b@ == KeyView::Tokens(yv),
                    forall|j: int| 0 <= j < i ==> xv[j] == yv[j],
                decreases x.len() - i,
            {
                if !str_eq(x[i].kind.as_str(), y[i].kind.as_str()) || !str_eq(
                    x[i].text.as_str(),
                    y[i].text.as_str(),
                ) {
                    assert(xv[i as int] != yv[i as int]);
                    assert(a@ == KeyView::Tokens(xv));
                    assert(b@ == KeyView::Tokens(yv));
                    assert(xv != yv);
                    return false;
                }
                i = i + 1;
            }
            assert(xv =~= yv);
            assert(a@ == KeyView::Tokens(xv));
            assert(b@ == KeyView::Tokens(yv));
            true
        },
        _ => false,
    }
}

/// A getter or a setter.
pub open spec fn is_pairable(kind: MethodDefinitionKind) -> bool {
    kind == MethodDefinitionKind::Get || kind == MethodDefinitionKind::Setter
}

/// The distinct keys of the getters and setters of `items`, in the order in
/// which they first occur.
pub open spec fn group_keys(items: Seq<Accessor>) -> Seq<KeyView>
    decreases items.len(),
{
    if items.len() == 0 {
        Seq::empty()
    } else {
        let ks = group_keys(items.drop_last());
        let a = items.last();
        if is_pairable(a.kind) && !ks.contains(a.key@) {
            ks.push(a.key@)
        } else {
            ks
        }
    }
}

/// The nodes of the members of `items` of kind `kind` whose key is `k`, in
/// order.
pub open spec fn with_key(items: Seq<Accessor>, k: KeyView, kind: MethodDefinitionKind) -> Seq<usize>
    decreases items.len(),
{
    if items.len() == 0 {
        Seq::empty()
    } else {
        let r = with_key(items.drop_last(), k, kind);
        if items.last().kind == kind && items.last().key@ == k {
            r.push(items.last().node)
        } else {
            r
        }
    }
}

pub open spec fn reports_of(nodes: Seq<usize>, missing: Missing) -> Seq<Report> {
    nodes.map_values(|n: usize| Report { node: n, missing })
}

/// The reports for the accessors with key `k`: its setters when it has no
/// getter, its getters when it has no setter, as the options ask.
pub open spec fn group_reports(items: Seq<Accessor>, k: KeyView, options: Options) -> Seq<Report> {
    let getters = with_key(items, k, MethodDefinitionKind::Get);
    let setters = with_key(items, k, MethodDefinitionKind::Setter);
    (if options.set_without_get && setters.len() > 0 && getters.len() == 0 {
        reports_of(setters, Missing::Getter)
    } else {
        Seq::empty()
    }) + (if options.get_without_set && getters.len() > 0 && setters.len() == 0 {
        reports_of(getters, Missing::Setter)
    } else {
        Seq::empty()
    })
}

pub open spec fn keys_reports(items: Seq<Accessor>, keys: Seq<KeyView>, options: Options) -> Seq<
    Report,
>
    decreases keys.len(),
{
    if keys.len() == 0 {
        Seq::empty()
    } else {
        keys_reports(items, keys.drop_last(), options) + group_reports(items, keys.last(), options)
    }
}

/// What checking a list of members reports: key by key, in the order in
/// which the keys first occur, the lone setters and then the lone getters.
pub open spec fn check_list_spec(items: Seq<Accessor>, options: Options) -> Seq<Report> {
    keys_reports(items, group_keys(items), options)
}

proof fn lemma_with_key_absent(items: Seq<Accessor>, k: KeyView, kind: MethodDefinitionKind)
    requires
        is_pairable(kind),
        !group_keys(items).contains(k),
    ensures
        with_key(items, k, kind) == Seq::<usize>::empty(),
    decreases items.len(),
{
    if items.len() > 0 {
        let ks = group_keys(items.drop_last());
        if ks.contains(k) {
            let j = choose|j: int| 0 <= j < ks.len() && ks[j] == k;
            assert(group_keys(items).contains(k)) by {
                assert(group_keys(items)[j] == k);
            }
        }
        lemma_with_key_absent(items.drop_last(), k, kind);
        let a = items.last();
        if a.kind == kind && a.key@ == k {
            assert(group_keys(items) == ks.push(k));
            assert(group_keys(items)[ks.len() as int] == k);
        }
    }
}

proof fn lemma_group_keys_distinct(items: Seq<Accessor>)
    ensures
        group_keys(items).no_duplicates(),
    decreases items.len(),
{
    if items.len() > 0 {
        lemma_group_keys_distinct(items.drop_last());
    }
}

struct Group {
    rep: usize,
    getters: Vec<usize>,
    setters: Vec<usize>,
}

spec fn groups_ok(items: Seq<Accessor>, all: Seq<Accessor>, groups: Seq<Group>) -> bool {
    let keys = group_keys(items);
    &&& groups.len() == keys.len()
    &&& forall|g: int|
        0 <= g < groups.len() ==> {
            &&& (#[trigger] groups[g]).rep < items.len()
            &&& all[groups[g].rep as int].key@ == keys[g]
            &&& groups[g].getters@ == with_key(items, keys[g], MethodDefinitionKind::Get)
            &&& groups[g].setters@ == with_key(items, keys[g], MethodDefinitionKind::Setter)
        }
}

fn group_reports_exec(group: &Group, options: Options, out: &mut Vec<Report>)
    ensures
        final(out)@ == old(out)@ + ({
            let getters = group.getters@;
            let setters = group.setters@;
            (if options.set_without_get && setters.len() > 0 && getters.len() == 0 {
                reports_of(setters, Missing::Getter)
            } else {
                Seq::empty()
            }) + (if options.get_without_set && getters.len() > 0 && setters.len() == 0 {
                reports_of(getters, Missing::Setter)
            } else {
                Seq::empty()
            })
        }),
{
    let ghost start = out@;
    if options.set_without_get && group.setters.len() > 0 && group.getters.len() == 0 {
        push_reports(&group.setters, Missing::Getter, out);
    }
    let ghost mid = out@;
    if options.get_without_set && group.getters.len() > 0 && group.setters.len() == 0 {
        push_reports(&group.getters, Missing::Setter, out);
    }
    assert(out@ =~= start + (mid.skip(start.len() as int) + out@.skip(mid.len() as int)));
}

fn push_reports(nodes: &Vec<usize>, missing: Missing, out: &mut Vec<Report>)
    ensures
        final(out)@ == old(out)@ + reports_of(nodes@, missing),
{
    let ghost start = out@;
    let mut i: usize = 0;
    while i < nodes.len()
        invariant
            i <= nodes@.len(),
            out@ == start + reports_of(nodes@.take(i as int), missing),
        decreases nodes.len() - i,
    {
        out.push(Report { node: nodes[i], missing });
        assert(reports_of(nodes@.take(i + 1), missing) =~= reports_of(nodes@.take(i as int), missing).push(
            Report { node: nodes@[i as int], missing },
        ));
        i = i + 1;
    }
    assert(nodes@.take(nodes@.len() as int) == nodes@);
}

/// Pairs the getters and setters of `items` by key and reports those left
/// alone (see `check_list_spec`).
pub fn check_list(items: &Vec<Accessor>, options: Options) -> (r: Vec<Report>)
    ensures
        r@ == check_list_spec(items@, options),
{
    let mut groups: Vec<Group> = Vec::new();
    let mut i: usize = 0;
    while i < items.len()
        invariant
            i <= items@.len(),
            groups_ok(items@.take(i as int), items@, groups@),
        decreases items.len() - i,
    {
        let ghost pre = items@.take(i as int);
        let ghost post = items@.take(i + 1);
        assert(post.drop_last() == pre);
        assert(post.last() == items@[i as int]);
        let ghost keys = group_keys(pre);
        proof {
            lemma_group_keys_distinct(pre);
        }
        let item = &items[i];
        if item.kind == MethodDefinitionKind::Get || item.kind == MethodDefinitionKind::Setter {
            let mut g: usize = 0;
            let mut found = false;
            while g < groups.len()
                invariant_except_break
                    !found,
                invariant
                    g <= groups@.len(),
                    groups_ok(pre, items@, groups@),
                    keys == group_keys(pre),
                    pre == items@.take(i as int),
                    i < items@.len(),
                    item == items@[i as int],
                    forall|h: int| 0 <= h < g ==> keys[h] != item.key@,
                ensures
                    g <= groups@.len(),
                    forall|h: int| 0 <= h < g ==> keys[h] != item.key@,
                    found ==> g < groups@.len() && keys[g as int] == item.key@,
                    !found ==> g == groups@.len(),
                decreases groups.len() - g,
            {
                if keys_equal(&items[groups[g].rep].key, &item.key) {
                    found = true;
                    break;
                }
                g = g + 1;
            }
            if found {
                let ghost old_groups = groups@;
                assert(group_keys(post) == keys) by {
                    assert(keys.contains(item.key@)) by {
                        assert(keys[g as int] == item.key@);
                    }
                }
                let mut group = groups.remove(g);
                if item.kind == MethodDefinitionKind::Get {
                    group.getters.push(item.node);
                } else {
                    group.setters.push(item.node);
                }
                groups.insert(g, group);
                assert forall|h: int| 0 <= h < groups@.len() implies {
                    &&& (#[trigger] groups@[h]).rep < post.len()
                    &&& items@[groups@[h].rep as int].key@ == keys[h]
                    &&& groups@[h].getters@ == with_key(post, keys[h], MethodDefinitionKind::Get)
                    &&& groups@[h].setters@ == with_key(post, keys[h], MethodDefinitionKind::Setter)
                } by {
                    if h != g {
                        assert(groups@[h] == old_groups[h]);
                        assert(keys[h] != keys[g as int]);
                    }
                }
            } else {
                proof {
                    assert(!keys.contains(item.key@)) by {
                        if keys.contains(item.key@) {
                            let j = choose|j: int| 0 <= j < keys.len() && keys[j] == item.key@;
                            assert(keys[j] != item.key@);
                        }
                    }
                    lemma_with_key_absent(pre, item.key@, MethodDefinitionKind::Get);
                    lemma_with_key_absent(pre, item.key@, MethodDefinitionKind::Setter);
                }
                let ghost old_groups = groups@;
                let mut getters: Vec<usize> = Vec::new();
                let mut setters: Vec<usize> = Vec::new();
                if item.kind == MethodDefinitionKind::Get {
                    getters.push(item.node);
                } else {
                    setters.push(item.node);
                }
                groups.push(Group { rep: i, getters, setters });
                assert(group_keys(post) == keys.push(item.key@));
                assert forall|h: int| 0 <= h < groups@.len() implies {
                    &&& (#[trigger] groups@[h]).rep < post.len()
                    &&& items@[groups@[h].rep as int].key@ == group_keys(post)[h]
                    &&& groups@[h].getters@ == with_key(post, group_keys(post)[h], MethodDefinitionKind::Get)
                    &&& groups@[h].setters@ == with_key(post, group_keys(post)[h], MethodDefinitionKind::Setter)
                } by {
                    if h < old_groups.len() {
                        assert(groups@[h] == old_groups[h]);
                        assert(keys.contains(keys[h]));
                        assert(keys[h] != item.key@);
                    } else {
                        assert(groups@[h].getters@ =~= with_key(post, item.key@, MethodDefinitionKind::Get));
                        assert(groups@[h].setters@ =~= with_key(post, item.key@, MethodDefinitionKind::Setter));
                    }
                }
            }
        } else {
            assert(group_keys(post) == keys);
            assert forall|h: int| 0 <= h < groups@.len() implies {
                &&& (#[trigger] groups@[h]).rep < post.len()
                &&& items@[groups@[h].rep as int].key@ == keys[h]
                &&& groups@[h].getters@ == with_key(post, keys[h], MethodDefinitionKind::Get)
                &&& groups@[h].setters@ == with_key(post, keys[h], MethodDefinitionKind::Setter)
            } by {}
        }
        i = i + 1;
    }
    assert(items@.take(items@.len() as int) == items@);
    let ghost keys = group_keys(items@);
    let mut reports: Vec<Report> = Vec::new();
    let mut g: usize = 0;
    while g < groups.len()
        invariant
            g <= groups@.len(),
            groups_ok(items@, items@, groups@),
            keys == group_keys(items@),
            reports@ == keys_reports(items@, keys.take(g as int), options),
        decreases groups.len() - g,
    {
        assert(keys.take(g + 1).drop_last() == keys.take(g as int));
        group_reports_exec(&groups[g], options, &mut reports);
        g = g + 1;
    }
    assert(keys.take(keys.len() as int) == keys);
    reports
}

fn copy_key(key: &AccessorKey) -> (r: AccessorKey)
    ensures
        r@ == key@,
{
    match key {
        AccessorKey::Name(n) => AccessorKey::Name(n.clone()),
        AccessorKey::Tokens(ts) => {
            let mut out: Vec<Token> = Vec::new();
            let mut i: usize = 0;
            while i < ts.len()
                invariant
                    i <= ts@.len(),
                    out@.map_values(|t: Token| (t.kind@, t.text@)) =~= ts@.take(i as int).map_values(
                        |t: Token| (t.kind@, t.text@),
                    ),
                decreases ts.len() - i,
            {
                let ghost o = out@;
                out.push(Token { kind: ts[i].kind.clone(), text: ts[i].text.clone() });
                assert(out@.map_values(|t: Token| (t.kind@, t.text@)) =~= o.map_values(
                    |t: Token| (t.kind@, t.text@),
                ).push((ts@[i as int].kind@, ts@[i as int].text@)));
                assert(ts@.take(i + 1).map_values(|t: Token| (t.kind@, t.text@)) =~= ts@.take(
                    i as int,
                ).map_values(|t: Token| (t.kind@, t.text@)).push((ts@[i as int].kind@, ts@[i as int].text@)));
                i = i + 1;
            }
            assert(ts@.take(ts@.len() as int) == ts@);
            AccessorKey::Tokens(out)
        },
    }
}

fn copy_accessor(a: &Accessor) -> (r: Accessor)
    ensures
        r.node == a.node,
        r.kind == a.kind,
        r.key@ == a.key@,
        r.is_static == a.is_static,
{
    Accessor { node: a.node, kind: a.kind, key: copy_key(&a.key), is_static: a.is_static }
}

/// The members of `items` that are static (or not, as `want` says), in
/// order.
pub open spec fn members_with_static(items: Seq<Accessor>, want: bool) -> Seq<Accessor>
    decreases items.len(),
{
    if items.len() == 0 {
        Seq::empty()
    } else {
        let rest = members_with_static(items.drop_last(), want);
        if items.last().is_static == want {
            rest.push(items.last())
        } else {
            rest
        }
    }
}

/// `check_list_spec` gives the same on lists that agree on each member's
/// node, kind and key.
proof fn lemma_check_list_congruent(a: Seq<Accessor>, b: Seq<Accessor>, options: Options)
    requires
        a.len() == b.len(),
        forall|i: int|
            0 <= i < a.len() ==> (#[trigger] a[i]).node == b[i].node && a[i].kind == b[i].kind
                && a[i].key@ == b[i].key@,
    ensures
        check_list_spec(a, options) == check_list_spec(b, options),
{
    lemma_group_keys_congruent(a, b);
    lemma_keys_reports_congruent(a, b, group_keys(a), options);
}

proof fn lemma_group_keys_congruent(a: Seq<Accessor>, b: Seq<Accessor>)
    requires
        a.len() == b.len(),
        forall|i: int|
            0 <= i < a.len() ==> (#[trigger] a[i]).node == b[i].node && a[i].kind == b[i].kind
                && a[i].key@ == b[i].key@,
    ensures
        group_keys(a) == group_keys(b),
    decreases a.len(),
{
    if a.len() > 0 {
        assert(a.last().kind == b.last().kind && a.last().key@ == b.last().key@) by {
            assert(a[a.len() - 1].kind == b[b.len() - 1].kind);
        }
        lemma_group_keys_congruent(a.drop_last(), b.drop_last());
    }
}

proof fn lemma_with_key_congruent(a: Seq<Accessor>, b: Seq<Accessor>, k: KeyView, kind: MethodDefinitionKind)
    requires
        a.len() == b.len(),
        forall|i: int|
            0 <= i < a.len() ==> (#[trigger] a[i]).node == b[i].node && a[i].kind == b[i].kind
                && a[i].key@ == b[i].key@,
    ensures
        with_key(a, k, kind) == with_key(b, k, kind),
    decreases a.len(),
{
    if a.len() > 0 {
        assert(a.last().node == b.last().node && a.last().kind == b.last().kind && a.last().key@ == b.last().key@) by {
            assert(a[a.len() - 1].kind == b[b.len() - 1].kind);
        }
        lemma_with_key_congruent(a.drop_last(), b.drop_last(), k, kind);
    }
}

proof fn lemma_keys_reports_congruent(a: Seq<Accessor>, b: Seq<Accessor>, keys: Seq<KeyView>, options: Options)
    requires
        a.len() == b.len(),
        forall|i: int|
            0 <= i < a.len() ==> (#[trigger] a[i]).node == b[i].node && a[i].kind == b[i].kind
                && a[i].key@ == b[i].key@,
    ensures
        keys_reports(a, keys, options) == keys_reports(b, keys, options),
    decreases keys.len(),
{
    if keys.len() > 0 {
        lemma_keys_reports_congruent(a, b, keys.drop_last(), options);
        lemma_with_key_congruent(a, b, keys.last(), MethodDefinitionKind::Get);
        lemma_with_key_congruent(a, b, keys.last(), MethodDefinitionKind::Setter);
    }
}

fn select_members(items: &Vec<Accessor>, want: bool) -> (r: Vec<Accessor>)
    ensures
        r@.len() == members_with_static(items@, want).len(),
        forall|i: int|
            0 <= i < r@.len() ==> (#[trigger] r@[i]).node == members_with_static(items@, want)[i].node
                && r@[i].kind == members_with_static(items@, want)[i].kind && r@[i].key@
                == members_with_static(items@, want)[i].key@,
{
    let mut out: Vec<Accessor> = Vec::new();
    let mut i: usize = 0;
    while i < items.len()
        invariant
            i <= items@.len(),
            out@.len() == members_with_static(items@.take(i as int), want).len(),
            forall|j: int|
                0 <= j < out@.len() ==> (#[trigger] out@[j]).node == members_with_static(
                    items@.take(i as int),
                    want,
                )[j].node && out@[j].kind == members_with_static(items@.take(i as int), want)[j].kind
                    && out@[j].key@ == members_with_static(items@.take(i as int), want)[j].key@,
        decreases items.len() - i,
    {
        assert(items@.take(i + 1).drop_last() == items@.take(i as int));
        if items[i].is_static == want {
            out.push(copy_accessor(&items[i]));
        }
        i = i + 1;
    }
    assert(items@.take(items@.len() as int) == items@);
    out
}

/// What checking a class body reports: its static members are paired among
/// themselves, then the others.
pub open spec fn check_class_body_spec(members: Seq<Accessor>, options: Options) -> Seq<Report> {
    check_list_spec(members_with_static(members, true), options) + check_list_spec(
        members_with_static(members, false),
        options,
    )
}

/// Checks the method definitions of a class body (nothing unless the options
/// ask for classes).
pub fn check_class_body(members: &Vec<Accessor>, options: Options) -> (r: Vec<Report>)
    ensures
        r@ == if options.enforce_for_class_members {
            check_class_body_spec(members@, options)
        } else {
            Seq::empty()
        },
{
    if !options.enforce_for_class_members {
        return Vec::new();
    }
    let statics = select_members(members, true);
    let others = select_members(members, false);
    proof {
        lemma_check_list_congruent(statics@, members_with_static(members@, true), options);
        lemma_check_list_congruent(others@, members_with_static(members@, false), options);
    }
    let mut r = check_list(&statics, options);
    let mut rest = check_list(&others, options);
    r.append(&mut rest);
    r
}

/// Checks the method definitions of an object literal (nothing unless the
/// options ask for some check).
pub fn check_object_literal(methods: &Vec<Accessor>, options: Options) -> (r: Vec<Report>)
    ensures
        r@ == if options.set_without_get || options.get_without_set {
            check_list_spec(methods@, options)
        } else {
            Seq::empty()
        },
{
    if !(options.set_without_get || options.get_without_set) {
        return Vec::new();
    }
    check_list(methods, options)
}

/// What a property descriptor lacks, given the names of its plain keys: a
/// `set` without `get` lacks a getter, a `get` without `set` a setter, as the
/// options ask.
pub open spec fn property_descriptor_spec(names: Seq<Seq<char>>, options: Options) -> Option<Missing> {
    let has_getter = names.contains("get"@);
    let has_setter = names.contains("set"@);
    if options.set_without_get && has_setter && !has_getter {
        Some(Missing::Getter)
    } else if options.get_without_set && has_getter && !has_setter {
        Some(Missing::Setter)
    } else {
        None
    }
}

fn contains_name(names: &Vec<String>, name: &str) -> (b: bool)
    ensures
        b == names@.map_values(|s: String| s@).contains(name@),
{
    let ghost v = names@.map_values(|s: String| s@);
    let mut i: usize = 0;
    while i < names.len()
        invariant
            i <= names@.len(),
            v == names@.map_values(|s: String| s@),
            forall|j: int| 0 <= j < i ==> v[j] != name@,
        decreases names.len() - i,
    {
        if str_eq(names[i].as_str(), name) {
            assert(v[i as int] == name@);
            return true;
        }
        i = i + 1;
    }
    false
}

/// Checks a property descriptor, given the names of the keys of its plain
/// properties.
pub fn check_property_descriptor(names: &Vec<String>, options: Options) -> (r: Option<Missing>)
    ensures
        r == property_descriptor_spec(names@.map_values(|s: String| s@), options),
{
    let has_getter = contains_name(names, "get");
    let has_setter = contains_name(names, "set");
    if options.set_without_get && has_setter && !has_getter {
        Some(Missing::Getter)
    } else if options.get_without_set && has_getter && !has_setter {
        Some(Missing::Setter)
    } else {
        None
    }
}

/// The names of the plain keys of object `n`: for each of its pairs (in
/// order) whose key is a property identifier, the key's text.
pub open spec fn descriptor_names_spec(t: Seq<NodeView>, cs: Seq<usize>) -> Seq<Seq<char>>
    decreases cs.len(),
{
    if cs.len() == 0 {
        Seq::empty()
    } else {
        let rest = descriptor_names_spec(t, cs.drop_last());
        let c = cs.last();
        if t[c as int].kind == "pair"@ {
            match field_child(t, t[c as int].children, "key"@) {
                Some(k) => if t[k as int].kind == "property_identifier"@ {
                    rest.push(t[k as int].text)
                } else {
                    rest
                },
                None => rest,
            }
        } else {
            rest
        }
    }
}

/// The names that `check_property_descriptor` takes, read off object `n`
/// of `tree`.
pub fn property_descriptor_names(tree: &SyntaxTree, n: usize) -> (r: Vec<String>)
    requires
        tree.wf(),
        n < tree@.len(),
    ensures
        r@.map_values(|s: String| s@) == descriptor_names_spec(tree@, named_non_comment(tree@, tree@[n as int].children)),
{
    let children = tree.non_comment_named_children(n);
    let ghost cs = children@;
    let mut out: Vec<String> = Vec::new();
    let mut i: usize = 0;
    while i < children.len()
        invariant
            tree.wf(),
            children@ == cs,
            forall|k: int| 0 <= k < cs.len() ==> n < #[trigger] cs[k] < tree@.len(),
            i <= cs.len(),
            out@.map_values(|s: String| s@) == descriptor_names_spec(tree@, cs.take(i as int)),
        decreases children.len() - i,
    {
        let c = children[i];
        assert(cs.take(i + 1).drop_last() =~= cs.take(i as int));
        assert(cs.take(i + 1).last() == c);
        let ghost before = out@;
        assert(tree.nodes@[c as int]@ == tree@[c as int]);
        if tree.kind_is(c, "pair") {
            match tree.child_by_field_name(c, "key") {
                Some(k) => {
                    if tree.kind_is(k, "property_identifier") {
                        assert(tree.nodes@[k as int]@ == tree@[k as int]);
                        out.push(tree.nodes[k].text.clone());
                        assert(out@.map_values(|s: String| s@) =~= before.map_values(|s: String| s@).push(
                            tree@[k as int].text,
                        ));
                    }
                },
                None => {},
            }
        }
        i = i + 1;
    }
    assert(cs.take(cs.len() as int) =~= cs);
    out
}

/// A node as an argument of a method call `object.property(...)`: the
/// object's and the property's names, and the argument's position.
pub struct MethodCallArgument {
    pub object: String,
    pub property: String,
    pub index: usize,
}

pub open spec fn is_argument_of(a: Option<MethodCallArgument>, index: usize, object: Seq<char>, property: Seq<char>) -> bool {
    match a {
        Some(a) => a.index == index && a.object@ == object && a.property@ == property,
        None => false,
    }
}

fn argument_of(a: &Option<MethodCallArgument>, index: usize, object: &str, property: &str) -> (b: bool)
    ensures
        b == is_argument_of(*a, index, object@, property@),
{
    match a {
        Some(a) => a.index == index && str_eq(a.object.as_str(), object) && str_eq(
            a.property.as_str(),
            property,
        ),
        None => false,
    }
}

/// Whether an object literal is a property descriptor: the third argument
/// of `Object.defineProperty` or `Reflect.defineProperty`, or a property
/// value of an object literal that is the second argument of `Object.create`
/// or `Object.defineProperties`. `as_argument` says how the object is an
/// argument of a call, `grandparent_is_object` whether its grandparent is an
/// object literal, and `grandparent_as_argument` how that one is.
pub open spec fn is_property_descriptor_spec(
    as_argument: Option<MethodCallArgument>,
    grandparent_is_object: bool,
    grandparent_as_argument: Option<MethodCallArgument>,
) -> bool {
    is_argument_of(as_argument, 2, "Object"@, "defineProperty"@) || is_argument_of(
        as_argument,
        2,
        "Reflect"@,
        "defineProperty"@,
    ) || (grandparent_is_object && (is_argument_of(grandparent_as_argument, 1, "Object"@, "create"@)
        || is_argument_of(grandparent_as_argument, 1, "Object"@, "defineProperties"@)))
}

pub fn is_property_descriptor(
    as_argument: &Option<MethodCallArgument>,
    grandparent_is_object: bool,
    grandparent_as_argument: &Option<MethodCallArgument>,
) -> (b: bool)
    ensures
        b == is_property_descriptor_spec(*as_argument, grandparent_is_object, *grandparent_as_argument),
{
    if argument_of(as_argument, 2, "Object", "defineProperty") || argument_of(
        as_argument,
        2,
        "Reflect",
        "defineProperty",
    ) {
        return true;
    }
    grandparent_is_object && (argument_of(grandparent_as_argument, 1, "Object", "create")
        || argument_of(grandparent_as_argument, 1, "Object", "defineProperties"))
}

/// Where a reported node stands, for the message.
#[derive(Copy, Clone, Debug, PartialEq, Eq, Structural)]
pub enum Place {
    PropertyDescriptor,
    ObjectLiteral,
    Class,
}

/// A method definition in an object literal or a class; any other node
/// reported is a property descriptor.
pub open spec fn place_spec(is_method_definition: bool, parent_is_object: bool) -> Place {
    if !is_method_definition {
        Place::PropertyDescriptor
    } else if parent_is_object {
        Place::ObjectLiteral
    } else {
        Place::Class
    }
}

pub fn place(is_method_definition: bool, parent_is_object: bool) -> (p: Place)
    ensures
        p == place_spec(is_method_definition, parent_is_object),
{
    if !is_method_definition {
        Place::PropertyDescriptor
    } else if parent_is_object {
        Place::ObjectLiteral
    } else {
        Place::Class
    }
}

pub open spec fn message_id_spec(missing: Missing, place: Place) -> Seq<char> {
    (match missing {
        Missing::Getter => "missing_getter"@,
        Missing::Setter => "missing_setter"@,
    }) + (match place {
        Place::PropertyDescriptor => "_in_property_descriptor"@,
        Place::ObjectLiteral => "_in_object_literal"@,
        Place::Class => "_in_class"@,
    })
}

/// The message id of a report: what is missing, then where.
pub fn message_id(missing: Missing, place: Place) -> (r: String)
    ensures
        r@ == message_id_spec(missing, place),
{
    let kind = match missing {
        Missing::Getter => "missing_getter",
        Missing::Setter => "missing_setter",
    };
    let suffix = match place {
        Place::PropertyDescriptor => "_in_property_descriptor",
        Place::ObjectLiteral => "_in_object_literal",
        Place::Class => "_in_class",
    };
    concat(kind, suffix)
}

proof fn lemma_with_key_contains(items: Seq<Accessor>, k: KeyView, kind: MethodDefinitionKind, n: usize)
    ensures
        with_key(items, k, kind).contains(n) <==> exists|j: int|
            0 <= j < items.len() && (#[trigger] items[j]).kind == kind && items[j].key@ == k
                && items[j].node == n,
    decreases items.len(),
{
    if items.len() > 0 {
        let d = items.drop_last();
        lemma_with_key_contains(d, k, kind, n);
        let r = with_key(d, k, kind);
        if with_key(items, k, kind).contains(n) {
            if r.contains(n) {
                let j = choose|j: int|
                    0 <= j < d.len() && (#[trigger] d[j]).kind == kind && d[j].key@ == k && d[j].node == n;
                assert(items[j] == d[j]);
            } else {
                let j = items.len() - 1;
                assert(items[j] == items.last());
            }
        }
        if exists|j: int|
            0 <= j < items.len() && (#[trigger] items[j]).kind == kind && items[j].key@ == k
                && items[j].node == n {
            let j = choose|j: int|
                0 <= j < items.len() && (#[trigger] items[j]).kind == kind && items[j].key@ == k
                    && items[j].node == n;
            if j < items.len() - 1 {
                assert(d[j] == items[j]);
                assert(r.contains(n));
                if items.last().kind == kind && items.last().key@ == k {
                    assert(with_key(items, k, kind) == r.push(items.last().node));
                    assert(with_key(items, k, kind)[r.index_of(n)] == n);
                }
            } else {
                assert(with_key(items, k, kind) == r.push(n));
                assert(with_key(items, k, kind)[r.len() as int] == n);
            }
        }
    }
}

proof fn lemma_group_keys_has(items: Seq<Accessor>, i: int)
    requires
        0 <= i < items.len(),
        is_pairable(items[i].kind),
    ensures
        group_keys(items).contains(items[i].key@),
    decreases items.len(),
{
    let d = items.drop_last();
    let ks = group_keys(d);
    if i < items.len() - 1 {
        assert(d[i] == items[i]);
        lemma_group_keys_has(d, i);
        let g = ks.index_of(items[i].key@);
        if is_pairable(items.last().kind) && !ks.contains(items.last().key@) {
            assert(group_keys(items)[g] == items[i].key@);
        } else {
            assert(group_keys(items)[g] == items[i].key@);
        }
    } else {
        assert(items[i] == items.last());
        if ks.contains(items.last().key@) {
            let g = ks.index_of(items.last().key@);
            assert(group_keys(items)[g] == items[i].key@);
        } else {
            assert(group_keys(items)[ks.len() as int] == items[i].key@);
        }
    }
}

proof fn lemma_keys_reports_contains(items: Seq<Accessor>, keys: Seq<KeyView>, options: Options, r: Report)
    ensures
        keys_reports(items, keys, options).contains(r) <==> exists|g: int|
            0 <= g < keys.len() && #[trigger] group_reports(items, keys[g], options).contains(r),
    decreases keys.len(),
{
    if keys.len() > 0 {
        let d = keys.drop_last();
        lemma_keys_reports_contains(items, d, options, r);
        let a = keys_reports(items, d, options);
        let b = group_reports(items, keys.last(), options);
        if (a + b).contains(r) {
            let x = (a + b).index_of(r);
            if x < a.len() {
                assert(a[x] == r);
                assert(a.contains(r));
                let g = choose|g: int| 0 <= g < d.len() && #[trigger] group_reports(items, d[g], options).contains(r);
                assert(keys[g] == d[g]);
                assert(group_reports(items, keys[g], options).contains(r));
            } else {
                assert(b[x - a.len()] == r);
                assert(b.contains(r));
                assert(keys[keys.len() - 1] == keys.last());
                assert(group_reports(items, keys[keys.len() - 1], options).contains(r));
            }
        }
        if exists|g: int| 0 <= g < keys.len() && #[trigger] group_reports(items, keys[g], options).contains(r) {
            let g = choose|g: int| 0 <= g < keys.len() && #[trigger] group_reports(items, keys[g], options).contains(r);
            if g < keys.len() - 1 {
                assert(d[g] == keys[g]);
                assert(a.contains(r));
                assert((a + b)[a.index_of(r)] == r);
            } else {
                assert(keys[g] == keys.last());
                assert(b.contains(r));
                assert((a + b)[a.len() + b.index_of(r)] == r);
            }
        }
    }
}

proof fn lemma_reports_of_contains(nodes: Seq<usize>, missing: Missing, r: Report)
    ensures
        reports_of(nodes, missing).contains(r) <==> (r.missing == missing && nodes.contains(r.node)),
{
    if reports_of(nodes, missing).contains(r) {
        let x = reports_of(nodes, missing).index_of(r);
        assert(nodes[x] == r.node);
    }
    if r.missing == missing && nodes.contains(r.node) {
        let x = nodes.index_of(r.node);
        assert(reports_of(nodes, missing)[x] == r);
    }
}

/// A setter is reported as lacking a getter exactly when the options ask
/// for that and no getter shares its key; a getter is reported as lacking a
/// setter exactly when the options ask for that and no setter shares its
/// key. (The members are told apart by their nodes.)
pub proof fn lemma_lone_accessors_reported(items: Seq<Accessor>, options: Options, i: int)
    requires
        0 <= i < items.len(),
        is_pairable(items[i].kind),
        forall|a: int, b: int| 0 <= a < b < items.len() ==> items[a].node != items[b].node,
    ensures
        items[i].kind == MethodDefinitionKind::Setter ==> (check_list_spec(items, options).contains(
            Report { node: items[i].node, missing: Missing::Getter },
        ) <==> (options.set_without_get && with_key(items, items[i].key@, MethodDefinitionKind::Get).len() == 0)),
        items[i].kind == MethodDefinitionKind::Get ==> (check_list_spec(items, options).contains(
            Report { node: items[i].node, missing: Missing::Setter },
        ) <==> (options.get_without_set && with_key(items, items[i].key@, MethodDefinitionKind::Setter).len() == 0)),
{
    let keys = group_keys(items);
    let k = items[i].key@;
    let n = items[i].node;
    lemma_group_keys_has(items, i);
    let gi = keys.index_of(k);
    lemma_with_key_contains(items, k, MethodDefinitionKind::Setter, n);
    lemma_with_key_contains(items, k, MethodDefinitionKind::Get, n);
    let missing = if items[i].kind == MethodDefinitionKind::Setter { Missing::Getter } else { Missing::Setter };
    let r = Report { node: n, missing };
    lemma_keys_reports_contains(items, keys, options, r);
    let own = items[i].kind;
    // The report can only come from the group of the item's own key.
    assert forall|g: int| 0 <= g < keys.len() && #[trigger] group_reports(items, keys[g], options).contains(r)
        implies keys[g] == k by {
        let getters = with_key(items, keys[g], MethodDefinitionKind::Get);
        let setters = with_key(items, keys[g], MethodDefinitionKind::Setter);
        let a = if options.set_without_get && setters.len() > 0 && getters.len() == 0 {
            reports_of(setters, Missing::Getter)
        } else {
            Seq::empty()
        };
        let b = if options.get_without_set && getters.len() > 0 && setters.len() == 0 {
            reports_of(getters, Missing::Setter)
        } else {
            Seq::empty()
        };
        assert(group_reports(items, keys[g], options) == a + b);
        let x = (a + b).index_of(r);
        if x < a.len() {
            assert(a[x] == r);
            assert(a.contains(r));
            lemma_reports_of_contains(setters, Missing::Getter, r);
            lemma_with_key_contains(items, keys[g], MethodDefinitionKind::Setter, n);
            let j = choose|j: int|
                0 <= j < items.len() && (#[trigger] items[j]).kind == MethodDefinitionKind::Setter
                    && items[j].key@ == keys[g] && items[j].node == n;
            if j != i {
                if j < i { assert(items[j].node != items[i].node); } else { assert(items[i].node != items[j].node); }
            }
        } else {
            assert(b[x - a.len()] == r);
            assert(b.contains(r));
            lemma_reports_of_contains(getters, Missing::Setter, r);
            lemma_with_key_contains(items, keys[g], MethodDefinitionKind::Get, n);
            let j = choose|j: int|
                0 <= j < items.len() && (#[trigger] items[j]).kind == MethodDefinitionKind::Get
                    && items[j].key@ == keys[g] && items[j].node == n;
            if j != i {
                if j < i { assert(items[j].node != items[i].node); } else { assert(items[i].node != items[j].node); }
            }
        }
    }
    let getters = with_key(items, k, MethodDefinitionKind::Get);
    let setters = with_key(items, k, MethodDefinitionKind::Setter);
    let a = if options.set_without_get && setters.len() > 0 && getters.len() == 0 {
        reports_of(setters, Missing::Getter)
    } else {
        Seq::empty()
    };
    let b = if options.get_without_set && getters.len() > 0 && setters.len() == 0 {
        reports_of(getters, Missing::Setter)
    } else {
        Seq::empty()
    };
    assert(group_reports(items, keys[gi], options) == a + b);
    lemma_reports_of_contains(setters, Missing::Getter, r);
    lemma_reports_of_contains(getters, Missing::Setter, r);
    if own == MethodDefinitionKind::Setter {
        assert(setters.contains(n));
        assert(setters.len() > 0);
        if options.set_without_get && getters.len() == 0 {
            assert(a.contains(r));
            assert((a + b)[a.index_of(r)] == r);
            assert(group_reports(items, keys[gi], options).contains(r));
        }
        if check_list_spec(items, options).contains(r) {
            let g = choose|g: int| 0 <= g < keys.len() && #[trigger] group_reports(items, keys[g], options).contains(r);
            assert(keys[g] == k);
            let x = (a + b).index_of(r);
            assert(group_reports(items, keys[g], options) == a + b);
            if x >= a.len() {
                assert(b[x - a.len()] == r);
            }
        }
    } else {
        assert(getters.contains(n));
        assert(getters.len() > 0);
        if options.get_without_set && setters.len() == 0 {
            assert(b.contains(r));
            assert((a + b)[a.len() + b.index_of(r)] == r);
            assert(group_reports(items, keys[gi], options).contains(r));
        }
        if check_list_spec(items, options).contains(r) {
            let g = choose|g: int| 0 <= g < keys.len() && #[trigger] group_reports(items, keys[g], options).contains(r);
            assert(keys[g] == k);
            let x = (a + b).index_of(r);
            assert(group_reports(items, keys[g], options) == a + b);
            if x < a.len() {
                assert(a[x] == r);
            }
        }
    }
}

/// What a property descriptor is told, by the plain keys it has: one with a
/// `set` but no `get` lacks a getter (when setters alone are reported), one
/// with a `get` but no `set` lacks a setter (when getters alone are
/// reported); one with both, or neither, is never reported.
pub proof fn lemma_property_descriptor_by_keys(names: Seq<Seq<char>>, options: Options)
    ensures
        ({
            let r = property_descriptor_spec(names, options);
            let get = names.contains("get"@);
            let set = names.contains("set"@);
            &&& (r == Some(Missing::Getter)) <==> (options.set_without_get && set && !get)
            &&& (r == Some(Missing::Setter)) <==> (options.get_without_set && get && !set)
            &&& (get == set) ==> r is None
        }),
{
}

proof fn lemma_with_key_members(items: Seq<Accessor>, k: KeyView, kind: MethodDefinitionKind)
    ensures
        forall|n: usize|
            #[trigger] with_key(items, k, kind).contains(n) <==> exists|i: int|
                0 <= i < items.len() && (#[trigger] items[i]).node == n && items[i].kind == kind && items[i].key@ == k,
        (with_key(items, k, kind).len() == 0) <==> forall|i: int|
            0 <= i < items.len() ==> !((#[trigger] items[i]).kind == kind && items[i].key@ == k),
    decreases items.len(),
{
    if items.len() > 0 {
        let rest = items.drop_last();
        lemma_with_key_members(rest, k, kind);
        let w = with_key(items, k, kind);
        let wr = with_key(rest, k, kind);
        assert forall|i: int| 0 <= i < rest.len() implies #[trigger] items[i] == rest[i] by {}
        let last = items.last();
        assert(items[items.len() - 1] == last);
        if last.kind == kind && last.key@ == k {
            assert(w == wr.push(last.node));
            assert(w[wr.len() as int] == last.node);
            assert forall|n: usize| #[trigger] w.contains(n) <==> exists|i: int|
                0 <= i < items.len() && (#[trigger] items[i]).node == n && items[i].kind == kind && items[i].key@ == k by {
                if w.contains(n) && n != last.node {
                    let j = choose|j: int| 0 <= j < w.len() && w[j] == n;
                    assert(wr[j] == n);
                }
                if wr.contains(n) {
                    let j = choose|j: int| 0 <= j < wr.len() && wr[j] == n;
                    assert(w[j] == n);
                }
                if exists|i: int| 0 <= i < items.len() && (#[trigger] items[i]).node == n && items[i].kind == kind
                    && items[i].key@ == k {
                    let i = choose|i: int| 0 <= i < items.len() && (#[trigger] items[i]).node == n && items[i].kind
                        == kind && items[i].key@ == k;
                    if i < rest.len() {
                        assert(rest[i] == items[i]);
                    }
                }
            }
        } else {
            assert(w == wr);
            assert forall|n: usize| #[trigger] w.contains(n) <==> exists|i: int|
                0 <= i < items.len() && (#[trigger] items[i]).node == n && items[i].kind == kind && items[i].key@ == k by {
                if exists|i: int| 0 <= i < items.len() && (#[trigger] items[i]).node == n && items[i].kind == kind
                    && items[i].key@ == k {
                    let i = choose|i: int| 0 <= i < items.len() && (#[trigger] items[i]).node == n && items[i].kind
                        == kind && items[i].key@ == k;
                    assert(i < rest.len());
                    assert(rest[i] == items[i]);
                }
            }
        }
    }
}

proof fn lemma_group_keys_members(items: Seq<Accessor>)
    ensures
        forall|k: KeyView|
            #[trigger] group_keys(items).contains(k) <==> exists|i: int|
                0 <= i < items.len() && is_pairable((#[trigger] items[i]).kind) && items[i].key@ == k,
    decreases items.len(),
{
    if items.len() > 0 {
        let rest = items.drop_last();
        lemma_group_keys_members(rest);
        let g = group_keys(items);
        let gr = group_keys(rest);
        let last = items.last();
        assert(items[items.len() - 1] == last);
        assert forall|k: KeyView| #[trigger] g.contains(k) <==> exists|i: int|
            0 <= i < items.len() && is_pairable((#[trigger] items[i]).kind) && items[i].key@ == k by {
            if is_pairable(last.kind) && !gr.contains(last.key@) {
                assert(g == gr.push(last.key@));
                assert(g[gr.len() as int] == last.key@);
                if g.contains(k) && k != last.key@ {
                    let j = choose|j: int| 0 <= j < g.len() && g[j] == k;
                    assert(gr[j] == k);
                }
                if gr.contains(k) {
                    let j = choose|j: int| 0 <= j < gr.len() && gr[j] == k;
                    assert(g[j] == k);
                }
            } else {
                assert(g == gr);
            }
            if exists|i: int| 0 <= i < items.len() && is_pairable((#[trigger] items[i]).kind) && items[i].key@ == k {
                let i = choose|i: int| 0 <= i < items.len() && is_pairable((#[trigger] items[i]).kind) && items[i].key@ == k;
                if i < rest.len() {
                    assert(rest[i] == items[i]);
                }
            }
            if exists|i: int| 0 <= i < rest.len() && is_pairable((#[trigger] rest[i]).kind) && rest[i].key@ == k {
                let i = choose|i: int| 0 <= i < rest.len() && is_pairable((#[trigger] rest[i]).kind) && rest[i].key@ == k;
                assert(items[i] == rest[i]);
            }
        }
    }
}

proof fn lemma_keys_reports_members(items: Seq<Accessor>, keys: Seq<KeyView>, options: Options)
    ensures
        forall|r: Report|
            #[trigger] keys_reports(items, keys, options).contains(r) <==> exists|j: int|
                0 <= j < keys.len() && #[trigger] group_reports(items, keys[j], options).contains(r),
    decreases keys.len(),
{
    if keys.len() > 0 {
        let rest = keys.drop_last();
        lemma_keys_reports_members(items, rest, options);
        let a = keys_reports(items, rest, options);
        let b = group_reports(items, keys.last(), options);
        assert(keys_reports(items, keys, options) == a + b);
        assert forall|r: Report| #[trigger] keys_reports(items, keys, options).contains(r) <==> exists|j: int|
            0 <= j < keys.len() && #[trigger] group_reports(items, keys[j], options).contains(r) by {
            let ab = a + b;
            if ab.contains(r) {
                let i = choose|i: int| 0 <= i < ab.len() && ab[i] == r;
                if i < a.len() {
                    assert(a[i] == r);
                    assert(a.contains(r));
                    let j = choose|j: int| 0 <= j < rest.len() && #[trigger] group_reports(items, rest[j], options).contains(r);
                    assert(keys[j] == rest[j]);
                    assert(group_reports(items, keys[j], options).contains(r));
                } else {
                    assert(b[i - a.len()] == r);
                    assert(b.contains(r));
                    assert(keys[keys.len() - 1] == keys.last());
                    assert(group_reports(items, keys[keys.len() - 1], options).contains(r));
                }
            }
            if exists|j: int| 0 <= j < keys.len() && #[trigger] group_reports(items, keys[j], options).contains(r) {
                let j = choose|j: int| 0 <= j < keys.len() && #[trigger] group_reports(items, keys[j], options).contains(r);
                if j < rest.len() {
                    assert(rest[j] == keys[j]);
                    assert(a.contains(r));
                    let i = choose|i: int| 0 <= i < a.len() && a[i] == r;
                    assert(ab[i] == r);
                } else {
                    assert(keys[j] == keys.last());
                    let i = choose|i: int| 0 <= i < b.len() && b[i] == r;
                    assert(ab[a.len() + i] == r);
                }
            }
        }
    }
}

proof fn lemma_group_reports_members(items: Seq<Accessor>, k: KeyView, options: Options)
    ensures
        forall|node: usize, missing: Missing|
            #[trigger] group_reports(items, k, options).contains(Report { node, missing }) <==> {
                let getters = with_key(items, k, MethodDefinitionKind::Get);
                let setters = with_key(items, k, MethodDefinitionKind::Setter);
                ||| missing == Missing::Getter && options.set_without_get && setters.contains(node) && getters.len() == 0
                ||| missing == Missing::Setter && options.get_without_set && getters.contains(node) && setters.len() == 0
            },
{
    let getters = with_key(items, k, MethodDefinitionKind::Get);
    let setters = with_key(items, k, MethodDefinitionKind::Setter);
    let a = if options.set_without_get && setters.len() > 0 && getters.len() == 0 {
        reports_of(setters, Missing::Getter)
    } else {
        Seq::empty()
    };
    let b = if options.get_without_set && getters.len() > 0 && setters.len() == 0 {
        reports_of(getters, Missing::Setter)
    } else {
        Seq::empty()
    };
    assert(group_reports(items, k, options) == a + b);
    assert forall|node: usize, missing: Missing|
        #[trigger] group_reports(items, k, options).contains(Report { node, missing }) <==> {
            ||| missing == Missing::Getter && options.set_without_get && setters.contains(node) && getters.len() == 0
            ||| missing == Missing::Setter && options.get_without_set && getters.contains(node) && setters.len() == 0
        } by {
        let r = Report { node, missing };
        let ab = a + b;
        if ab.contains(r) {
            let i = choose|i: int| 0 <= i < ab.len() && ab[i] == r;
            if i < a.len() {
                assert(a[i] == r);
                assert(setters[i] == node);
            } else {
                assert(b[i - a.len()] == r);
                assert(getters[i - a.len()] == node);
            }
        }
        if missing == Missing::Getter && options.set_without_get && setters.contains(node) && getters.len() == 0 {
            let i = choose|i: int| 0 <= i < setters.len() && setters[i] == node;
            assert(a[i] == r);
            assert(ab[i] == r);
        }
        if missing == Missing::Setter && options.get_without_set && getters.contains(node) && setters.len() == 0 {
            let i = choose|i: int| 0 <= i < getters.len() && getters[i] == node;
            assert(b[i] == r);
            assert(ab[a.len() + i] == r);
        }
    }
}

/// Some accessor of `items` at `node` is of kind `kind` and no accessor of
/// kind `other` has its key.
#[verifier::opaque]
pub open spec fn lone_accessor(items: Seq<Accessor>, node: usize, kind: MethodDefinitionKind, other: MethodDefinitionKind) -> bool {
    exists|i: int|
        0 <= i < items.len() && (#[trigger] items[i]).node == node && items[i].kind == kind && forall|j: int|
            0 <= j < items.len() ==> !((#[trigger] items[j]).kind == other && items[j].key@ == items[i].key@)
}

proof fn lemma_lone_reported(items: Seq<Accessor>, options: Options, r: Report, kind: MethodDefinitionKind, other: MethodDefinitionKind, i: int)
    requires
        is_pairable(kind),
        0 <= i < items.len(),
        items[i].node == r.node,
        items[i].kind == kind,
        forall|j: int| 0 <= j < items.len() ==> !((#[trigger] items[j]).kind == other && items[j].key@ == items[i].key@),
        r.missing == Missing::Getter ==> kind == MethodDefinitionKind::Setter && other == MethodDefinitionKind::Get
            && options.set_without_get,
        r.missing == Missing::Setter ==> kind == MethodDefinitionKind::Get && other == MethodDefinitionKind::Setter
            && options.get_without_set,
    ensures
        check_list_spec(items, options).contains(r),
{
    let keys = group_keys(items);
    let k = items[i].key@;
    lemma_group_keys_members(items);
    assert(keys.contains(k));
    let j = choose|j: int| 0 <= j < keys.len() && keys[j] == k;
    lemma_with_key_members(items, k, kind);
    lemma_with_key_members(items, k, other);
    assert(with_key(items, k, kind).contains(r.node));
    lemma_group_reports_members(items, k, options);
    assert(group_reports(items, keys[j], options).contains(Report { node: r.node, missing: r.missing }));
    lemma_keys_reports_members(items, keys, options);
}

proof fn lemma_reported_lone(items: Seq<Accessor>, options: Options, r: Report)
    requires
        check_list_spec(items, options).contains(r),
    ensures
        r.missing == Missing::Getter ==> options.set_without_get && lone_accessor(items, r.node, MethodDefinitionKind::Setter, MethodDefinitionKind::Get),
        r.missing == Missing::Setter ==> options.get_without_set && lone_accessor(items, r.node, MethodDefinitionKind::Get, MethodDefinitionKind::Setter),
{
    let keys = group_keys(items);
    lemma_keys_reports_members(items, keys, options);
    let j = choose|j: int| 0 <= j < keys.len() && #[trigger] group_reports(items, keys[j], options).contains(r);
    let k = keys[j];
    lemma_group_reports_members(items, k, options);
    assert(group_reports(items, k, options).contains(Report { node: r.node, missing: r.missing }));
    let (kind, other) = if r.missing == Missing::Getter {
        (MethodDefinitionKind::Setter, MethodDefinitionKind::Get)
    } else {
        (MethodDefinitionKind::Get, MethodDefinitionKind::Setter)
    };
    lemma_with_key_members(items, k, kind);
    lemma_with_key_members(items, k, other);
    assert(with_key(items, k, kind).contains(r.node));
    let i = choose|i: int| 0 <= i < items.len() && (#[trigger] items[i]).node == r.node && items[i].kind == kind && items[i].key@ == k;
    assert(items[i].node == r.node && items[i].kind == kind && items[i].key@ == k);
    reveal(lone_accessor);
    assert(lone_accessor(items, r.node, kind, other));
}

proof fn lemma_lone_accessor_reported(items: Seq<Accessor>, options: Options, r: Report, kind: MethodDefinitionKind, other: MethodDefinitionKind)
    requires
        lone_accessor(items, r.node, kind, other),
        r.missing == Missing::Getter ==> kind == MethodDefinitionKind::Setter && other == MethodDefinitionKind::Get
            && options.set_without_get,
        r.missing == Missing::Setter ==> kind == MethodDefinitionKind::Get && other == MethodDefinitionKind::Setter
            && options.get_without_set,
    ensures
        check_list_spec(items, options).contains(r),
{
    reveal(lone_accessor);
    let i = choose|i: int|
        0 <= i < items.len() && (#[trigger] items[i]).node == r.node && items[i].kind == kind && forall|j: int|
            0 <= j < items.len() ==> !((#[trigger] items[j]).kind == other && items[j].key@ == items[i].key@);
    lemma_lone_reported(items, options, r, kind, other, i);
}

/// What checking a list of getters and setters reports: a setter is told
/// that it lacks a getter exactly when no getter has its key (and setters
/// alone are reported); a getter is told that it lacks a setter exactly
/// when no setter has its key (and getters alone are reported). An accessor
/// with a partner of the same key is never reported.
pub proof fn lemma_check_list_reports(items: Seq<Accessor>, options: Options)
    ensures
        forall|node: usize|
            #[trigger] check_list_spec(items, options).contains(Report { node, missing: Missing::Getter }) <==> (
            options.set_without_get && lone_accessor(items, node, MethodDefinitionKind::Setter, MethodDefinitionKind::Get)),
        forall|node: usize|
            #[trigger] check_list_spec(items, options).contains(Report { node, missing: Missing::Setter }) <==> (
            options.get_without_set && lone_accessor(items, node, MethodDefinitionKind::Get, MethodDefinitionKind::Setter)),
{
    assert forall|node: usize|
        #[trigger] check_list_spec(items, options).contains(Report { node, missing: Missing::Getter }) <==> (
        options.set_without_get && lone_accessor(items, node, MethodDefinitionKind::Setter, MethodDefinitionKind::Get)) by {
        let r = Report { node, missing: Missing::Getter };
        if check_list_spec(items, options).contains(r) {
            lemma_reported_lone(items, options, r);
        }
        if options.set_without_get && lone_accessor(items, node, MethodDefinitionKind::Setter, MethodDefinitionKind::Get) {
            lemma_lone_accessor_reported(items, options, r, MethodDefinitionKind::Setter, MethodDefinitionKind::Get);
        }
    }
    assert forall|node: usize|
        #[trigger] check_list_spec(items, options).contains(Report { node, missing: Missing::Setter }) <==> (
        options.get_without_set && lone_accessor(items, node, MethodDefinitionKind::Get, MethodDefinitionKind::Setter)) by {
        let r = Report { node, missing: Missing::Setter };
        if check_list_spec(items, options).contains(r) {
            lemma_reported_lone(items, options, r);
        }
        if options.get_without_set && lone_accessor(items, node, MethodDefinitionKind::Get, MethodDefinitionKind::Setter) {
            lemma_lone_accessor_reported(items, options, r, MethodDefinitionKind::Get, MethodDefinitionKind::Setter);
        }
    }
}

} // verus!
