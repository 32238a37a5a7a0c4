use vstd::prelude::*;

use crate::ast_helpers::MethodDefinitionKind;
use crate::text::{concat, str_eq};

verus! {

/// The rule's options as given: method names to leave alone, and whether
/// class fields are checked (by default they are).
pub struct Options {
    pub except_methods: Option<Vec<String>>,
    pub enforce_for_class_fields: Option<bool>,
}

impl Default for Options {
    fn default() -> (o: Self)
        ensures
            o.except_methods is None,
            o.enforce_for_class_fields is None,
    {
        Options { except_methods: None, enforce_for_class_fields: None }
    }
}

impl Options {
    pub fn enforce_for_class_fields(&self) -> (b: bool)
        ensures
            b == match self.enforce_for_class_fields {
                Some(v) => v,
                None => true,
            },
    {
        match self.enforce_for_class_fields {
            Some(v) => v,
            None => true,
        }
    }
}

/// How a class member is named.
pub enum MemberName {
    /// A computed name: the member is always checked.
    Computed,
    /// A private name, without its `#`.
    Private(String),
    /// A literal name, by its static string value.
    Literal(String),
    /// A plain identifier.
    Property(String),
    Other,
}

/// What the rule needs to know of the function that just ended: whether it
/// is a method definition (and then whether it is static and of what kind),
/// or the value of a class field (and then whether that field is static);
/// and the name of the member.
pub struct Member {
    pub is_method_definition: bool,
    pub is_static: bool,
    pub kind: MethodDefinitionKind,
    pub parent_is_field_definition: bool,
    pub parent_is_static: bool,
    pub name: MemberName,
}

/// The state of the rule: the options, and for each function or field
/// initializer entered and not yet left, whether it used `this` or `super`.
pub struct ClassMethodsUseThis {
    pub enforce_for_class_fields: bool,
    pub except_methods: Vec<String>,
    pub stack: Vec<bool>,
}

/// The member is an instance method (a method definition that is neither
/// static nor a constructor) or the value of an instance field (when fields
/// are checked).
pub open spec fn is_instance_method_spec(m: Member, enforce_for_class_fields: bool) -> bool {
    if m.is_method_definition {
        !m.is_static && m.kind != MethodDefinitionKind::Constructor
    } else {
        m.parent_is_field_definition && !m.parent_is_static && enforce_for_class_fields
    }
}

/// The name under which a member may be excepted: `#` before a private
/// name; nothing for a name that is neither private, literal nor plain.
pub open spec fn excepted_name(name: MemberName) -> Seq<char> {
    match name {
        MemberName::Private(n) => "#"@ + n@,
        MemberName::Literal(n) => n@,
        MemberName::Property(n) => n@,
        _ => Seq::empty(),
    }
}

/// Whether an instance method that did not use `this` is reported: it is
/// one the rule checks, and (unless its name is computed) its name is not
/// excepted.
pub open spec fn is_included_spec(m: Member, enforce_for_class_fields: bool, except: Seq<Seq<char>>) -> bool {
    is_instance_method_spec(m, enforce_for_class_fields) && (m.name is Computed || !except.contains(
        excepted_name(m.name),
    ))
}

impl ClassMethodsUseThis {
    pub open spec fn excepted(&self) -> Seq<Seq<char>> {
        self.except_methods@.map_values(|s: String| s@)
    }

    pub fn new(options: Options) -> (r: Self)
        ensures
            r.enforce_for_class_fields == match options.enforce_for_class_fields {
                Some(v) => v,
                None => true,
            },
            r.except_methods@ == match options.except_methods {
                Some(v) => v@,
                None => Seq::empty(),
            },
            r.stack@.len() == 0,
    {
        let enforce_for_class_fields = options.enforce_for_class_fields();
        let except_methods = match options.except_methods {
            Some(v) => v,
            None => Vec::new(),
        };
        ClassMethodsUseThis { enforce_for_class_fields, except_methods, stack: Vec::new() }
    }

    /// Enters a function, a field initializer or a static block.
    pub fn push_context(&mut self)
        ensures
            final(self).stack@ == old(self).stack@.push(false),
            final(self).enforce_for_class_fields == old(self).enforce_for_class_fields,
            final(self).except_methods@ == old(self).except_methods@,
    {
        self.stack.push(false);
    }

    /// Leaves the innermost one, telling whether it used `this`.
    pub fn pop_context(&mut self) -> (used: bool)
        requires
            old(self).stack@.len() > 0,
        ensures
            used == old(self).stack@.last(),
            final(self).stack@ == old(self).stack@.drop_last(),
            final(self).enforce_for_class_fields == old(self).enforce_for_class_fields,
            final(self).except_methods@ == old(self).except_methods@,
    {
        match self.stack.pop() {
            Some(b) => b,
            None => false,
        }
    }

    /// `this` or `super` was met: the innermost context uses it.
    pub fn on_this(&mut self)
        ensures
            old(self).stack@.len() == 0 ==> final(self).stack@ == old(self).stack@,
            old(self).stack@.len() > 0 ==> final(self).stack@ == old(self).stack@.drop_last().push(true),
            final(self).enforce_for_class_fields == old(self).enforce_for_class_fields,
            final(self).except_methods@ == old(self).except_methods@,
    {
        let n = self.stack.len();
        if n > 0 {
            self.stack.set(n - 1, true);
            assert(self.stack@ =~= old(self).stack@.drop_last().push(true));
        }
    }

    fn is_excepted(&self, name: &str) -> (b: bool)
        ensures
            b == self.excepted().contains(name@),
    {
        let ghost v = self.excepted();
        let mut i: usize = 0;
        while i < self.except_methods.len()
            invariant
                i <= self.except_methods@.len(),
                v == self.excepted(),
                forall|j: int| 0 <= j < i ==> v[j] != name@,
            decreases self.except_methods.len() - i,
        {
            if str_eq(self.except_methods[i].as_str(), name) {
                assert(v[i as int] == name@);
                return true;
            }
            i = i + 1;
        }
        false
    }

    /// Whether `member` is an instance method that the rule reports when it
    /// does not use `this`.
    pub fn is_included_instance_method(&self, member: &Member) -> (b: bool)
        ensures
            b == is_included_spec(*member, self.enforce_for_class_fields, self.excepted()),
    {
        let instance = if member.is_method_definition {
            !member.is_static && member.kind != MethodDefinitionKind::Constructor
        } else {
            member.parent_is_field_definition && !member.parent_is_static
                && self.enforce_for_class_fields
        };
        if !instance {
            return false;
        }
        match &member.name {
            MemberName::Computed => true,
            MemberName::Private(n) => {
                let key = concat("#", n.as_str());
                assert(excepted_name(member.name) == key@);
                !self.is_excepted(key.as_str())
            },
            MemberName::Literal(n) => {
                assert(excepted_name(member.name) == n@);
                !self.is_excepted(n.as_str())
            },
            MemberName::Property(n) => {
                assert(excepted_name(member.name) == n@);
                !self.is_excepted(n.as_str())
            },
            MemberName::Other => {
                proof {
                    reveal_strlit("");
                }
                assert(excepted_name(member.name) == ""@);
                !self.is_excepted("")
            },
        }
    }

    /// Leaves a function; whether it is reported: it did not use `this` and
    /// it is an included instance method.
    pub fn exit_function(&mut self, member: &Member) -> (report: bool)
        requires
            old(self).stack@.len() > 0,
        ensures
            final(self).stack@ == old(self).stack@.drop_last(),
            report == (!old(self).stack@.last() && is_included_spec(
                *member,
                old(self).enforce_for_class_fields,
                old(self).excepted(),
            )),
    {
        let used = self.pop_context();
        if used {
            return false;
        }
        self.is_included_instance_method(member)
    }

    /// Enters an arrow function that is a class field's value (only counted
    /// when fields are checked).
    pub fn enter_field_arrow_function(&mut self)
        ensures
            final(self).stack@ == if old(self).enforce_for_class_fields {
                old(self).stack@.push(false)
            } else {
                old(self).stack@
            },
            final(self).enforce_for_class_fields == old(self).enforce_for_class_fields,
            final(self).except_methods@ == old(self).except_methods@,
    {
        if self.enforce_for_class_fields {
            self.push_context();
        }
    }

    /// Leaves an arrow function: only one that is a class field's value is
    /// counted (when fields are checked); whether it is reported.
    pub fn exit_arrow_function(&mut self, parent_is_field_definition: bool, member: &Member) -> (report:
        bool)
        requires
            old(self).enforce_for_class_fields && parent_is_field_definition ==> old(self).stack@.len()
                > 0,
        ensures
            !(old(self).enforce_for_class_fields && parent_is_field_definition) ==> !report
                && final(self).stack@ == old(self).stack@,
            old(self).enforce_for_class_fields && parent_is_field_definition ==> {
                &&& final(self).stack@ == old(self).stack@.drop_last()
                &&& report == (!old(self).stack@.last() && is_included_spec(
                    *member,
                    old(self).enforce_for_class_fields,
                    old(self).excepted(),
                ))
            },
    {
        if !self.enforce_for_class_fields || !parent_is_field_definition {
            return false;
        }
        self.exit_function(member)
    }
}

/// Which members are reported when they do not use `this`: static members,
/// constructors and (when fields are not checked, or the field is static)
/// the values of fields never are. An instance method or an instance
/// field's value is, unless its name is excepted: a computed name never is,
/// a private name `#x` only as `#x` (never as `x`), a literal or plain name
/// by its text.
pub proof fn lemma_included_members(m: Member, enforce_for_class_fields: bool, except: Seq<Seq<char>>)
    ensures
        ({
            let r = is_included_spec(m, enforce_for_class_fields, except);
            let instance = if m.is_method_definition {
                !m.is_static && m.kind != MethodDefinitionKind::Constructor
            } else {
                m.parent_is_field_definition && !m.parent_is_static && enforce_for_class_fields
            };
            &&& !instance ==> !r
            &&& (m.is_method_definition && (m.is_static || m.kind == MethodDefinitionKind::Constructor)) ==> !r
            &&& (!m.is_method_definition && (!enforce_for_class_fields || m.parent_is_static)) ==> !r
            &&& instance ==> match m.name {
                MemberName::Computed => r,
                MemberName::Private(n) => r <==> !except.contains("#"@ + n@),
                MemberName::Literal(n) => r <==> !except.contains(n@),
                MemberName::Property(n) => r <==> !except.contains(n@),
                MemberName::Other => r <==> !except.contains(Seq::empty()),
            }
        }),
{
}

} // verus!
