//! Identifiers as binding compares them.

use vstd::prelude::*;
use vstd::string::StringExecFns;
use vstd::std_specs::convert::FromSpecImpl;
use crate::ast::Ident;

verus! {

/// An identifier in the form in which binding compares identifiers.
#[derive(Debug, Clone, PartialEq, Eq, Hash)]
pub struct BinderIdent {
    pub value: String,
}

impl View for BinderIdent {
    type V = Seq<char>;

    open spec fn view(&self) -> Seq<char> {
        self.value@
    }
}

impl BinderIdent {
    /// The identifier with the given text.
    pub fn new(value: &str) -> (ident: BinderIdent)
        ensures
            ident@ == value@,
    {
        BinderIdent { value: String::from_str(value) }
    }

    /// The identifier for an identifier as written.
    pub fn from_ident(ident: &Ident) -> (bound: BinderIdent)
        ensures
            bound@ == ident.value@,
    {
        BinderIdent { value: ident.value.clone() }
    }

    /// The text of the identifier.
    pub fn as_raw_str(&self) -> (text: &str)
        ensures
            text@ == self@,
    {
        self.value.as_str()
    }

    /// Whether the two identifiers are the same.
    pub fn same(&self, other: &BinderIdent) -> (same: bool)
        ensures
            same == (self@ == other@),
    {
        self.value == other.value
    }

    /// A copy of the identifier.
    pub fn duplicate(&self) -> (copy: BinderIdent)
        ensures
            copy == *self,
            copy@ == self@,
    {
        BinderIdent { value: self.value.clone() }
    }
}

impl<'a> From<&'a str> for BinderIdent {
    fn from(value: &'a str) -> (ident: BinderIdent) {
        BinderIdent::new(value)
    }
}

impl<'a> FromSpecImpl<&'a str> for BinderIdent {
    open spec fn obeys_from_spec() -> bool {
        false
    }

    open spec fn from_spec(value: &'a str) -> BinderIdent {
        arbitrary()
    }
}

impl From<String> for BinderIdent {
    fn from(value: String) -> (ident: BinderIdent) {
        BinderIdent { value }
    }
}

impl FromSpecImpl<String> for BinderIdent {
    open spec fn obeys_from_spec() -> bool {
        true
    }

    open spec fn from_spec(value: String) -> BinderIdent {
        BinderIdent { value }
    }
}

/// Whether one of `names` is `name`.
pub open spec fn has_name(names: Seq<BinderIdent>, name: Seq<char>) -> bool {
    exists|i: int| 0 <= i < names.len() && (#[trigger] names[i])@ == name
}

/// Where `name` is among `names`, if it is.
pub fn find_name(names: &Vec<BinderIdent>, name: &BinderIdent) -> (found: Option<usize>)
    ensures
        found matches Some(i) ==> i < names@.len() && names@[i as int]@ == name@ && forall|k: int|
            0 <= k < i ==> (#[trigger] names@[k])@ != name@,
        found.is_none() ==> !has_name(names@, name@),
{
    let mut i: usize = 0;
    while i < names.len()
        invariant
            i <= names.len(),
            forall|k: int| 0 <= k < i ==> (#[trigger] names@[k])@ != name@,
        decreases names.len() - i,
    {
        if names[i].same(name) {
            return Some(i);
        }
        i += 1;
    }
    None
}

} // verus!
