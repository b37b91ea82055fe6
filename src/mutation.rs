//! A handle for editing one variable in place.
use vstd::prelude::*;
use crate::document::{variable_set, ConfigDocument};
use crate::error::ParseResult;
use crate::variables::VariableManager;

verus! {

/// A variable being edited: its name, the variable table that holds it and, optionally,
/// the document that must follow the edit.
pub struct MutableVariable<'a> {
    name: String,
    manager: &'a mut VariableManager,
    document: Option<&'a mut ConfigDocument>,
}

impl<'a> MutableVariable<'a> {
    /// The name of the variable.
    pub closed spec fn spec_name(&self) -> Seq<char> {
        self.name@
    }

    /// The variable table, as it stands.
    pub closed spec fn table(&self) -> VariableManager {
        *self.manager
    }

    /// The document, as it stands, if there is one.
    pub closed spec fn doc(&self) -> Option<ConfigDocument> {
        match self.document {
            Some(d) => Some(*d),
            None => None,
        }
    }

    /// Whether the table and the document are well formed.
    pub open spec fn wf(&self) -> bool {
        &&& self.table().wf()
        &&& self.doc() matches Some(d) ==> d.wf()
    }

    pub fn new(name: String, manager: &'a mut VariableManager, document: Option<&'a mut ConfigDocument>) -> (r: Self)
        ensures
            r.spec_name() == name@,
            r.table() == *old(manager),
            r.doc() is Some <==> document is Some,
    {
        MutableVariable { name, manager, document }
    }

    /// The current value of the variable; empty when it is not defined.
    pub fn get(&self) -> (r: &str)
        requires
            self.table().wf(),
        ensures
            match self.table().value_of(self.spec_name()) {
                Some(v) => r@ == v,
                None => r@.len() == 0,
            },
    {
        match self.manager.get(self.name.as_str()) {
            Some(v) => v,
            None => {
                proof {
                    reveal_strlit("");
                }
                ""
            },
        }
    }

    /// Sets the variable to `value`, in the table and in the document.
    pub fn set(&mut self, value: &str) -> (r: ParseResult<()>)
        requires
            old(self).wf(),
            old(self).doc() matches Some(d) ==> d.tree().len() < usize::MAX,
        ensures
            match old(self).doc() {
                Some(d0) => final(self).doc() matches Some(d1) && variable_set(d0, d1, old(self).spec_name(), value@),
                None => final(self).doc() is None,
            },
            r is Ok,
            final(self).wf(),
            final(self).spec_name() == old(self).spec_name(),
            final(self).table().value_of(old(self).spec_name()) == Some(value@),
            forall|x: Seq<char>|
                x != old(self).spec_name() ==> final(self).table().value_of(x) == old(
                    self,
                ).table().value_of(x),
            old(self).doc() is None <==> final(self).doc() is None,
    {
        self.manager.set(self.name.clone(), crate::text::owned(value));
        match &mut self.document {
            Some(doc) => {
                let r = doc.update_or_insert_variable(self.name.as_str(), value);
                r
            },
            None => Ok(()),
        }
    }

    /// The name of the variable.
    pub fn name(&self) -> (r: &str)
        ensures
            r@ == self.spec_name(),
    {
        self.name.as_str()
    }
}

} // verus!
