use crate::field::Field;
use vstd::prelude::*;

verus! {

/// A comparison operator of a filter.
#[derive(Debug, Clone, Copy, PartialEq, Eq, Structural)]
pub enum Filter {
    Equal,
    Less,
    Greater,
    LessEq,
    GreaterEq,
    Contains,
    StartsWith,
    EndsWith,
}

/// A predicate on one column: the field's name, the value to compare with
/// (carried in the field's `type_`) and the operator.
pub struct FilterOption {
    field: Field,
    filter: Filter,
}

impl FilterOption {
    pub closed spec fn spec_field(&self) -> Field {
        self.field
    }

    pub closed spec fn spec_filter(&self) -> Filter {
        self.filter
    }

    pub fn new(field: Field, filter: Filter) -> (r: Result<FilterOption, String>)
        ensures
            r matches Ok(f) ==> f.spec_field() == field && f.spec_filter() == filter,
            r is Ok,
    {
        Ok(FilterOption { field, filter })
    }

    pub fn field(&self) -> (r: &Field)
        ensures
            *r == self.spec_field(),
    {
        &self.field
    }

    pub fn filter(&self) -> (r: &Filter)
        ensures
            *r == self.spec_filter(),
    {
        &self.filter
    }
}

} // verus!
