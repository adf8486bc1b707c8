//! The filter-past-aggregation rewrite rule of the query optimizer.
//!
//! Only the rule's handle is part of this library: applying it needs the
//! optimizer's plan representation, which lives with the planner.

use vstd::prelude::*;

verus! {

/// Pushes a filter past an aggregation when the predicate only references
/// group keys.
pub struct FilterAggRule {}

impl FilterAggRule {
    /// A boxed instance of the rule, as the planner's rule lists hold them.
    pub fn create() -> (r: Box<FilterAggRule>)
        ensures
            *r == (FilterAggRule {  }),
    {
        Box::new(FilterAggRule {  })
    }
}

} // verus!
