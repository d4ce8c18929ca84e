//! Functions that stand in for functions which the compiler does not implement itself.

use std::collections::HashMap;
use vstd::prelude::*;
use crate::ast::FuncId;

verus! {

/// What stands in for a low-level function: one function, or one for each size of the array
/// that is returned.
#[derive(Debug)]
pub enum LowLevelReplacement {
    Single(FuncId),
    ByArraySize(HashMap<u32, FuncId>),
}

/// What a `LowLevelReplacement` says.
pub enum LowLevelReplacementView {
    Single(FuncId),
    ByArraySize(Map<u32, FuncId>),
}

impl View for LowLevelReplacement {
    type V = LowLevelReplacementView;

    open spec fn view(&self) -> LowLevelReplacementView {
        match *self {
            LowLevelReplacement::Single(function) => LowLevelReplacementView::Single(function),
            LowLevelReplacement::ByArraySize(sizes) => LowLevelReplacementView::ByArraySize(sizes@),
        }
    }
}

/// What each of the replacements says.
pub open spec fn replacement_views(replacements: Map<Seq<char>, LowLevelReplacement>) -> Map<
    Seq<char>,
    LowLevelReplacementView,
> {
    Map::new(|name: Seq<char>| replacements.contains_key(name), |name: Seq<char>| replacements[name]@)
}

} // verus!
