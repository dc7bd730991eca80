//! The choices and commands of the command-line client, as plain data.

use vstd::prelude::*;

use crate::parts_list::{PartsListFilter, PartsListUpdate};

verus! {

/// A filter as the client's command line names it.
#[derive(Clone, Copy, Debug, PartialEq, Eq, Structural)]
pub enum FilterOption {
    All,
    TopLevel,
    Assembly,
    Component,
    Subassembly,
    Orphan,
}

/// An update as the client's command line names it.
#[derive(Clone, Copy, Debug, PartialEq, Eq, Structural)]
pub enum ActionOption {
    Add,
    Remove,
    Replace,
}

/// The command that fetches the server's root text.
#[derive(Debug)]
pub struct GetIndex {}

/// The command that lists parts.
#[derive(Debug)]
pub struct ListParts {
    pub filter: FilterOption,
}

/// The command that creates a part.
#[derive(Debug)]
pub struct CreatePart {
    pub name: String,
}

impl From<FilterOption> for PartsListFilter {
    fn from(f: FilterOption) -> PartsListFilter {
        match f {
            FilterOption::All => PartsListFilter::All,
            FilterOption::TopLevel => PartsListFilter::TopLevel,
            FilterOption::Assembly => PartsListFilter::Assembly,
            FilterOption::Component => PartsListFilter::Component,
            FilterOption::Subassembly => PartsListFilter::Subassembly,
            FilterOption::Orphan => PartsListFilter::Orphan,
        }
    }
}

impl vstd::std_specs::convert::FromSpecImpl<FilterOption> for PartsListFilter {
    open spec fn obeys_from_spec() -> bool {
        true
    }

    open spec fn from_spec(f: FilterOption) -> PartsListFilter {
        match f {
            FilterOption::All => PartsListFilter::All,
            FilterOption::TopLevel => PartsListFilter::TopLevel,
            FilterOption::Assembly => PartsListFilter::Assembly,
            FilterOption::Component => PartsListFilter::Component,
            FilterOption::Subassembly => PartsListFilter::Subassembly,
            FilterOption::Orphan => PartsListFilter::Orphan,
        }
    }
}

impl From<ActionOption> for PartsListUpdate {
    fn from(a: ActionOption) -> PartsListUpdate {
        match a {
            ActionOption::Add => PartsListUpdate::Add,
            ActionOption::Remove => PartsListUpdate::Remove,
            ActionOption::Replace => PartsListUpdate::Replace,
        }
    }
}

impl vstd::std_specs::convert::FromSpecImpl<ActionOption> for PartsListUpdate {
    open spec fn obeys_from_spec() -> bool {
        true
    }

    open spec fn from_spec(a: ActionOption) -> PartsListUpdate {
        match a {
            ActionOption::Add => PartsListUpdate::Add,
            ActionOption::Remove => PartsListUpdate::Remove,
            ActionOption::Replace => PartsListUpdate::Replace,
        }
    }
}

} // verus!
