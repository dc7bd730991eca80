//! A single node of the bill of materials.

use std::collections::HashSet;
use vstd::prelude::*;

verus! {

/// What a part is, as far as the graph is concerned: its id, its display
/// name and the ids of its immediate parents and children.
pub struct PartView {
    pub id: u128,
    pub name: Seq<char>,
    pub parents: Set<u128>,
    pub children: Set<u128>,
}

/// The id that uuid's version-3 scheme derives from `name` in the URL
/// namespace (an MD5 digest of the name's UTF-8 bytes).
pub uninterp spec fn url_v3_id(name: Seq<char>) -> u128;

/// Relies on `uuid::Uuid::new_v3` with `Uuid::NAMESPACE_URL`: the id is a
/// digest of the name alone, so equal names always give equal ids.
/// `as_u128` reads the sixteen bytes big-endian.
#[verifier::external_body]
fn name_based_id(name: &str) -> (r: u128)
    ensures
        r == url_v3_id(name@),
{
    uuid::Uuid::new_v3(&uuid::Uuid::NAMESPACE_URL, name.as_bytes()).as_u128()
}

/// A part of the bill of materials. Its id is derived from its name, so
/// two parts with one name share one id. Equality and order go by id.
#[derive(Debug)]
pub struct Part {
    pub id: u128,
    pub name: String,
    pub parents: HashSet<u128>,
    pub children: HashSet<u128>,
}

impl View for Part {
    type V = PartView;

    open spec fn view(&self) -> PartView {
        PartView {
            id: self.id,
            name: self.name@,
            parents: self.parents@,
            children: self.children@,
        }
    }
}

impl Part {
    /// A part named `name`, with no parents and no children.
    pub fn new(name: &str) -> (r: Part)
        ensures
            r@ == (PartView {
                id: url_v3_id(name@),
                name: name@,
                parents: Set::empty(),
                children: Set::empty(),
            }),
    {
        Part::with_id(name_based_id(name), name)
    }

    /// A part with the given id and name, with no parents and no children.
    pub fn with_id(id: u128, name: &str) -> (r: Part)
        ensures
            r@ == (PartView { id, name: name@, parents: Set::empty(), children: Set::empty() }),
    {
        Part { id, name: name.to_owned(), parents: HashSet::new(), children: HashSet::new() }
    }
}

/// A copy of a set of ids.
fn copy_ids(ids: &HashSet<u128>) -> (r: HashSet<u128>)
    ensures
        r@ == ids@,
{
    broadcast use vstd::std_specs::hash::group_hash_axioms;

    let mut r: HashSet<u128> = HashSet::new();
    for id in it: ids.iter()
        invariant
            it.seq().unref().to_set() == ids@,
            forall|x: u128|
                r@.contains(x) <==> exists|j: int| 0 <= j < it.index() && it.seq().unref()[j] == x,
        ensures
            r@ =~= ids@,
    {
        r.insert(*id);
    }
    r
}

impl Clone for Part {
    fn clone(&self) -> (r: Part)
        ensures
            r@ == self@,
    {
        Part {
            id: self.id,
            name: self.name.clone(),
            parents: copy_ids(&self.parents),
            children: copy_ids(&self.children),
        }
    }
}

impl PartialEq for Part {
    fn eq(&self, other: &Part) -> (r: bool) {
        self.id == other.id
    }
}

impl vstd::std_specs::cmp::PartialEqSpecImpl for Part {
    open spec fn obeys_eq_spec() -> bool {
        true
    }

    open spec fn eq_spec(&self, other: &Part) -> bool {
        self.id == other.id
    }
}

impl Eq for Part {
}

/// How two parts compare: by id.
pub open spec fn id_order(a: u128, b: u128) -> core::cmp::Ordering {
    if a < b {
        core::cmp::Ordering::Less
    } else if a > b {
        core::cmp::Ordering::Greater
    } else {
        core::cmp::Ordering::Equal
    }
}

impl PartialOrd for Part {
    fn partial_cmp(&self, other: &Part) -> (r: Option<core::cmp::Ordering>) {
        if self.id < other.id {
            Some(core::cmp::Ordering::Less)
        } else if self.id > other.id {
            Some(core::cmp::Ordering::Greater)
        } else {
            Some(core::cmp::Ordering::Equal)
        }
    }
}

impl vstd::std_specs::cmp::PartialOrdSpecImpl for Part {
    open spec fn obeys_partial_cmp_spec() -> bool {
        true
    }

    open spec fn partial_cmp_spec(&self, other: &Part) -> Option<core::cmp::Ordering> {
        Some(id_order(self.id, other.id))
    }
}

} // verus!
