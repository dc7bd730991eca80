//! One parts graph shared by every caller behind a reader/writer lock.
//!
//! Readers hold the lock together and a writer holds it alone; acquiring
//! waits until the lock is free, so callers never see a contention error.
//! The lock only ever holds a well-formed graph: every writer must hand one
//! back before it lets go.

use vstd::prelude::*;
use vstd::rwlock::{RwLock, RwLockPredicate};

use crate::graph::{inserted, well_formed};
use crate::part::{Part, PartView};
use crate::parts_list::{
    first_child_error, listed, relative_filter, relatives, PartsList, PartsListError,
    PartsListFilter, PartsListUpdate,
};

verus! {

/// What the lock promises of the graph it holds.
pub struct WellFormedGraph {}

impl RwLockPredicate<PartsList> for WellFormedGraph {
    open spec fn inv(self, v: PartsList) -> bool {
        v.wf()
    }
}

/// The ids of `parts`, in order.
pub open spec fn owned_ids(parts: Seq<Part>) -> Seq<u128> {
    parts.map_values(|p: Part| p.id)
}

/// `r` holds, once each, copies of the parts of `g` whose ids make up
/// `ids`.
pub open spec fn lists_copies(g: Map<u128, PartView>, r: Seq<Part>, ids: Set<u128>) -> bool {
    &&& owned_ids(r).no_duplicates()
    &&& owned_ids(r).to_set() == ids
    &&& forall|i: int| 0 <= i < r.len() ==> g.contains_key(#[trigger] r[i].id) && r[i]@ == g[r[i].id]
}

/// Copies of the parts in `found`, in order.
fn copy_all(found: &Vec<&Part>) -> (r: Vec<Part>)
    ensures
        r.len() == found.len(),
        forall|i: int| 0 <= i < r.len() ==> (#[trigger] r@[i])@ == found@[i]@,
        owned_ids(r@) == found@.map_values(|p: &Part| p.id),
{
    let mut r: Vec<Part> = Vec::new();
    for i in 0..found.len()
        invariant
            r.len() == i,
            forall|j: int| 0 <= j < i ==> (#[trigger] r@[j])@ == found@[j]@,
    {
        r.push(Part::clone(found[i]));
    }
    proof {
        assert(owned_ids(r@) =~= found@.map_values(|p: &Part| p.id));
    }
    r
}

/// The parts graph of a running service, shared by all its callers.
pub struct SharedPartsList {
    lock: RwLock<PartsList, WellFormedGraph>,
}

impl SharedPartsList {
    #[verifier::type_invariant]
    spec fn holds_well_formed(self) -> bool {
        self.lock.pred() == WellFormedGraph {}
    }

    /// A shared, empty graph.
    pub fn new() -> (r: SharedPartsList) {
        let parts = PartsList::new();
        SharedPartsList { lock: RwLock::new(parts, Ghost(WellFormedGraph {})) }
    }

    /// Copies of the parts that `filter` keeps, in the graph as it stands.
    pub fn list(&self, filter: PartsListFilter) -> (r: Vec<Part>)
        ensures
            exists|g: Map<u128, PartView>| well_formed(g) && #[trigger] lists_copies(g, r@, listed(g, filter)),
    {
        proof {
            use_type_invariant(self);
        }
        let handle = self.lock.acquire_read();
        let parts = handle.borrow();
        let found = parts.list(filter);
        let copies = copy_all(&found);
        proof {
            assert(lists_copies(parts@, copies@, listed(parts@, filter)));
        }
        handle.release_read();
        copies
    }

    /// A copy of the part `id`, in the graph as it stands.
    pub fn get(&self, id: &u128) -> (r: Result<Part, PartsListError>)
        ensures
            exists|g: Map<u128, PartView>| #[trigger] well_formed(g) && match r {
                Ok(p) => g.contains_key(*id) && p@ == g[*id],
                Err(e) => !g.contains_key(*id) && e == PartsListError::PartDoesNotExist { id: *id },
            },
    {
        proof {
            use_type_invariant(self);
        }
        let handle = self.lock.acquire_read();
        let parts = handle.borrow();
        let ghost g = parts@;
        let r = match parts.get(id) {
            Ok(p) => Ok(Part::clone(p)),
            Err(e) => Err(e),
        };
        handle.release_read();
        proof {
            assert(well_formed(g));
        }
        r
    }

    /// Copies of the relatives that `filter` selects of part `id`, in the
    /// graph as it stands; see `PartsList::get_children`.
    pub fn get_children(&self, id: &u128, filter: PartsListFilter) -> (r: Result<
        Vec<Part>,
        PartsListError,
    >)
        ensures
            exists|g: Map<u128, PartView>| #[trigger] well_formed(g) && match r {
                Ok(v) => {
                    &&& relative_filter(filter)
                    &&& g.contains_key(*id)
                    &&& lists_copies(g, v@, relatives(g, *id, filter))
                },
                Err(e) => if relative_filter(filter) {
                    &&& !g.contains_key(*id)
                    &&& e == PartsListError::PartDoesNotExist { id: *id }
                } else {
                    &&& e matches PartsListError::InvalidFilterChoice { s, f }
                    &&& s@ == "get_children"@
                    &&& f@ == filter.spec_name()
                },
            },
    {
        proof {
            use_type_invariant(self);
        }
        let handle = self.lock.acquire_read();
        let parts = handle.borrow();
        let ghost g = parts@;
        let r = match parts.get_children(id, filter) {
            Ok(found) => Ok(copy_all(&found)),
            Err(e) => Err(e),
        };
        handle.release_read();
        proof {
            assert(well_formed(g));
        }
        r
    }

    /// Adds `part`, without links, unless its id is taken; see
    /// `PartsList::add`. Returns a copy of the stored part.
    pub fn add(&self, part: Part) -> (r: Result<Part, PartsListError>)
        ensures
            exists|g: Map<u128, PartView>| #[trigger] well_formed(g) && match r {
                Ok(p) => !g.contains_key(part.id) && p@ == inserted(g, part@)[part.id],
                Err(e) => {
                    &&& g.contains_key(part.id)
                    &&& e matches PartsListError::PartExists { name, id }
                    &&& name@ == part.name@ && id == part.id
                },
            },
    {
        proof {
            use_type_invariant(self);
        }
        let (mut parts, handle) = self.lock.acquire_write();
        let ghost g = parts@;
        let r = match parts.add(part) {
            Ok(p) => Ok(Part::clone(p)),
            Err(e) => Err(e),
        };
        handle.release_write(parts);
        proof {
            assert(well_formed(g));
        }
        r
    }

    /// Removes part `id` and every link to it; see `PartsList::delete`.
    pub fn delete(&self, id: &u128) -> (r: Result<(), PartsListError>)
        ensures
            exists|g: Map<u128, PartView>| #[trigger] well_formed(g) && match r {
                Ok(()) => g.contains_key(*id),
                Err(e) => !g.contains_key(*id) && e == PartsListError::PartDoesNotExist { id: *id },
            },
    {
        proof {
            use_type_invariant(self);
        }
        let (mut parts, handle) = self.lock.acquire_write();
        let ghost g = parts@;
        let r = parts.delete(id);
        handle.release_write(parts);
        proof {
            assert(well_formed(g));
        }
        r
    }

    /// Changes the children of part `id`; see `PartsList::update`.
    pub fn update(&self, id: &u128, children: &Vec<u128>, op: PartsListUpdate) -> (r: Result<
        (),
        PartsListError,
    >)
        ensures
            exists|g: Map<u128, PartView>| #[trigger] well_formed(g) && if !g.contains_key(*id) {
                r == Err::<(), PartsListError>(PartsListError::PartDoesNotExist { id: *id })
            } else {
                match first_child_error(g, *id, children@, !(op is Remove)) {
                    Some(e) => r == Err::<(), PartsListError>(e),
                    None => r is Ok,
                }
            },
    {
        proof {
            use_type_invariant(self);
        }
        let (mut parts, handle) = self.lock.acquire_write();
        let ghost g = parts@;
        let r = parts.update(id, children, op);
        handle.release_write(parts);
        proof {
            assert(well_formed(g));
        }
        r
    }
}

} // verus!
