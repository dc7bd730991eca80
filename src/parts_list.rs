//! The parts graph: a map from id to part that keeps ids unique, links
//! symmetric and the child relation acyclic, with its queries and updates.

use std::collections::HashMap;
use std::collections::HashSet;
use vstd::prelude::*;

use crate::graph::{
    ancestors, descendants, inserted, lemma_closure_complete, lemma_edge_reaches,
    lemma_empty_well_formed, lemma_inserted_well_formed, lemma_link_nothing, lemma_linked_one_more,
    lemma_removed_well_formed, lemma_step_toward, lemma_unlinked_one_more, linked, next_ids,
    reaches, removed, replaced, severed, toward, unlinked, well_formed,
};
use crate::laws::law_update_keeps_invariants;
use crate::part::{Part, PartView};

verus! {

broadcast use {vstd::std_specs::hash::group_hash_axioms, vstd::seq::Seq::lemma_take_len};

/// Which parts a query keeps.
#[derive(Clone, Copy, Debug, PartialEq, Eq, Structural)]
pub enum PartsListFilter {
    All,
    TopLevel,
    Assembly,
    Component,
    Subassembly,
    Orphan,
}

/// How an update treats the children it is given.
#[derive(Clone, Copy, Debug, PartialEq, Eq, Structural)]
pub enum PartsListUpdate {
    Add,
    Remove,
    Replace,
}

/// Why an operation on the parts graph failed.
#[derive(Debug)]
pub enum PartsListError {
    /// No part has this id.
    PartDoesNotExist { id: u128 },
    /// A part with this id, hence with this name, is already there.
    PartExists { name: String, id: u128 },
    /// The child is the parent itself or one of its ancestors.
    AddChildCyclicalRelative { parent: u128, child: u128 },
    /// The text names no filter.
    InvalidFilterString { s: String },
    /// The text names no update.
    InvalidUpdateString { s: String },
    /// The operation `s` has no meaning for the filter `f`.
    InvalidFilterChoice { s: String, f: String },
}

/// Whether `p` belongs to the parts that `f` keeps.
pub open spec fn in_filter(f: PartsListFilter, p: PartView) -> bool {
    match f {
        PartsListFilter::All => true,
        PartsListFilter::TopLevel => p.parents.is_empty(),
        PartsListFilter::Assembly => !p.children.is_empty(),
        PartsListFilter::Component => !p.parents.is_empty() && p.children.is_empty(),
        PartsListFilter::Subassembly => !p.parents.is_empty() && !p.children.is_empty(),
        PartsListFilter::Orphan => p.parents.is_empty() && p.children.is_empty(),
    }
}

/// Whether two texts are equal.
fn same_text(a: &str, b: &str) -> (r: bool)
    ensures
        r == (a@ == b@),
{
    a.to_owned() == b.to_owned()
}

impl PartsListFilter {
    /// The filter's name at the system boundary.
    pub open spec fn spec_name(self) -> Seq<char> {
        match self {
            PartsListFilter::All => "all"@,
            PartsListFilter::TopLevel => "top_level"@,
            PartsListFilter::Assembly => "assembly"@,
            PartsListFilter::Component => "component"@,
            PartsListFilter::Subassembly => "subassembly"@,
            PartsListFilter::Orphan => "orphan"@,
        }
    }

    /// The filter that `s` names, if any; the empty text names `All`.
    pub open spec fn named(s: Seq<char>) -> Option<PartsListFilter> {
        if s.len() == 0 || s == "all"@ {
            Some(PartsListFilter::All)
        } else if s == "top_level"@ {
            Some(PartsListFilter::TopLevel)
        } else if s == "assembly"@ {
            Some(PartsListFilter::Assembly)
        } else if s == "component"@ {
            Some(PartsListFilter::Component)
        } else if s == "subassembly"@ {
            Some(PartsListFilter::Subassembly)
        } else if s == "orphan"@ {
            Some(PartsListFilter::Orphan)
        } else {
            None
        }
    }

    /// The filter's name at the system boundary.
    pub fn as_str(&self) -> (r: &'static str)
        ensures
            r@ == self.spec_name(),
    {
        match self {
            PartsListFilter::All => "all",
            PartsListFilter::TopLevel => "top_level",
            PartsListFilter::Assembly => "assembly",
            PartsListFilter::Component => "component",
            PartsListFilter::Subassembly => "subassembly",
            PartsListFilter::Orphan => "orphan",
        }
    }

    /// Reads a filter from its name; the empty text gives `All`.
    pub fn parse(s: &str) -> (r: Result<PartsListFilter, PartsListError>)
        ensures
            match PartsListFilter::named(s@) {
                Some(f) => r == Ok::<PartsListFilter, PartsListError>(f),
                None => r matches Err(PartsListError::InvalidFilterString { s: t }) && t@ == s@,
            },
    {
        if s.is_empty() || same_text(s, "all") {
            Ok(PartsListFilter::All)
        } else if same_text(s, "top_level") {
            Ok(PartsListFilter::TopLevel)
        } else if same_text(s, "assembly") {
            Ok(PartsListFilter::Assembly)
        } else if same_text(s, "component") {
            Ok(PartsListFilter::Component)
        } else if same_text(s, "subassembly") {
            Ok(PartsListFilter::Subassembly)
        } else if same_text(s, "orphan") {
            Ok(PartsListFilter::Orphan)
        } else {
            Err(PartsListError::InvalidFilterString { s: s.to_owned() })
        }
    }

    /// Whether `p` belongs to the parts that this filter keeps.
    pub fn keeps(&self, p: &Part) -> (r: bool)
        ensures
            r == in_filter(*self, p@),
    {
        match self {
            PartsListFilter::All => true,
            PartsListFilter::TopLevel => p.parents.is_empty(),
            PartsListFilter::Assembly => !p.children.is_empty(),
            PartsListFilter::Component => !p.parents.is_empty() && p.children.is_empty(),
            PartsListFilter::Subassembly => !p.parents.is_empty() && !p.children.is_empty(),
            PartsListFilter::Orphan => p.parents.is_empty() && p.children.is_empty(),
        }
    }
}

impl PartsListUpdate {
    /// The update's name at the system boundary.
    pub open spec fn spec_name(self) -> Seq<char> {
        match self {
            PartsListUpdate::Add => "add"@,
            PartsListUpdate::Remove => "remove"@,
            PartsListUpdate::Replace => "replace"@,
        }
    }

    /// The update that `s` names, if any; the empty text names `Add`.
    pub open spec fn named(s: Seq<char>) -> Option<PartsListUpdate> {
        if s.len() == 0 || s == "add"@ {
            Some(PartsListUpdate::Add)
        } else if s == "remove"@ {
            Some(PartsListUpdate::Remove)
        } else if s == "replace"@ {
            Some(PartsListUpdate::Replace)
        } else {
            None
        }
    }

    /// The update's name at the system boundary.
    pub fn as_str(&self) -> (r: &'static str)
        ensures
            r@ == self.spec_name(),
    {
        match self {
            PartsListUpdate::Add => "add",
            PartsListUpdate::Remove => "remove",
            PartsListUpdate::Replace => "replace",
        }
    }

    /// Reads an update from its name; the empty text gives `Add`.
    pub fn parse(s: &str) -> (r: Result<PartsListUpdate, PartsListError>)
        ensures
            match PartsListUpdate::named(s@) {
                Some(u) => r == Ok::<PartsListUpdate, PartsListError>(u),
                None => r matches Err(PartsListError::InvalidUpdateString { s: t }) && t@ == s@,
            },
    {
        if s.is_empty() || same_text(s, "add") {
            Ok(PartsListUpdate::Add)
        } else if same_text(s, "remove") {
            Ok(PartsListUpdate::Remove)
        } else if same_text(s, "replace") {
            Ok(PartsListUpdate::Replace)
        } else {
            Err(PartsListError::InvalidUpdateString { s: s.to_owned() })
        }
    }
}

/// The ids of `parts`, in order.
pub open spec fn ids_of(parts: Seq<&Part>) -> Seq<u128> {
    parts.map_values(|p: &Part| p.id)
}

/// `r` holds, once each, the stored parts whose ids make up `ids`.
pub open spec fn lists_exactly(g: Map<u128, PartView>, r: Seq<&Part>, ids: Set<u128>) -> bool {
    &&& ids_of(r).no_duplicates()
    &&& ids_of(r).to_set() == ids
    &&& forall|i: int| 0 <= i < r.len() ==> g.contains_key(#[trigger] r[i].id) && r[i]@ == g[r[i].id]
}

/// The ids of the parts of `g` that `f` keeps.
pub open spec fn listed(g: Map<u128, PartView>, f: PartsListFilter) -> Set<u128> {
    g.dom().filter(|k: u128| in_filter(f, g[k]))
}

/// Whether `get_children` gives a meaning to `f`.
pub open spec fn relative_filter(f: PartsListFilter) -> bool {
    !(f is Subassembly || f is Orphan)
}

/// The ids that `get_children` gives for `id` under `f`: its children, all
/// its descendants, its descendants that are components, or all its
/// ancestors.
pub open spec fn relatives(g: Map<u128, PartView>, id: u128, f: PartsListFilter) -> Set<u128> {
    match f {
        PartsListFilter::TopLevel => g[id].children,
        PartsListFilter::All => descendants(g, id),
        PartsListFilter::Component => descendants(g, id).filter(
            |y: u128| in_filter(PartsListFilter::Component, g[y]),
        ),
        PartsListFilter::Assembly => ancestors(g, id),
        _ => Set::empty(),
    }
}

/// Why `c` cannot be made a child of `id` (when `adds`) or be unlinked
/// from it (otherwise), if there is a reason.
pub open spec fn child_error(
    g: Map<u128, PartView>,
    id: u128,
    c: u128,
    adds: bool,
) -> Option<PartsListError> {
    if adds && c == id {
        Some(PartsListError::AddChildCyclicalRelative { parent: id, child: c })
    } else if !g.contains_key(c) {
        Some(PartsListError::PartDoesNotExist { id: c })
    } else if adds && reaches(g, c, id) {
        Some(PartsListError::AddChildCyclicalRelative { parent: id, child: c })
    } else {
        None
    }
}

/// The first reason, in the order of `cs`, why one of them cannot be
/// linked to or unlinked from `id`.
pub open spec fn first_child_error(
    g: Map<u128, PartView>,
    id: u128,
    cs: Seq<u128>,
    adds: bool,
) -> Option<PartsListError>
    decreases cs.len(),
{
    if cs.len() == 0 {
        None
    } else if child_error(g, id, cs[0], adds) is Some {
        child_error(g, id, cs[0], adds)
    } else {
        first_child_error(g, id, cs.drop_first(), adds)
    }
}

/// Past a prefix without errors, the first error is the first error of the
/// rest.
proof fn lemma_first_child_error_skip(
    g: Map<u128, PartView>,
    id: u128,
    cs: Seq<u128>,
    adds: bool,
    i: int,
)
    requires
        0 <= i <= cs.len(),
        forall|j: int| 0 <= j < i ==> child_error(g, id, #[trigger] cs[j], adds) is None,
    ensures
        first_child_error(g, id, cs, adds) == first_child_error(g, id, cs.skip(i), adds),
    decreases i,
{
    if i == 0 {
        assert(cs.skip(0) =~= cs);
    } else {
        lemma_first_child_error_skip(g, id, cs, adds, i - 1);
        assert(cs.skip(i - 1)[0] == cs[i - 1]);
        assert(cs.skip(i - 1).drop_first() =~= cs.skip(i));
    }
}

/// `g` with every link to `id` dropped from the parts in `done`.
spec fn severed_in(g: Map<u128, PartView>, id: u128, done: Set<u128>) -> Map<u128, PartView> {
    Map::new(
        |k: u128| g.contains_key(k),
        |k: u128|
            if done.contains(k) {
                severed(g[k], id)
            } else {
                g[k]
            },
    )
}

/// The graph after `op` is applied to part `id` with the children `cs`.
pub open spec fn updated(
    g: Map<u128, PartView>,
    id: u128,
    cs: Set<u128>,
    op: PartsListUpdate,
) -> Map<u128, PartView> {
    match op {
        PartsListUpdate::Add => linked(g, id, cs),
        PartsListUpdate::Remove => unlinked(g, id, cs),
        PartsListUpdate::Replace => replaced(g, id, cs),
    }
}

/// The ids in `s`, once each.
fn ids_in(s: &HashSet<u128>) -> (r: Vec<u128>)
    ensures
        r@.no_duplicates(),
        r@.to_set() == s@,
{
    let mut r: Vec<u128> = Vec::new();
    for id in it: s.iter()
        invariant
            it.seq().unref().to_set() == s@,
            it.seq().unref().no_duplicates(),
            r@ == it.seq().unref().take(it.index()),
        ensures
            r@.no_duplicates(),
            r@.to_set() == s@,
    {
        proof {
            assert(it.seq().unref().take(it.index() + 1) =~= r@.push(*id));
        }
        r.push(*id);
    }
    r
}

/// The graph that a map of parts stands for.
pub open spec fn graph_of(parts: Map<u128, Part>) -> Map<u128, PartView> {
    parts.map_values(|p: Part| p@)
}

/// The parts graph. Every value of it is well formed: ids are unique and
/// each part is stored under its own, links are symmetric and name parts of
/// the graph, and no part is its own descendant.
pub struct PartsList {
    parts: HashMap<u128, Part>,
}

impl View for PartsList {
    type V = Map<u128, PartView>;

    closed spec fn view(&self) -> Map<u128, PartView> {
        graph_of(self.parts@)
    }
}

impl PartsList {
    /// The graph keeps the invariants of `well_formed`. Every operation
    /// that builds or changes a `PartsList` ensures it.
    pub open spec fn wf(&self) -> bool {
        well_formed(self@)
    }

    /// An empty graph.
    pub fn new() -> (r: PartsList)
        ensures
            r@ == Map::<u128, PartView>::empty(),
            r.wf(),
    {
        let parts: HashMap<u128, Part> = HashMap::new();
        proof {
            assert(graph_of(parts@) =~= Map::<u128, PartView>::empty());
            lemma_empty_well_formed();
        }
        PartsList { parts }
    }

    /// The part `id`.
    pub fn get(&self, id: &u128) -> (r: Result<&Part, PartsListError>)
        requires
            self.wf(),
        ensures
            match r {
                Ok(p) => self@.contains_key(*id) && p@ == self@[*id],
                Err(e) => !self@.contains_key(*id) && e == PartsListError::PartDoesNotExist {
                    id: *id,
                },
            },
    {
        match self.parts.get(id) {
            Some(p) => Ok(p),
            None => Err(PartsListError::PartDoesNotExist { id: *id }),
        }
    }

    /// Adds `new_part`, without links, unless a part with its id is there.
    /// Returns the stored part.
    pub fn add(&mut self, new_part: Part) -> (r: Result<&Part, PartsListError>)
        requires
            old(self).wf(),
        ensures
            final(self).wf(),
            match r {
                Ok(p) => {
                    &&& !old(self)@.contains_key(new_part.id)
                    &&& final(self)@ == inserted(old(self)@, new_part@)
                    &&& p@ == final(self)@[new_part.id]
                },
                Err(e) => {
                    &&& old(self)@.contains_key(new_part.id)
                    &&& final(self)@ == old(self)@
                    &&& e matches PartsListError::PartExists { name, id }
                    &&& name@ == new_part.name@ && id == new_part.id
                },
            },
    {
        let id = new_part.id;
        if self.parts.contains_key(&id) {
            return Err(PartsListError::PartExists { name: new_part.name, id });
        }
        let stored = Part {
            id,
            name: new_part.name,
            parents: HashSet::new(),
            children: HashSet::new(),
        };
        proof {
            let g = graph_of(self.parts@);
            lemma_inserted_well_formed(g, new_part@);
        }
        self.parts.insert(id, stored);
        proof {
            assert(graph_of(self.parts@) =~= inserted(old(self)@, new_part@));
        }
        match self.parts.get(&id) {
            Some(p) => Ok(p),
            None => Err(PartsListError::PartDoesNotExist { id }),
        }
    }

    /// The ids of all parts, once each.
    fn ids(&self) -> (r: Vec<u128>)
        ensures
            r@.no_duplicates(),
            r@.to_set() == self@.dom(),
    {
        let mut r: Vec<u128> = Vec::new();
        for id in it: self.parts.keys()
            invariant
                it.seq().unref().to_set() == self.parts@.dom(),
                it.seq().unref().no_duplicates(),
                r@ == it.seq().unref().take(it.index()),
            ensures
                r@.no_duplicates(),
                r@.to_set() == self.parts@.dom(),
        {
            proof {
                assert(it.seq().unref().take(it.index() + 1) =~= r@.push(*id));
            }
            r.push(*id);
        }
        proof {
            assert(self@.dom() =~= self.parts@.dom());
        }
        r
    }

    /// The stored parts whose ids are in `ids` and that `keep` keeps, in
    /// the order of `ids`.
    fn parts_for(&self, ids: &Vec<u128>, keep: PartsListFilter) -> (r: Vec<&Part>)
        requires
            self.wf(),
            ids@.no_duplicates(),
            forall|i: int| 0 <= i < ids.len() ==> self@.contains_key(#[trigger] ids@[i]),
        ensures
            lists_exactly(self@, r@, ids@.to_set().filter(|k: u128| in_filter(keep, self@[k]))),
    {
        let ghost g = self@;
        let mut r: Vec<&Part> = Vec::new();
        for i in 0..ids.len()
            invariant
                g == self@,
                well_formed(g),
                ids@.no_duplicates(),
                forall|j: int| 0 <= j < ids.len() ==> g.contains_key(#[trigger] ids@[j]),
                ids_of(r@).no_duplicates(),
                forall|x: u128|
                    ids_of(r@).contains(x) <==> (ids@.take(i as int).contains(x) && in_filter(
                        keep,
                        g[x],
                    )),
                forall|j: int|
                    0 <= j < r.len() ==> g.contains_key(#[trigger] r@[j].id) && r@[j]@ == g[r@[j].id],
        {
            let id = ids[i];
            let ghost old_ids = ids_of(r@);
            proof {
                assert(ids@.take(i + 1) =~= ids@.take(i as int).push(id));
                assert(g.contains_key(ids@[i as int]));
                assert(!ids@.take(i as int).contains(id));
                assert forall|x: u128| #[trigger]
                    ids@.take(i + 1).contains(x) <==> (ids@.take(i as int).contains(x) || x == id) by {
                    broadcast use vstd::seq_lib::group_seq_properties;

                }
            }
            let p = self.parts.get(&id).unwrap();
            proof {
                assert(g[id] == p@);
                assert(p.id == id);
            }
            if keep.keeps(p) {
                r.push(p);
                proof {
                    assert(ids_of(r@) =~= old_ids.push(id));
                    assert forall|x: u128| #[trigger]
                        ids_of(r@).contains(x) <==> (old_ids.contains(x) || x == id) by {
                        broadcast use vstd::seq_lib::group_seq_properties;

                    }
                    assert forall|a: int, b: int|
                        0 <= a < ids_of(r@).len() && 0 <= b < ids_of(r@).len() && a != b implies ids_of(
                        r@,
                    )[a] != ids_of(r@)[b] by {
                        if a < old_ids.len() && b < old_ids.len() {
                            assert(old_ids[a] != old_ids[b]);
                        } else if a < old_ids.len() {
                            assert(old_ids.contains(old_ids[a]));
                        } else {
                            assert(old_ids.contains(old_ids[b]));
                        }
                    }
                }
            }
        }
        proof {
            assert(ids@.take(ids.len() as int) =~= ids@);
            assert(ids_of(r@).to_set() =~= ids@.to_set().filter(|k: u128| in_filter(keep, g[k])));
        }
        r
    }

    /// The ids reached from `start`, once each: its ancestors when going up,
    /// its descendants when going down.
    fn reached(&self, start: u128, up: bool) -> (r: Vec<u128>)
        requires
            self.wf(),
            self@.contains_key(start),
        ensures
            r@.no_duplicates(),
            forall|y: u128| #[trigger] r@.contains(y) <==> toward(self@, start, y, up),
            forall|y: u128| #[trigger] r@.contains(y) ==> self@.contains_key(y),
    {
        let ghost g = self@;
        let first = match self.parts.get(&start) {
            Some(p) => p,
            None => {
                return Vec::new();
            },
        };
        let mut stack = if up {
            ids_in(&first.parents)
        } else {
            ids_in(&first.children)
        };
        proof {
            assert(g[start] == first@);
            assert forall|i: int| 0 <= i < stack.len() implies g.contains_key(#[trigger] stack@[i])
                && toward(g, start, stack@[i], up) by {
                assert(stack@.to_set().contains(stack@[i]));
                lemma_step_toward(g, start, start, stack@[i], up);
            }
            assert forall|y: u128| #[trigger] next_ids(g, start, up).contains(y) implies stack@.contains(
                y,
            ) by {
                assert(stack@.to_set().contains(y));
            }
        }
        let mut found: HashSet<u128> = HashSet::new();
        let mut order: Vec<u128> = Vec::new();
        proof {
            assert(found@ =~= order@.to_set());
        }
        while stack.len() > 0
            invariant
                g == self@,
                well_formed(g),
                g.contains_key(start),
                found@ == order@.to_set(),
                order@.no_duplicates(),
                forall|x: u128| #[trigger]
                    found@.contains(x) ==> g.contains_key(x) && toward(g, start, x, up),
                forall|i: int|
                    0 <= i < stack.len() ==> g.contains_key(#[trigger] stack@[i]) && toward(
                        g,
                        start,
                        stack@[i],
                        up,
                    ),
                forall|y: u128| #[trigger]
                    next_ids(g, start, up).contains(y) ==> found@.contains(y) || stack@.contains(y),
                forall|x: u128, y: u128|
                    found@.contains(x) && #[trigger] next_ids(g, x, up).contains(y) ==> found@.contains(
                        y,
                    ) || stack@.contains(y),
            decreases g.dom().len() - found@.len(), stack.len(),
        {
            proof {
                vstd::set_lib::lemma_len_subset(found@, g.dom());
            }
            let ghost before = stack@;
            let x = stack.pop().unwrap();
            proof {
                assert(before == stack@.push(x));
                assert forall|y: u128| before.contains(y) implies stack@.contains(y) || y == x by {
                    let j = choose|j: int| 0 <= j < before.len() && before[j] == y;
                    if j < stack.len() {
                        assert(stack@[j] == y);
                    }
                }
                assert(g.contains_key(x) && toward(g, start, x, up)) by {
                    assert(before[before.len() - 1] == x);
                }
            }
            let ghost found_before = found@;
            if !found.contains(&x) {
                found.insert(x);
                proof {
                    order@.lemma_push_to_set_commute(x);
                    assert(!order@.contains(x)) by {
                        assert(order@.to_set().contains(x) == order@.contains(x));
                    }
                }
                order.push(x);
                let ghost mid = stack@;
                let xp = self.parts.get(&x).unwrap();
                let mut more = if up {
                    ids_in(&xp.parents)
                } else {
                    ids_in(&xp.children)
                };
                let ghost added = more@;
                proof {
                    assert(g[x] == xp@);
                    assert forall|i: int| 0 <= i < more.len() implies g.contains_key(
                        #[trigger] more@[i],
                    ) && toward(g, start, more@[i], up) by {
                        assert(more@.to_set().contains(more@[i]));
                        lemma_step_toward(g, start, x, more@[i], up);
                    }
                    assert forall|y: u128| #[trigger]
                        next_ids(g, x, up).contains(y) implies added.contains(y) by {
                        assert(added.to_set().contains(y));
                    }
                }
                stack.append(&mut more);
                proof {
                    assert(stack@ == mid + added);
                    assert forall|y: u128| mid.contains(y) implies stack@.contains(y) by {
                        let j = choose|j: int| 0 <= j < mid.len() && mid[j] == y;
                        assert(stack@[j] == y);
                    }
                    assert forall|y: u128| added.contains(y) implies stack@.contains(y) by {
                        let j = choose|j: int| 0 <= j < added.len() && added[j] == y;
                        assert(stack@[mid.len() + j] == y);
                    }
                    vstd::set_lib::lemma_len_subset(found@, g.dom());
                    assert forall|x2: u128, y: u128|
                        found@.contains(x2) && #[trigger] next_ids(g, x2, up).contains(
                            y,
                        ) implies found@.contains(y) || stack@.contains(y) by {
                        if x2 != x {
                            assert(found_before.contains(x2));
                            assert(found_before.contains(y) || before.contains(y));
                        } else {
                            assert(added.contains(y));
                        }
                    }
                }
            } else {
                proof {
                    assert forall|x2: u128, y: u128|
                        found@.contains(x2) && #[trigger] next_ids(g, x2, up).contains(
                            y,
                        ) implies found@.contains(y) || stack@.contains(y) by {
                        assert(found_before.contains(y) || before.contains(y));
                    }
                }
            }
        }
        proof {
            lemma_closure_complete(g, start, found@, up);
            assert forall|y: u128| #[trigger] order@.contains(y) <==> toward(g, start, y, up) by {
                assert(order@.to_set().contains(y) == order@.contains(y));
            }
            assert forall|y: u128| #[trigger] order@.contains(y) implies g.contains_key(y) by {
                assert(order@.to_set().contains(y) == order@.contains(y));
            }
        }
        order
    }

    /// Whether `candidate` is an ancestor of `part`.
    fn is_ancestor(&self, part: u128, candidate: u128) -> (r: bool)
        requires
            self.wf(),
            self@.contains_key(part),
        ensures
            r == reaches(self@, candidate, part),
    {
        let up = self.reached(part, true);
        let mut i: usize = 0;
        while i < up.len()
            invariant
                i <= up.len(),
                forall|j: int| 0 <= j < i ==> up@[j] != candidate,
                forall|y: u128| #[trigger] up@.contains(y) <==> reaches(self@, y, part),
            decreases up.len() - i,
        {
            if up[i] == candidate {
                proof {
                    assert(up@.contains(up@[i as int]));
                }
                return true;
            }
            i = i + 1;
        }
        proof {
            assert(!up@.contains(candidate));
        }
        false
    }

    /// The parts that `filter` keeps, each once, in no particular order.
    pub fn list(&self, filter: PartsListFilter) -> (r: Vec<&Part>)
        requires
            self.wf(),
        ensures
            lists_exactly(self@, r@, listed(self@, filter)),
    {
        let ids = self.ids();
        proof {
            assert forall|i: int| 0 <= i < ids.len() implies self@.contains_key(#[trigger] ids@[i]) by {
                assert(ids@.to_set().contains(ids@[i]));
            }
        }
        let r = self.parts_for(&ids, filter);
        proof {
            assert(ids@.to_set().filter(|k: u128| in_filter(filter, self@[k])) =~= listed(
                self@,
                filter,
            ));
        }
        r
    }

    /// The relatives of part `id` that `filter` selects, each once, in no
    /// particular order: `TopLevel` gives its children, `All` all its
    /// descendants, `Component` those of its descendants that have no
    /// children, and `Assembly` all its ancestors. `Subassembly` and `Orphan`
    /// have no meaning here.
    pub fn get_children(&self, id: &u128, filter: PartsListFilter) -> (r: Result<
        Vec<&Part>,
        PartsListError,
    >)
        requires
            self.wf(),
        ensures
            match r {
                Ok(v) => {
                    &&& relative_filter(filter)
                    &&& self@.contains_key(*id)
                    &&& lists_exactly(self@, v@, relatives(self@, *id, filter))
                },
                Err(e) => if relative_filter(filter) {
                    &&& !self@.contains_key(*id)
                    &&& e == PartsListError::PartDoesNotExist { id: *id }
                } else {
                    &&& e matches PartsListError::InvalidFilterChoice { s, f }
                    &&& s@ == "get_children"@
                    &&& f@ == filter.spec_name()
                },
            },
    {
        match filter {
            PartsListFilter::Subassembly | PartsListFilter::Orphan => {
                return Err(
                    PartsListError::InvalidFilterChoice {
                        s: "get_children".to_owned(),
                        f: filter.as_str().to_owned(),
                    },
                );
            },
            _ => {},
        }
        let part = match self.parts.get(id) {
            Some(p) => p,
            None => {
                return Err(PartsListError::PartDoesNotExist { id: *id });
            },
        };
        let ghost g = self@;
        proof {
            assert(g[*id] == part@);
        }
        let ids = match filter {
            PartsListFilter::TopLevel => ids_in(&part.children),
            PartsListFilter::Assembly => self.reached(*id, true),
            _ => self.reached(*id, false),
        };
        let keep = match filter {
            PartsListFilter::Component => PartsListFilter::Component,
            _ => PartsListFilter::All,
        };
        proof {
            assert forall|i: int| 0 <= i < ids.len() implies g.contains_key(#[trigger] ids@[i]) by {
                assert(ids@.contains(ids@[i]));
                assert(ids@.to_set().contains(ids@[i]));
                if filter is TopLevel {
                    assert(g[*id].children.contains(ids@[i]));
                }
            }
            assert(ids@.to_set().filter(|k: u128| in_filter(keep, g[k])) =~= relatives(
                g,
                *id,
                filter,
            ));
        }
        Ok(self.parts_for(&ids, keep))
    }

    /// Makes `child` a child of `parent` (when `on`) or drops that link.
    fn relink(&mut self, parent: u128, child: u128, on: bool)
        requires
            old(self)@.contains_key(parent),
            old(self)@.contains_key(child),
        ensures
            final(self)@ == if on {
                linked(old(self)@, parent, set![child])
            } else {
                unlinked(old(self)@, parent, set![child])
            },
    {
        let ghost g = self@;
        let mut p = self.parts.remove(&parent).unwrap();
        if on {
            p.children.insert(child);
        } else {
            p.children.remove(&child);
        }
        self.parts.insert(parent, p);
        let mut c = self.parts.remove(&child).unwrap();
        if on {
            c.parents.insert(parent);
        } else {
            c.parents.remove(&parent);
        }
        self.parts.insert(child, c);
        proof {
            let want = if on {
                linked(g, parent, set![child])
            } else {
                unlinked(g, parent, set![child])
            };
            assert(self@.dom() =~= want.dom());
            assert forall|k: u128| self@.contains_key(k) implies self@[k] == want[k] by {
                assert(self@[k].parents =~= want[k].parents);
                assert(self@[k].children =~= want[k].children);
            }
            assert(self@ =~= want);
        }
    }

    /// Makes each of `cs` a child of `id` (when `on`) or drops those links.
    fn relink_all(&mut self, id: u128, cs: &Vec<u128>, on: bool)
        requires
            old(self)@.contains_key(id),
            forall|i: int| 0 <= i < cs.len() ==> old(self)@.contains_key(#[trigger] cs@[i]),
        ensures
            final(self)@ == if on {
                linked(old(self)@, id, cs@.to_set())
            } else {
                unlinked(old(self)@, id, cs@.to_set())
            },
    {
        let ghost g = self@;
        proof {
            lemma_link_nothing(g, id);
            assert(cs@.take(0).to_set() =~= Set::<u128>::empty());
        }
        for i in 0..cs.len()
            invariant
                g.contains_key(id),
                forall|j: int| 0 <= j < cs.len() ==> g.contains_key(#[trigger] cs@[j]),
                self@.dom() == g.dom(),
                self@ == if on {
                    linked(g, id, cs@.take(i as int).to_set())
                } else {
                    unlinked(g, id, cs@.take(i as int).to_set())
                },
        {
            let c = cs[i];
            proof {
                assert(g.contains_key(cs@[i as int]));
                assert(cs@.take(i + 1) =~= cs@.take(i as int).push(c));
                cs@.take(i as int).lemma_push_to_set_commute(c);
                lemma_linked_one_more(g, id, cs@.take(i as int).to_set(), c);
                lemma_unlinked_one_more(g, id, cs@.take(i as int).to_set(), c);
            }
            self.relink(id, c, on);
            proof {
                assert(self@.dom() =~= g.dom());
            }
        }
        proof {
            assert(cs@.take(cs.len() as int) =~= cs@);
        }
    }

    /// The first reason why one of `cs` cannot be linked to `id` (when
    /// `adds`) or unlinked from it.
    fn check_children(&self, id: u128, cs: &Vec<u128>, adds: bool) -> (r: Option<PartsListError>)
        requires
            self.wf(),
            self@.contains_key(id),
        ensures
            r == first_child_error(self@, id, cs@, adds),
            r is None ==> forall|i: int|
                0 <= i < cs.len() ==> child_error(self@, id, #[trigger] cs@[i], adds) is None,
    {
        for i in 0..cs.len()
            invariant
                self.wf(),
                self@.contains_key(id),
                forall|j: int| 0 <= j < i ==> child_error(self@, id, #[trigger] cs@[j], adds) is None,
        {
            let c = cs[i];
            proof {
                lemma_first_child_error_skip(self@, id, cs@, adds, i as int);
                assert(cs@.skip(i as int)[0] == c);
            }
            if adds && c == id {
                return Some(PartsListError::AddChildCyclicalRelative { parent: id, child: c });
            }
            if !self.parts.contains_key(&c) {
                return Some(PartsListError::PartDoesNotExist { id: c });
            }
            if adds && self.is_ancestor(id, c) {
                return Some(PartsListError::AddChildCyclicalRelative { parent: id, child: c });
            }
        }
        proof {
            lemma_first_child_error_skip(self@, id, cs@, adds, cs.len() as int);
        }
        None
    }

    /// Removes part `id` and every link to it.
    pub fn delete(&mut self, id: &u128) -> (r: Result<(), PartsListError>)
        requires
            old(self).wf(),
        ensures
            final(self).wf(),
            match r {
                Ok(()) => old(self)@.contains_key(*id) && final(self)@ == removed(old(self)@, *id),
                Err(e) => {
                    &&& !old(self)@.contains_key(*id)
                    &&& final(self)@ == old(self)@
                    &&& e == PartsListError::PartDoesNotExist { id: *id }
                },
            },
    {
        let ghost g = self@;
        let part = match self.parts.remove(id) {
            Some(p) => p,
            None => {
                proof {
                    assert(self.parts@ =~= old(self).parts@);
                    assert(self@ =~= g);
                }
                return Err(PartsListError::PartDoesNotExist { id: *id });
            },
        };
        let ghost rest = self@;
        let mut near = ids_in(&part.parents);
        let mut below = ids_in(&part.children);
        let ghost above_ids = near@;
        let ghost below_ids = below@;
        near.append(&mut below);
        proof {
            assert(near@ == above_ids + below_ids);
            assert forall|x: u128| #[trigger]
                near@.contains(x) <==> (part@.parents.contains(x) || part@.children.contains(x)) by {
                assert(above_ids.to_set().contains(x) == above_ids.contains(x));
                assert(below_ids.to_set().contains(x) == below_ids.contains(x));
                if above_ids.contains(x) {
                    let j = choose|j: int| 0 <= j < above_ids.len() && above_ids[j] == x;
                    assert(near@[j] == x);
                }
                if below_ids.contains(x) {
                    let j = choose|j: int| 0 <= j < below_ids.len() && below_ids[j] == x;
                    assert(near@[above_ids.len() + j] == x);
                }
            }
            assert(g[*id] == part@);
            assert(rest =~= g.remove(*id));
            assert forall|i: int| 0 <= i < near.len() implies rest.contains_key(#[trigger] near@[i]) by {
                let k = near@[i];
                assert(near@.contains(k));
                if part@.parents.contains(k) {
                    assert(g[*id].parents.contains(k));
                    assert(g[k].children.contains(*id));
                    if k == *id {
                        lemma_edge_reaches(g, k, k);
                    }
                } else {
                    assert(part@.children.contains(k));
                    assert(g[*id].children.contains(k));
                    if k == *id {
                        lemma_edge_reaches(g, k, k);
                    }
                }
            }
            assert(severed_in(rest, *id, near@.take(0).to_set()) =~= rest);
        }
        for i in 0..near.len()
            invariant
                forall|j: int| 0 <= j < near.len() ==> rest.contains_key(#[trigger] near@[j]),
                self@ == severed_in(rest, *id, near@.take(i as int).to_set()),
        {
            let k = near[i];
            let ghost before = self@;
            let ghost before_parts = self.parts@;
            proof {
                assert(rest.contains_key(near@[i as int]));
                assert(self@.contains_key(k));
                assert(self.parts@.contains_key(k));
                assert(near@.take(i + 1) =~= near@.take(i as int).push(k));
                near@.take(i as int).lemma_push_to_set_commute(k);
            }
            let mut p = self.parts.remove(&k).unwrap();
            p.parents.remove(id);
            p.children.remove(id);
            let ghost changed = p@;
            self.parts.insert(k, p);
            proof {
                assert(self@ =~= before.insert(k, changed));
                assert(changed.parents =~= before[k].parents.remove(*id));
                assert(changed.children =~= before[k].children.remove(*id));
                let want = severed_in(rest, *id, near@.take(i + 1).to_set());
                assert(self@.dom() =~= want.dom());
                assert forall|x: u128| self@.contains_key(x) implies self@[x] == want[x] by {
                    assert(self@[x].parents =~= want[x].parents);
                    assert(self@[x].children =~= want[x].children);
                }
                assert(self@ =~= want);
            }
        }
        proof {
            assert(near@.take(near.len() as int) =~= near@);
            let want = removed(g, *id);
            assert(self@.dom() =~= want.dom());
            assert forall|x: u128| self@.contains_key(x) implies self@[x] == want[x] by {
                if !near@.to_set().contains(x) {
                    assert(!near@.contains(x));
                    assert(!part@.parents.contains(x));
                    assert(!part@.children.contains(x));
                    assert(!g[x].children.contains(*id));
                    assert(!g[x].parents.contains(*id));
                }
                assert(self@[x].parents =~= want[x].parents);
                assert(self@[x].children =~= want[x].children);
            }
            assert(self@ =~= want);
            lemma_removed_well_formed(g, *id);
        }
        Ok(())
    }

    /// Changes the children of part `id`: `Add` links each of `children`
    /// below it, `Remove` drops those links, and `Replace` drops every
    /// current child and links `children` instead. The children are checked
    /// first, in order, and the first that fails stops the update with
    /// nothing changed: a child that is not in the graph, or, when linking,
    /// one that is `id` itself or one of its ancestors.
    pub fn update(&mut self, id: &u128, children: &Vec<u128>, op: PartsListUpdate) -> (r: Result<
        (),
        PartsListError,
    >)
        requires
            old(self).wf(),
        ensures
            final(self).wf(),
            !old(self)@.contains_key(*id) ==> {
                &&& r == Err::<(), PartsListError>(PartsListError::PartDoesNotExist { id: *id })
                &&& final(self)@ == old(self)@
            },
            old(self)@.contains_key(*id) ==> match first_child_error(
                old(self)@,
                *id,
                children@,
                !(op is Remove),
            ) {
                Some(e) => r == Err::<(), PartsListError>(e) && final(self)@ == old(self)@,
                None => r is Ok && final(self)@ == updated(old(self)@, *id, children@.to_set(), op),
            },
    {
        let ghost g = self@;
        if !self.parts.contains_key(id) {
            return Err(PartsListError::PartDoesNotExist { id: *id });
        }
        let adds = match op {
            PartsListUpdate::Remove => false,
            _ => true,
        };
        match self.check_children(*id, children, adds) {
            Some(e) => {
                return Err(e);
            },
            None => {},
        }
        proof {
            law_update_keeps_invariants(g, *id, children@, op);
            assert forall|i: int| 0 <= i < children.len() implies g.contains_key(
                #[trigger] children@[i],
            ) by {
                assert(child_error(g, *id, children@[i], adds) is None);
            }
        }
        match op {
            PartsListUpdate::Add => {
                self.relink_all(*id, children, true);
            },
            PartsListUpdate::Remove => {
                self.relink_all(*id, children, false);
            },
            PartsListUpdate::Replace => {
                let current = ids_in(&self.parts.get(id).unwrap().children);
                proof {
                    assert(current@.to_set() == g[*id].children);
                    assert forall|i: int| 0 <= i < current.len() implies g.contains_key(
                        #[trigger] current@[i],
                    ) by {
                        assert(current@.to_set().contains(current@[i]));
                        assert(g[*id].children.contains(current@[i]));
                    }
                }
                self.relink_all(*id, &current, false);
                proof {
                    assert(self@.dom() =~= g.dom());
                }
                self.relink_all(*id, children, true);
            },
        }
        Ok(())
    }
}

} // verus!
