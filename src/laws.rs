//! What holds of the parts graph across operations, stated over the model
//! that the operations' contracts use.

use vstd::prelude::*;

use crate::graph::{
    lemma_linked_well_formed, lemma_reaches_in_larger, lemma_unlinked_well_formed, edge, linked,
    reaches, removed, inserted, unlinked, replaced, well_formed,
};
use crate::part::{url_v3_id, PartView};
use crate::parts_list::{
    child_error, first_child_error, in_filter, listed, updated, PartsListError, PartsListFilter,
    PartsListUpdate,
};

verus! {

/// When no child fails its check, none of them does.
proof fn lemma_no_child_error(g: Map<u128, PartView>, id: u128, cs: Seq<u128>, adds: bool)
    requires
        first_child_error(g, id, cs, adds) is None,
    ensures
        forall|i: int| 0 <= i < cs.len() ==> child_error(g, id, #[trigger] cs[i], adds) is None,
    decreases cs.len(),
{
    if cs.len() > 0 {
        lemma_no_child_error(g, id, cs.drop_first(), adds);
        assert forall|i: int| 0 <= i < cs.len() implies child_error(g, id, #[trigger] cs[i], adds) is None by {
            if i > 0 {
                assert(cs[i] == cs.drop_first()[i - 1]);
            }
        }
    }
}

/// Parts are unique by name: once a part named `n` is added, the id that
/// any part named `n` carries is taken, so adding one again is refused.
pub proof fn law_name_added_once(g: Map<u128, PartView>, n: Seq<char>)
    requires
        !g.contains_key(url_v3_id(n)),
    ensures
        ({
            let p = PartView {
                id: url_v3_id(n),
                name: n,
                parents: Set::empty(),
                children: Set::empty(),
            };
            inserted(g, p).contains_key(url_v3_id(n)) && inserted(g, p)[url_v3_id(n)] == p
        }),
{
}

/// Every update whose children pass their checks keeps the graph well
/// formed: links stay symmetric and the child relation acyclic.
pub proof fn law_update_keeps_invariants(
    g: Map<u128, PartView>,
    id: u128,
    cs: Seq<u128>,
    op: PartsListUpdate,
)
    requires
        well_formed(g),
        g.contains_key(id),
        first_child_error(g, id, cs, !(op is Remove)) is None,
    ensures
        well_formed(updated(g, id, cs.to_set(), op)),
{
    let adds = !(op is Remove);
    lemma_no_child_error(g, id, cs, adds);
    assert forall|c: u128| #[trigger] cs.to_set().contains(c) implies g.contains_key(c) && (adds
        ==> c != id && !reaches(g, c, id)) by {
        assert(cs.contains(c));
        let j = choose|j: int| 0 <= j < cs.len() && cs[j] == c;
        assert(child_error(g, id, cs[j], adds) is None);
    }
    match op {
        PartsListUpdate::Add => {
            lemma_linked_well_formed(g, id, cs.to_set());
        },
        PartsListUpdate::Remove => {
            lemma_unlinked_well_formed(g, id, cs.to_set());
        },
        PartsListUpdate::Replace => {
            let g1 = unlinked(g, id, g[id].children);
            lemma_unlinked_well_formed(g, id, g[id].children);
            assert(g1.dom() =~= g.dom());
            assert forall|x: u128, y: u128| #[trigger] edge(g1, x, y) implies edge(g, x, y) by {}
            assert forall|c: u128| #[trigger] cs.to_set().contains(c) implies g1.contains_key(c) && c
                != id && !reaches(g1, c, id) by {
                if reaches(g1, c, id) {
                    lemma_reaches_in_larger(g1, g, c, id);
                }
            }
            lemma_linked_well_formed(g1, id, cs.to_set());
        },
    }
}

/// A link that would close a cycle is refused as a cyclic relative: if
/// making `c` a child of `p` would make `p` its own descendant, the check
/// of `c` fails with `AddChildCyclicalRelative`.
pub proof fn law_cycle_refused(g: Map<u128, PartView>, p: u128, c: u128)
    requires
        well_formed(g),
        g.contains_key(p),
        g.contains_key(c),
        reaches(linked(g, p, set![c]), p, p),
    ensures
        first_child_error(g, p, seq![c], true) == Some(
            PartsListError::AddChildCyclicalRelative { parent: p, child: c },
        ),
{
    if c != p && !reaches(g, c, p) {
        lemma_linked_well_formed(g, p, set![c]);
    }
    assert(seq![c][0] == c);
}

/// After a part is deleted, no remaining part lists it as a parent or as
/// a child.
pub proof fn law_delete_severs(g: Map<u128, PartView>, id: u128)
    ensures
        !removed(g, id).contains_key(id),
        forall|k: u128| #[trigger]
            removed(g, id).contains_key(k) ==> !removed(g, id)[k].parents.contains(id)
                && !removed(g, id)[k].children.contains(id),
{
}

/// Each part is kept by `All`, and by exactly one of `Orphan`,
/// `Component`, `Subassembly`, and `TopLevel` together with `Assembly`.
pub proof fn law_filter_partition(p: PartView)
    ensures
        in_filter(PartsListFilter::All, p),
        (in_filter(PartsListFilter::Orphan, p) as int) + (in_filter(PartsListFilter::Component, p) as int)
            + (in_filter(PartsListFilter::Subassembly, p) as int) + ((in_filter(
            PartsListFilter::TopLevel,
            p,
        ) && in_filter(PartsListFilter::Assembly, p)) as int) == 1,
{
}

/// Listing everything gives the union of the other listings, and the
/// orphans, components, subassemblies and top-level assemblies split it
/// into disjoint parts.
pub proof fn law_listing_partition(g: Map<u128, PartView>)
    ensures
        listed(g, PartsListFilter::All) == listed(g, PartsListFilter::TopLevel).union(
            listed(g, PartsListFilter::Orphan),
        ).union(listed(g, PartsListFilter::Subassembly)).union(
            listed(g, PartsListFilter::Component),
        ).union(listed(g, PartsListFilter::Assembly)),
        listed(g, PartsListFilter::All) == listed(g, PartsListFilter::Orphan).union(
            listed(g, PartsListFilter::Component),
        ).union(listed(g, PartsListFilter::Subassembly)).union(
            listed(g, PartsListFilter::TopLevel).intersect(listed(g, PartsListFilter::Assembly)),
        ),
        forall|k: u128| #[trigger]
            listed(g, PartsListFilter::All).contains(k) ==> {
                let p = g[k];
                (in_filter(PartsListFilter::Orphan, p) as int) + (in_filter(
                    PartsListFilter::Component,
                    p,
                ) as int) + (in_filter(PartsListFilter::Subassembly, p) as int) + ((in_filter(
                    PartsListFilter::TopLevel,
                    p,
                ) && in_filter(PartsListFilter::Assembly, p)) as int) == 1
            },
{
    let all = listed(g, PartsListFilter::All);
    assert(all =~= listed(g, PartsListFilter::TopLevel).union(
        listed(g, PartsListFilter::Orphan),
    ).union(listed(g, PartsListFilter::Subassembly)).union(
        listed(g, PartsListFilter::Component),
    ).union(listed(g, PartsListFilter::Assembly)));
    assert(all =~= listed(g, PartsListFilter::Orphan).union(
        listed(g, PartsListFilter::Component),
    ).union(listed(g, PartsListFilter::Subassembly)).union(
        listed(g, PartsListFilter::TopLevel).intersect(listed(g, PartsListFilter::Assembly)),
    ));
}

/// Replacing the children of `id` by `cs` leaves `id` with exactly the
/// children `cs`, and a part lists `id` as a parent exactly when it is one
/// of `cs`; nothing else changes.
pub proof fn law_replace_children(g: Map<u128, PartView>, id: u128, cs: Set<u128>)
    requires
        well_formed(g),
        g.contains_key(id),
    ensures
        replaced(g, id, cs).dom() == g.dom(),
        replaced(g, id, cs)[id].children == cs,
        forall|k: u128| #[trigger]
            g.contains_key(k) ==> (replaced(g, id, cs)[k].parents.contains(id) <==> cs.contains(k)),
        forall|k: u128, j: u128|
            g.contains_key(k) && k != id && j != id ==> (#[trigger] replaced(
                g,
                id,
                cs,
            )[k].parents.contains(j) <==> g[k].parents.contains(j)),
        forall|k: u128| #[trigger]
            g.contains_key(k) && k != id ==> replaced(g, id, cs)[k].children == g[k].children,
{
    let r = replaced(g, id, cs);
    assert(r.dom() =~= g.dom());
    assert(r[id].children =~= cs);
    assert forall|k: u128| #[trigger] g.contains_key(k) implies (r[k].parents.contains(id)
        <==> cs.contains(k)) by {
        assert(g[id].children.contains(k) <==> g[k].parents.contains(id));
    }
}

} // verus!
