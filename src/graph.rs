//! The mathematical model of a parts graph: a map from id to part, the
//! child relation and its transitive closure, the invariants every graph
//! keeps, and what each mutation does to the map.

use crate::part::PartView;
use vstd::prelude::*;

verus! {

/// `b` is an immediate child of `a`, both parts being in `g`.
pub open spec fn edge(g: Map<u128, PartView>, a: u128, b: u128) -> bool {
    g.contains_key(a) && g.contains_key(b) && g[a].children.contains(b)
}

/// Each step of `path` goes from a part to one of its immediate children.
pub open spec fn is_chain(g: Map<u128, PartView>, path: Seq<u128>) -> bool {
    forall|i: int| 0 <= i < path.len() - 1 ==> #[trigger] edge(g, path[i], path[i + 1])
}

/// `b` is reached from `a` by one or more steps down the child relation:
/// `b` is a descendant of `a`, and `a` an ancestor of `b`.
pub open spec fn reaches(g: Map<u128, PartView>, a: u128, b: u128) -> bool {
    exists|path: Seq<u128>|
        path.len() >= 2 && path[0] == a && path.last() == b && #[trigger] is_chain(g, path)
}

/// Every part is stored under its own id.
pub open spec fn keyed(g: Map<u128, PartView>) -> bool {
    forall|k: u128| #[trigger] g.contains_key(k) ==> g[k].id == k
}

/// Every parent and child id names a part of the graph.
pub open spec fn closed(g: Map<u128, PartView>) -> bool {
    &&& forall|k: u128, j: u128|
        g.contains_key(k) && #[trigger] g[k].children.contains(j) ==> g.contains_key(j)
    &&& forall|k: u128, j: u128|
        g.contains_key(k) && #[trigger] g[k].parents.contains(j) ==> g.contains_key(j)
}

/// `c` lists `p` as a parent exactly when `p` lists `c` as a child.
pub open spec fn symmetric(g: Map<u128, PartView>) -> bool {
    forall|p: u128, c: u128|
        #![trigger g[p].children.contains(c)]
        #![trigger g[c].parents.contains(p)]
        g.contains_key(p) && g.contains_key(c) ==> (g[p].children.contains(c) <==> g[c].parents.contains(
            p,
        ))
}

/// No part is its own descendant (in particular, none is its own child).
pub open spec fn acyclic(g: Map<u128, PartView>) -> bool {
    forall|k: u128| !#[trigger] reaches(g, k, k)
}

/// The invariants that every parts graph keeps.
pub open spec fn well_formed(g: Map<u128, PartView>) -> bool {
    &&& g.dom().finite()
    &&& keyed(g)
    &&& closed(g)
    &&& symmetric(g)
    &&& acyclic(g)
}

/// All descendants of `id`.
pub open spec fn descendants(g: Map<u128, PartView>, id: u128) -> Set<u128> {
    Set::new(|y: u128| reaches(g, id, y))
}

/// All ancestors of `id`.
pub open spec fn ancestors(g: Map<u128, PartView>, id: u128) -> Set<u128> {
    Set::new(|y: u128| reaches(g, y, id))
}

/// `g` with `p` added under its id, with no parents and no children.
pub open spec fn inserted(g: Map<u128, PartView>, p: PartView) -> Map<u128, PartView> {
    g.insert(p.id, PartView { id: p.id, name: p.name, parents: Set::empty(), children: Set::empty() })
}

/// `p` with every link to `id` dropped.
pub open spec fn severed(p: PartView, id: u128) -> PartView {
    PartView { id: p.id, name: p.name, parents: p.parents.remove(id), children: p.children.remove(id) }
}

/// `g` without the part `id`, and without any link to it.
pub open spec fn removed(g: Map<u128, PartView>, id: u128) -> Map<u128, PartView> {
    Map::new(|k: u128| g.contains_key(k) && k != id, |k: u128| severed(g[k], id))
}

/// `g` with each part of `cs` made a child of `id`.
pub open spec fn linked(g: Map<u128, PartView>, id: u128, cs: Set<u128>) -> Map<u128, PartView> {
    Map::new(
        |k: u128| g.contains_key(k),
        |k: u128|
            PartView {
                id: g[k].id,
                name: g[k].name,
                parents: if cs.contains(k) { g[k].parents.insert(id) } else { g[k].parents },
                children: if k == id { g[k].children.union(cs) } else { g[k].children },
            },
    )
}

/// `g` with each part of `cs` no longer a child of `id`.
pub open spec fn unlinked(g: Map<u128, PartView>, id: u128, cs: Set<u128>) -> Map<u128, PartView> {
    Map::new(
        |k: u128| g.contains_key(k),
        |k: u128|
            PartView {
                id: g[k].id,
                name: g[k].name,
                parents: if cs.contains(k) { g[k].parents.remove(id) } else { g[k].parents },
                children: if k == id { g[k].children.difference(cs) } else { g[k].children },
            },
    )
}

/// `g` with the children of `id` replaced by `cs`.
pub open spec fn replaced(g: Map<u128, PartView>, id: u128, cs: Set<u128>) -> Map<u128, PartView> {
    linked(unlinked(g, id, g[id].children), id, cs)
}

/// One step of a chain.
pub proof fn lemma_chain_step(g: Map<u128, PartView>, path: Seq<u128>, i: int)
    requires
        is_chain(g, path),
        0 <= i < path.len() - 1,
    ensures
        edge(g, path[i], path[i + 1]),
{
}

/// A single step is a chain.
pub proof fn lemma_edge_reaches(g: Map<u128, PartView>, a: u128, b: u128)
    requires
        edge(g, a, b),
    ensures
        reaches(g, a, b),
{
    let path = seq![a, b];
    assert(is_chain(g, path));
}

/// A step down followed by a descent is a descent.
pub proof fn lemma_reaches_prepend(g: Map<u128, PartView>, a: u128, b: u128, c: u128)
    requires
        edge(g, a, b),
        reaches(g, b, c),
    ensures
        reaches(g, a, c),
{
    let path = choose|path: Seq<u128>|
        path.len() >= 2 && path[0] == b && path.last() == c && #[trigger] is_chain(g, path);
    let longer = seq![a] + path;
    assert forall|i: int| 0 <= i < longer.len() - 1 implies #[trigger] edge(
        g,
        longer[i],
        longer[i + 1],
    ) by {
        if i > 0 {
            assert(longer[i] == path[i - 1] && longer[i + 1] == path[i]);
            let j = i - 1;
            assert(edge(g, path[j], path[j + 1]));
        } else {
            assert(longer[1] == path[0]);
        }
    }
    assert(is_chain(g, longer));
}

/// A descent followed by a step down is a descent.
pub proof fn lemma_reaches_append(g: Map<u128, PartView>, a: u128, b: u128, c: u128)
    requires
        reaches(g, a, b),
        edge(g, b, c),
    ensures
        reaches(g, a, c),
{
    let path = choose|path: Seq<u128>|
        path.len() >= 2 && path[0] == a && path.last() == b && #[trigger] is_chain(g, path);
    let longer = path.push(c);
    assert forall|i: int| 0 <= i < longer.len() - 1 implies #[trigger] edge(
        g,
        longer[i],
        longer[i + 1],
    ) by {
        if i < path.len() - 1 {
            assert(longer[i] == path[i] && longer[i + 1] == path[i + 1]);
        }
    }
    assert(is_chain(g, longer));
}

/// Descents survive in any graph that keeps every edge.
pub proof fn lemma_reaches_in_larger(
    g1: Map<u128, PartView>,
    g2: Map<u128, PartView>,
    a: u128,
    b: u128,
)
    requires
        forall|x: u128, y: u128| #[trigger] edge(g1, x, y) ==> edge(g2, x, y),
        reaches(g1, a, b),
    ensures
        reaches(g2, a, b),
{
    let path = choose|path: Seq<u128>|
        path.len() >= 2 && path[0] == a && path.last() == b && #[trigger] is_chain(g1, path);
    assert forall|i: int| 0 <= i < path.len() - 1 implies #[trigger] edge(
        g2,
        path[i],
        path[i + 1],
    ) by {
        assert(edge(g1, path[i], path[i + 1]));
    }
    assert(is_chain(g2, path));
}

/// A graph whose edges all belong to an acyclic graph is acyclic.
pub proof fn lemma_acyclic_in_smaller(g1: Map<u128, PartView>, g2: Map<u128, PartView>)
    requires
        forall|x: u128, y: u128| #[trigger] edge(g1, x, y) ==> edge(g2, x, y),
        acyclic(g2),
    ensures
        acyclic(g1),
{
    assert forall|k: u128| !#[trigger] reaches(g1, k, k) by {
        if reaches(g1, k, k) {
            lemma_reaches_in_larger(g1, g2, k, k);
        }
    }
}

/// The empty graph is well formed.
pub proof fn lemma_empty_well_formed()
    ensures
        well_formed(Map::<u128, PartView>::empty()),
{
    let g = Map::<u128, PartView>::empty();
    assert forall|k: u128| !#[trigger] reaches(g, k, k) by {
        if reaches(g, k, k) {
            let p = choose|path: Seq<u128>|
                path.len() >= 2 && path[0] == k && path.last() == k && #[trigger] is_chain(g, path);
            lemma_chain_step(g, p, 0);
        }
    }
}

/// Adding a fresh part, unlinked, keeps a graph well formed.
pub proof fn lemma_inserted_well_formed(g: Map<u128, PartView>, p: PartView)
    requires
        well_formed(g),
        !g.contains_key(p.id),
    ensures
        well_formed(inserted(g, p)),
{
    let g2 = inserted(g, p);
    assert forall|x: u128, y: u128| #[trigger] edge(g2, x, y) implies edge(g, x, y) by {
        if x != p.id {
            assert(g2[x] == g[x]);
        }
    }
    lemma_acyclic_in_smaller(g2, g);
}

/// Removing a part together with every link to it keeps a graph well
/// formed.
pub proof fn lemma_removed_well_formed(g: Map<u128, PartView>, id: u128)
    requires
        well_formed(g),
    ensures
        well_formed(removed(g, id)),
{
    let g2 = removed(g, id);
    assert(g2.dom() =~= g.dom().remove(id));
    assert forall|x: u128, y: u128| #[trigger] edge(g2, x, y) implies edge(g, x, y) by {}
    lemma_acyclic_in_smaller(g2, g);
}

/// Unlinking children keeps a graph well formed.
pub proof fn lemma_unlinked_well_formed(g: Map<u128, PartView>, id: u128, cs: Set<u128>)
    requires
        well_formed(g),
    ensures
        well_formed(unlinked(g, id, cs)),
{
    let g2 = unlinked(g, id, cs);
    assert(g2.dom() =~= g.dom());
    assert(keyed(g2));
    assert(closed(g2));
    assert forall|p: u128, c: u128|
        #![trigger g2[p].children.contains(c)]
        #![trigger g2[c].parents.contains(p)]
        g2.contains_key(p) && g2.contains_key(c) implies (g2[p].children.contains(c)
            <==> g2[c].parents.contains(p)) by {
        assert(g[p].children.contains(c) <==> g[c].parents.contains(p));
    }
    assert forall|x: u128, y: u128| #[trigger] edge(g2, x, y) implies edge(g, x, y) by {}
    lemma_acyclic_in_smaller(g2, g);
}

/// In a graph where `cs` were made children of `id`, a chain that ends at
/// `id` and starts elsewhere was already a descent in the original graph:
/// every new edge leaves `id`.
proof fn lemma_linked_chain_to_parent(
    g: Map<u128, PartView>,
    id: u128,
    cs: Set<u128>,
    q: Seq<u128>,
)
    requires
        is_chain(linked(g, id, cs), q),
        q.len() >= 2,
        q[0] != id,
        q.last() == id,
    ensures
        reaches(g, q[0], id),
    decreases q.len(),
{
    let g2 = linked(g, id, cs);
    lemma_chain_step(g2, q, 0);
    assert(edge(g, q[0], q[1]));
    if q[1] == id {
        lemma_edge_reaches(g, q[0], id);
    } else {
        let rest = q.subrange(1, q.len() as int);
        assert forall|i: int| 0 <= i < rest.len() - 1 implies #[trigger] edge(
            g2,
            rest[i],
            rest[i + 1],
        ) by {
            lemma_chain_step(g2, q, i + 1);
        }
        lemma_linked_chain_to_parent(g, id, cs, rest);
        lemma_reaches_prepend(g, q[0], q[1], id);
    }
}

/// Making `cs` children of `id` keeps a graph well formed, provided none
/// of them is `id` itself or one of its ancestors.
pub proof fn lemma_linked_well_formed(g: Map<u128, PartView>, id: u128, cs: Set<u128>)
    requires
        well_formed(g),
        g.contains_key(id),
        forall|c: u128| #[trigger] cs.contains(c) ==> g.contains_key(c) && c != id && !reaches(g, c, id),
    ensures
        well_formed(linked(g, id, cs)),
{
    let g2 = linked(g, id, cs);
    assert(g2.dom() =~= g.dom());
    assert(keyed(g2));
    assert(closed(g2));
    assert forall|p: u128, c: u128|
        #![trigger g2[p].children.contains(c)]
        #![trigger g2[c].parents.contains(p)]
        g2.contains_key(p) && g2.contains_key(c) implies (g2[p].children.contains(c)
            <==> g2[c].parents.contains(p)) by {
        assert(g[p].children.contains(c) <==> g[c].parents.contains(p));
    }
    assert forall|k: u128| !#[trigger] reaches(g2, k, k) by {
        if reaches(g2, k, k) {
            let p = choose|path: Seq<u128>|
                path.len() >= 2 && path[0] == k && path.last() == k && #[trigger] is_chain(g2, path);
            let n = p.len() - 1;
            if exists|i: int| 0 <= i < n && p[i] == id {
                let i = choose|i: int| 0 <= i < n && p[i] == id;
                let c = p[i + 1];
                lemma_chain_step(g2, p, i);
                let r = p.subrange(i + 1, n + 1) + p.subrange(1, i + 1);
                assert(r.len() == n);
                assert(r[0] == c);
                assert(r.last() == id);
                assert forall|j: int| 0 <= j < r.len() - 1 implies #[trigger] edge(
                    g2,
                    r[j],
                    r[j + 1],
                ) by {
                    if j < n - i - 1 {
                        let t = i + 1 + j;
                        assert(r[j] == p[t] && r[j + 1] == p[t + 1]);
                        lemma_chain_step(g2, p, t);
                    } else if j == n - i - 1 {
                        assert(r[j] == p[n] && r[j + 1] == p[1]);
                        lemma_chain_step(g2, p, 0);
                    } else {
                        let t = j - (n - i) + 1;
                        assert(r[j] == p[t] && r[j + 1] == p[t + 1]);
                        lemma_chain_step(g2, p, t);
                    }
                }
                if c == id {
                    assert(edge(g, id, id));
                    lemma_edge_reaches(g, id, id);
                    assert(false);
                } else {
                    assert(r.len() >= 2);
                    lemma_linked_chain_to_parent(g, id, cs, r);
                    assert(!cs.contains(c));
                    assert(edge(g, id, c));
                    lemma_reaches_prepend(g, id, c, id);
                    assert(false);
                }
            } else {
                assert forall|j: int| 0 <= j < p.len() - 1 implies #[trigger] edge(
                    g,
                    p[j],
                    p[j + 1],
                ) by {
                    lemma_chain_step(g2, p, j);
                }
                assert(is_chain(g, p));
                assert(reaches(g, k, k));
            }
        }
    }
}

/// The immediate neighbours of `x`: its parents when going up, its
/// children when going down.
pub open spec fn next_ids(g: Map<u128, PartView>, x: u128, up: bool) -> Set<u128> {
    if up {
        g[x].parents
    } else {
        g[x].children
    }
}

/// `y` is an ancestor of `start` when going up, a descendant when going
/// down.
pub open spec fn toward(g: Map<u128, PartView>, start: u128, y: u128, up: bool) -> bool {
    if up {
        reaches(g, y, start)
    } else {
        reaches(g, start, y)
    }
}

/// A neighbour of `start`, or of a part reached from it, is reached from it.
pub proof fn lemma_step_toward(g: Map<u128, PartView>, start: u128, x: u128, y: u128, up: bool)
    requires
        well_formed(g),
        g.contains_key(start),
        g.contains_key(x),
        x == start || toward(g, start, x, up),
        next_ids(g, x, up).contains(y),
    ensures
        g.contains_key(y),
        toward(g, start, y, up),
{
    if up {
        assert(g[x].parents.contains(y));
        assert(g.contains_key(y));
        assert(g[y].children.contains(x));
        if x == start {
            lemma_edge_reaches(g, y, start);
        } else {
            lemma_reaches_prepend(g, y, x, start);
        }
    } else {
        assert(g.contains_key(y));
        if x == start {
            lemma_edge_reaches(g, start, y);
        } else {
            lemma_reaches_append(g, start, x, y);
        }
    }
}

/// The parts on a chain down from `start`, past the first, lie in any set
/// that holds the children of `start` and of each of its members.
proof fn lemma_chain_down_in(
    g: Map<u128, PartView>,
    start: u128,
    found: Set<u128>,
    path: Seq<u128>,
    i: int,
)
    requires
        g.contains_key(start),
        forall|y: u128| #[trigger] g[start].children.contains(y) ==> found.contains(y),
        forall|x: u128, y: u128|
            found.contains(x) && #[trigger] g[x].children.contains(y) ==> found.contains(y),
        is_chain(g, path),
        path.len() >= 2,
        path[0] == start,
        1 <= i < path.len(),
    ensures
        found.contains(path[i]),
    decreases i,
{
    lemma_chain_step(g, path, i - 1);
    if i > 1 {
        lemma_chain_down_in(g, start, found, path, i - 1);
    }
}

/// The parts on a chain up to `start`, but the last, lie in any set that
/// holds the parents of `start` and of each of its members.
proof fn lemma_chain_up_in(
    g: Map<u128, PartView>,
    start: u128,
    found: Set<u128>,
    path: Seq<u128>,
    i: int,
)
    requires
        well_formed(g),
        g.contains_key(start),
        forall|y: u128| #[trigger] g[start].parents.contains(y) ==> found.contains(y),
        forall|x: u128, y: u128|
            found.contains(x) && #[trigger] g[x].parents.contains(y) ==> found.contains(y),
        is_chain(g, path),
        path.len() >= 2,
        path.last() == start,
        0 <= i < path.len() - 1,
    ensures
        found.contains(path[i]),
    decreases path.len() - i,
{
    lemma_chain_step(g, path, i);
    assert(g[path[i + 1]].parents.contains(path[i]));
    if i < path.len() - 2 {
        lemma_chain_up_in(g, start, found, path, i + 1);
    }
}

/// A set that holds the neighbours of `start` and of each of its members
/// holds everything reached from `start`.
pub proof fn lemma_closure_complete(
    g: Map<u128, PartView>,
    start: u128,
    found: Set<u128>,
    up: bool,
)
    requires
        well_formed(g),
        g.contains_key(start),
        forall|y: u128| #[trigger] next_ids(g, start, up).contains(y) ==> found.contains(y),
        forall|x: u128, y: u128|
            found.contains(x) && #[trigger] next_ids(g, x, up).contains(y) ==> found.contains(y),
    ensures
        forall|y: u128| toward(g, start, y, up) ==> #[trigger] found.contains(y),
{
    assert forall|y: u128| toward(g, start, y, up) implies #[trigger] found.contains(y) by {
        if up {
            let path = choose|path: Seq<u128>|
                path.len() >= 2 && path[0] == y && path.last() == start && #[trigger] is_chain(
                    g,
                    path,
                );
            assert forall|x: u128, z: u128|
                found.contains(x) && #[trigger] g[x].parents.contains(z) implies found.contains(z) by {
                assert(next_ids(g, x, up).contains(z));
            }
            assert forall|z: u128| #[trigger] g[start].parents.contains(z) implies found.contains(z) by {
                assert(next_ids(g, start, up).contains(z));
            }
            lemma_chain_up_in(g, start, found, path, 0);
        } else {
            let path = choose|path: Seq<u128>|
                path.len() >= 2 && path[0] == start && path.last() == y && #[trigger] is_chain(
                    g,
                    path,
                );
            assert forall|x: u128, z: u128|
                found.contains(x) && #[trigger] g[x].children.contains(z) implies found.contains(z) by {
                assert(next_ids(g, x, up).contains(z));
            }
            assert forall|z: u128| #[trigger] g[start].children.contains(z) implies found.contains(z) by {
                assert(next_ids(g, start, up).contains(z));
            }
            lemma_chain_down_in(g, start, found, path, path.len() - 1);
        }
    }
}

/// Linking one more child is linking the larger set.
pub proof fn lemma_linked_one_more(g: Map<u128, PartView>, id: u128, cs: Set<u128>, c: u128)
    ensures
        linked(linked(g, id, cs), id, set![c]) == linked(g, id, cs.insert(c)),
{
    let a = linked(linked(g, id, cs), id, set![c]);
    let b = linked(g, id, cs.insert(c));
    assert(a.dom() =~= b.dom());
    assert forall|k: u128| a.contains_key(k) implies a[k] == b[k] by {
        assert(a[k].parents =~= b[k].parents);
        assert(a[k].children =~= b[k].children);
    }
    assert(a =~= b);
}

/// Unlinking one more child is unlinking the larger set.
pub proof fn lemma_unlinked_one_more(g: Map<u128, PartView>, id: u128, cs: Set<u128>, c: u128)
    ensures
        unlinked(unlinked(g, id, cs), id, set![c]) == unlinked(g, id, cs.insert(c)),
{
    let a = unlinked(unlinked(g, id, cs), id, set![c]);
    let b = unlinked(g, id, cs.insert(c));
    assert(a.dom() =~= b.dom());
    assert forall|k: u128| a.contains_key(k) implies a[k] == b[k] by {
        assert(a[k].parents =~= b[k].parents);
        assert(a[k].children =~= b[k].children);
    }
    assert(a =~= b);
}

/// Linking or unlinking nothing leaves the graph as it is.
pub proof fn lemma_link_nothing(g: Map<u128, PartView>, id: u128)
    ensures
        linked(g, id, Set::empty()) == g,
        unlinked(g, id, Set::empty()) == g,
{
    let a = linked(g, id, Set::empty());
    let b = unlinked(g, id, Set::empty());
    assert(a.dom() =~= g.dom());
    assert(b.dom() =~= g.dom());
    assert forall|k: u128| a.contains_key(k) implies a[k] == g[k] by {
        assert(a[k].children =~= g[k].children);
    }
    assert forall|k: u128| b.contains_key(k) implies b[k] == g[k] by {
        assert(b[k].children =~= g[k].children);
    }
    assert(a =~= g);
    assert(b =~= g);
}

} // verus!
