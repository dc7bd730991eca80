use bom_server::cli::{ActionOption, FilterOption};
use bom_server::errors::{PartsError, PartsErrorCode};
use bom_server::part::Part;
use bom_server::parts_list::{PartsList, PartsListError, PartsListFilter, PartsListUpdate};
use bom_server::response::Response;
use bom_server::routes::index;
use bom_server::shared::SharedPartsList;

fn ids(list: &[&Part]) -> Vec<u128> {
    let mut v: Vec<u128> = list.iter().map(|p| p.id).collect();
    v.sort();
    v
}

fn sorted(mut v: Vec<u128>) -> Vec<u128> {
    v.sort();
    v
}

/// A chain a -> b -> c -> d, each the parent of the next.
fn chain() -> (PartsList, u128, u128, u128, u128) {
    let mut parts = PartsList::new();
    let a = parts.add(Part::new("a")).unwrap().id;
    let b = parts.add(Part::new("b")).unwrap().id;
    let c = parts.add(Part::new("c")).unwrap().id;
    let d = parts.add(Part::new("d")).unwrap().id;
    parts.update(&a, &vec![b], PartsListUpdate::Add).unwrap();
    parts.update(&b, &vec![c], PartsListUpdate::Add).unwrap();
    parts.update(&c, &vec![d], PartsListUpdate::Add).unwrap();
    (parts, a, b, c, d)
}

fn assert_symmetric(parts: &PartsList) {
    for p in parts.list(PartsListFilter::All) {
        for c in p.children.iter() {
            assert!(parts.get(c).unwrap().parents.contains(&p.id));
        }
        for q in p.parents.iter() {
            assert!(parts.get(q).unwrap().children.contains(&p.id));
        }
    }
}

#[test]
fn part_id_is_the_url_namespace_v3_uuid_of_the_name() {
    assert_eq!(Part::new("my part").id, 0x2b7b015988b33871bafd6e48e5740257);
    assert_eq!(Part::new("other part").id, 0x060918207b803c608c8ca1d6fb390e98);
    assert_eq!(Part::new("").id, 0x14cdb9b4de013faaaff565bc2f771745);
}

#[test]
fn same_name_is_added_once() {
    let mut parts = PartsList::new();
    let first = Part::new("bolt");
    let second = Part::new("bolt");
    assert_eq!(first.id, second.id);
    assert!(parts.add(first).is_ok());
    match parts.add(second) {
        Err(PartsListError::PartExists { name, id }) => {
            assert_eq!(name, "bolt");
            assert_eq!(id, Part::new("bolt").id);
        },
        other => panic!("unexpected {:?}", other.map(|p| p.id)),
    }
    assert_eq!(parts.list(PartsListFilter::All).len(), 1);
}

#[test]
fn added_part_is_stored_without_links() {
    let mut parts = PartsList::new();
    let mut part = Part::with_id(7, "seven");
    part.children.insert(9);
    part.parents.insert(8);
    let stored = parts.add(part).unwrap();
    assert_eq!(stored.id, 7);
    assert_eq!(stored.name, "seven");
    assert!(stored.parents.is_empty());
    assert!(stored.children.is_empty());
}

#[test]
fn links_stay_symmetric_through_updates() {
    let (mut parts, a, b, c, d) = chain();
    assert_symmetric(&parts);
    parts.update(&a, &vec![d, c], PartsListUpdate::Replace).unwrap();
    assert_symmetric(&parts);
    parts.update(&b, &vec![c], PartsListUpdate::Remove).unwrap();
    assert_symmetric(&parts);
    parts.delete(&d).unwrap();
    assert_symmetric(&parts);
}

#[test]
fn cycle_is_refused_and_nothing_changes() {
    let (mut parts, a, b, c, d) = chain();
    let r = parts.update(&d, &vec![a], PartsListUpdate::Add);
    match r {
        Err(PartsListError::AddChildCyclicalRelative { parent, child }) => {
            assert_eq!(parent, d);
            assert_eq!(child, a);
        },
        other => panic!("unexpected {:?}", other),
    }
    assert!(parts.get(&d).unwrap().children.is_empty());
    assert!(!parts.get(&a).unwrap().parents.contains(&d));
    assert_eq!(ids(&parts.get_children(&a, PartsListFilter::All).unwrap()), sorted(vec![b, c, d]));
}

#[test]
fn own_child_is_refused() {
    let (mut parts, a, _b, _c, _d) = chain();
    let r = parts.update(&a, &vec![a], PartsListUpdate::Add);
    assert!(matches!(r, Err(PartsListError::AddChildCyclicalRelative { parent, child }) if parent == a && child == a));
    assert!(!parts.get(&a).unwrap().children.contains(&a));
}

#[test]
fn failed_add_changes_nothing() {
    let (mut parts, a, _b, c, d) = chain();
    let r = parts.update(&d, &vec![a, c], PartsListUpdate::Replace);
    assert!(matches!(r, Err(PartsListError::AddChildCyclicalRelative { .. })));
    let mut other = PartsList::new();
    let e = other.add(Part::new("e")).unwrap().id;
    let r = parts.update(&a, &vec![c, e], PartsListUpdate::Add);
    assert!(matches!(r, Err(PartsListError::PartDoesNotExist { id }) if id == e));
    assert!(!parts.get(&a).unwrap().children.contains(&c));
    assert!(!parts.get(&c).unwrap().parents.contains(&a));
}

#[test]
fn update_of_missing_part_is_not_found() {
    let (mut parts, _a, b, _c, _d) = chain();
    let r = parts.update(&12345, &vec![b], PartsListUpdate::Add);
    assert!(matches!(r, Err(PartsListError::PartDoesNotExist { id }) if id == 12345));
    let r = parts.update(&b, &vec![12345], PartsListUpdate::Remove);
    assert!(matches!(r, Err(PartsListError::PartDoesNotExist { id }) if id == 12345));
}

#[test]
fn delete_severs_every_link() {
    let (mut parts, a, b, c, d) = chain();
    parts.delete(&b).unwrap();
    assert!(matches!(parts.get(&b), Err(PartsListError::PartDoesNotExist { id }) if id == b));
    for p in parts.list(PartsListFilter::All) {
        assert!(!p.parents.contains(&b));
        assert!(!p.children.contains(&b));
    }
    assert!(parts.get(&a).unwrap().children.is_empty());
    assert!(parts.get(&c).unwrap().parents.is_empty());
    assert_eq!(ids(&parts.list(PartsListFilter::All)), sorted(vec![a, c, d]));
    assert!(matches!(parts.delete(&b), Err(PartsListError::PartDoesNotExist { id }) if id == b));
}

#[test]
fn listings_partition_the_parts() {
    let (mut parts, a, b, c, d) = chain();
    let o = parts.add(Part::new("o")).unwrap().id;
    let all = ids(&parts.list(PartsListFilter::All));
    assert_eq!(all, sorted(vec![a, b, c, d, o]));
    assert_eq!(ids(&parts.list(PartsListFilter::TopLevel)), sorted(vec![a, o]));
    assert_eq!(ids(&parts.list(PartsListFilter::Assembly)), sorted(vec![a, b, c]));
    assert_eq!(ids(&parts.list(PartsListFilter::Component)), vec![d]);
    assert_eq!(ids(&parts.list(PartsListFilter::Subassembly)), sorted(vec![b, c]));
    assert_eq!(ids(&parts.list(PartsListFilter::Orphan)), vec![o]);
    let mut union: Vec<u128> = Vec::new();
    for f in [PartsListFilter::Orphan, PartsListFilter::Component, PartsListFilter::Subassembly] {
        union.extend(ids(&parts.list(f)));
    }
    for p in parts.list(PartsListFilter::TopLevel) {
        if !p.children.is_empty() {
            union.push(p.id);
        }
    }
    assert_eq!(sorted(union), all);
}

#[test]
fn transitive_closure_of_a_chain() {
    let (parts, a, b, c, d) = chain();
    assert_eq!(ids(&parts.get_children(&a, PartsListFilter::All).unwrap()), sorted(vec![b, c, d]));
    assert_eq!(ids(&parts.get_children(&a, PartsListFilter::Component).unwrap()), vec![d]);
    assert_eq!(ids(&parts.get_children(&d, PartsListFilter::Assembly).unwrap()), sorted(vec![a, b, c]));
    assert_eq!(ids(&parts.get_children(&a, PartsListFilter::TopLevel).unwrap()), vec![b]);
    assert!(parts.get_children(&d, PartsListFilter::All).unwrap().is_empty());
    assert!(parts.get_children(&a, PartsListFilter::Assembly).unwrap().is_empty());
}

#[test]
fn descendant_reached_by_two_paths_appears_once() {
    let mut parts = PartsList::new();
    let top = parts.add(Part::new("top")).unwrap().id;
    let left = parts.add(Part::new("left")).unwrap().id;
    let right = parts.add(Part::new("right")).unwrap().id;
    let leaf = parts.add(Part::new("leaf")).unwrap().id;
    parts.update(&top, &vec![left, right], PartsListUpdate::Add).unwrap();
    parts.update(&left, &vec![leaf], PartsListUpdate::Add).unwrap();
    parts.update(&right, &vec![leaf], PartsListUpdate::Add).unwrap();
    let all = ids(&parts.get_children(&top, PartsListFilter::All).unwrap());
    assert_eq!(all, sorted(vec![left, right, leaf]));
    let up = ids(&parts.get_children(&leaf, PartsListFilter::Assembly).unwrap());
    assert_eq!(up, sorted(vec![top, left, right]));
}

#[test]
fn replace_puts_the_new_children_in_place() {
    let mut parts = PartsList::new();
    let a = parts.add(Part::new("A")).unwrap().id;
    let x = parts.add(Part::new("X")).unwrap().id;
    let y = parts.add(Part::new("Y")).unwrap().id;
    let z = parts.add(Part::new("Z")).unwrap().id;
    parts.update(&a, &vec![x, z], PartsListUpdate::Add).unwrap();
    parts.update(&a, &vec![y, x], PartsListUpdate::Replace).unwrap();
    let mut children: Vec<u128> = parts.get(&a).unwrap().children.iter().copied().collect();
    children.sort();
    assert_eq!(children, sorted(vec![x, y]));
    assert!(parts.get(&x).unwrap().parents.contains(&a));
    assert!(parts.get(&y).unwrap().parents.contains(&a));
    assert!(!parts.get(&z).unwrap().parents.contains(&a));
}

#[test]
fn get_children_refuses_filters_without_meaning() {
    let (parts, a, _b, _c, _d) = chain();
    match parts.get_children(&a, PartsListFilter::Subassembly) {
        Err(PartsListError::InvalidFilterChoice { s, f }) => {
            assert_eq!(s, "get_children");
            assert_eq!(f, "subassembly");
        },
        _ => panic!("expected an invalid filter choice"),
    }
    assert!(matches!(
        parts.get_children(&a, PartsListFilter::Orphan),
        Err(PartsListError::InvalidFilterChoice { .. })
    ));
    assert!(matches!(
        parts.get_children(&999, PartsListFilter::All),
        Err(PartsListError::PartDoesNotExist { id }) if id == 999
    ));
}

#[test]
fn filter_names_round_trip() {
    let all = [
        PartsListFilter::All,
        PartsListFilter::TopLevel,
        PartsListFilter::Assembly,
        PartsListFilter::Component,
        PartsListFilter::Subassembly,
        PartsListFilter::Orphan,
    ];
    let names = ["all", "top_level", "assembly", "component", "subassembly", "orphan"];
    for (f, n) in all.iter().zip(names.iter()) {
        assert_eq!(f.as_str(), *n);
        assert_eq!(PartsListFilter::parse(n).unwrap(), *f);
    }
    assert_eq!(PartsListFilter::parse("").unwrap(), PartsListFilter::All);
    match PartsListFilter::parse("everything") {
        Err(PartsListError::InvalidFilterString { s }) => assert_eq!(s, "everything"),
        _ => panic!("expected an invalid filter string"),
    }
}

#[test]
fn update_names_round_trip() {
    for (u, n) in [
        (PartsListUpdate::Add, "add"),
        (PartsListUpdate::Remove, "remove"),
        (PartsListUpdate::Replace, "replace"),
    ] {
        assert_eq!(u.as_str(), n);
        assert_eq!(PartsListUpdate::parse(n).unwrap(), u);
    }
    assert_eq!(PartsListUpdate::parse("").unwrap(), PartsListUpdate::Add);
    match PartsListUpdate::parse("Add") {
        Err(PartsListError::InvalidUpdateString { s }) => assert_eq!(s, "Add"),
        _ => panic!("expected an invalid update string"),
    }
}

#[test]
fn error_codes_have_their_numbers() {
    assert_eq!(PartsErrorCode::LockError.number(), 1);
    assert_eq!(PartsErrorCode::MissingPartError.number(), 2);
    assert_eq!(PartsErrorCode::CreatePartError.number(), 3);
    assert_eq!(PartsErrorCode::RequestError.number(), 4);
    let e = PartsError::new(PartsErrorCode::RequestError, String::from("bad"));
    assert_eq!(e.code, PartsErrorCode::RequestError);
    assert_eq!(e.description, "bad");
}

#[test]
fn response_builders_fill_their_fields() {
    let r = Response::new();
    assert!(r.result.is_none() && r.data.is_none() && r.error.is_none());
    let r = Response::new().result(200, "ok").data(vec![Part::new("p")]);
    let q = r.result.as_ref().unwrap();
    assert_eq!(q.code, 200);
    assert_eq!(q.description, "ok");
    assert_eq!(r.data.as_ref().unwrap()[0].name, "p");
    assert!(r.error.is_none());
    let r = Response::new().error(PartsErrorCode::LockError, "busy");
    let e = r.error.as_ref().unwrap();
    assert_eq!(e.code, PartsErrorCode::LockError);
    assert_eq!(e.description, "busy");
    assert!(r.result.is_none());
}

#[test]
fn client_options_convert() {
    assert_eq!(PartsListFilter::from(FilterOption::TopLevel), PartsListFilter::TopLevel);
    assert_eq!(PartsListFilter::from(FilterOption::Orphan), PartsListFilter::Orphan);
    assert_eq!(PartsListUpdate::from(ActionOption::Replace), PartsListUpdate::Replace);
    assert_eq!(PartsListUpdate::from(ActionOption::Remove), PartsListUpdate::Remove);
}

#[test]
fn index_describes_the_api() {
    let text = index();
    assert!(text.starts_with("# BOM Server API"));
    assert!(text.contains("GET     /v1/parts/<id>/contained"));
}

#[test]
fn cloned_part_keeps_every_field() {
    let (parts, _a, b, c, _d) = chain();
    let p = parts.get(&b).unwrap().clone();
    assert_eq!(p.id, b);
    assert_eq!(p.name, "b");
    assert_eq!(p.children.len(), 1);
    assert!(p.children.contains(&c));
    assert_eq!(p.parents.len(), 1);
}

#[test]
fn parts_order_by_id() {
    let low = Part::with_id(1, "zeta");
    let high = Part::with_id(2, "alpha");
    assert!(low < high);
    assert!(high > low);
    assert_eq!(low.partial_cmp(&Part::with_id(1, "other")), Some(std::cmp::Ordering::Equal));
    assert_eq!(low, Part::with_id(1, "other"));
}

#[test]
fn shared_graph_serves_readers_and_writers() {
    let shared = SharedPartsList::new();
    let a = shared.add(Part::new("a")).unwrap();
    let b = shared.add(Part::new("b")).unwrap();
    assert!(matches!(shared.add(Part::new("a")), Err(PartsListError::PartExists { .. })));
    shared.update(&a.id, &vec![b.id], PartsListUpdate::Add).unwrap();
    assert!(matches!(
        shared.update(&b.id, &vec![a.id], PartsListUpdate::Add),
        Err(PartsListError::AddChildCyclicalRelative { .. })
    ));
    let first = shared.list(PartsListFilter::All);
    let second = shared.list(PartsListFilter::All);
    let mut one: Vec<u128> = first.iter().map(|p| p.id).collect();
    let mut two: Vec<u128> = second.iter().map(|p| p.id).collect();
    one.sort();
    two.sort();
    assert_eq!(one, two);
    assert_eq!(one, sorted(vec![a.id, b.id]));
    assert!(shared.get(&a.id).unwrap().children.contains(&b.id));
    let up: Vec<u128> = shared.get_children(&b.id, PartsListFilter::Assembly).unwrap().iter().map(|p| p.id).collect();
    assert_eq!(up, vec![a.id]);
    shared.delete(&a.id).unwrap();
    assert!(matches!(shared.get(&a.id), Err(PartsListError::PartDoesNotExist { .. })));
    assert!(shared.get(&b.id).unwrap().parents.is_empty());
    assert!(matches!(shared.delete(&a.id), Err(PartsListError::PartDoesNotExist { .. })));
}
