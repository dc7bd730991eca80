use bom_server::part::Part;
use bom_server::parts_list::{PartsList, PartsListError, PartsListFilter, PartsListUpdate};

fn list_contains_part(list: &[&Part], part: &Part) -> bool {
    list.iter().any(|x| x.id == part.id)
}

fn list_compare(list: &[&Part], other: &[&Part]) {
    let mut list: Vec<u128> = list.iter().map(|p| p.id).collect();
    let mut other: Vec<u128> = other.iter().map(|p| p.id).collect();
    list.sort();
    other.sort();
    assert_eq!(list, other);
}

#[test]
fn create_part() {
    let name = "my part";
    let part = Part::new(name);
    assert_eq!(name, part.name);
    assert!(part.parents.is_empty());
    assert!(part.children.is_empty());
}

#[test]
fn basic_parts_add() {
    let mut parts = PartsList::new();
    let name = "my part";
    let part = Part::new(name);
    let ret_part = parts.add(part.clone()).unwrap();
    assert_eq!(part, *ret_part);
    assert_eq!(part.name, *ret_part.name);
}

#[test]
fn add_duplicate_part() {
    let mut parts = PartsList::new();
    let name = "my part";
    let part = Part::new(name);
    let ret_part = parts.add(part.clone()).unwrap();
    assert_eq!(part, *ret_part);
    let result = parts.add(part.clone());
    assert!(matches!(result, Err(PartsListError::PartExists { .. })));
}

#[test]
fn basic_parts_add_and_list() {
    let mut parts = PartsList::new();
    let name1 = "my part";
    let name2 = "other part";
    let part1 = Part::new(name1);
    let part2 = Part::new(name2);
    let _ = parts.add(part1.clone()).unwrap();
    let _ = parts.add(part2.clone()).unwrap();
    let list = parts.list(PartsListFilter::All);
    assert!(list_contains_part(&list, &part1));
    assert!(list_contains_part(&list, &part2));
}

#[test]
fn create_parts_and_add_child() {
    let mut parts = PartsList::new();
    let name1 = "my part";
    let name2 = "other part";
    let part1 = Part::new(name1);
    let part2 = Part::new(name2);
    let _ = parts.add(part1.clone()).unwrap();
    let _ = parts.add(part2.clone()).unwrap();
    parts.update(&part1.id, &vec![part2.id], PartsListUpdate::Add).unwrap();
    assert!(parts.get(&part1.id).unwrap().children.contains(&part2.id));
    assert!(parts.get(&part2.id).unwrap().parents.contains(&part1.id));
}

#[test]
fn remove_child_of_part() {
    let mut parts = PartsList::new();
    let name1 = "my part";
    let name2 = "other part";
    let part1 = Part::new(name1);
    let part2 = Part::new(name2);
    let _ = parts.add(part1.clone()).unwrap();
    let _ = parts.add(part2.clone()).unwrap();
    parts.update(&part1.id, &vec![part2.id], PartsListUpdate::Add).unwrap();
    parts.update(&part1.id, &vec![part2.id], PartsListUpdate::Remove).unwrap();
    assert!(parts.get(&part1.id).unwrap().children.contains(&part2.id) == false);
    assert!(parts.get(&part2.id).unwrap().parents.contains(&part1.id) == false);
}

#[test]
fn list_top_level_parts() {
    let mut parts = PartsList::new();
    let part1 = parts.add(Part::new("my part")).unwrap().clone();
    let part2 = parts.add(Part::new("other part")).unwrap().clone();
    parts.update(&part1.id, &vec![part2.id], PartsListUpdate::Add).unwrap();
    let list = parts.list(PartsListFilter::TopLevel);
    assert_eq!(list_contains_part(&list, &part1), true);
    assert_eq!(list_contains_part(&list, &part2), false);
}

#[test]
fn list_orphan_parts() {
    let mut parts = PartsList::new();
    let part1 = parts.add(Part::new("my part")).unwrap().clone();
    let part2 = parts.add(Part::new("other part")).unwrap().clone();
    let part3 = parts.add(Part::new("orphan part")).unwrap().clone();
    parts.update(&part1.id, &vec![part2.id], PartsListUpdate::Add).unwrap();
    let list = parts.list(PartsListFilter::Orphan);
    assert_eq!(list_contains_part(&list, &part1), false);
    assert_eq!(list_contains_part(&list, &part2), false);
    assert_eq!(list_contains_part(&list, &part3), true);
}

#[test]
fn test_get_children() {
    let mut parts = PartsList::new();
    let part1 = parts.add(Part::new("my part")).unwrap().clone();
    let part2 = parts.add(Part::new("other part")).unwrap().clone();
    let part3 = parts.add(Part::new("subassy")).unwrap().clone();
    let part4 = parts.add(Part::new("deep component")).unwrap().clone();

    parts.update(&part1.id, &vec![part3.id], PartsListUpdate::Add).unwrap();
    parts.update(&part2.id, &vec![part3.id], PartsListUpdate::Add).unwrap();
    parts.update(&part3.id, &vec![part4.id], PartsListUpdate::Add).unwrap();

    let list = parts.get_children(&part1.id, PartsListFilter::TopLevel).unwrap();
    list_compare(&list, &vec![&part3]);

    let list = parts.get_children(&part1.id, PartsListFilter::Component).unwrap();
    list_compare(&list, &vec![&part4]);

    let list = parts.get_children(&part1.id, PartsListFilter::All).unwrap();
    list_compare(&list, &vec![&part3, &part4]);

    let list = parts.get_children(&part4.id, PartsListFilter::Assembly).unwrap();
    list_compare(&list, &vec![&part1, &part2, &part3]);
}

#[test]
fn test_update_children() {
    let mut parts = PartsList::new();
    let part1 = parts.add(Part::new("my part")).unwrap().clone();
    let part2 = parts.add(Part::new("other part")).unwrap().clone();
    let part3 = parts.add(Part::new("subassy")).unwrap().clone();
    let part4 = parts.add(Part::new("deep component")).unwrap().clone();

    parts.update(&part1.id, &vec![part3.id], PartsListUpdate::Add).unwrap();
    parts.update(&part2.id, &vec![part3.id], PartsListUpdate::Add).unwrap();
    parts.update(&part3.id, &vec![part4.id], PartsListUpdate::Add).unwrap();

    let list = parts.get_children(&part1.id, PartsListFilter::All).unwrap();
    list_compare(&list, &vec![&part3, &part4]);

    parts
        .update(&part1.id, &vec![part2.id, part3.id, part4.id], PartsListUpdate::Replace)
        .unwrap();

    let list = parts.get_children(&part1.id, PartsListFilter::All).unwrap();
    list_compare(&list, &vec![&part2, &part3, &part4]);
}

#[test]
fn test_delete_part() {
    let mut parts = PartsList::new();
    let part1 = parts.add(Part::new("my part")).unwrap().clone();
    let part2 = parts.add(Part::new("other part")).unwrap().clone();
    let part3 = parts.add(Part::new("subassy")).unwrap().clone();
    let part4 = parts.add(Part::new("deep component")).unwrap().clone();

    parts.update(&part1.id, &vec![part3.id], PartsListUpdate::Add).unwrap();
    parts.update(&part2.id, &vec![part3.id], PartsListUpdate::Add).unwrap();
    parts.update(&part3.id, &vec![part4.id], PartsListUpdate::Add).unwrap();

    let list = parts.list(PartsListFilter::All);
    list_compare(&list, &vec![&part1, &part2, &part3, &part4]);
    parts.delete(&part3.id).unwrap();
    let list = parts.list(PartsListFilter::All);
    list_compare(&list, &vec![&part1, &part2, &part4]);
    assert_eq!(parts.get(&part1.id).unwrap().children.contains(&part3.id), false);
    assert_eq!(parts.get(&part1.id).unwrap().parents.contains(&part3.id), false);
    assert_eq!(parts.get(&part2.id).unwrap().children.contains(&part3.id), false);
    assert_eq!(parts.get(&part2.id).unwrap().parents.contains(&part3.id), false);
    assert_eq!(parts.get(&part4.id).unwrap().children.contains(&part3.id), false);
    assert_eq!(parts.get(&part4.id).unwrap().parents.contains(&part3.id), false);
}
