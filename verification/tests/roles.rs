use abs_admin::domain::{copy_text, SysRole, SysRoleVO};
use abs_admin::role_map::{key_is, same_key, text_eq, RoleMap};
use abs_admin::service::{same_text, Page, SysRoleService};
use abs_admin::storage::FileLocalService;

fn role(id: &str, parent: Option<&str>) -> SysRole {
    SysRole {
        id: Some(id.to_string()),
        name: Some(format!("role {}", id)),
        parent_id: parent.map(|p| p.to_string()),
        del: Some(0),
    }
}

fn bare(id: &str, parent: Option<&str>) -> SysRoleVO {
    SysRoleVO::from(role(id, parent))
}

fn map_of(rows: Vec<SysRole>) -> RoleMap {
    SysRoleService {}.finds_all_map(&rows)
}

#[test]
fn finds_all_map_files_each_role_under_its_own_id() {
    let rows = vec![role("a", None), role("b", Some("a")), role("c", Some("b"))];
    let map = map_of(rows);
    assert_eq!(map.len(), 3);
    assert_eq!(map.get(&"a".to_string()), Some(&role("a", None)));
    assert_eq!(map.get(&"b".to_string()), Some(&role("b", Some("a"))));
    assert_eq!(map.get(&"c".to_string()), Some(&role("c", Some("b"))));
    assert_eq!(map.get(&"d".to_string()), None);
    assert_eq!(map.entry(0), &role("a", None));
    assert_eq!(map.entry(2), &role("c", Some("b")));
}

#[test]
fn finds_all_map_of_nothing_is_empty() {
    let map = map_of(vec![]);
    assert_eq!(map.len(), 0);
    assert_eq!(map.get(&"a".to_string()), None);
}

#[test]
fn finds_all_map_lets_the_later_role_take_the_place() {
    let rows = vec![role("a", None), role("b", None), role("a", Some("b"))];
    let map = map_of(rows);
    assert_eq!(map.len(), 2);
    assert_eq!(map.entry(0), &role("a", Some("b")));
    assert_eq!(map.entry(1), &role("b", None));
    assert_eq!(map.get(&"a".to_string()), Some(&role("a", Some("b"))));
}

#[test]
fn a_role_without_id_is_filed_under_the_empty_key() {
    let nameless = SysRole { id: None, name: None, parent_id: None, del: None };
    let mut map = RoleMap::new();
    map.insert(nameless);
    assert_eq!(map.len(), 1);
    assert!(map.get(&String::new()).is_some());
    map.insert(role("", None));
    assert_eq!(map.len(), 1);
    assert_eq!(map.entry(0), &role("", None));
}

#[test]
fn finds_layer_builds_the_chain() {
    let map = map_of(vec![role("A", None), role("B", Some("A")), role("C", Some("B"))]);
    let layer = SysRoleService {}.finds_layer(&map);
    assert_eq!(layer.len(), 1);
    let a = &layer[0];
    assert_eq!(a.id, Some("A".to_string()));
    let under_a = a.childs.as_ref().unwrap();
    assert_eq!(under_a.len(), 1);
    let b = &under_a[0];
    assert_eq!(b.id, Some("B".to_string()));
    let under_b = b.childs.as_ref().unwrap();
    assert_eq!(under_b.len(), 1);
    let c = &under_b[0];
    assert_eq!(c.id, Some("C".to_string()));
    assert_eq!(c.parent_id, Some("B".to_string()));
    assert_eq!(c.name, Some("role C".to_string()));
    assert!(c.childs.is_none());
}

#[test]
fn finds_layer_holds_exactly_the_roots() {
    let map = map_of(vec![
        role("r1", None),
        role("x", Some("r1")),
        role("r2", None),
        role("y", Some("x")),
        role("z", Some("r2")),
    ]);
    let layer = SysRoleService {}.finds_layer(&map);
    let tops: Vec<Option<String>> = layer.iter().map(|v| v.id.clone()).collect();
    assert_eq!(tops, vec![Some("r1".to_string()), Some("r2".to_string())]);
    assert!(layer.iter().all(|v| v.parent_id.is_none()));
    assert_eq!(layer[0].childs.as_ref().unwrap()[0].childs.as_ref().unwrap()[0].id, Some("y".to_string()));
    assert_eq!(layer[1].childs.as_ref().unwrap()[0].id, Some("z".to_string()));
}

#[test]
fn finds_layer_of_an_empty_map_is_empty() {
    let map = map_of(vec![]);
    assert!(SysRoleService {}.finds_layer(&map).is_empty());
}

#[test]
fn finds_layer_leaves_out_a_role_whose_parent_is_missing() {
    let map = map_of(vec![role("a", Some("gone")), role("b", None)]);
    let layer = SysRoleService {}.finds_layer(&map);
    assert_eq!(layer.len(), 1);
    assert_eq!(layer[0], bare("b", None));
}

#[test]
fn loop_find_childs_attaches_each_child_with_its_own_subtree() {
    let map = map_of(vec![
        role("p", None),
        role("c", Some("p")),
        role("d", Some("p")),
        role("g", Some("c")),
        role("h", Some("g")),
    ]);
    let service = SysRoleService {};
    let mut p = bare("p", None);
    service.loop_find_childs(&mut p, &map);
    let mut c = bare("c", Some("p"));
    service.loop_find_childs(&mut c, &map);
    let mut d = bare("d", Some("p"));
    service.loop_find_childs(&mut d, &map);
    let kids = p.childs.as_ref().unwrap();
    assert_eq!(kids.len(), 2);
    assert!(kids.contains(&c));
    assert!(kids.contains(&d));
    assert!(d.childs.is_none());
    assert_eq!(c.childs.as_ref().unwrap()[0].childs.as_ref().unwrap()[0], bare("h", Some("g")));
}

#[test]
fn loop_find_childs_leaves_a_childless_view_as_it_was() {
    let map = map_of(vec![role("a", None), role("b", Some("a"))]);
    let service = SysRoleService {};
    let mut b = bare("b", Some("a"));
    service.loop_find_childs(&mut b, &map);
    assert_eq!(b, bare("b", Some("a")));
    assert!(b.childs.is_none());

    let mut kept = bare("b", Some("a"));
    kept.childs = Some(vec![bare("old", Some("b"))]);
    service.loop_find_childs(&mut kept, &map);
    assert_eq!(kept.childs, Some(vec![bare("old", Some("b"))]));
}

#[test]
fn loop_find_childs_finds_nothing_below_a_view_without_id() {
    let map = map_of(vec![role("a", None), role("b", Some(""))]);
    let service = SysRoleService {};
    let mut nameless = SysRoleVO { id: None, name: None, parent_id: None, del: None, childs: None };
    service.loop_find_childs(&mut nameless, &map);
    assert!(nameless.childs.is_none());
    let mut empty_id = bare("", None);
    service.loop_find_childs(&mut empty_id, &map);
    assert_eq!(empty_id.childs, Some(vec![bare("b", Some(""))]));
}

#[test]
fn page_decorates_each_row_and_keeps_the_counts() {
    let map = map_of(vec![role("a", None), role("b", Some("a")), role("c", Some("b"))]);
    let data = Page { records: vec![role("b", Some("a")), role("c", Some("b"))], total: 3, page_no: 2, page_size: 2, do_count: true };
    let page = SysRoleService {}.page(&data, &map);
    assert_eq!(page.total, 3);
    assert_eq!(page.page_no, 2);
    assert_eq!(page.page_size, 2);
    assert!(page.do_count);
    assert_eq!(page.records.len(), 2);
    assert_eq!(page.records[0].id, Some("b".to_string()));
    assert_eq!(page.records[0].childs, Some(vec![bare("c", Some("b"))]));
    assert_eq!(page.records[1], bare("c", Some("b")));
}

#[test]
fn view_of_a_role_has_its_fields_and_no_children() {
    let vo = SysRoleVO::from(role("a", Some("p")));
    assert_eq!(vo.id, Some("a".to_string()));
    assert_eq!(vo.name, Some("role a".to_string()));
    assert_eq!(vo.parent_id, Some("p".to_string()));
    assert_eq!(vo.del, Some(0));
    assert!(vo.childs.is_none());
}

#[test]
fn duplicate_copies_every_field() {
    let r = role("a", Some("p"));
    assert_eq!(r.duplicate(), r);
    assert_eq!(copy_text(&Some("x".to_string())), Some("x".to_string()));
    assert_eq!(copy_text(&None), None);
}

#[test]
fn texts_and_keys_compare_by_their_characters() {
    assert!(text_eq(&"ab".to_string(), &"ab".to_string()));
    assert!(!text_eq(&"ab".to_string(), &"abc".to_string()));
    assert!(same_text(&None, &None));
    assert!(same_text(&Some("a".to_string()), &Some("a".to_string())));
    assert!(!same_text(&Some("a".to_string()), &None));
    assert!(!same_text(&Some("a".to_string()), &Some("b".to_string())));
    let nameless = SysRole { id: None, name: None, parent_id: None, del: None };
    assert!(same_key(&nameless, &role("", None)));
    assert!(same_key(&role("", None), &nameless));
    assert!(same_key(&nameless, &nameless));
    assert!(!same_key(&nameless, &role("a", None)));
    assert!(same_key(&role("a", None), &role("a", Some("b"))));
    assert!(!same_key(&role("a", None), &role("b", None)));
    assert!(key_is(&role("a", None), &"a".to_string()));
    assert!(!key_is(&role("a", None), &String::new()));
    assert!(key_is(&nameless, &String::new()));
    assert!(!key_is(&nameless, &"a".to_string()));
}

#[test]
fn local_storage_service_is_made() {
    let made = FileLocalService::new();
    assert_eq!(format!("{:?}", made), "FileLocalService");
}

#[test]
fn a_hierarchy_without_cycles_is_a_forest() {
    assert!(map_of(vec![]).is_forest());
    assert!(map_of(vec![role("a", None)]).is_forest());
    assert!(map_of(vec![role("c", Some("b")), role("b", Some("a")), role("a", None)]).is_forest());
    assert!(map_of(vec![role("a", Some("gone")), role("b", Some("a"))]).is_forest());
    let nameless = SysRole { id: None, name: None, parent_id: Some("a".to_string()), del: None };
    assert!(map_of(vec![nameless, role("a", None)]).is_forest());
}

#[test]
fn a_hierarchy_with_a_cycle_is_no_forest() {
    assert!(!map_of(vec![role("a", Some("a"))]).is_forest());
    assert!(!map_of(vec![role("a", Some("b")), role("b", Some("a"))]).is_forest());
    assert!(!map_of(vec![role("r", None), role("a", Some("c")), role("b", Some("a")), role("c", Some("b"))]).is_forest());
    assert!(!map_of(vec![role("a", Some("b")), role("b", Some("a")), role("x", Some("a"))]).is_forest());
}

#[test]
fn find_id_gives_the_place_of_the_role() {
    let map = map_of(vec![role("a", None), role("b", Some("a"))]);
    assert_eq!(map.find_id(&"a".to_string()), Some(0));
    assert_eq!(map.find_id(&"b".to_string()), Some(1));
    assert_eq!(map.find_id(&"c".to_string()), None);
    let nameless = SysRole { id: None, name: None, parent_id: None, del: None };
    assert_eq!(map_of(vec![nameless]).find_id(&String::new()), None);
}
