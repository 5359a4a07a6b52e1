use abs_admin::domain::SysRole;
use abs_admin::flow::{CacheLookup, Error, Goal, Reply, Step, RES_KEY};
use abs_admin::permission::{
    push_new, Column, Lookup, PermissionStep, SysPermissionVO, SysRolePermission, SysUserRole,
};
use abs_admin::service::SysRoleService;

fn row(id: &str) -> SysRole {
    SysRole { id: Some(id.to_string()), name: None, parent_id: None, del: None }
}

fn user_link(role_id: Option<&str>) -> SysUserRole {
    SysUserRole { id: None, user_id: Some("u".to_string()), role_id: role_id.map(|r| r.to_string()) }
}

fn role_link(permission_id: Option<&str>) -> SysRolePermission {
    SysRolePermission { id: None, role_id: Some("r".to_string()), permission_id: permission_id.map(|p| p.to_string()) }
}

fn shown(permission: Option<&str>) -> SysPermissionVO {
    SysPermissionVO { id: None, parent_id: None, name: None, permission: permission.map(|p| p.to_string()) }
}

fn strings(v: &[&str]) -> Vec<String> {
    v.iter().map(|s| s.to_string()).collect()
}

#[test]
fn the_role_set_has_its_own_cache_key() {
    assert_eq!(RES_KEY, "sys_role:all");
}

#[test]
fn empty_cached_set_is_a_miss() {
    let step = SysRoleService {}.finds_all(CacheLookup::Present(vec![]));
    assert_eq!(step, Step::Select(Goal::Load));
    let rebuilt = SysRoleService {}.update_cache(Goal::Load, Ok(vec![row("a")]));
    assert_eq!(rebuilt, Step::Store(Goal::Load, vec![row("a")]));
}

#[test]
fn failed_and_absent_cache_reads_are_misses() {
    let service = SysRoleService {};
    assert_eq!(service.finds_all(CacheLookup::Failed), Step::Select(Goal::Load));
    assert_eq!(service.finds_all(CacheLookup::Absent), Step::Select(Goal::Load));
}

#[test]
fn cached_roles_are_handed_back_as_they_are() {
    let step = SysRoleService {}.finds_all(CacheLookup::Present(vec![row("a"), row("b")]));
    assert_eq!(step, Step::Return(Ok(Reply::Roles(vec![row("a"), row("b")]))));
}

#[test]
fn update_cache_writes_what_the_store_holds_each_time() {
    let service = SysRoleService {};
    let first = service.update_cache(Goal::Refresh, Ok(vec![row("a"), row("b")]));
    let second = service.update_cache(Goal::Refresh, Ok(vec![row("a"), row("b")]));
    assert_eq!(first, Step::Store(Goal::Refresh, vec![row("a"), row("b")]));
    assert_eq!(first, second);
}

#[test]
fn update_cache_hands_on_the_store_error() {
    let service = SysRoleService {};
    let down = || Err("down".to_string());
    assert_eq!(service.update_cache(Goal::Load, down()), Step::Return(Err(Error::Store("down".to_string()))));
    assert_eq!(service.update_cache(Goal::Refresh, down()), Step::Return(Err(Error::Store("down".to_string()))));
    assert_eq!(service.update_cache(Goal::Changed(1), down()), Step::Return(Err(Error::Stale("down".to_string()))));
    assert_eq!(
        service.update_cache(Goal::Added(1, "a".to_string()), down()),
        Step::Return(Err(Error::Stale("down".to_string())))
    );
}

#[test]
fn a_read_passes_over_a_failed_cache_write() {
    let service = SysRoleService {};
    let done = service.cache_written(Goal::Load, vec![row("a")], Err("full".to_string()));
    assert_eq!(done, (Ok(Reply::Roles(vec![row("a")])), true));
    let done = service.cache_written(Goal::Load, vec![row("a")], Ok(()));
    assert_eq!(done, (Ok(Reply::Roles(vec![row("a")])), false));
}

#[test]
fn a_mutation_reports_a_failed_cache_write() {
    let service = SysRoleService {};
    let full = || Err("full".to_string());
    assert_eq!(service.cache_written(Goal::Refresh, vec![row("a")], full()), (Err(Error::Cache("full".to_string())), false));
    assert_eq!(service.cache_written(Goal::Changed(1), vec![row("a")], full()), (Err(Error::Stale("full".to_string())), false));
    assert_eq!(
        service.cache_written(Goal::Added(1, "a".to_string()), vec![row("a")], full()),
        (Err(Error::Stale("full".to_string())), false)
    );
}

#[test]
fn a_mutation_ends_with_its_own_reply() {
    let service = SysRoleService {};
    assert_eq!(service.cache_written(Goal::Refresh, vec![row("a")], Ok(())), (Ok(Reply::Roles(vec![row("a")])), false));
    assert_eq!(service.cache_written(Goal::Changed(2), vec![row("a")], Ok(())), (Ok(Reply::Changed(2)), false));
    assert_eq!(
        service.cache_written(Goal::Added(1, "n".to_string()), vec![row("n")], Ok(())),
        (Ok(Reply::Added(1, "n".to_string())), false)
    );
}

#[test]
fn add_repopulates_after_the_insert() {
    let service = SysRoleService {};
    assert_eq!(service.add(&row("new"), Ok(1)), Step::Select(Goal::Added(1, "new".to_string())));
    let nameless = SysRole { id: None, name: None, parent_id: None, del: None };
    assert_eq!(service.add(&nameless, Ok(1)), Step::Select(Goal::Added(1, String::new())));
    assert_eq!(service.add(&row("new"), Err("dup".to_string())), Step::Return(Err(Error::Store("dup".to_string()))));
}

#[test]
fn edit_and_remove_repopulate_only_after_the_write() {
    let service = SysRoleService {};
    assert_eq!(service.edit(Ok(1)), Step::Select(Goal::Changed(1)));
    assert_eq!(service.edit(Err("gone".to_string())), Step::Return(Err(Error::Store("gone".to_string()))));
    assert_eq!(service.remove(Ok(0)), Step::Select(Goal::Changed(0)));
    assert_eq!(service.remove(Err("gone".to_string())), Step::Return(Err(Error::Store("gone".to_string()))));
}

#[test]
fn a_read_after_a_removal_does_not_show_the_role() {
    let service = SysRoleService {};
    let left = vec![row("a"), row("c")];
    assert_eq!(service.remove(Ok(1)), Step::Select(Goal::Changed(1)));
    let stored = match service.update_cache(Goal::Changed(1), Ok(left)) {
        Step::Store(goal, rows) => {
            assert_eq!(service.cache_written(goal, rows.iter().map(|r| r.duplicate()).collect(), Ok(())).0, Ok(Reply::Changed(1)));
            rows
        },
        other => panic!("{:?}", other),
    };
    match service.finds_all(CacheLookup::Present(stored)) {
        Step::Return(Ok(Reply::Roles(rows))) => {
            assert_eq!(rows, vec![row("a"), row("c")]);
            assert!(rows.iter().all(|r| r.id != Some("b".to_string())));
        },
        other => panic!("{:?}", other),
    }
}

#[test]
fn a_user_without_roles_has_no_permissions() {
    let step = SysRoleService {}.find_user_permission(&vec![]);
    assert_eq!(step, PermissionStep::Return(vec![]));
    let step = SysRoleService {}.find_user_permission(&vec![user_link(None)]);
    assert_eq!(step, PermissionStep::Return(vec![]));
}

#[test]
fn the_roles_of_a_user_are_looked_up_once_each() {
    let links = vec![user_link(Some("r1")), user_link(None), user_link(Some("r2")), user_link(Some("r1"))];
    let step = SysRoleService {}.find_user_permission(&links);
    assert_eq!(step, PermissionStep::SelectLinks(strings(&["r1", "r2"])));
}

#[test]
fn the_permissions_of_the_roles_are_resolved_once_each() {
    let service = SysRoleService {};
    let links = vec![role_link(Some("write")), role_link(Some("read")), role_link(Some("write")), role_link(None)];
    assert_eq!(service.role_permissions(&links), PermissionStep::Layer(strings(&["write", "read"])));
    assert_eq!(service.role_permissions(&vec![]), PermissionStep::Return(vec![]));
    assert_eq!(service.role_permissions(&vec![role_link(None)]), PermissionStep::Return(vec![]));
}

#[test]
fn permission_strings_are_taken_in_order() {
    let views = vec![shown(Some("/user")), shown(None), shown(Some("/role")), shown(Some("/user"))];
    assert_eq!(SysRoleService {}.permissions(&views), strings(&["/user", "/role", "/user"]));
    assert!(SysRoleService {}.permissions(&vec![]).is_empty());
}

#[test]
fn nothing_is_selected_for_no_identifiers() {
    let service = SysRoleService {};
    assert_eq!(service.finds(&vec![]), Lookup::Nothing);
    assert_eq!(service.finds(&strings(&["a"])), Lookup::InColumn(Column::Id));
    assert_eq!(service.find_role_res(&vec![]), Lookup::Nothing);
    assert_eq!(service.find_role_res(&strings(&["a", "b"])), Lookup::InColumn(Column::RoleId));
}

#[test]
fn push_new_adds_only_what_is_new() {
    let mut list = strings(&["a"]);
    push_new(&mut list, &Some("b".to_string()));
    push_new(&mut list, &Some("a".to_string()));
    push_new(&mut list, &None);
    assert_eq!(list, strings(&["a", "b"]));
}
