use vstd::prelude::*;
use crate::domain::{text, texts};
use crate::role_map::text_eq;
use crate::service::SysRoleService;

verus! {

/// A link between a user and a role.
#[derive(Debug, PartialEq, Eq)]
pub struct SysUserRole {
    pub id: Option<String>,
    pub user_id: Option<String>,
    pub role_id: Option<String>,
}

/// A link between a role and a permission.
#[derive(Debug, PartialEq, Eq)]
pub struct SysRolePermission {
    pub id: Option<String>,
    pub role_id: Option<String>,
    pub permission_id: Option<String>,
}

/// A permission as the permission service shows it.
#[derive(Debug, PartialEq, Eq)]
pub struct SysPermissionVO {
    pub id: Option<String>,
    pub parent_id: Option<String>,
    pub name: Option<String>,
    pub permission: Option<String>,
}

/// The column by which rows are looked up.
#[derive(PartialEq, Eq, Structural, Clone, Copy, Debug)]
pub enum Column {
    Id,
    RoleId,
}

/// Whether the store has to be asked at all.
#[derive(PartialEq, Eq, Structural, Clone, Copy, Debug)]
pub enum Lookup {
    /// Nothing was asked for: the answer is the empty list, without a query.
    Nothing,
    /// Select the rows whose column holds one of the identifiers.
    InColumn(Column),
}

/// What resolving a user's permissions does next.
#[derive(Debug, PartialEq, Eq)]
pub enum PermissionStep {
    /// Select the permission links of these roles and hand them to
    /// `role_permissions`.
    SelectLinks(Vec<String>),
    /// Ask the permission service for the layered view of these
    /// permissions and hand it to `permissions`.
    Layer(Vec<String>),
    /// The resolution is over, with these permission strings.
    Return(Vec<String>),
}

/// `s` with `o` added at its end, unless `o` is absent or already in `s`.
pub open spec fn add_new(s: Seq<Seq<char>>, o: Option<Seq<char>>) -> Seq<Seq<char>> {
    match o {
        Some(t) => if s.contains(t) {
            s
        } else {
            s.push(t)
        },
        None => s,
    }
}

/// The distinct texts present among the first `k` fields, each at the place
/// of its first occurrence.
pub open spec fn distinct_upto(fields: Seq<Option<Seq<char>>>, k: nat) -> Seq<Seq<char>>
    decreases k,
{
    if k == 0 || k > fields.len() {
        Seq::empty()
    } else {
        add_new(distinct_upto(fields, (k - 1) as nat), fields[k - 1])
    }
}

/// The distinct texts present among the fields.
pub open spec fn distinct(fields: Seq<Option<Seq<char>>>) -> Seq<Seq<char>> {
    distinct_upto(fields, fields.len())
}

/// The texts present among the first `k` fields, in order.
pub open spec fn present_upto(fields: Seq<Option<Seq<char>>>, k: nat) -> Seq<Seq<char>>
    decreases k,
{
    if k == 0 || k > fields.len() {
        Seq::empty()
    } else {
        match fields[k - 1] {
            Some(t) => present_upto(fields, (k - 1) as nat).push(t),
            None => present_upto(fields, (k - 1) as nat),
        }
    }
}

/// The role identifiers of a list of user links.
pub open spec fn role_fields(links: Seq<SysUserRole>) -> Seq<Option<Seq<char>>> {
    Seq::new(links.len(), |i: int| text(links[i].role_id))
}

/// The permission identifiers of a list of role links.
pub open spec fn permission_fields(links: Seq<SysRolePermission>) -> Seq<Option<Seq<char>>> {
    Seq::new(links.len(), |i: int| text(links[i].permission_id))
}

/// The permission strings of a list of permission views.
pub open spec fn string_fields(views: Seq<SysPermissionVO>) -> Seq<Option<Seq<char>>> {
    Seq::new(views.len(), |i: int| text(views[i].permission))
}

/// No text occurs twice.
pub open spec fn no_repeat(s: Seq<Seq<char>>) -> bool {
    forall|i: int, j: int| 0 <= i < j < s.len() ==> s[i] != s[j]
}

/// Adds a copy of the text to the list unless it is absent or already there.
pub fn push_new(list: &mut Vec<String>, o: &Option<String>)
    ensures
        texts(final(list)@) == add_new(texts(old(list)@), text(*o)),
{
    match o {
        Some(t) => {
            let n: usize = list.len();
            let mut k: usize = 0;
            let mut found: bool = false;
            while k < n && !found
                invariant
                    n == list@.len(),
                    *list == *old(list),
                    k <= n,
                    forall|i: int| 0 <= i < k ==> (#[trigger] list@[i])@ != t@,
                    found ==> k < n && list@[k as int]@ == t@,
                decreases n - k + (if found { 0int } else { 1int }),
            {
                if text_eq(&list[k], t) {
                    found = true;
                } else {
                    k = k + 1;
                }
            }
            if found {
                assert(texts(list@)[k as int] == t@);
            } else {
                assert(!texts(list@).contains(t@)) by {
                    if texts(list@).contains(t@) {
                        let i = choose|i: int| 0 <= i < texts(list@).len() && texts(list@)[i] == t@;
                        assert(list@[i]@ == t@);
                    }
                }
                list.push(t.clone());
                assert(texts(list@) =~= texts(old(list)@).push(t@));
            }
        },
        None => {},
    }
}

impl SysRoleService {
    /// Whether roles have to be selected by identifier: not where no
    /// identifier is given.
    pub fn finds(&self, ids: &Vec<String>) -> (res: Lookup)
        ensures
            res == (if ids@.len() == 0 {
                Lookup::Nothing
            } else {
                Lookup::InColumn(Column::Id)
            }),
    {
        if ids.len() == 0 {
            Lookup::Nothing
        } else {
            Lookup::InColumn(Column::Id)
        }
    }

    /// Whether permission links have to be selected by role: not where no
    /// role is given.
    pub fn find_role_res(&self, role_ids: &Vec<String>) -> (res: Lookup)
        ensures
            res == (if role_ids@.len() == 0 {
                Lookup::Nothing
            } else {
                Lookup::InColumn(Column::RoleId)
            }),
    {
        if role_ids.len() == 0 {
            Lookup::Nothing
        } else {
            Lookup::InColumn(Column::RoleId)
        }
    }

    /// Starts resolving a user's permissions from the user's role links:
    /// the distinct roles are looked up next; a user without a role has no
    /// permission, and nothing more is asked.
    pub fn find_user_permission(&self, user_roles: &Vec<SysUserRole>) -> (res: PermissionStep)
        ensures
            distinct(role_fields(user_roles@)).len() == 0 ==> (res matches PermissionStep::Return(v)
                && v@.len() == 0),
            distinct(role_fields(user_roles@)).len() > 0 ==> (res matches PermissionStep::SelectLinks(
                ids,
            ) && texts(ids@) == distinct(role_fields(user_roles@))),
            user_roles@.len() == 0 ==> (res matches PermissionStep::Return(v) && v@.len() == 0),
    {
        let n: usize = user_roles.len();
        let mut ids: Vec<String> = Vec::new();
        let mut k: usize = 0;
        assert(texts(ids@) =~= distinct_upto(role_fields(user_roles@), 0));
        while k < n
            invariant
                n == user_roles@.len(),
                k <= n,
                texts(ids@) == distinct_upto(role_fields(user_roles@), k as nat),
            decreases n - k,
        {
            push_new(&mut ids, &user_roles[k].role_id);
            k = k + 1;
        }
        if ids.len() == 0 {
            PermissionStep::Return(ids)
        } else {
            PermissionStep::SelectLinks(ids)
        }
    }

    /// Goes on from the permission links of the user's roles: the distinct
    /// permissions are resolved next; without any, the user has no
    /// permission, and nothing more is asked.
    pub fn role_permissions(&self, role_res: &Vec<SysRolePermission>) -> (res: PermissionStep)
        ensures
            distinct(permission_fields(role_res@)).len() == 0 ==> (res matches PermissionStep::Return(
                v,
            ) && v@.len() == 0),
            distinct(permission_fields(role_res@)).len() > 0 ==> (res matches PermissionStep::Layer(
                ids,
            ) && texts(ids@) == distinct(permission_fields(role_res@))),
    {
        let n: usize = role_res.len();
        let mut ids: Vec<String> = Vec::new();
        let mut k: usize = 0;
        assert(texts(ids@) =~= distinct_upto(permission_fields(role_res@), 0));
        while k < n
            invariant
                n == role_res@.len(),
                k <= n,
                texts(ids@) == distinct_upto(permission_fields(role_res@), k as nat),
            decreases n - k,
        {
            push_new(&mut ids, &role_res[k].permission_id);
            k = k + 1;
        }
        if ids.len() == 0 {
            PermissionStep::Return(ids)
        } else {
            PermissionStep::Layer(ids)
        }
    }

    /// The permission strings of the resolved views: one for each view that
    /// has one, in the order of the views.
    pub fn permissions(&self, res: &Vec<SysPermissionVO>) -> (out: Vec<String>)
        ensures
            texts(out@) == present_upto(string_fields(res@), res@.len()),
    {
        let n: usize = res.len();
        let mut out: Vec<String> = Vec::with_capacity(n);
        let mut k: usize = 0;
        assert(texts(out@) =~= present_upto(string_fields(res@), 0));
        while k < n
            invariant
                n == res@.len(),
                k <= n,
                texts(out@) == present_upto(string_fields(res@), k as nat),
            decreases n - k,
        {
            let ghost before = out@;
            match &res[k].permission {
                Some(p) => {
                    out.push(p.clone());
                    assert(texts(out@) =~= texts(before).push(p@));
                },
                None => {},
            }
            k = k + 1;
        }
        out
    }
}

/// The distinct texts hold no text twice; they hold a text exactly where
/// one of the fields holds it.
pub proof fn lemma_distinct(fields: Seq<Option<Seq<char>>>, k: nat)
    requires
        k <= fields.len(),
    ensures
        no_repeat(distinct_upto(fields, k)),
        forall|t: Seq<char>|
            distinct_upto(fields, k).contains(t) <==> exists|i: int|
                0 <= i < k && #[trigger] fields[i] == Some(t),
    decreases k,
{
    let now = distinct_upto(fields, k);
    if k > 0 {
        let rest = distinct_upto(fields, (k - 1) as nat);
        lemma_distinct(fields, (k - 1) as nat);
        assert forall|t: Seq<char>| now.contains(t) implies exists|i: int|
            0 <= i < k && #[trigger] fields[i] == Some(t) by {
            let j = choose|j: int| 0 <= j < now.len() && now[j] == t;
            if j < rest.len() {
                assert(rest[j] == t);
                assert(rest.contains(t));
                let i = choose|i: int| 0 <= i < k - 1 && #[trigger] fields[i] == Some(t);
                assert(fields[i] == Some(t));
            } else {
                assert(fields[k - 1] == Some(t));
            }
        }
        assert forall|t: Seq<char>|
            (exists|i: int| 0 <= i < k && #[trigger] fields[i] == Some(t)) implies now.contains(
            t,
        ) by {
            let i = choose|i: int| 0 <= i < k && #[trigger] fields[i] == Some(t);
            if i < k - 1 {
                assert(rest.contains(t));
                let j = choose|j: int| 0 <= j < rest.len() && rest[j] == t;
                assert(now[j] == t);
            } else {
                if rest.contains(t) {
                } else {
                    assert(now[rest.len() as int] == t);
                }
            }
        }
        assert forall|i: int, j: int| 0 <= i < j < now.len() implies now[i] != now[j] by {
            if j >= rest.len() {
                assert(rest[i] == now[i]);
                assert(rest.contains(now[i]));
            }
        }
    } else {
        assert forall|t: Seq<char>| now.contains(t) implies false by {
            let j = choose|j: int| 0 <= j < now.len() && now[j] == t;
        }
    }
}

} // verus!
