use vstd::prelude::*;
use crate::domain::{lemma_trees_upto, models, text, trees, RoleModel, SysRole, SysRoleVO};
use crate::role_map::{distinct_keys, filed, key_of, lemma_place_of, place_of, put, RoleMap};
use crate::tree::{
    children, children_upto, families, family, is_child, is_forest, layer, layer_upto, leaf,
    lemma_child_is_lower, height, with_children,
};

verus! {

/// One page of a listing, with the counts that the store computed for it.
#[derive(Debug, PartialEq, Eq)]
pub struct Page<T> {
    pub records: Vec<T>,
    pub total: u64,
    pub page_no: u64,
    pub page_size: u64,
    pub do_count: bool,
}

/// Whether two optional texts are equal: both absent, or both present with
/// the same characters.
pub fn same_text(a: &Option<String>, b: &Option<String>) -> (res: bool)
    ensures
        res == (text(*a) == text(*b)),
{
    match (a, b) {
        (Some(x), Some(y)) => *x == *y,
        (None, None) => true,
        _ => false,
    }
}

/// The role hierarchy engine.
pub struct SysRoleService {}

impl SysRoleService {
    /// Attaches to `arg` the whole hierarchy below it: the views of the roles
    /// of the map that name `arg` as their parent, each with its own
    /// hierarchy, in the order of the map. Where no role names `arg`, its
    /// children stay as they were. The map has to be a forest, as
    /// `RoleMap::is_forest` tells: below a role that is its own ancestor
    /// there is no finite hierarchy.
    pub fn loop_find_childs(&self, arg: &mut SysRoleVO, roles: &RoleMap)
        requires
            is_forest(roles@),
        ensures
            final(arg)@ == with_children(old(arg)@, children(roles@, old(arg)@.role.id)),
        decreases height(roles@, old(arg)@.role.id),
    {
        let n: usize = roles.len();
        let ghost id = arg@.role.id;
        let mut childs: Vec<SysRoleVO> = Vec::with_capacity(n);
        let mut k: usize = 0;
        assert(trees(childs@) =~= children_upto(roles@, id, 0));
        while k < n
            invariant
                n == roles@.len(),
                k <= n,
                is_forest(roles@),
                *arg == *old(arg),
                id == text(arg.id),
                id == old(arg)@.role.id,
                trees(childs@) == children_upto(roles@, id, k as nat),
            decreases n - k,
        {
            let x = roles.entry(k);
            let ghost before = childs@;
            if x.parent_id.is_some() && same_text(&x.parent_id, &arg.id) {
                let mut item = SysRoleVO::from(x.duplicate());
                proof {
                    assert(is_child(roles@[k as int], id));
                    lemma_child_is_lower(roles@, id, k as int);
                }
                self.loop_find_childs(&mut item, roles);
                childs.push(item);
                assert(trees(childs@) =~= trees(before).push(item@));
            }
            k = k + 1;
        }
        if childs.len() > 0 {
            proof {
                lemma_trees_upto(childs, childs@.len());
                assert(childs@.subrange(0, childs@.len() as int) =~= childs@);
            }
            arg.childs = Some(childs);
        }
    }

    /// The forest of the map: the view of each role without a parent, with
    /// its whole hierarchy, in the order of the map. The map has to be a
    /// forest.
    pub fn finds_layer(&self, all_roles: &RoleMap) -> (res: Vec<SysRoleVO>)
        requires
            is_forest(all_roles@),
        ensures
            trees(res@) == layer(all_roles@),
    {
        let n: usize = all_roles.len();
        let mut data: Vec<SysRoleVO> = Vec::with_capacity(n);
        let mut k: usize = 0;
        assert(trees(data@) =~= layer_upto(all_roles@, 0));
        while k < n
            invariant
                n == all_roles@.len(),
                k <= n,
                is_forest(all_roles@),
                trees(data@) == layer_upto(all_roles@, k as nat),
            decreases n - k,
        {
            let v = all_roles.entry(k);
            let ghost before = data@;
            if v.parent_id.is_none() {
                let mut top = SysRoleVO::from(v.duplicate());
                self.loop_find_childs(&mut top, all_roles);
                data.push(top);
                assert(trees(data@) =~= trees(before).push(top@));
            }
            k = k + 1;
        }
        data
    }

    /// Decorates one page of roles: each row becomes a view that carries the
    /// row's whole hierarchy, taken from the full map. The counts of the
    /// page are handed on unchanged. The map has to be a forest.
    pub fn page(&self, data: &Page<SysRole>, all_role: &RoleMap) -> (res: Page<SysRoleVO>)
        requires
            is_forest(all_role@),
        ensures
            trees(res.records@) == families(all_role@, models(data.records@)),
            res.total == data.total,
            res.page_no == data.page_no,
            res.page_size == data.page_size,
            res.do_count == data.do_count,
    {
        let n: usize = data.records.len();
        let mut records: Vec<SysRoleVO> = Vec::with_capacity(n);
        let mut k: usize = 0;
        while k < n
            invariant
                n == data.records@.len(),
                k <= n,
                is_forest(all_role@),
                records@.len() == k,
                forall|i: int|
                    0 <= i < k ==> (#[trigger] records@[i])@ == family(
                        all_role@,
                        data.records@[i]@,
                    ),
            decreases n - k,
        {
            let mut vo = SysRoleVO::from(data.records[k].duplicate());
            self.loop_find_childs(&mut vo, all_role);
            records.push(vo);
            k = k + 1;
        }
        assert(trees(records@) =~= families(all_role@, models(data.records@)));
        Page {
            records,
            total: data.total,
            page_no: data.page_no,
            page_size: data.page_size,
            do_count: data.do_count,
        }
    }

    /// Files the roles by key, one after the other. Where two roles share a
    /// key, the later one takes the earlier one's place.
    pub fn finds_all_map(&self, all: &Vec<SysRole>) -> (res: RoleMap)
        ensures
            res@ == filed(models(all@), all@.len()),
            res.wf(),
    {
        let mut result = RoleMap::new();
        let n: usize = all.len();
        let mut k: usize = 0;
        while k < n
            invariant
                n == all@.len(),
                k <= n,
                result.wf(),
                result@ == filed(models(all@), k as nat),
            decreases n - k,
        {
            result.insert(all[k].duplicate());
            k = k + 1;
        }
        result
    }
}

/// Where no two roles share a key, the map made of them has as many entries
/// as there are roles, and under each role's key stands that role.
pub proof fn lemma_map_holds_each_role(all: Seq<RoleModel>)
    requires
        distinct_keys(all),
    ensures
        filed(all, all.len()).len() == all.len(),
        forall|i: int|
            0 <= i < all.len() ==> place_of(filed(all, all.len()), key_of(#[trigger] all[i])) == i
                && filed(all, all.len())[i] == all[i],
{
    lemma_filed_keeps_distinct(all, all.len());
    assert forall|i: int| 0 <= i < all.len() implies place_of(all, key_of(#[trigger] all[i])) == i by {
        let p = place_of(all, key_of(all[i]));
        lemma_place_of(all, key_of(all[i]));
        if p < i {
            assert(key_of(all[p]) == key_of(all[i]));
        }
    }
}

/// Where no two roles share a key, filing them one by one keeps them all,
/// in the order given.
pub proof fn lemma_filed_keeps_distinct(all: Seq<RoleModel>, k: nat)
    requires
        distinct_keys(all),
        k <= all.len(),
    ensures
        filed(all, k) == all.subrange(0, k as int),
        k == all.len() ==> filed(all, k) == all,
    decreases k,
{
    if k > 0 {
        lemma_filed_keeps_distinct(all, (k - 1) as nat);
        let s = all.subrange(0, k - 1);
        let r = all[k - 1];
        lemma_place_of(s, key_of(r));
        let p = place_of(s, key_of(r));
        if p < s.len() {
            assert(s[p] == all[p]);
            assert(key_of(all[p]) != key_of(all[k - 1]));
        }
        assert(put(s, r) =~= all.subrange(0, k as int));
    } else {
        assert(filed(all, k) =~= all.subrange(0, k as int));
    }
    if k == all.len() {
        assert(all.subrange(0, k as int) =~= all);
    }
}

/// A child's family stands among its parent's children: where `roles[i]`
/// names `id` as its parent, the children attached to the node `id` hold the
/// tree of `roles[i]`, and that tree is what attaching to a fresh view of
/// `roles[i]` gives.
pub proof fn lemma_child_family(roles: Seq<RoleModel>, id: Option<Seq<char>>, i: int)
    requires
        is_forest(roles),
        0 <= i < roles.len(),
        is_child(roles[i], id),
    ensures
        children(roles, id).contains(family(roles, roles[i])),
        family(roles, roles[i]) == with_children(leaf(roles[i]), children(roles, roles[i].id)),
{
    lemma_child_upto(roles, id, i, roles.len());
}

/// The same, for the children found among the first `k` roles.
pub proof fn lemma_child_upto(roles: Seq<RoleModel>, id: Option<Seq<char>>, i: int, k: nat)
    requires
        is_forest(roles),
        0 <= i < k <= roles.len(),
        is_child(roles[i], id),
    ensures
        children_upto(roles, id, k).contains(family(roles, roles[i])),
    decreases k,
{
    let rest = children_upto(roles, id, (k - 1) as nat);
    let now = children_upto(roles, id, k);
    if i == k - 1 {
        assert(now == rest.push(family(roles, roles[i])));
        assert(now[rest.len() as int] == family(roles, roles[i]));
    } else {
        lemma_child_upto(roles, id, i, (k - 1) as nat);
        let j = choose|j: int| 0 <= j < rest.len() && rest[j] == family(roles, roles[i]);
        if is_child(roles[k - 1], id) {
            assert(now == rest.push(family(roles, roles[k - 1])));
            assert(now[j] == rest[j]);
        }
    }
}

/// Every child attached to a node is the family of a role that names the
/// node as its parent.
pub proof fn lemma_children_are_children(roles: Seq<RoleModel>, id: Option<Seq<char>>, k: nat)
    requires
        is_forest(roles),
        k <= roles.len(),
    ensures
        forall|j: int|
            0 <= j < children_upto(roles, id, k).len() ==> exists|i: int|
                0 <= i < k && is_child(roles[i], id) && #[trigger] children_upto(roles, id, k)[j]
                    == family(roles, roles[i]),
    decreases k,
{
    if k > 0 {
        let rest = children_upto(roles, id, (k - 1) as nat);
        let now = children_upto(roles, id, k);
        lemma_children_are_children(roles, id, (k - 1) as nat);
        assert forall|j: int| 0 <= j < now.len() implies exists|i: int|
            0 <= i < k && is_child(roles[i], id) && #[trigger] now[j] == family(roles, roles[i]) by {
            if j < rest.len() {
                assert(now[j] == rest[j]);
                let i = choose|i: int|
                    0 <= i < k - 1 && is_child(roles[i], id) && rest[j] == family(roles, roles[i]);
                assert(0 <= i < k && is_child(roles[i], id) && now[j] == family(roles, roles[i]));
            } else {
                assert(now == rest.push(family(roles, roles[k - 1])));
                assert(is_child(roles[k - 1], id) && now[j] == family(roles, roles[k - 1]));
            }
        }
    }
}

/// The top level of the forest holds exactly the roles without a parent:
/// each of them heads one of its trees, and every tree is headed by a role
/// of the map that has no parent.
pub proof fn lemma_top_level_is_roots(roles: Seq<RoleModel>)
    ensures
        forall|i: int|
            0 <= i < roles.len() && (#[trigger] roles[i]).parent_id is None ==> layer(roles).contains(
                family(roles, roles[i]),
            ),
        forall|j: int|
            0 <= j < layer(roles).len() ==> (#[trigger] layer(roles)[j]).role.parent_id is None
                && roles.contains(layer(roles)[j].role),
{
    lemma_layer_is_roots(roles, roles.len());
    assert forall|j: int| 0 <= j < layer(roles).len() implies (#[trigger] layer(
        roles,
    )[j]).role.parent_id is None && roles.contains(layer(roles)[j].role) by {
        let i = choose|i: int|
            0 <= i < roles.len() && roles[i].parent_id is None && layer_upto(roles, roles.len())[j]
                == family(roles, roles[i]);
        assert(family(roles, roles[i]).role == roles[i]);
    }
}

/// The same, for the roots found among the first `k` roles.
pub proof fn lemma_layer_is_roots(roles: Seq<RoleModel>, k: nat)
    requires
        k <= roles.len(),
    ensures
        forall|i: int|
            0 <= i < k && (#[trigger] roles[i]).parent_id is None ==> layer_upto(roles, k).contains(
                family(roles, roles[i]),
            ),
        forall|j: int|
            0 <= j < layer_upto(roles, k).len() ==> exists|i: int|
                0 <= i < k && roles[i].parent_id is None && #[trigger] layer_upto(roles, k)[j]
                    == family(roles, roles[i]),
        k == roles.len() ==> layer(roles) == layer_upto(roles, k),
    decreases k,
{
    if k > 0 {
        let rest = layer_upto(roles, (k - 1) as nat);
        let now = layer_upto(roles, k);
        lemma_layer_is_roots(roles, (k - 1) as nat);
        assert forall|i: int| 0 <= i < k && (#[trigger] roles[i]).parent_id is None implies now.contains(
            family(roles, roles[i]),
        ) by {
            if i == k - 1 {
                assert(now[rest.len() as int] == family(roles, roles[i]));
            } else {
                let j = choose|j: int| 0 <= j < rest.len() && rest[j] == family(roles, roles[i]);
                assert(now[j] == rest[j]);
            }
        }
        assert forall|j: int| 0 <= j < now.len() implies exists|i: int|
            0 <= i < k && roles[i].parent_id is None && #[trigger] now[j] == family(roles, roles[i]) by {
            if j < rest.len() {
                assert(now[j] == rest[j]);
                let i = choose|i: int|
                    0 <= i < k - 1 && roles[i].parent_id is None && rest[j] == family(
                        roles,
                        roles[i],
                    );
                assert(0 <= i < k && roles[i].parent_id is None && now[j] == family(
                    roles,
                    roles[i],
                ));
            } else {
                assert(roles[k - 1].parent_id is None && now[j] == family(roles, roles[k - 1]));
            }
        }
    }
}

} // verus!
