use vstd::prelude::*;
use crate::domain::{RoleModel, RoleTree};

verus! {

/// Whether a role names `id` as its parent. A role without a parent is
/// nobody's child, and a node without an identifier has no children.
pub open spec fn is_child(x: RoleModel, id: Option<Seq<char>>) -> bool {
    x.parent_id is Some && x.parent_id == id
}

/// `rank` puts every role strictly below the parent that it names.
pub open spec fn ranked(roles: Seq<RoleModel>, rank: spec_fn(Option<Seq<char>>) -> nat) -> bool {
    forall|i: int|
        0 <= i < roles.len() && (#[trigger] roles[i]).parent_id is Some ==> rank(roles[i].id) < rank(
            roles[i].parent_id,
        )
}

/// The roles form a forest: no role is its own ancestor. Stated as the
/// existence of a ranking that falls from every parent to its children.
pub open spec fn is_forest(roles: Seq<RoleModel>) -> bool {
    exists|rank: spec_fn(Option<Seq<char>>) -> nat| ranked(roles, rank)
}

/// A bound on how far the hierarchy reaches below `id`, meaningful in a forest.
pub open spec fn height(roles: Seq<RoleModel>, id: Option<Seq<char>>) -> nat {
    (choose|rank: spec_fn(Option<Seq<char>>) -> nat| ranked(roles, rank))(id)
}

/// In a forest a child stands lower than the node it names as parent.
pub proof fn lemma_child_is_lower(roles: Seq<RoleModel>, id: Option<Seq<char>>, i: int)
    requires
        is_forest(roles),
        0 <= i < roles.len(),
        is_child(roles[i], id),
    ensures
        height(roles, roles[i].id) < height(roles, id),
{
    let rank = choose|rank: spec_fn(Option<Seq<char>>) -> nat| ranked(roles, rank);
    assert(ranked(roles, rank));
}

/// A tree with `below` attached as its children. Where `below` is empty the
/// tree stays as it is: no empty list of children is ever attached.
pub open spec fn with_children(t: RoleTree, below: Seq<RoleTree>) -> RoleTree {
    if below.len() == 0 {
        t
    } else {
        RoleTree { role: t.role, childs: Some(below) }
    }
}

/// The tree of a role alone.
pub open spec fn leaf(x: RoleModel) -> RoleTree {
    RoleTree { role: x, childs: None }
}

/// The subtrees of the children of `id` that stand among the first `k`
/// roles, in the order of the map.
pub open spec fn children_upto(roles: Seq<RoleModel>, id: Option<Seq<char>>, k: nat) -> Seq<RoleTree>
    decreases height(roles, id), k,
    when is_forest(roles) && k <= roles.len()
{
    if k == 0 {
        Seq::empty()
    } else {
        let rest = children_upto(roles, id, (k - 1) as nat);
        let x = roles[k - 1];
        if is_child(x, id) {
            proof {
                lemma_child_is_lower(roles, id, k - 1);
            }
            rest.push(with_children(leaf(x), children_upto(roles, x.id, roles.len())))
        } else {
            rest
        }
    }
}

/// The subtrees of all children of `id`, in the order of the map.
pub open spec fn children(roles: Seq<RoleModel>, id: Option<Seq<char>>) -> Seq<RoleTree> {
    children_upto(roles, id, roles.len())
}

/// A role with its whole hierarchy below it.
pub open spec fn family(roles: Seq<RoleModel>, x: RoleModel) -> RoleTree {
    with_children(leaf(x), children(roles, x.id))
}

/// The families of the roles without a parent that stand among the first
/// `k` roles, in the order of the map.
pub open spec fn layer_upto(roles: Seq<RoleModel>, k: nat) -> Seq<RoleTree>
    decreases k,
{
    if k == 0 || k > roles.len() {
        Seq::empty()
    } else {
        let rest = layer_upto(roles, (k - 1) as nat);
        let x = roles[k - 1];
        if x.parent_id is None {
            rest.push(family(roles, x))
        } else {
            rest
        }
    }
}

/// The forest of the map: one family for each role without a parent.
pub open spec fn layer(roles: Seq<RoleModel>) -> Seq<RoleTree> {
    layer_upto(roles, roles.len())
}

/// The family of each of `rows`, in order.
pub open spec fn families(roles: Seq<RoleModel>, rows: Seq<RoleModel>) -> Seq<RoleTree> {
    Seq::new(rows.len(), |i: int| family(roles, rows[i]))
}

} // verus!
