use vstd::prelude::*;

verus! {

/// What a role row says, with every text taken as a sequence of characters.
pub struct RoleModel {
    pub id: Option<Seq<char>>,
    pub name: Option<Seq<char>>,
    pub parent_id: Option<Seq<char>>,
    pub del: Option<i32>,
}

/// A role together with the hierarchy below it. `childs` is `None` where the
/// role has no children; it is never `Some` of an empty sequence when the
/// tree was built by this library.
pub struct RoleTree {
    pub role: RoleModel,
    pub childs: Option<Seq<RoleTree>>,
}

/// The characters of an optional text.
pub open spec fn text(o: Option<String>) -> Option<Seq<char>> {
    match o {
        Some(s) => Some(s@),
        None => None,
    }
}

/// The characters of each text of a list, in order.
pub open spec fn texts(v: Seq<String>) -> Seq<Seq<char>> {
    Seq::new(v.len(), |i: int| v[i]@)
}

/// A row of the role table.
#[derive(Debug, PartialEq, Eq)]
pub struct SysRole {
    pub id: Option<String>,
    pub name: Option<String>,
    pub parent_id: Option<String>,
    pub del: Option<i32>,
}

impl View for SysRole {
    type V = RoleModel;

    open spec fn view(&self) -> RoleModel {
        RoleModel {
            id: text(self.id),
            name: text(self.name),
            parent_id: text(self.parent_id),
            del: self.del,
        }
    }
}

/// The models of a list of rows, in order.
pub open spec fn models(v: Seq<SysRole>) -> Seq<RoleModel> {
    Seq::new(v.len(), |i: int| v[i]@)
}

/// A copy of an optional text.
pub fn copy_text(o: &Option<String>) -> (res: Option<String>)
    ensures
        text(res) == text(*o),
{
    match o {
        Some(s) => Some(s.clone()),
        None => None,
    }
}

impl SysRole {
    /// A copy of the row, field by field.
    pub fn duplicate(&self) -> (res: SysRole)
        ensures
            res@ == self@,
    {
        SysRole {
            id: copy_text(&self.id),
            name: copy_text(&self.name),
            parent_id: copy_text(&self.parent_id),
            del: self.del,
        }
    }
}

/// A role as it is shown: the row's fields and, where the role has children,
/// their views.
#[derive(Debug, PartialEq, Eq)]
pub struct SysRoleVO {
    pub id: Option<String>,
    pub name: Option<String>,
    pub parent_id: Option<String>,
    pub del: Option<i32>,
    pub childs: Option<Vec<SysRoleVO>>,
}

impl SysRoleVO {
    /// The row that this view shows.
    pub open spec fn role(&self) -> RoleModel {
        RoleModel {
            id: text(self.id),
            name: text(self.name),
            parent_id: text(self.parent_id),
            del: self.del,
        }
    }

    /// The view of a row, with no children attached.
    pub fn from(role: SysRole) -> (res: SysRoleVO)
        ensures
            res@ == (RoleTree { role: role@, childs: None }),
    {
        SysRoleVO {
            id: role.id,
            name: role.name,
            parent_id: role.parent_id,
            del: role.del,
            childs: None,
        }
    }
}

/// The tree that a view shows.
pub open spec fn tree_of(vo: SysRoleVO) -> RoleTree
    decreases vo, 0nat,
{
    RoleTree {
        role: vo.role(),
        childs: match vo.childs {
            Some(v) => Some(trees_upto(v, v@.len())),
            None => None,
        },
    }
}

/// The trees of the first `k` views of a list, in order.
pub open spec fn trees_upto(v: Vec<SysRoleVO>, k: nat) -> Seq<RoleTree>
    decreases v, k,
{
    if k == 0 || k > v@.len() {
        Seq::empty()
    } else {
        proof {
            vstd::std_specs::vec::axiom_vec_index_decreases(v, k - 1);
        }
        trees_upto(v, (k - 1) as nat).push(tree_of(v[k - 1]))
    }
}

impl View for SysRoleVO {
    type V = RoleTree;

    open spec fn view(&self) -> RoleTree {
        tree_of(*self)
    }
}

/// The trees of a list of views, in order.
pub open spec fn trees(v: Seq<SysRoleVO>) -> Seq<RoleTree> {
    Seq::new(v.len(), |i: int| v[i]@)
}

/// The trees of the children held by a view are the trees of that list.
pub proof fn lemma_trees_upto(v: Vec<SysRoleVO>, k: nat)
    requires
        k <= v@.len(),
    ensures
        trees_upto(v, k) == trees(v@.subrange(0, k as int)),
    decreases k,
{
    if k > 0 {
        lemma_trees_upto(v, (k - 1) as nat);
        assert(trees_upto(v, k) =~= trees(v@.subrange(0, k as int)));
    } else {
        assert(trees_upto(v, k) =~= trees(v@.subrange(0, k as int)));
    }
}

} // verus!
