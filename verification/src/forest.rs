use vstd::prelude::*;
use crate::domain::RoleModel;
use crate::role_map::{distinct_keys, key_of, text_eq, RoleMap};
use crate::tree::{is_forest, ranked};

verus! {

/// How many of the first `k` marks are not set.
pub open spec fn open_count(s: Seq<bool>, k: nat) -> nat
    decreases k,
{
    if k == 0 || k > s.len() {
        0
    } else {
        open_count(s, (k - 1) as nat) + (if s[k - 1] {
            0nat
        } else {
            1nat
        })
    }
}

/// Setting one mark lowers the count by one.
pub proof fn lemma_open_count_set(s: Seq<bool>, i: int, k: nat)
    requires
        0 <= i < s.len(),
        !s[i],
        k <= s.len(),
    ensures
        open_count(s.update(i, true), k) + (if i < k { 1int } else { 0int }) == open_count(s, k),
    decreases k,
{
    if k > 0 {
        lemma_open_count_set(s, i, (k - 1) as nat);
    }
}

/// The role at `i` waits for a parent that is in the map and not yet marked.
pub open spec fn blocked(roles: Seq<RoleModel>, marks: Seq<bool>, i: int) -> bool {
    roles[i].parent_id is Some && exists|j: int|
        0 <= j < roles.len() && (#[trigger] roles[j]).id == roles[i].parent_id && !marks[j]
}

/// Every role of the map that `i` names as its parent is marked, and was
/// marked before `i`.
pub open spec fn grounded(roles: Seq<RoleModel>, marks: Seq<bool>, times: Seq<nat>, i: int) -> bool {
    forall|j: int|
        0 <= j < roles.len() && (#[trigger] roles[j]).id == roles[i].parent_id ==> marks[j]
            && times[j] < times[i]
}

/// The marks so far are in order: each marked role was marked before the
/// clock's present time and after its parent.
pub open spec fn in_order(roles: Seq<RoleModel>, marks: Seq<bool>, times: Seq<nat>, clock: nat) -> bool {
    &&& marks.len() == roles.len()
    &&& times.len() == roles.len()
    &&& forall|i: int|
        0 <= i < roles.len() && #[trigger] marks[i] ==> times[i] < clock && (roles[i].parent_id is Some
            ==> grounded(roles, marks, times, i))
}

/// Two roles of a map with distinct keys that have the same identifier are
/// one role.
pub proof fn lemma_same_id(roles: Seq<RoleModel>, i: int, j: int)
    requires
        distinct_keys(roles),
        0 <= i < roles.len(),
        0 <= j < roles.len(),
        roles[i].id == roles[j].id,
    ensures
        i == j,
{
    assert(key_of(roles[i]) == key_of(roles[j]));
    if i < j {
        assert(key_of(roles[i]) != key_of(roles[j]));
    }
    if j < i {
        assert(key_of(roles[j]) != key_of(roles[i]));
    }
}

/// Where every role is marked in order, the roles form a forest.
pub proof fn lemma_marked_is_forest(roles: Seq<RoleModel>, marks: Seq<bool>, times: Seq<nat>, clock: nat)
    requires
        distinct_keys(roles),
        in_order(roles, marks, times, clock),
        forall|i: int| 0 <= i < roles.len() ==> marks[i],
    ensures
        is_forest(roles),
{
    let rank = |id: Option<Seq<char>>|
        if exists|j: int| 0 <= j < roles.len() && (#[trigger] roles[j]).id == id {
            let j = choose|j: int| 0 <= j < roles.len() && (#[trigger] roles[j]).id == id;
            (clock - times[j]) as nat
        } else {
            clock + 1
        };
    assert forall|i: int| 0 <= i < roles.len() && (#[trigger] roles[i]).parent_id is Some implies rank(
        roles[i].id,
    ) < rank(roles[i].parent_id) by {
        let own = choose|j: int| 0 <= j < roles.len() && (#[trigger] roles[j]).id == roles[i].id;
        lemma_same_id(roles, own, i);
        assert(marks[i]);
        assert(rank(roles[i].id) == clock - times[i]);
        assert(grounded(roles, marks, times, i));
        if exists|j: int| 0 <= j < roles.len() && (#[trigger] roles[j]).id == roles[i].parent_id {
            let up = choose|j: int|
                0 <= j < roles.len() && (#[trigger] roles[j]).id == roles[i].parent_id;
            assert(marks[up] && times[up] < times[i]);
        }
    }
    assert(ranked(roles, rank));
}

/// Among the first `k` roles, an unmarked one whose identifier ranks
/// highest.
pub proof fn lemma_highest_open(
    roles: Seq<RoleModel>,
    marks: Seq<bool>,
    rank: spec_fn(Option<Seq<char>>) -> nat,
    k: nat,
    some: int,
) -> (top: int)
    requires
        marks.len() == roles.len(),
        k <= roles.len(),
        0 <= some < k,
        !marks[some],
    ensures
        0 <= top < k,
        !marks[top],
        forall|i: int| 0 <= i < k && !marks[i] ==> rank(roles[i].id) <= rank(roles[top].id),
    decreases k,
{
    if some == k - 1 {
        if exists|i: int| 0 <= i < k - 1 && !marks[i] {
            let other = choose|i: int| 0 <= i < k - 1 && !marks[i];
            let before = lemma_highest_open(roles, marks, rank, (k - 1) as nat, other);
            if rank(roles[before].id) >= rank(roles[k - 1].id) {
                before
            } else {
                k - 1
            }
        } else {
            k - 1
        }
    } else {
        let before = lemma_highest_open(roles, marks, rank, (k - 1) as nat, some);
        if marks[k - 1] || rank(roles[before].id) >= rank(roles[k - 1].id) {
            before
        } else {
            k - 1
        }
    }
}

/// Where every unmarked role waits for an unmarked parent and some role is
/// unmarked, the roles form no forest.
pub proof fn lemma_stuck_is_no_forest(roles: Seq<RoleModel>, marks: Seq<bool>, some: int)
    requires
        marks.len() == roles.len(),
        0 <= some < roles.len(),
        !marks[some],
        forall|i: int| 0 <= i < roles.len() && !#[trigger] marks[i] ==> blocked(roles, marks, i),
    ensures
        !is_forest(roles),
{
    if is_forest(roles) {
        let rank = choose|rank: spec_fn(Option<Seq<char>>) -> nat| ranked(roles, rank);
        let top = lemma_highest_open(roles, marks, rank, roles.len(), some);
        assert(blocked(roles, marks, top));
        let up = choose|j: int|
            0 <= j < roles.len() && (#[trigger] roles[j]).id == roles[top].parent_id && !marks[j];
        assert(rank(roles[top].id) < rank(roles[top].parent_id));
        assert(rank(roles[up].id) <= rank(roles[top].id));
    }
}

impl RoleMap {
    /// The place of the role with the identifier `id`, if the map holds one.
    pub fn find_id(&self, id: &String) -> (res: Option<usize>)
        ensures
            match res {
                Some(j) => j < self@.len() && self@[j as int].id == Some(id@),
                None => forall|j: int| 0 <= j < self@.len() ==> (#[trigger] self@[j]).id != Some(id@),
            },
    {
        let n: usize = self.len();
        let mut j: usize = 0;
        while j < n
            invariant
                n == self@.len(),
                j <= n,
                forall|i: int| 0 <= i < j ==> (#[trigger] self@[i]).id != Some(id@),
            decreases n - j,
        {
            let found = match &self.entry(j).id {
                Some(s) => text_eq(s, id),
                None => false,
            };
            if found {
                return Some(j);
            }
            j = j + 1;
        }
        None
    }

    /// Whether the roles of the map form a forest, so that the hierarchy
    /// below every role is finite. Roles are marked round by round, each
    /// once its parent is marked or is not in the map; the map is a forest
    /// exactly where every role gets its mark.
    pub fn is_forest(&self) -> (res: bool)
        requires
            self.wf(),
        ensures
            res == is_forest(self@),
    {
        let n: usize = self.len();
        let mut marks: Vec<bool> = Vec::with_capacity(n);
        let mut i: usize = 0;
        while i < n
            invariant
                i <= n,
                marks@.len() == i,
                forall|x: int| 0 <= x < i ==> !marks@[x],
            decreases n - i,
        {
            marks.push(false);
            i = i + 1;
        }
        let ghost mut times: Seq<nat> = Seq::new(n as nat, |x: int| 0nat);
        let ghost mut clock: nat = 0;
        let mut changed: bool = true;
        while changed
            invariant
                n == self@.len(),
                self.wf(),
                in_order(self@, marks@, times, clock),
                !changed ==> forall|x: int|
                    0 <= x < n && !#[trigger] marks@[x] ==> blocked(self@, marks@, x),
            decreases open_count(marks@, n as nat) + (if changed { 1int } else { 0int }),
        {
            changed = false;
            let ghost start = marks@;
            i = 0;
            while i < n
                invariant
                    n == self@.len(),
                    self.wf(),
                    i <= n,
                    in_order(self@, marks@, times, clock),
                    start.len() == n,
                    changed ==> open_count(marks@, n as nat) < open_count(start, n as nat),
                    !changed ==> marks@ == start,
                    !changed ==> forall|x: int|
                        0 <= x < i && !#[trigger] marks@[x] ==> blocked(self@, marks@, x),
                decreases n - i,
            {
                if !marks[i] {
                    let ghost before = marks@;
                    let free = match &self.entry(i).parent_id {
                        None => true,
                        Some(p) => match self.find_id(p) {
                            None => true,
                            Some(j) => {
                                proof {
                                    assert forall|x: int|
                                        0 <= x < n && (#[trigger] self@[x]).id == self@[i as int].parent_id implies x
                                        == j by {
                                        lemma_same_id(self@, x, j as int);
                                    }
                                }
                                marks[j]
                            },
                        },
                    };
                    if free {
                        marks.set(i, true);
                        proof {
                            times = times.update(i as int, clock);
                            clock = clock + 1;
                            lemma_open_count_set(before, i as int, n as nat);
                            assert(marks@ == before.update(i as int, true));
                            assert forall|x: int| 0 <= x < n && #[trigger] marks@[x] implies times[x]
                                < clock && (self@[x].parent_id is Some ==> grounded(
                                self@,
                                marks@,
                                times,
                                x,
                            )) by {
                                if x != i {
                                    assert(before[x]);
                                }
                            }
                        }
                        changed = true;
                    } else {
                        assert(blocked(self@, marks@, i as int));
                    }
                }
                i = i + 1;
            }
        }
        i = 0;
        while i < n
            invariant
                n == self@.len(),
                self.wf(),
                in_order(self@, marks@, times, clock),
                i <= n,
                forall|x: int| 0 <= x < i ==> marks@[x],
                forall|x: int| 0 <= x < n && !#[trigger] marks@[x] ==> blocked(self@, marks@, x),
            decreases n - i,
        {
            if !marks[i] {
                proof {
                    lemma_stuck_is_no_forest(self@, marks@, i as int);
                }
                return false;
            }
            i = i + 1;
        }
        proof {
            lemma_marked_is_forest(self@, marks@, times, clock);
        }
        true
    }
}

} // verus!
