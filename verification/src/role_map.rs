use vstd::prelude::*;
use crate::domain::{RoleModel, SysRole, models};

verus! {

/// The key under which a role is filed: its identifier, or the empty text
/// where it has none.
pub open spec fn key_of(r: RoleModel) -> Seq<char> {
    match r.id {
        Some(s) => s,
        None => Seq::empty(),
    }
}

/// No two roles of the sequence are filed under one key.
pub open spec fn distinct_keys(s: Seq<RoleModel>) -> bool {
    forall|i: int, j: int| 0 <= i < j < s.len() ==> key_of(#[trigger] s[i]) != key_of(#[trigger] s[j])
}

/// Some role of the sequence is filed under `key`.
pub open spec fn has_key(s: Seq<RoleModel>, key: Seq<char>) -> bool {
    exists|i: int| 0 <= i < s.len() && key_of(#[trigger] s[i]) == key
}

/// The place of the first role filed under `key`; the length of the
/// sequence where there is none.
pub open spec fn place_of(s: Seq<RoleModel>, key: Seq<char>) -> int
    decreases s.len(),
{
    if s.len() == 0 {
        0
    } else if key_of(s[0]) == key {
        0
    } else {
        1 + place_of(s.subrange(1, s.len() as int), key)
    }
}

/// Filing a role: it takes the place of the role that had its key, or comes
/// last where no role had it.
pub open spec fn put(s: Seq<RoleModel>, r: RoleModel) -> Seq<RoleModel> {
    let at = place_of(s, key_of(r));
    if at < s.len() {
        s.update(at, r)
    } else {
        s.push(r)
    }
}

/// Filing the first `k` roles of `all`, one after the other, starting from
/// nothing.
pub open spec fn filed(all: Seq<RoleModel>, k: nat) -> Seq<RoleModel>
    decreases k,
{
    if k == 0 || k > all.len() {
        Seq::empty()
    } else {
        put(filed(all, (k - 1) as nat), all[k - 1])
    }
}

/// `place_of` finds the first role with the key, and nothing before it has it.
pub proof fn lemma_place_of(s: Seq<RoleModel>, key: Seq<char>)
    ensures
        0 <= place_of(s, key) <= s.len(),
        place_of(s, key) < s.len() ==> key_of(s[place_of(s, key)]) == key,
        forall|i: int| 0 <= i < place_of(s, key) ==> key_of(#[trigger] s[i]) != key,
    decreases s.len(),
{
    if s.len() != 0 && key_of(s[0]) != key {
        let rest = s.subrange(1, s.len() as int);
        lemma_place_of(rest, key);
        assert forall|i: int| 0 <= i < place_of(s, key) implies key_of(#[trigger] s[i]) != key by {
            if i > 0 {
                assert(s[i] == rest[i - 1]);
            }
        }
    }
}

/// Filing keeps the keys apart.
pub proof fn lemma_put_distinct(s: Seq<RoleModel>, r: RoleModel)
    requires
        distinct_keys(s),
    ensures
        distinct_keys(put(s, r)),
        put(s, r).len() == s.len() + (if has_key(s, key_of(r)) { 0int } else { 1int }),
        has_key(put(s, r), key_of(r)),
        forall|k: Seq<char>| k != key_of(r) ==> (has_key(put(s, r), k) <==> has_key(s, k)),
{
    let key = key_of(r);
    let at = place_of(s, key);
    let t = put(s, r);
    lemma_place_of(s, key);
    if at < s.len() {
        assert(has_key(s, key));
        assert forall|i: int, j: int| 0 <= i < j < t.len() implies key_of(#[trigger] t[i]) != key_of(
            #[trigger] t[j],
        ) by {
            assert(key_of(t[i]) == key_of(s[i]));
            assert(key_of(t[j]) == key_of(s[j]));
        }
    } else {
        assert(!has_key(s, key));
        assert forall|i: int, j: int| 0 <= i < j < t.len() implies key_of(#[trigger] t[i]) != key_of(
            #[trigger] t[j],
        ) by {
            if j < s.len() {
                assert(t[i] == s[i] && t[j] == s[j]);
            } else {
                assert(t[i] == s[i]);
            }
        }
    }
    assert(key_of(t[if at < s.len() { at } else { s.len() as int }]) == key);
    assert forall|k: Seq<char>| k != key implies (has_key(t, k) <==> has_key(s, k)) by {
        if has_key(t, k) {
            let i = choose|i: int| 0 <= i < t.len() && key_of(#[trigger] t[i]) == k;
            assert(i < s.len() && key_of(s[i]) == k);
        }
        if has_key(s, k) {
            let i = choose|i: int| 0 <= i < s.len() && key_of(#[trigger] s[i]) == k;
            assert(key_of(t[i]) == k);
        }
    }
}

/// Roles filed by key: the working set from which hierarchies are built.
/// No two of its roles have the same key.
pub struct RoleMap {
    entries: Vec<SysRole>,
}

impl View for RoleMap {
    type V = Seq<RoleModel>;

    closed spec fn view(&self) -> Seq<RoleModel> {
        models(self.entries@)
    }
}

impl RoleMap {
    /// The keys of the map are distinct.
    pub open spec fn wf(&self) -> bool {
        distinct_keys(self@)
    }

    /// A map without roles.
    pub fn new() -> (res: RoleMap)
        ensures
            res@ == Seq::<RoleModel>::empty(),
            res.wf(),
    {
        let res = RoleMap { entries: Vec::new() };
        assert(res@ =~= Seq::<RoleModel>::empty());
        res
    }

    /// How many roles the map holds.
    pub fn len(&self) -> (res: usize)
        ensures
            res == self@.len(),
    {
        self.entries.len()
    }

    /// The role at one place of the map.
    pub fn entry(&self, at: usize) -> (res: &SysRole)
        requires
            at < self@.len(),
        ensures
            res@ == self@[at as int],
    {
        &self.entries[at]
    }

    /// Files a role under its key. A role that was filed under the same key
    /// gives way to it.
    pub fn insert(&mut self, role: SysRole)
        requires
            old(self).wf(),
        ensures
            final(self)@ == put(old(self)@, role@),
            final(self).wf(),
    {
        let ghost before = self@;
        let ghost key = key_of(role@);
        let mut at: usize = 0;
        let n: usize = self.entries.len();
        let mut found: bool = false;
        while at < n && !found
            invariant
                n == self.entries.len(),
                self@ == before,
                key == key_of(role@),
                0 <= at <= n,
                forall|i: int| 0 <= i < at ==> key_of(#[trigger] before[i]) != key,
                found ==> at < n && key_of(before[at as int]) == key,
            decreases n - at + (if found { 0int } else { 1int }),
        {
            assert(before[at as int] == self.entries@[at as int]@);
            if same_key(&self.entries[at], &role) {
                found = true;
            } else {
                at = at + 1;
            }
        }
        proof {
            lemma_place_of(before, key);
            lemma_put_distinct(before, role@);
            let p = place_of(before, key);
            if found {
                assert(p == at) by {
                    if p < at {
                        assert(key_of(before[p]) == key);
                    }
                }
            } else {
                assert(p == n) by {
                    if p < n {
                        assert(key_of(before[p]) == key);
                    }
                }
            }
        }
        if found {
            self.entries.set(at, role);
        } else {
            self.entries.push(role);
        }
        assert(self@ =~= put(before, role@));
    }

    /// The role filed under `id`, if there is one.
    pub fn get(&self, id: &String) -> (res: Option<&SysRole>)
        ensures
            res is Some <==> has_key(self@, id@),
            res matches Some(r) ==> r@ == self@[place_of(self@, id@)],
    {
        let mut at: usize = 0;
        let n: usize = self.entries.len();
        while at < n
            invariant
                n == self.entries.len(),
                0 <= at <= n,
                forall|i: int| 0 <= i < at ==> key_of(#[trigger] self@[i]) != id@,
            decreases n - at,
        {
            assert(self@[at as int] == self.entries@[at as int]@);
            if key_is(&self.entries[at], id) {
                proof {
                    lemma_place_of(self@, id@);
                    let p = place_of(self@, id@);
                    assert(key_of(self@[at as int]) == id@);
                    if p < at {
                        assert(key_of(self@[p]) == id@);
                    }
                    if p > at {
                    }
                }
                return Some(&self.entries[at]);
            }
            at = at + 1;
        }
        proof {
            lemma_place_of(self@, id@);
            if has_key(self@, id@) {
                let i = choose|i: int| 0 <= i < self@.len() && key_of(#[trigger] self@[i]) == id@;
                assert(false);
            }
        }
        None
    }
}

/// Whether two texts hold the same characters.
pub fn text_eq(a: &String, b: &String) -> (res: bool)
    ensures
        res == (a@ == b@),
{
    *a == *b
}

/// Whether two roles are filed under one key.
pub fn same_key(a: &SysRole, b: &SysRole) -> (res: bool)
    ensures
        res == (key_of(a@) == key_of(b@)),
{
    match (&a.id, &b.id) {
        (Some(x), Some(y)) => text_eq(x, y),
        (Some(x), None) => {
            assert(x@.len() == 0 <==> x@ =~= Seq::<char>::empty());
            x.as_str().is_empty()
        },
        (None, Some(y)) => {
            assert(y@.len() == 0 <==> y@ =~= Seq::<char>::empty());
            y.as_str().is_empty()
        },
        (None, None) => true,
    }
}

/// Whether a role is filed under the key `id`.
pub fn key_is(a: &SysRole, id: &String) -> (res: bool)
    ensures
        res == (key_of(a@) == id@),
{
    match &a.id {
        Some(x) => text_eq(x, id),
        None => {
            assert(id@.len() == 0 <==> id@ =~= Seq::<char>::empty());
            id.as_str().is_empty()
        },
    }
}

} // verus!
