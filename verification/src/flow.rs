use vstd::prelude::*;
use crate::domain::{models, RoleModel, SysRole};
use crate::role_map::key_of;
use crate::service::SysRoleService;

verus! {

/// The key under which the cache holds the full set of roles.
pub const RES_KEY: &'static str = "sys_role:all";

/// Why an operation failed.
#[derive(Debug, PartialEq, Eq)]
pub enum Error {
    /// The store failed, and the operation has changed nothing.
    Store(String),
    /// A repopulation asked for by itself could not write to the cache.
    Cache(String),
    /// The store was changed, but the cache could not be repopulated after
    /// it: the repopulation has to be tried again, not the change.
    Stale(String),
}

/// What reading the cache under `RES_KEY` gave: the read or the decoding
/// failed, the cache held nothing, or it held a set of roles.
#[derive(Debug, PartialEq, Eq)]
pub enum CacheLookup {
    Failed,
    Absent,
    Present(Vec<SysRole>),
}

/// For whom the role set is read from the store and written to the cache.
#[derive(Debug, PartialEq, Eq)]
pub enum Goal {
    /// A read that missed the cache.
    Load,
    /// A repopulation asked for by itself.
    Refresh,
    /// A role was added: the rows affected and the new role's identifier.
    Added(u64, String),
    /// A role was changed or removed: the rows affected.
    Changed(u64),
}

/// What an operation hands back when it succeeds.
#[derive(Debug, PartialEq, Eq)]
pub enum Reply {
    Roles(Vec<SysRole>),
    Added(u64, String),
    Changed(u64),
}

/// What is to be done next.
#[derive(Debug, PartialEq, Eq)]
pub enum Step {
    /// Query the store for all roles and hand the outcome to `update_cache`.
    Select(Goal),
    /// Write the roles to the cache under `RES_KEY` and hand the outcome to
    /// `cache_written`.
    Store(Goal, Vec<SysRole>),
    /// The operation is over.
    Return(Result<Reply, Error>),
}

/// A cache read counts as a hit only where it gave at least one role.
pub open spec fn is_hit(cached: CacheLookup) -> bool {
    cached matches CacheLookup::Present(v) && v@.len() > 0
}

/// The step after the cache was read.
pub open spec fn load_step(cached: CacheLookup) -> Step {
    match cached {
        CacheLookup::Present(v) => if v@.len() > 0 {
            Step::Return(Ok(Reply::Roles(v)))
        } else {
            Step::Select(Goal::Load)
        },
        _ => Step::Select(Goal::Load),
    }
}

/// Whether the goal follows a change that the store has already made.
pub open spec fn follows_change(goal: Goal) -> bool {
    goal is Added || goal is Changed
}

/// The error of a repopulation that could not read the store.
pub open spec fn select_error(goal: Goal, m: String) -> Error {
    if follows_change(goal) {
        Error::Stale(m)
    } else {
        Error::Store(m)
    }
}

/// The step after the store was asked for all roles.
pub open spec fn refresh_step(goal: Goal, selected: Result<Vec<SysRole>, String>) -> Step {
    match selected {
        Ok(rows) => Step::Store(goal, rows),
        Err(m) => Step::Return(Err(select_error(goal, m))),
    }
}

/// The step after the store was asked to change a row.
pub open spec fn change_step(changed: Result<u64, String>) -> Step {
    match changed {
        Ok(n) => Step::Select(Goal::Changed(n)),
        Err(m) => Step::Return(Err(Error::Store(m))),
    }
}

/// How an operation ends once the cache was written. A read hands back the
/// roles whatever became of the write. Every other operation fails with the
/// cache's message where the write failed: as a stale cache after a change
/// that the store has made, as a cache error otherwise.
pub open spec fn outcome(goal: Goal, rows: Vec<SysRole>, written: Result<(), String>) -> Result<
    Reply,
    Error,
> {
    match goal {
        Goal::Load => Ok(Reply::Roles(rows)),
        Goal::Refresh => match written {
            Ok(_) => Ok(Reply::Roles(rows)),
            Err(m) => Err(Error::Cache(m)),
        },
        Goal::Added(n, id) => match written {
            Ok(_) => Ok(Reply::Added(n, id)),
            Err(m) => Err(Error::Stale(m)),
        },
        Goal::Changed(n) => match written {
            Ok(_) => Ok(Reply::Changed(n)),
            Err(m) => Err(Error::Stale(m)),
        },
    }
}

/// What a whole read hands back: the cached roles on a hit; on a miss the
/// store's roles, or the store's error. The cache write on the way does not
/// count.
pub open spec fn loaded(cached: CacheLookup, selected: Result<Vec<SysRole>, String>) -> Result<
    Reply,
    Error,
> {
    match cached {
        CacheLookup::Present(v) if v@.len() > 0 => Ok(Reply::Roles(v)),
        _ => match selected {
            Ok(rows) => Ok(Reply::Roles(rows)),
            Err(m) => Err(Error::Store(m)),
        },
    }
}

/// Where a read ends when it is taken step by step: with the cached roles
/// at once, with the store's error after the query, or with the store's
/// roles after the cache write, whatever became of that write.
pub open spec fn read_ends(
    cached: CacheLookup,
    selected: Result<Vec<SysRole>, String>,
    written: Result<(), String>,
    end: Result<Reply, Error>,
) -> bool {
    match load_step(cached) {
        Step::Return(r) => end == r,
        Step::Select(goal) => match refresh_step(goal, selected) {
            Step::Return(r) => end == r,
            Step::Store(g, rows) => end == outcome(g, rows, written),
            Step::Select(_) => false,
        },
        Step::Store(_, _) => false,
    }
}

/// What a step writes to the cache, if it writes.
pub open spec fn cache_content(step: Step) -> Option<Seq<RoleModel>> {
    match step {
        Step::Store(_, rows) => Some(models(rows@)),
        _ => None,
    }
}

/// Some role of the sequence has the identifier `id`.
pub open spec fn holds_id(rows: Seq<RoleModel>, id: Seq<char>) -> bool {
    exists|i: int| 0 <= i < rows.len() && (#[trigger] rows[i]).id == Some(id)
}

impl SysRoleService {
    /// Decides a read once the cache was consulted: a set of at least one
    /// role is handed back as it is; a failed read, an empty cache and an
    /// empty set all send the read to the store.
    pub fn finds_all(&self, cached: CacheLookup) -> (res: Step)
        ensures
            res == load_step(cached),
            is_hit(cached) <==> res is Return,
    {
        match cached {
            CacheLookup::Present(v) => {
                if v.len() > 0 {
                    Step::Return(Ok(Reply::Roles(v)))
                } else {
                    Step::Select(Goal::Load)
                }
            },
            _ => Step::Select(Goal::Load),
        }
    }

    /// Decides a repopulation once the store was asked for all roles: its
    /// error ends the operation, its rows go to the cache unchanged. After a
    /// change that the store has made, the error says that the cache is
    /// stale.
    pub fn update_cache(&self, goal: Goal, selected: Result<Vec<SysRole>, String>) -> (res: Step)
        ensures
            res == refresh_step(goal, selected),
    {
        match selected {
            Ok(rows) => Step::Store(goal, rows),
            Err(m) => match goal {
                Goal::Added(_, _) => Step::Return(Err(Error::Stale(m))),
                Goal::Changed(_) => Step::Return(Err(Error::Stale(m))),
                _ => Step::Return(Err(Error::Store(m))),
            },
        }
    }

    /// Ends an operation once the cache was written. `res.1` says whether a
    /// failed write was passed over and has to be logged, which happens on
    /// a read only.
    pub fn cache_written(&self, goal: Goal, rows: Vec<SysRole>, written: Result<(), String>) -> (res: (
        Result<Reply, Error>,
        bool,
    ))
        ensures
            res.0 == outcome(goal, rows, written),
            res.0 is Err <==> !(goal is Load) && written is Err,
            res.1 == (goal is Load && written is Err),
    {
        match goal {
            Goal::Load => {
                let failed = written.is_err();
                (Ok(Reply::Roles(rows)), failed)
            },
            Goal::Refresh => match written {
                Ok(_) => (Ok(Reply::Roles(rows)), false),
                Err(m) => (Err(Error::Cache(m)), false),
            },
            Goal::Added(n, id) => match written {
                Ok(_) => (Ok(Reply::Added(n, id)), false),
                Err(m) => (Err(Error::Stale(m)), false),
            },
            Goal::Changed(n) => match written {
                Ok(_) => (Ok(Reply::Changed(n)), false),
                Err(m) => (Err(Error::Stale(m)), false),
            },
        }
    }

    /// Decides an addition once the store was asked to insert the role: its
    /// error ends the operation and leaves the cache alone; otherwise the
    /// cache is repopulated, for a reply of the rows affected and the role's
    /// identifier (the empty text where it has none).
    pub fn add(&self, role: &SysRole, inserted: Result<u64, String>) -> (res: Step)
        ensures
            match inserted {
                Ok(n) => res matches Step::Select(Goal::Added(m, id)) && m == n && id@ == key_of(
                    role@,
                ),
                Err(e) => res == Step::Return(Err(Error::Store(e))),
            },
    {
        match inserted {
            Ok(n) => {
                let id = match &role.id {
                    Some(s) => s.clone(),
                    None => String::new(),
                };
                Step::Select(Goal::Added(n, id))
            },
            Err(e) => Step::Return(Err(Error::Store(e))),
        }
    }

    /// Decides an edit once the store was asked to update the row: its error
    /// ends the operation and leaves the cache alone; otherwise the cache
    /// is repopulated, for a reply of the rows affected.
    pub fn edit(&self, updated: Result<u64, String>) -> (res: Step)
        ensures
            res == change_step(updated),
    {
        match updated {
            Ok(n) => Step::Select(Goal::Changed(n)),
            Err(m) => Step::Return(Err(Error::Store(m))),
        }
    }

    /// Decides a removal once the store was asked to delete the row, as
    /// `edit` does.
    pub fn remove(&self, deleted: Result<u64, String>) -> (res: Step)
        ensures
            res == change_step(deleted),
    {
        match deleted {
            Ok(n) => Step::Select(Goal::Changed(n)),
            Err(m) => Step::Return(Err(Error::Store(m))),
        }
    }
}

/// Repopulating twice from an unchanged store writes the same content both
/// times: what is written is the store's rows and depends on nothing else.
pub proof fn lemma_repopulation_repeats(first: Goal, second: Goal, rows: Vec<SysRole>)
    ensures
        cache_content(refresh_step(first, Ok(rows))) == Some(models(rows@)),
        cache_content(refresh_step(second, Ok(rows))) == cache_content(
            refresh_step(first, Ok(rows)),
        ),
{
}

/// A read after a removal does not show the removed role. Once the store has
/// deleted the role, so that its rows no longer hold the identifier, the
/// removal succeeds only by writing exactly those rows to the cache; a read
/// that follows hands those rows back, whether it takes them from the cache
/// or, the set being empty, from the store again, and whatever becomes of
/// the cache write on that way.
pub proof fn lemma_read_after_remove(
    rows: Vec<SysRole>,
    id: Seq<char>,
    n: u64,
    written: Result<(), String>,
    rewritten: Result<(), String>,
)
    requires
        !holds_id(models(rows@), id),
    ensures
        change_step(Ok(n)) == Step::Select(Goal::Changed(n)),
        cache_content(refresh_step(Goal::Changed(n), Ok(rows))) == Some(models(rows@)),
        outcome(Goal::Changed(n), rows, written) is Ok <==> written is Ok,
        read_ends(CacheLookup::Present(rows), Ok(rows), rewritten, Ok(Reply::Roles(rows))),
        loaded(CacheLookup::Present(rows), Ok(rows)) matches Ok(Reply::Roles(v)) && !holds_id(
            models(v@),
            id,
        ),
{
    lemma_read_by_steps(CacheLookup::Present(rows), Ok(rows), rewritten);
}

/// A read taken step by step ends with what the whole read hands back.
pub proof fn lemma_read_by_steps(
    cached: CacheLookup,
    selected: Result<Vec<SysRole>, String>,
    written: Result<(), String>,
)
    ensures
        read_ends(cached, selected, written, loaded(cached, selected)),
        is_hit(cached) ==> loaded(cached, selected) == Ok::<Reply, Error>(
            Reply::Roles(cached->Present_0),
        ),
{
}

} // verus!
