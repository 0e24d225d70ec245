//! The domain store: identifier allocation, referential integrity, and the
//! read-whole/write-whole persistence protocol over a pluggable backend.

use vstd::prelude::*;
use vstd::seq_lib::*;

use crate::models::{DBState, Epic, StateView, Status, Story, StoryView, EpicView};

verus! {

/// A failure of a domain or storage operation.
///
/// `NotFound` is detected before any mutation or persistence and is always
/// recoverable by the caller. `IOError` and `FormatError` come from the
/// storage backend and are surfaced unchanged. `IdsExhausted` is returned by
/// the create operations when the id counter cannot advance: identifiers are
/// never reused, so a store whose counter has reached its maximum cannot
/// accept new entities.
#[derive(Clone, Copy, Debug, PartialEq, Eq, Structural)]
pub enum DbError {
    NotFound,
    IOError,
    FormatError,
    IdsExhausted,
}

/// Every identifier present in either map is at most `last_item_id`: the
/// counter never lags behind the entities it has numbered.
pub open spec fn ids_bounded(s: StateView) -> bool {
    &&& forall|id: u32| #[trigger] s.epics.contains_key(id) ==> id <= s.last_item_id
    &&& forall|id: u32| #[trigger] s.stories.contains_key(id) ==> id <= s.last_item_id
}

/// Every story id listed by any epic has an entry in the global story map:
/// no dangling references.
pub open spec fn listed_stories_exist(s: StateView) -> bool {
    forall|eid: u32, i: int|
        #![trigger s.epics[eid].stories[i]]
        s.epics.contains_key(eid) && 0 <= i < s.epics[eid].stories.len()
            ==> s.stories.contains_key(s.epics[eid].stories[i])
}

/// No story id occurs in two epics' lists, nor twice in one list: a story
/// belongs to at most one epic.
pub open spec fn listings_unique(s: StateView) -> bool {
    forall|e1: u32, i1: int, e2: u32, i2: int|
        #![trigger s.epics[e1].stories[i1], s.epics[e2].stories[i2]]
        s.epics.contains_key(e1) && 0 <= i1 < s.epics[e1].stories.len()
            && s.epics.contains_key(e2) && 0 <= i2 < s.epics[e2].stories.len()
            && s.epics[e1].stories[i1] == s.epics[e2].stories[i2] ==> e1 == e2 && i1 == i2
}

/// The invariant every reachable state satisfies: bounded identifiers,
/// no dangling story references, and one owner per story.
pub open spec fn wf_state(s: StateView) -> bool {
    &&& ids_bounded(s)
    &&& listed_stories_exist(s)
    &&& listings_unique(s)
}

/// The state after a successful `create_epic`: the counter advances and the
/// epic is inserted under the new id with an empty story list (a
/// caller-supplied list is ignored — epics are always created empty).
pub open spec fn create_epic_tr(s: StateView, epic: EpicView) -> StateView
    recommends
        s.last_item_id < u32::MAX,
{
    let id = (s.last_item_id + 1) as u32;
    StateView {
        last_item_id: id,
        epics: s.epics.insert(
            id,
            EpicView {
                name: epic.name,
                description: epic.description,
                status: epic.status,
                stories: Seq::<u32>::empty(),
            },
        ),
        stories: s.stories,
    }
}

/// The state after a successful `create_story`: the counter advances, the
/// story is inserted under the new id, and the new id is appended at the end
/// of the owning epic's list.
pub open spec fn create_story_tr(s: StateView, story: StoryView, epic_id: u32) -> StateView
    recommends
        s.epics.contains_key(epic_id),
        s.last_item_id < u32::MAX,
{
    let id = (s.last_item_id + 1) as u32;
    let e = s.epics[epic_id];
    StateView {
        last_item_id: id,
        epics: s.epics.insert(
            epic_id,
            EpicView {
                name: e.name,
                description: e.description,
                status: e.status,
                stories: e.stories.push(id),
            },
        ),
        stories: s.stories.insert(id, story),
    }
}

/// The state after a successful `delete_epic`: every story the epic listed
/// leaves the story map (cascading delete), then the epic itself leaves the
/// epic map. The counter is never decremented.
pub open spec fn delete_epic_tr(s: StateView, epic_id: u32) -> StateView
    recommends
        s.epics.contains_key(epic_id),
{
    StateView {
        last_item_id: s.last_item_id,
        epics: s.epics.remove(epic_id),
        stories: s.stories.remove_keys(s.epics[epic_id].stories.to_set()),
    }
}

/// A sequence with the first occurrence of `x` removed, or the sequence
/// itself where `x` does not occur.
pub open spec fn remove_first(q: Seq<u32>, x: u32) -> Seq<u32> {
    match q.index_of_first(x) {
        Some(i) => q.remove(i),
        None => q,
    }
}

/// The state after a successful `delete_story`: the story id leaves the
/// owning epic's list and the story leaves the story map.
pub open spec fn delete_story_tr(s: StateView, epic_id: u32, story_id: u32) -> StateView
    recommends
        s.epics.contains_key(epic_id),
{
    let e = s.epics[epic_id];
    StateView {
        last_item_id: s.last_item_id,
        epics: s.epics.insert(
            epic_id,
            EpicView {
                name: e.name,
                description: e.description,
                status: e.status,
                stories: remove_first(e.stories, story_id),
            },
        ),
        stories: s.stories.remove(story_id),
    }
}

/// The state after a successful `update_epic_status`.
pub open spec fn update_epic_status_tr(s: StateView, epic_id: u32, status: Status) -> StateView
    recommends
        s.epics.contains_key(epic_id),
{
    let e = s.epics[epic_id];
    StateView {
        last_item_id: s.last_item_id,
        epics: s.epics.insert(
            epic_id,
            EpicView {
                name: e.name,
                description: e.description,
                status: status,
                stories: e.stories,
            },
        ),
        stories: s.stories,
    }
}

/// The state after a successful `update_story_status`.
pub open spec fn update_story_status_tr(s: StateView, story_id: u32, status: Status) -> StateView
    recommends
        s.stories.contains_key(story_id),
{
    let st = s.stories[story_id];
    StateView {
        last_item_id: s.last_item_id,
        epics: s.epics,
        stories: s.stories.insert(
            story_id,
            StoryView { name: st.name, description: st.description, status: status },
        ),
    }
}

/// A storage backend that round-trips a full `DBState` snapshot.
///
/// `stored()` is the snapshot the backend currently holds, or `None` where
/// no valid snapshot can be recovered. `reliable()` marks a backend whose
/// reads and writes never fail — the in-memory variant; a file-backed
/// implementation is not reliable, since the file may be missing, malformed
/// or unwritable. On a failed write the backend keeps its previous snapshot:
/// it never silently proceeds as though the write had succeeded.
pub trait Database: Sized {
    spec fn stored(&self) -> Option<StateView>;

    spec fn reliable(&self) -> bool;

    fn read_db(&self) -> (r: Result<DBState, DbError>)
        ensures
            (r matches Ok(s) ==> self.stored() == Some(s@)),
            (r matches Err(e) ==> e == DbError::IOError || e == DbError::FormatError),
            self.reliable() ==> r is Ok,
    ;

    fn write_db(&mut self, db_state: &DBState) -> (r: Result<(), DbError>)
        ensures
            final(self).reliable() == old(self).reliable(),
            (r is Ok ==> final(self).stored() == Some(db_state@)),
            (r matches Err(e) ==> final(self).stored() == old(self).stored() && e
                == DbError::IOError),
            old(self).reliable() ==> r is Ok,
    ;
}

/// The domain store: the only component that mutates the entity graph.
/// Every operation reads the full state from the backend, validates,
/// mutates an in-memory copy, and writes the full state back; the backend,
/// not the store, is the source of truth between calls.
pub struct ProjectsDatabase<D: Database> {
    pub database: D,
}

impl<D: Database> ProjectsDatabase<D> {
    /// A store over the given backend (dependency injection: the caller
    /// chooses the durable or the in-memory variant).
    pub fn new(database: D) -> (r: Self)
        ensures
            r.database == database,
    {
        ProjectsDatabase { database }
    }

    /// The full current snapshot; backend failures are surfaced unchanged.
    /// With no mutation in between, two reads that succeed return the same
    /// snapshot: both equal the one stored state.
    pub fn read_db(&self) -> (r: Result<DBState, DbError>)
        ensures
            (r matches Ok(s) ==> self.database.stored() == Some(s@)),
            (r matches Err(e) ==> e == DbError::IOError || e == DbError::FormatError),
            self.database.reliable() ==> r is Ok,
    {
        self.database.read_db()
    }

    /// Creates an epic under a fresh id and persists. The epic is always
    /// inserted with an empty story list, whatever list the caller supplied.
    /// Fails only when the backend fails or the id counter is exhausted —
    /// never with `NotFound`.
    pub fn create_epic(&mut self, epic: Epic) -> (r: Result<u32, DbError>)
        ensures
            final(self).database.reliable() == old(self).database.reliable(),
            (r matches Ok(id) ==> {
                let s0 = old(self).database.stored().unwrap();
                &&& old(self).database.stored() is Some
                &&& s0.last_item_id < u32::MAX
                &&& id == s0.last_item_id + 1
                &&& final(self).database.stored() == Some(create_epic_tr(s0, epic@))
            }),
            (r matches Err(e) ==> {
                &&& final(self).database.stored() == old(self).database.stored()
                &&& e != DbError::NotFound
                &&& (e == DbError::IdsExhausted ==> old(self).database.stored() is Some
                    && old(self).database.stored().unwrap().last_item_id == u32::MAX)
            }),
            old(self).database.reliable() ==> (r is Ok <==> old(
                self,
            ).database.stored().unwrap().last_item_id < u32::MAX),
    {
        let mut state = match self.database.read_db() {
            Ok(s) => s,
            Err(e) => { return Err(e); },
        };
        let ghost s0 = state@;
        if state.last_item_id == u32::MAX {
            return Err(DbError::IdsExhausted);
        }
        let id = state.last_item_id + 1;
        state.last_item_id = id;
        let fresh = Epic {
            name: epic.name,
            description: epic.description,
            status: epic.status,
            stories: Vec::new(),
        };
        state.epics.insert(id, fresh);
        proof {
            assert(state@ =~~= create_epic_tr(s0, epic@));
        }
        match self.database.write_db(&state) {
            Ok(_) => Ok(id),
            Err(e) => Err(e),
        }
    }

    /// Creates a story under a fresh id, appends that id at the end of the
    /// owning epic's list, and persists. Fails with `NotFound` when the epic
    /// does not exist; the counter is then not advanced and nothing is
    /// persisted.
    pub fn create_story(&mut self, story: Story, epic_id: u32) -> (r: Result<u32, DbError>)
        ensures
            final(self).database.reliable() == old(self).database.reliable(),
            (r matches Ok(id) ==> {
                let s0 = old(self).database.stored().unwrap();
                &&& old(self).database.stored() is Some
                &&& s0.epics.contains_key(epic_id)
                &&& s0.last_item_id < u32::MAX
                &&& id == s0.last_item_id + 1
                &&& final(self).database.stored() == Some(create_story_tr(s0, story@, epic_id))
            }),
            (r matches Err(e) ==> {
                let s0 = old(self).database.stored().unwrap();
                &&& final(self).database.stored() == old(self).database.stored()
                &&& (e == DbError::NotFound ==> old(self).database.stored() is Some
                    && !s0.epics.contains_key(epic_id))
                &&& (e == DbError::IdsExhausted ==> old(self).database.stored() is Some
                    && s0.epics.contains_key(epic_id) && s0.last_item_id == u32::MAX)
            }),
            old(self).database.reliable() ==> {
                let s0 = old(self).database.stored().unwrap();
                &&& (r is Ok <==> s0.epics.contains_key(epic_id) && s0.last_item_id < u32::MAX)
                &&& (r == Err::<u32, DbError>(DbError::NotFound) <==> !s0.epics.contains_key(
                    epic_id,
                ))
            },
    {
        let mut state = match self.database.read_db() {
            Ok(s) => s,
            Err(e) => { return Err(e); },
        };
        let ghost s0 = state@;
        if !state.epics.contains_key(&epic_id) {
            return Err(DbError::NotFound);
        }
        if state.last_item_id == u32::MAX {
            return Err(DbError::IdsExhausted);
        }
        let id = state.last_item_id + 1;
        state.last_item_id = id;
        state.stories.insert(id, story);
        let mut epic = match state.epics.remove(&epic_id) {
            Some(e) => e,
            None => vstd::pervasive::unreached(),
        };
        epic.stories.push(id);
        state.epics.insert(epic_id, epic);
        proof {
            assert(state@ =~~= create_story_tr(s0, story@, epic_id));
        }
        match self.database.write_db(&state) {
            Ok(_) => Ok(id),
            Err(e) => Err(e),
        }
    }

    /// Deletes an epic and, cascading, every story its list names, then
    /// persists. Fails with `NotFound` when the epic does not exist. The id
    /// counter is never decremented or reclaimed.
    pub fn delete_epic(&mut self, epic_id: u32) -> (r: Result<(), DbError>)
        ensures
            final(self).database.reliable() == old(self).database.reliable(),
            (r is Ok ==> {
                let s0 = old(self).database.stored().unwrap();
                &&& old(self).database.stored() is Some
                &&& s0.epics.contains_key(epic_id)
                &&& final(self).database.stored() == Some(delete_epic_tr(s0, epic_id))
            }),
            (r matches Err(e) ==> {
                &&& final(self).database.stored() == old(self).database.stored()
                &&& e != DbError::IdsExhausted
                &&& (e == DbError::NotFound ==> old(self).database.stored() is Some && !old(
                    self,
                ).database.stored().unwrap().epics.contains_key(epic_id))
            }),
            old(self).database.reliable() ==> (r is Ok <==> old(
                self,
            ).database.stored().unwrap().epics.contains_key(epic_id)),
    {
        let mut state = match self.database.read_db() {
            Ok(s) => s,
            Err(e) => { return Err(e); },
        };
        let ghost s0 = state@;
        if !state.epics.contains_key(&epic_id) {
            return Err(DbError::NotFound);
        }
        let epic = match state.epics.remove(&epic_id) {
            Some(e) => e,
            None => vstd::pervasive::unreached(),
        };
        let ghost list = epic.stories@;
        proof {
            assert(s0.stories.remove_keys(list.take(0).to_set()) =~= s0.stories);
        }
        let mut i: usize = 0;
        while i < epic.stories.len()
            invariant
                i <= epic.stories.len(),
                epic@ == s0.epics[epic_id],
                s0.epics.contains_key(epic_id),
                list == epic.stories@,
                state.last_item_id == s0.last_item_id,
                state@.epics == s0.epics.remove(epic_id),
                state@.stories == s0.stories.remove_keys(list.take(i as int).to_set()),
            decreases epic.stories.len() - i,
        {
            let sid = epic.stories[i];
            state.stories.remove(&sid);
            proof {
                assert(list.take(i as int + 1) =~= list.take(i as int).push(list[i as int]));
                assert forall|k: u32|
                    list.take(i as int + 1).to_set().contains(k) <==> (list.take(
                        i as int,
                    ).to_set().contains(k) || k == sid) by {
                    let t1 = list.take(i as int + 1);
                    let t0 = list.take(i as int);
                    if t1.contains(k) {
                        let w = choose|w: int| 0 <= w < t1.len() && t1[w] == k;
                        if w < i as int {
                            assert(t0[w] == k);
                            assert(t0.contains(k));
                        } else {
                            assert(k == sid);
                        }
                    }
                    if t0.contains(k) {
                        let w = choose|w: int| 0 <= w < t0.len() && t0[w] == k;
                        assert(t1[w] == k);
                        assert(t1.contains(k));
                    }
                    if k == sid {
                        assert(t1[i as int] == k);
                        assert(t1.contains(k));
                    }
                }
                assert(s0.stories.remove_keys(list.take(i as int).to_set()).remove(sid)
                    =~= s0.stories.remove_keys(list.take(i as int + 1).to_set()));
            }
            i += 1;
        }
        proof {
            assert(list.take(list.len() as int) =~= list);
            assert(state@ =~~= delete_epic_tr(s0, epic_id));
        }
        match self.database.write_db(&state) {
            Ok(_) => Ok(()),
            Err(e) => Err(e),
        }
    }

    /// Deletes one story: removes the first occurrence of its id from the
    /// given epic's list and the story from the global map, then persists.
    /// Fails with `NotFound` when the epic does not exist, and also when the
    /// story id is not in that epic's list — even if the story exists
    /// globally under a different epic.
    pub fn delete_story(&mut self, epic_id: u32, story_id: u32) -> (r: Result<(), DbError>)
        ensures
            final(self).database.reliable() == old(self).database.reliable(),
            (r is Ok ==> {
                let s0 = old(self).database.stored().unwrap();
                &&& old(self).database.stored() is Some
                &&& s0.epics.contains_key(epic_id)
                &&& s0.epics[epic_id].stories.contains(story_id)
                &&& final(self).database.stored() == Some(delete_story_tr(s0, epic_id, story_id))
            }),
            (r matches Err(e) ==> {
                let s0 = old(self).database.stored().unwrap();
                &&& final(self).database.stored() == old(self).database.stored()
                &&& e != DbError::IdsExhausted
                &&& (e == DbError::NotFound ==> old(self).database.stored() is Some && !(
                s0.epics.contains_key(epic_id) && s0.epics[epic_id].stories.contains(story_id)))
            }),
            old(self).database.reliable() ==> {
                let s0 = old(self).database.stored().unwrap();
                r is Ok <==> s0.epics.contains_key(epic_id) && s0.epics[epic_id].stories.contains(
                    story_id,
                )
            },
    {
        let mut state = match self.database.read_db() {
            Ok(s) => s,
            Err(e) => { return Err(e); },
        };
        let ghost s0 = state@;
        let idx_opt = match state.epics.get(&epic_id) {
            None => { return Err(DbError::NotFound); },
            Some(epic) => find_story_index(&epic.stories, story_id),
        };
        proof {
            s0.epics[epic_id].stories.index_of_first_ensures(story_id);
        }
        let idx = match idx_opt {
            None => { return Err(DbError::NotFound); },
            Some(i) => i,
        };
        let mut epic = match state.epics.remove(&epic_id) {
            Some(e) => e,
            None => vstd::pervasive::unreached(),
        };
        epic.stories.remove(idx);
        state.epics.insert(epic_id, epic);
        state.stories.remove(&story_id);
        proof {
            assert(state@ =~~= delete_story_tr(s0, epic_id, story_id));
        }
        match self.database.write_db(&state) {
            Ok(_) => Ok(()),
            Err(e) => Err(e),
        }
    }

    /// Overwrites an epic's status and persists; no transition rule is
    /// enforced. Fails with `NotFound` when the epic does not exist.
    pub fn update_epic_status(&mut self, epic_id: u32, status: Status) -> (r: Result<
        (),
        DbError,
    >)
        ensures
            final(self).database.reliable() == old(self).database.reliable(),
            (r is Ok ==> {
                let s0 = old(self).database.stored().unwrap();
                &&& old(self).database.stored() is Some
                &&& s0.epics.contains_key(epic_id)
                &&& final(self).database.stored() == Some(
                    update_epic_status_tr(s0, epic_id, status),
                )
            }),
            (r matches Err(e) ==> {
                &&& final(self).database.stored() == old(self).database.stored()
                &&& e != DbError::IdsExhausted
                &&& (e == DbError::NotFound ==> old(self).database.stored() is Some && !old(
                    self,
                ).database.stored().unwrap().epics.contains_key(epic_id))
            }),
            old(self).database.reliable() ==> (r is Ok <==> old(
                self,
            ).database.stored().unwrap().epics.contains_key(epic_id)),
    {
        let mut state = match self.database.read_db() {
            Ok(s) => s,
            Err(e) => { return Err(e); },
        };
        let ghost s0 = state@;
        if !state.epics.contains_key(&epic_id) {
            return Err(DbError::NotFound);
        }
        let mut epic = match state.epics.remove(&epic_id) {
            Some(e) => e,
            None => vstd::pervasive::unreached(),
        };
        epic.status = status;
        state.epics.insert(epic_id, epic);
        proof {
            assert(state@ =~~= update_epic_status_tr(s0, epic_id, status));
        }
        match self.database.write_db(&state) {
            Ok(_) => Ok(()),
            Err(e) => Err(e),
        }
    }

    /// Overwrites a story's status and persists; no transition rule is
    /// enforced. Fails with `NotFound` when the story does not exist in the
    /// global map.
    pub fn update_story_status(&mut self, story_id: u32, status: Status) -> (r: Result<
        (),
        DbError,
    >)
        ensures
            final(self).database.reliable() == old(self).database.reliable(),
            (r is Ok ==> {
                let s0 = old(self).database.stored().unwrap();
                &&& old(self).database.stored() is Some
                &&& s0.stories.contains_key(story_id)
                &&& final(self).database.stored() == Some(
                    update_story_status_tr(s0, story_id, status),
                )
            }),
            (r matches Err(e) ==> {
                &&& final(self).database.stored() == old(self).database.stored()
                &&& e != DbError::IdsExhausted
                &&& (e == DbError::NotFound ==> old(self).database.stored() is Some && !old(
                    self,
                ).database.stored().unwrap().stories.contains_key(story_id))
            }),
            old(self).database.reliable() ==> (r is Ok <==> old(
                self,
            ).database.stored().unwrap().stories.contains_key(story_id)),
    {
        let mut state = match self.database.read_db() {
            Ok(s) => s,
            Err(e) => { return Err(e); },
        };
        let ghost s0 = state@;
        if !state.stories.contains_key(&story_id) {
            return Err(DbError::NotFound);
        }
        let mut story = match state.stories.remove(&story_id) {
            Some(s) => s,
            None => vstd::pervasive::unreached(),
        };
        story.status = status;
        state.stories.insert(story_id, story);
        proof {
            assert(state@ =~~= update_story_status_tr(s0, story_id, status));
        }
        match self.database.write_db(&state) {
            Ok(_) => Ok(()),
            Err(e) => Err(e),
        }
    }
}

/// Monotonic unique ids, one half: in a state whose identifiers are bounded
/// by the counter, the id a create operation returns — `last_item_id + 1` —
/// collides with no epic and no story already present. Identifiers are never
/// reused, even after a delete.
pub proof fn lemma_fresh_id_unused(s: StateView)
    requires
        ids_bounded(s),
        s.last_item_id < u32::MAX,
    ensures
        !s.epics.contains_key((s.last_item_id + 1) as u32),
        !s.stories.contains_key((s.last_item_id + 1) as u32),
{
}

/// Monotonic unique ids, the other half: a create operation moves the
/// counter up to the id it returns, and no operation ever lowers it — so
/// over any sequence of operations, each created id is strictly greater
/// than every id returned before it.
pub proof fn lemma_counter_never_decreases(
    s: StateView,
    epic: EpicView,
    story: StoryView,
    epic_id: u32,
    story_id: u32,
    status: Status,
)
    ensures
        s.last_item_id < u32::MAX ==> create_epic_tr(s, epic).last_item_id == s.last_item_id + 1,
        s.last_item_id < u32::MAX ==> create_story_tr(s, story, epic_id).last_item_id
            == s.last_item_id + 1,
        delete_epic_tr(s, epic_id).last_item_id == s.last_item_id,
        delete_story_tr(s, epic_id, story_id).last_item_id == s.last_item_id,
        update_epic_status_tr(s, epic_id, status).last_item_id == s.last_item_id,
        update_story_status_tr(s, story_id, status).last_item_id == s.last_item_id,
{
}

/// Cascade delete: after `delete_epic`, the epic is gone and so is every
/// story its list named — those ids are absent from the story map.
pub proof fn lemma_delete_epic_cascades(s: StateView, epic_id: u32)
    requires
        s.epics.contains_key(epic_id),
    ensures
        !delete_epic_tr(s, epic_id).epics.contains_key(epic_id),
        forall|i: int|
            0 <= i < s.epics[epic_id].stories.len() ==> !delete_epic_tr(
                s,
                epic_id,
            ).stories.contains_key(#[trigger] s.epics[epic_id].stories[i]),
{
    let list = s.epics[epic_id].stories;
    assert forall|i: int| 0 <= i < list.len() implies !delete_epic_tr(
        s,
        epic_id,
    ).stories.contains_key(#[trigger] list[i]) by {
        assert(list.to_set().contains(list[i]));
    }
}

/// Referential integrity holds of the state a database starts from.
pub proof fn lemma_empty_state_wf()
    ensures
        wf_state(crate::models::empty_state_view()),
{
}

/// Referential integrity is preserved by `create_epic`: the new epic lists
/// nothing, every other list is unchanged.
pub proof fn lemma_create_epic_preserves_wf(s: StateView, epic: EpicView)
    requires
        wf_state(s),
        s.last_item_id < u32::MAX,
    ensures
        wf_state(create_epic_tr(s, epic)),
{
    let id = (s.last_item_id + 1) as u32;
    let s1 = create_epic_tr(s, epic);
    assert forall|eid: u32, i: int|
        s1.epics.contains_key(eid) && 0 <= i < s1.epics[eid].stories.len()
        implies s1.stories.contains_key(#[trigger] s1.epics[eid].stories[i]) by {
        assert(eid != id);
        assert(s1.epics[eid] == s.epics[eid]);
        assert(s.stories.contains_key(s.epics[eid].stories[i]));
    }
    assert forall|e1: u32, i1: int, e2: u32, i2: int|
        s1.epics.contains_key(e1) && 0 <= i1 < s1.epics[e1].stories.len()
            && s1.epics.contains_key(e2) && 0 <= i2 < s1.epics[e2].stories.len()
            && #[trigger] s1.epics[e1].stories[i1] == #[trigger] s1.epics[e2].stories[i2]
        implies e1 == e2 && i1 == i2 by {
        assert(e1 != id && e2 != id);
        assert(s1.epics[e1] == s.epics[e1] && s1.epics[e2] == s.epics[e2]);
        assert(s.epics[e1].stories[i1] == s.epics[e2].stories[i2]);
    }
}

/// Referential integrity is preserved by `create_story`: the fresh id is
/// listed exactly once, by its owning epic, and points at the fresh story.
pub proof fn lemma_create_story_preserves_wf(s: StateView, story: StoryView, epic_id: u32)
    requires
        wf_state(s),
        s.epics.contains_key(epic_id),
        s.last_item_id < u32::MAX,
    ensures
        wf_state(create_story_tr(s, story, epic_id)),
{
    let id = (s.last_item_id + 1) as u32;
    let s1 = create_story_tr(s, story, epic_id);
    let e0 = s.epics[epic_id];
    // the fresh id occurs in no list of s
    assert forall|e: u32, i: int|
        s.epics.contains_key(e) && 0 <= i < s.epics[e].stories.len()
        implies #[trigger] s.epics[e].stories[i] != id by {
        assert(s.stories.contains_key(s.epics[e].stories[i]));
    }
    assert forall|eid: u32, i: int|
        s1.epics.contains_key(eid) && 0 <= i < s1.epics[eid].stories.len()
        implies s1.stories.contains_key(#[trigger] s1.epics[eid].stories[i]) by {
        if eid == epic_id {
            if i < e0.stories.len() {
                assert(s1.epics[eid].stories[i] == e0.stories[i]);
                assert(s.stories.contains_key(e0.stories[i]));
            } else {
                assert(s1.epics[eid].stories[i] == id);
            }
        } else {
            assert(s1.epics[eid] == s.epics[eid]);
            assert(s.stories.contains_key(s.epics[eid].stories[i]));
        }
    }
    assert forall|e1: u32, i1: int, e2: u32, i2: int|
        s1.epics.contains_key(e1) && 0 <= i1 < s1.epics[e1].stories.len()
            && s1.epics.contains_key(e2) && 0 <= i2 < s1.epics[e2].stories.len()
            && #[trigger] s1.epics[e1].stories[i1] == #[trigger] s1.epics[e2].stories[i2]
        implies e1 == e2 && i1 == i2 by {
        let x1 = s1.epics[e1].stories[i1];
        let new1 = e1 == epic_id && i1 == e0.stories.len();
        let new2 = e2 == epic_id && i2 == e0.stories.len();
        if new1 && new2 {
        } else if new1 {
            assert(x1 == id);
            assert(s1.epics[e2].stories[i2] == s.epics[e2].stories[i2]);
            assert(false);
        } else if new2 {
            assert(s1.epics[e2].stories[i2] == id);
            assert(s1.epics[e1].stories[i1] == s.epics[e1].stories[i1]);
            assert(false);
        } else {
            assert(s1.epics[e1].stories[i1] == s.epics[e1].stories[i1]);
            assert(s1.epics[e2].stories[i2] == s.epics[e2].stories[i2]);
            assert(s.epics[e1].stories[i1] == s.epics[e2].stories[i2]);
        }
    }
}

/// Referential integrity is preserved by `delete_epic`: a story listed by a
/// surviving epic cannot have been listed by the deleted one, so the
/// cascade removes nothing another epic still points at.
pub proof fn lemma_delete_epic_preserves_wf(s: StateView, epic_id: u32)
    requires
        wf_state(s),
        s.epics.contains_key(epic_id),
    ensures
        wf_state(delete_epic_tr(s, epic_id)),
{
    let s1 = delete_epic_tr(s, epic_id);
    let removed = s.epics[epic_id].stories;
    assert forall|eid: u32, i: int|
        s1.epics.contains_key(eid) && 0 <= i < s1.epics[eid].stories.len()
        implies s1.stories.contains_key(#[trigger] s1.epics[eid].stories[i]) by {
        assert(eid != epic_id);
        assert(s1.epics[eid] == s.epics[eid]);
        let x = s.epics[eid].stories[i];
        assert(s.stories.contains_key(x));
        if removed.to_set().contains(x) {
            let j = choose|j: int| 0 <= j < removed.len() && removed[j] == x;
            assert(s.epics[epic_id].stories[j] == s.epics[eid].stories[i]);
            assert(false);
        }
    }
    assert forall|e1: u32, i1: int, e2: u32, i2: int|
        s1.epics.contains_key(e1) && 0 <= i1 < s1.epics[e1].stories.len()
            && s1.epics.contains_key(e2) && 0 <= i2 < s1.epics[e2].stories.len()
            && #[trigger] s1.epics[e1].stories[i1] == #[trigger] s1.epics[e2].stories[i2]
        implies e1 == e2 && i1 == i2 by {
        assert(s1.epics[e1] == s.epics[e1] && s1.epics[e2] == s.epics[e2]);
        assert(s.epics[e1].stories[i1] == s.epics[e2].stories[i2]);
    }
}

/// Referential integrity is preserved by `delete_story`: the id leaves the
/// one list that named it, and it named no other story.
pub proof fn lemma_delete_story_preserves_wf(s: StateView, epic_id: u32, story_id: u32)
    requires
        wf_state(s),
        s.epics.contains_key(epic_id),
        s.epics[epic_id].stories.contains(story_id),
    ensures
        wf_state(delete_story_tr(s, epic_id, story_id)),
{
    let s1 = delete_story_tr(s, epic_id, story_id);
    let list = s.epics[epic_id].stories;
    list.index_of_first_ensures(story_id);
    let idx = list.index_of_first(story_id).unwrap();
    let shrunk = remove_first(list, story_id);
    // each slot of the shrunk list carries an old entry other than story_id
    assert forall|i: int| 0 <= i < shrunk.len() implies #[trigger] shrunk[i] != story_id
        && s.stories.contains_key(shrunk[i]) by {
        if i < idx {
            assert(shrunk[i] == list[i]);
            assert(s.epics[epic_id].stories[i] == list[i]);
            assert(s.stories.contains_key(list[i]));
            if list[i] == story_id {
                assert(s.epics[epic_id].stories[i] == s.epics[epic_id].stories[idx]);
                assert(false);
            }
        } else {
            assert(shrunk[i] == list[i + 1]);
            assert(s.epics[epic_id].stories[i + 1] == list[i + 1]);
            assert(s.stories.contains_key(list[i + 1]));
            if list[i + 1] == story_id {
                assert(s.epics[epic_id].stories[i + 1] == s.epics[epic_id].stories[idx]);
                assert(false);
            }
        }
    }
    assert forall|eid: u32, i: int|
        s1.epics.contains_key(eid) && 0 <= i < s1.epics[eid].stories.len()
        implies s1.stories.contains_key(#[trigger] s1.epics[eid].stories[i]) by {
        if eid == epic_id {
            assert(s1.epics[eid].stories == shrunk);
            assert(shrunk[i] != story_id && s.stories.contains_key(shrunk[i]));
        } else {
            assert(s1.epics[eid] == s.epics[eid]);
            let x = s.epics[eid].stories[i];
            assert(s.stories.contains_key(x));
            if x == story_id {
                assert(s.epics[eid].stories[i] == s.epics[epic_id].stories[idx]);
                assert(false);
            }
        }
    }
    // positions of the shrunk list map injectively into the old list
    assert forall|e1: u32, i1: int, e2: u32, i2: int|
        s1.epics.contains_key(e1) && 0 <= i1 < s1.epics[e1].stories.len()
            && s1.epics.contains_key(e2) && 0 <= i2 < s1.epics[e2].stories.len()
            && #[trigger] s1.epics[e1].stories[i1] == #[trigger] s1.epics[e2].stories[i2]
        implies e1 == e2 && i1 == i2 by {
        let j1 = if e1 == epic_id && i1 >= idx { i1 + 1 } else { i1 };
        let j2 = if e2 == epic_id && i2 >= idx { i2 + 1 } else { i2 };
        assert(s1.epics[e1].stories[i1] == s.epics[e1].stories[j1]);
        assert(s1.epics[e2].stories[i2] == s.epics[e2].stories[j2]);
        assert(s.epics[e1].stories[j1] == s.epics[e2].stories[j2]);
        assert(e1 == e2 && j1 == j2);
    }
}

/// Referential integrity is preserved by the status updates: neither the
/// lists nor the key sets change.
pub proof fn lemma_update_status_preserves_wf(s: StateView, epic_id: u32, story_id: u32, status: Status)
    requires
        wf_state(s),
    ensures
        s.epics.contains_key(epic_id) ==> wf_state(update_epic_status_tr(s, epic_id, status)),
        s.stories.contains_key(story_id) ==> wf_state(update_story_status_tr(s, story_id, status)),
{
    if s.epics.contains_key(epic_id) {
        let s1 = update_epic_status_tr(s, epic_id, status);
        assert forall|eid: u32, i: int|
            s1.epics.contains_key(eid) && 0 <= i < s1.epics[eid].stories.len()
            implies s1.stories.contains_key(#[trigger] s1.epics[eid].stories[i]) by {
            assert(s1.epics[eid].stories == s.epics[eid].stories);
            assert(s.stories.contains_key(s.epics[eid].stories[i]));
        }
        assert forall|e1: u32, i1: int, e2: u32, i2: int|
            s1.epics.contains_key(e1) && 0 <= i1 < s1.epics[e1].stories.len()
                && s1.epics.contains_key(e2) && 0 <= i2 < s1.epics[e2].stories.len()
                && #[trigger] s1.epics[e1].stories[i1] == #[trigger] s1.epics[e2].stories[i2]
            implies e1 == e2 && i1 == i2 by {
            assert(s1.epics[e1].stories == s.epics[e1].stories);
            assert(s1.epics[e2].stories == s.epics[e2].stories);
            assert(s.epics[e1].stories[i1] == s.epics[e2].stories[i2]);
        }
    }
    if s.stories.contains_key(story_id) {
        let s1 = update_story_status_tr(s, story_id, status);
        assert forall|eid: u32, i: int|
            s1.epics.contains_key(eid) && 0 <= i < s1.epics[eid].stories.len()
            implies s1.stories.contains_key(#[trigger] s1.epics[eid].stories[i]) by {
            assert(s.stories.contains_key(s.epics[eid].stories[i]));
        }
    }
}

/// The index of the first occurrence of `story_id` in `stories`, if any.
fn find_story_index(stories: &Vec<u32>, story_id: u32) -> (r: Option<usize>)
    ensures
        (r matches Some(i) ==> stories@.index_of_first(story_id) == Some(i as int)),
        (r is None ==> stories@.index_of_first(story_id) is None),
{
    proof {
        stories@.index_of_first_ensures(story_id);
    }
    let mut i: usize = 0;
    while i < stories.len()
        invariant
            i <= stories@.len(),
            forall|j: int| 0 <= j < i ==> stories@[j] != story_id,
        decreases stories@.len() - i,
    {
        if stories[i] == story_id {
            proof {
                stories@.index_of_first_ensures(story_id);
                assert(stories@.contains(story_id));
            }
            return Some(i);
        }
        i += 1;
    }
    proof {
        stories@.index_of_first_ensures(story_id);
        assert(forall|j: int| 0 <= j < stories@.len() ==> stories@[j] != story_id);
        if stories@.contains(story_id) {
            let w = choose|w: int| 0 <= w < stories@.len() && stories@[w] == story_id;
            assert(false);
        }
    }
    None
}

/// The in-memory backend: holds the last written snapshot, never fails.
/// It lets the domain store be exercised without disk I/O.
pub struct MockDb {
    last_written_state: DBState,
}

impl MockDb {
    /// A fresh in-memory backend holding the empty state.
    pub fn new() -> (r: Self)
        ensures
            r.stored() == Some(crate::models::empty_state_view()),
            r.reliable(),
    {
        MockDb { last_written_state: DBState::new_empty() }
    }
}

impl Database for MockDb {
    closed spec fn stored(&self) -> Option<StateView> {
        Some(self.last_written_state@)
    }

    open spec fn reliable(&self) -> bool {
        true
    }

    fn read_db(&self) -> (r: Result<DBState, DbError>) {
        let s = &self.last_written_state;
        let copy = DBState {
            last_item_id: s.last_item_id,
            epics: s.epics.clone(),
            stories: s.stories.clone(),
        };
        proof {
            assert(copy@ =~~= s@);
        }
        Ok(copy)
    }

    fn write_db(&mut self, db_state: &DBState) -> (r: Result<(), DbError>) {
        let copy = DBState {
            last_item_id: db_state.last_item_id,
            epics: db_state.epics.clone(),
            stories: db_state.stories.clone(),
        };
        proof {
            assert(copy@ =~~= db_state@);
        }
        self.last_written_state = copy;
        Ok(())
    }
}

} // verus!

