//! The entity model: lifecycle statuses, epics, stories, and the root
//! `DBState` aggregate that is persisted as a whole.

use std::collections::HashMap;
use vstd::prelude::*;

verus! {

/// An action requested by the user interface; the navigation layer hands
/// these around, the domain layer never interprets them.
#[derive(Debug, PartialEq, Eq)]
pub enum Action {
    NavigateToEpicDetail { epic_id: u32 },
    NavigateToStoryDetail { epic_id: u32, story_id: u32 },
    NavigateToPreviousPage,
    CreateEpic,
    UpdateEpicStatus { epic_id: u32 },
    DeleteEpic { epic_id: u32 },
    CreateStory { epic_id: u32 },
    UpdateStoryStatus { story_id: u32 },
    DeleteStory { epic_id: u32, story_id: u32 },
    Exit,
}

/// Lifecycle stage of an epic or a story. No ordering is enforced between
/// the values: any status may be overwritten by any other.
#[derive(Clone, Copy, Debug, PartialEq, Eq, Structural)]
pub enum Status {
    Open,
    InProgress,
    Resolved,
    Closed,
}

/// Maps the numeric code used by the status prompt to a status:
/// 1 is `Open`, 2 is `InProgress`, 3 is `Resolved`, 4 is `Closed`,
/// and every other code is rejected.
pub fn status_from_code(code: u8) -> (r: Option<Status>)
    ensures
        r == (match code {
            1u8 => Some(Status::Open),
            2u8 => Some(Status::InProgress),
            3u8 => Some(Status::Resolved),
            4u8 => Some(Status::Closed),
            _ => None::<Status>,
        }),
{
    match code {
        1u8 => Some(Status::Open),
        2u8 => Some(Status::InProgress),
        3u8 => Some(Status::Resolved),
        4u8 => Some(Status::Closed),
        _ => None,
    }
}

/// A top-level unit of work grouping zero or more stories; `stories` holds
/// the identifiers of the stories that belong to it, in insertion order.
#[derive(Clone, Debug, PartialEq)]
pub struct Epic {
    pub name: String,
    pub description: String,
    pub status: Status,
    pub stories: Vec<u32>,
}

/// The mathematical value of an [`Epic`].
#[verifier::ext_equal]
pub struct EpicView {
    pub name: Seq<char>,
    pub description: Seq<char>,
    pub status: Status,
    pub stories: Seq<u32>,
}

impl View for Epic {
    type V = EpicView;

    open spec fn view(&self) -> EpicView {
        EpicView {
            name: self.name@,
            description: self.description@,
            status: self.status,
            stories: self.stories@,
        }
    }
}

impl Epic {
    /// A fresh epic: the given texts, status `Open`, and no stories.
    pub fn new(name: String, description: String) -> (r: Self)
        ensures
            r@ == (EpicView {
                name: name@,
                description: description@,
                status: Status::Open,
                stories: Seq::<u32>::empty(),
            }),
    {
        let r = Epic { name, description, status: Status::Open, stories: vec![] };
        proof {
            assert(r@.stories =~= Seq::<u32>::empty());
            assert(r@ =~= EpicView {
                name: r.name@,
                description: r.description@,
                status: Status::Open,
                stories: Seq::<u32>::empty(),
            });
        }
        r
    }
}

/// A leaf unit of work. A story does not record its owning epic; ownership
/// is recorded only on the epic's side.
#[derive(Clone, Debug, PartialEq)]
pub struct Story {
    pub name: String,
    pub description: String,
    pub status: Status,
}

/// The mathematical value of a [`Story`].
#[verifier::ext_equal]
pub struct StoryView {
    pub name: Seq<char>,
    pub description: Seq<char>,
    pub status: Status,
}

impl View for Story {
    type V = StoryView;

    open spec fn view(&self) -> StoryView {
        StoryView { name: self.name@, description: self.description@, status: self.status }
    }
}

impl Story {
    /// A fresh story: the given texts and status `Open`.
    pub fn new(name: String, description: String) -> (r: Self)
        ensures
            r@ == (StoryView { name: name@, description: description@, status: Status::Open }),
    {
        Story { name, description, status: Status::Open }
    }
}

/// The root aggregate: the id counter and both entity maps. `EpicId` and
/// `StoryId` share the one namespace fed by `last_item_id`, so no epic and
/// no story of the same database ever collide on an identifier.
#[derive(Clone, Debug, PartialEq)]
pub struct DBState {
    pub last_item_id: u32,
    pub epics: HashMap<u32, Epic>,
    pub stories: HashMap<u32, Story>,
}

/// The mathematical value of a [`DBState`].
#[verifier::ext_equal]
pub struct StateView {
    pub last_item_id: u32,
    pub epics: Map<u32, EpicView>,
    pub stories: Map<u32, StoryView>,
}

impl View for DBState {
    type V = StateView;

    open spec fn view(&self) -> StateView {
        StateView {
            last_item_id: self.last_item_id,
            epics: self.epics@.map_values(|e: Epic| e@),
            stories: self.stories@.map_values(|s: Story| s@),
        }
    }
}

/// The state a database starts from: counter at zero, no entities.
pub open spec fn empty_state_view() -> StateView {
    StateView {
        last_item_id: 0,
        epics: Map::<u32, EpicView>::empty(),
        stories: Map::<u32, StoryView>::empty(),
    }
}

impl DBState {
    /// The empty state: `last_item_id` zero and both maps empty.
    pub fn new_empty() -> (r: Self)
        ensures
            r@ == empty_state_view(),
    {
        let r = DBState {
            last_item_id: 0,
            epics: HashMap::new(),
            stories: HashMap::new(),
        };
        proof {
            assert(r@ =~= empty_state_view());
        }
        r
    }
}

} // verus!
