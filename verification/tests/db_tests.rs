use std::collections::HashMap;

use issue_tracker::db::{Database, DbError, MockDb, ProjectsDatabase};
use issue_tracker::models::{status_from_code, DBState, Epic, Status, Story};

#[test]
fn create_epic_should_work() {
    let mut db = ProjectsDatabase { database: MockDb::new() };
    let epic = Epic::new("".to_owned(), "".to_owned());

    let result = db.create_epic(epic.clone());

    assert_eq!(result.is_ok(), true);

    let id = result.unwrap();
    let db_state = db.read_db().unwrap();

    let expected_id = 1;

    assert_eq!(id, expected_id);
    assert_eq!(db_state.last_item_id, expected_id);
    assert_eq!(db_state.epics.get(&id), Some(&epic));
}

#[test]
fn create_story_should_error_if_invalid_epic_id() {
    let mut db = ProjectsDatabase { database: MockDb::new() };
    let story = Story::new("".to_owned(), "".to_owned());

    let non_existent_epic_id = 999;

    let result = db.create_story(story, non_existent_epic_id);
    assert_eq!(result.is_err(), true);
}

#[test]
fn create_story_should_work() {
    let mut db = ProjectsDatabase { database: MockDb::new() };
    let epic = Epic::new("".to_owned(), "".to_owned());
    let story = Story::new("".to_owned(), "".to_owned());

    let result = db.create_epic(epic);
    assert_eq!(result.is_ok(), true);

    let epic_id = result.unwrap();

    let result = db.create_story(story.clone(), epic_id);
    assert_eq!(result.is_ok(), true);

    let id = result.unwrap();
    let db_state = db.read_db().unwrap();

    let expected_id = 2;

    assert_eq!(id, expected_id);
    assert_eq!(db_state.last_item_id, expected_id);
    assert_eq!(db_state.epics.get(&epic_id).unwrap().stories.contains(&id), true);
    assert_eq!(db_state.stories.get(&id), Some(&story));
}

#[test]
fn delete_epic_should_error_if_invalid_epic_id() {
    let mut db = ProjectsDatabase { database: MockDb::new() };

    let non_existent_epic_id = 999;

    let result = db.delete_epic(non_existent_epic_id);
    assert_eq!(result.is_err(), true);
}

#[test]
fn delete_epic_should_work() {
    let mut db = ProjectsDatabase { database: MockDb::new() };
    let epic = Epic::new("".to_owned(), "".to_owned());
    let story = Story::new("".to_owned(), "".to_owned());

    let result = db.create_epic(epic);
    assert_eq!(result.is_ok(), true);

    let epic_id = result.unwrap();

    let result = db.create_story(story, epic_id);
    assert_eq!(result.is_ok(), true);

    let story_id = result.unwrap();

    let result = db.delete_epic(epic_id);
    assert_eq!(result.is_ok(), true);

    let db_state = db.read_db().unwrap();

    let expected_last_id = 2;

    assert_eq!(db_state.last_item_id, expected_last_id);
    assert_eq!(db_state.epics.get(&epic_id), None);
    assert_eq!(db_state.stories.get(&story_id), None);
}

#[test]
fn delete_story_should_error_if_invalid_epic_id() {
    let mut db = ProjectsDatabase { database: MockDb::new() };
    let epic = Epic::new("".to_owned(), "".to_owned());
    let story = Story::new("".to_owned(), "".to_owned());

    let result = db.create_epic(epic);
    assert_eq!(result.is_ok(), true);

    let epic_id = result.unwrap();

    let result = db.create_story(story, epic_id);
    assert_eq!(result.is_ok(), true);

    let story_id = result.unwrap();

    let non_existent_epic_id = 999;

    let result = db.delete_story(non_existent_epic_id, story_id);
    assert_eq!(result.is_err(), true);
}

#[test]
fn delete_story_should_error_if_story_not_found_in_epic() {
    let mut db = ProjectsDatabase { database: MockDb::new() };
    let epic = Epic::new("".to_owned(), "".to_owned());
    let story = Story::new("".to_owned(), "".to_owned());

    let result = db.create_epic(epic);
    assert_eq!(result.is_ok(), true);

    let epic_id = result.unwrap();

    let result = db.create_story(story, epic_id);
    assert_eq!(result.is_ok(), true);

    let non_existent_story_id = 999;

    let result = db.delete_story(epic_id, non_existent_story_id);
    assert_eq!(result.is_err(), true);
}

#[test]
fn delete_story_should_work() {
    let mut db = ProjectsDatabase { database: MockDb::new() };
    let epic = Epic::new("".to_owned(), "".to_owned());
    let story = Story::new("".to_owned(), "".to_owned());

    let result = db.create_epic(epic);
    assert_eq!(result.is_ok(), true);

    let epic_id = result.unwrap();

    let result = db.create_story(story, epic_id);
    assert_eq!(result.is_ok(), true);

    let story_id = result.unwrap();

    let result = db.delete_story(epic_id, story_id);
    assert_eq!(result.is_ok(), true);

    let db_state = db.read_db().unwrap();

    let expected_last_id = 2;

    assert_eq!(db_state.last_item_id, expected_last_id);
    assert_eq!(db_state.epics.get(&epic_id).unwrap().stories.contains(&story_id), false);
    assert_eq!(db_state.stories.get(&story_id), None);
}

#[test]
fn update_epic_status_should_error_if_invalid_epic_id() {
    let mut db = ProjectsDatabase { database: MockDb::new() };

    let non_existent_epic_id = 999;

    let result = db.update_epic_status(non_existent_epic_id, Status::Closed);
    assert_eq!(result.is_err(), true);
}

#[test]
fn update_epic_status_should_work() {
    let mut db = ProjectsDatabase { database: MockDb::new() };
    let epic = Epic::new("".to_owned(), "".to_owned());

    let result = db.create_epic(epic);

    assert_eq!(result.is_ok(), true);

    let epic_id = result.unwrap();

    let result = db.update_epic_status(epic_id, Status::Closed);

    assert_eq!(result.is_ok(), true);

    let db_state = db.read_db().unwrap();

    assert_eq!(db_state.epics.get(&epic_id).unwrap().status, Status::Closed);
}

#[test]
fn update_story_status_should_error_if_invalid_story_id() {
    let mut db = ProjectsDatabase { database: MockDb::new() };

    let non_existent_story_id = 999;

    let result = db.update_story_status(non_existent_story_id, Status::Closed);
    assert_eq!(result.is_err(), true);
}

#[test]
fn update_story_status_should_work() {
    let mut db = ProjectsDatabase { database: MockDb::new() };
    let epic = Epic::new("".to_owned(), "".to_owned());
    let story = Story::new("".to_owned(), "".to_owned());

    let result = db.create_epic(epic);

    let epic_id = result.unwrap();

    let result = db.create_story(story, epic_id);

    let story_id = result.unwrap();

    let result = db.update_story_status(story_id, Status::Closed);

    assert_eq!(result.is_ok(), true);

    let db_state = db.read_db().unwrap();

    assert_eq!(db_state.stories.get(&story_id).unwrap().status, Status::Closed);
}

#[test]
fn created_ids_are_monotonic_and_never_reused() {
    let mut db = ProjectsDatabase { database: MockDb::new() };

    let e1 = db.create_epic(Epic::new("a".to_owned(), "".to_owned())).unwrap();
    let s1 = db.create_story(Story::new("b".to_owned(), "".to_owned()), e1).unwrap();
    let e2 = db.create_epic(Epic::new("c".to_owned(), "".to_owned())).unwrap();

    assert_eq!(e1, 1);
    assert_eq!(s1, 2);
    assert_eq!(e2, 3);

    db.delete_epic(e1).unwrap();

    let e3 = db.create_epic(Epic::new("d".to_owned(), "".to_owned())).unwrap();
    assert_eq!(e3, 4);
    assert_eq!(db.read_db().unwrap().last_item_id, 4);
}

#[test]
fn failed_create_story_does_not_advance_counter() {
    let mut db = ProjectsDatabase { database: MockDb::new() };
    let story = Story::new("".to_owned(), "".to_owned());

    let result = db.create_story(story, 999);
    assert_eq!(result, Err(DbError::NotFound));
    assert_eq!(db.read_db().unwrap().last_item_id, 0);
}

#[test]
fn failed_delete_story_keeps_epic_list() {
    let mut db = ProjectsDatabase { database: MockDb::new() };
    let epic_id = db.create_epic(Epic::new("".to_owned(), "".to_owned())).unwrap();
    let story_id = db.create_story(Story::new("".to_owned(), "".to_owned()), epic_id).unwrap();

    let result = db.delete_story(epic_id, 999);
    assert_eq!(result, Err(DbError::NotFound));

    let db_state = db.read_db().unwrap();
    assert_eq!(db_state.epics.get(&epic_id).unwrap().stories.contains(&story_id), true);
    assert_eq!(db_state.stories.contains_key(&story_id), true);
}

#[test]
fn read_db_twice_without_mutation_yields_equal_snapshots() {
    let mut db = ProjectsDatabase { database: MockDb::new() };
    let epic_id = db.create_epic(Epic::new("e".to_owned(), "d".to_owned())).unwrap();
    db.create_story(Story::new("s".to_owned(), "t".to_owned()), epic_id).unwrap();

    let first = db.read_db().unwrap();
    let second = db.read_db().unwrap();
    assert_eq!(first, second);
}

#[test]
fn status_from_code_maps_the_prompt_codes() {
    assert_eq!(status_from_code(1), Some(Status::Open));
    assert_eq!(status_from_code(2), Some(Status::InProgress));
    assert_eq!(status_from_code(3), Some(Status::Resolved));
    assert_eq!(status_from_code(4), Some(Status::Closed));
    assert_eq!(status_from_code(0), None);
    assert_eq!(status_from_code(5), None);
}

#[test]
fn create_fails_when_the_id_counter_is_exhausted() {
    let mut db = ProjectsDatabase { database: MockDb::new() };
    let full = DBState {
        last_item_id: u32::MAX,
        epics: HashMap::new(),
        stories: HashMap::new(),
    };
    db.database.write_db(&full).unwrap();

    let result = db.create_epic(Epic::new("".to_owned(), "".to_owned()));
    assert_eq!(result, Err(DbError::IdsExhausted));
    assert_eq!(db.read_db().unwrap().last_item_id, u32::MAX);
}
