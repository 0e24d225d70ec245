use std::collections::HashMap;

use issue_tracker::codec::{decode_state, encode_state};
use issue_tracker::models::{DBState, Epic, Status, Story};

#[test]
fn read_db_should_fail_with_invalid_json() {
    let file_contents = r#"{ "last_item_id": 0 epics: {} stories {} }"#;
    assert_eq!(decode_state(file_contents).is_none(), true);
}

#[test]
fn read_db_should_parse_json_file() {
    let file_contents = r#"{ "last_item_id": 0, "epics": {}, "stories": {} }"#;
    assert_eq!(decode_state(file_contents).is_some(), true);
}

#[test]
fn write_db_should_work() {
    let story = Story { name: "epic 1".to_owned(), description: "epic 1".to_owned(), status: Status::Open };
    let epic = Epic { name: "epic 1".to_owned(), description: "epic 1".to_owned(), status: Status::Open, stories: vec![2] };

    let mut stories = HashMap::new();
    stories.insert(2, story);

    let mut epics = HashMap::new();
    epics.insert(1, epic);

    let state = DBState { last_item_id: 2, epics, stories };

    let text = encode_state(&state);
    let read_back = decode_state(&text).unwrap();

    assert_eq!(read_back, state);
}

#[test]
fn encode_empty_state_is_canonical() {
    let state = DBState::new_empty();
    assert_eq!(encode_state(&state), "{\"last_item_id\":0,\"epics\":{},\"stories\":{}}");
}

#[test]
fn encode_escapes_and_decode_unescapes() {
    let name = "a \"quoted\" \\ name\nwith\tcontrol\u{1}chars".to_owned();
    let epic = Epic { name: name.clone(), description: "".to_owned(), status: Status::Resolved, stories: vec![] };
    let mut epics = HashMap::new();
    epics.insert(1, epic);
    let state = DBState { last_item_id: 1, epics, stories: HashMap::new() };

    let text = encode_state(&state);
    let read_back = decode_state(&text).unwrap();
    assert_eq!(read_back.epics.get(&1).unwrap().name, name);
    assert_eq!(read_back, state);
}

#[test]
fn decode_accepts_all_statuses_and_entry_order() {
    let text = r#"{ "last_item_id": 4, "epics": {
        "2": {"name":"b","description":"","status":"Closed","stories":[4, 3]},
        "1": {"name":"a","description":"x","status":"InProgress","stories":[]}
      }, "stories": {
        "3": {"name":"s","description":"","status":"Resolved"},
        "4": {"name":"t","description":"","status":"Open"}
      } }"#;
    let state = decode_state(text).unwrap();
    assert_eq!(state.last_item_id, 4);
    assert_eq!(state.epics.get(&1).unwrap().status, Status::InProgress);
    assert_eq!(state.epics.get(&2).unwrap().status, Status::Closed);
    assert_eq!(state.epics.get(&2).unwrap().stories, vec![4, 3]);
    assert_eq!(state.stories.get(&3).unwrap().status, Status::Resolved);
    assert_eq!(state.stories.get(&4).unwrap().status, Status::Open);
}

#[test]
fn decode_rejects_bad_payloads() {
    // a counter that does not fit the id type
    assert!(decode_state(r#"{"last_item_id":4294967296,"epics":{},"stories":{}}"#).is_none());
    // an unknown status tag
    assert!(decode_state(
        r#"{"last_item_id":1,"epics":{"1":{"name":"","description":"","status":"Done","stories":[]}},"stories":{}}"#,
    )
    .is_none());
    // trailing text after the document
    assert!(decode_state(r#"{"last_item_id":0,"epics":{},"stories":{}}x"#).is_none());
    // a lone surrogate escape
    assert!(decode_state(
        r#"{"last_item_id":1,"epics":{"1":{"name":"\uD834","description":"","status":"Open","stories":[]}},"stories":{}}"#,
    )
    .is_none());
    // an empty text
    assert!(decode_state("").is_none());
}

#[test]
fn encode_orders_entries_ascending() {
    let mut epics = HashMap::new();
    epics.insert(
        2,
        Epic { name: "b".to_owned(), description: "".to_owned(), status: Status::Open, stories: vec![] },
    );
    epics.insert(
        1,
        Epic { name: "a".to_owned(), description: "".to_owned(), status: Status::Open, stories: vec![] },
    );
    let state = DBState { last_item_id: 2, epics, stories: HashMap::new() };
    let text = encode_state(&state);
    assert_eq!(
        text,
        "{\"last_item_id\":2,\"epics\":{\
         \"1\":{\"name\":\"a\",\"description\":\"\",\"status\":\"Open\",\"stories\":[]},\
         \"2\":{\"name\":\"b\",\"description\":\"\",\"status\":\"Open\",\"stories\":[]}\
         },\"stories\":{}}"
    );
}

#[test]
fn decode_handles_the_other_escapes() {
    let text = r#"{"last_item_id":1,"epics":{"1":{"name":"a\/b\b\fA","description":"","status":"Open","stories":[]}},"stories":{}}"#;
    let state = decode_state(text).unwrap();
    assert_eq!(state.epics.get(&1).unwrap().name, "a/b\u{8}\u{c}A");
}
