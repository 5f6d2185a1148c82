use co_worker_lite::db::{memories, messages, sessions};
use co_worker_lite::error::AppError;
use co_worker_lite::memory::StoreOutcome;
use co_worker_lite::types::{Role, Timestamp};

const NOW: Timestamp = Timestamp { secs: 1700000000, nanos: 5 };

#[test]
fn messages_are_read_back_as_stored() {
    let (m, row) = messages::insert(7, Role::Tool, "hi", 3, NOW);
    assert_eq!(row.role, "tool");
    assert_eq!(row.metadata, "{}");
    assert_eq!(row.session_id, "00000000-0000-0000-0000-000000000007");
    let back = messages::row_to_message(&row).unwrap();
    assert_eq!((back.id, back.session_id, back.role), (m.id, 7, Role::Tool));
    assert_eq!((back.content.as_str(), back.token_count), ("hi", 3));
    assert_eq!(back.created_at, NOW);
    assert_eq!(back.metadata, m.metadata);
    assert!(back.metadata.as_object().unwrap().is_empty());
    let (other, _) = messages::insert(7, Role::Tool, "hi", 3, NOW);
    assert_ne!(other.id, m.id);
}

#[test]
fn uuids_are_stored_with_hyphens() {
    let (_, row) = messages::new_message(
        0x0123456789abcdef0123456789ABCDEF,
        0,
        Role::User,
        "",
        0,
        NOW,
    );
    assert_eq!(row.id, "01234567-89ab-cdef-0123-456789abcdef");
}

#[test]
fn broken_message_rows_are_errors() {
    let (_, good) = messages::insert(7, Role::User, "hi", 3, NOW);
    let mut row = good.clone();
    row.role = "robot".to_string();
    row.id = "broken".to_string();
    match messages::row_to_message(&row) {
        Err(AppError::Internal(m)) => assert_eq!(m, "unknown role: robot"),
        other => panic!("{other:?}"),
    }
    let mut row = good.clone();
    row.id = "broken".to_string();
    assert!(matches!(messages::row_to_message(&row), Err(AppError::Uuid(_))));
    let mut row = good.clone();
    row.session_id = "broken".to_string();
    row.metadata = "{".to_string();
    assert!(matches!(messages::row_to_message(&row), Err(AppError::Uuid(_))));
    let mut row = good.clone();
    row.metadata = "{".to_string();
    assert!(matches!(messages::row_to_message(&row), Err(AppError::Json(_))));
    assert!(matches!(
        messages::list_for_session(&vec![good.clone(), row, good.clone()]),
        Err(AppError::Json(_))
    ));
    let all = messages::list_for_session(&vec![good.clone(), good]).unwrap();
    assert_eq!(all.len(), 2);
}

#[test]
fn texts_read_elsewhere_make_a_message() {
    let (_, row) = messages::insert(7, Role::User, "hi", 3, NOW);
    let m = messages::read_message(&row, Ok(1), Ok(2), Ok(serde_json::Value::Null)).unwrap();
    assert_eq!((m.id, m.session_id), (1, 2));
    match messages::read_message(&row, Ok(1), Err("e2".to_string()), Err("e3".to_string())) {
        Err(AppError::Uuid(m)) => assert_eq!(m, "e2"),
        other => panic!("{other:?}"),
    }
}

#[test]
fn sessions_are_read_back_as_stored() {
    let (s, row) = sessions::create("t", "m.gguf", Some("p".to_string()), NOW);
    let back = sessions::get(Some(row.clone())).unwrap();
    assert_eq!(back.id, s.id);
    assert_eq!((back.title.as_str(), back.model_name.as_str()), ("t", "m.gguf"));
    assert_eq!(back.system_prompt, Some("p".to_string()));
    assert_eq!((back.created_at, back.updated_at), (NOW, NOW));
    assert_eq!(sessions::list(&vec![row.clone(), row.clone()]).unwrap().len(), 2);
    assert_eq!(sessions::most_recent(Some(row.clone())).unwrap().unwrap().id, s.id);
    assert!(sessions::most_recent(None).unwrap().is_none());
    let mut bad = row.clone();
    bad.id = String::new();
    assert!(matches!(sessions::get(Some(bad.clone())), Err(AppError::Uuid(_))));
    assert!(matches!(sessions::most_recent(Some(bad.clone())), Err(AppError::Uuid(_))));
    assert!(matches!(sessions::list(&vec![row, bad]), Err(AppError::Uuid(_))));
}

#[test]
fn listings_are_read_back_in_order() {
    let (a, first) = messages::insert(7, Role::User, "one", 1, NOW);
    let (b, second) = messages::insert(7, Role::Assistant, "two", 2, NOW);
    let all = messages::list_for_session(&vec![first, second]).unwrap();
    assert_eq!((all[0].id, all[1].id), (a.id, b.id));
    assert_eq!((all[0].content.as_str(), all[1].content.as_str()), ("one", "two"));
    let (s, row) = sessions::create("t", "m.gguf", None, NOW);
    let listed = sessions::list(&vec![row]).unwrap();
    assert_eq!((listed[0].id, listed[0].title.as_str()), (s.id, "t"));
    let row = memories::new_row(9, "fact", "auto", NOW);
    let listed = memories::list(&vec![row]).unwrap();
    assert_eq!((listed[0].id, listed[0].content.as_str()), (9, "fact"));
}

#[test]
fn a_memory_is_stored_once() {
    let first = memories::new_row(9, "fact", "auto", NOW);
    let (m, outcome) = memories::upserted(1, &first).unwrap();
    assert_eq!((m.id, outcome), (9, StoreOutcome::Inserted));
    let (m, outcome) = memories::upserted(0, &first).unwrap();
    assert_eq!((m.id, m.source.as_str(), outcome), (9, "auto", StoreOutcome::Existing));
    let mut bad = first;
    bad.id = "x".to_string();
    assert!(matches!(memories::upserted(1, &bad), Err(AppError::Uuid(_))));
}

#[test]
fn what_is_not_there_is_not_found() {
    assert!(matches!(sessions::get(None), Err(AppError::SessionNotFound)));
    assert!(matches!(sessions::delete(0), Err(AppError::SessionNotFound)));
    assert!(sessions::delete(1).is_ok());
    assert!(matches!(memories::delete(0), Err(AppError::MemoryNotFound)));
    assert!(memories::delete(1).is_ok());
}

#[test]
fn memories_are_read_back_as_stored() {
    let row = memories::upsert("fact", "auto", NOW);
    assert_eq!(row.id.len(), 36);
    let row = memories::new_row(9, "fact", "auto", NOW);
    let m = memories::row_to_memory(&row).unwrap();
    assert_eq!((m.id, m.content.as_str(), m.source.as_str()), (9, "fact", "auto"));
    assert_eq!(memories::list(&vec![row.clone()]).unwrap().len(), 1);
    let mut bad = row;
    bad.id = "x".to_string();
    match memories::list(&vec![bad]) {
        Err(e) => assert_eq!(e.code(), "invalid_uuid"),
        Ok(_) => panic!(),
    }
}
