use serde_json::{Number, Value};
use worklog::session::Session;
use worklog::store::SessionStore;

fn to_json(sessions: &[Session]) -> String {
    let mut array = Vec::new();
    for session in sessions {
        let mut object = serde_json::Map::new();
        object.insert("tag".to_string(), Value::String(session.tag.clone()));
        object.insert("start".to_string(), Value::Number(Number::from(session.start)));
        object.insert(
            "end".to_string(),
            match session.end {
                Some(end) => Value::Number(Number::from(end)),
                None => Value::Null,
            },
        );
        array.push(Value::Object(object));
    }
    serde_json::to_string_pretty(&Value::Array(array)).unwrap()
}

fn from_json(text: &str) -> Vec<Session> {
    let value: Value = serde_json::from_str(text).unwrap();
    let mut sessions = Vec::new();
    for item in value.as_array().unwrap() {
        sessions.push(Session {
            tag: item.get("tag").unwrap().as_str().unwrap().to_string(),
            start: item.get("start").unwrap().as_i64().unwrap(),
            end: item.get("end").unwrap().as_i64(),
        });
    }
    sessions
}

#[test]
fn a_log_written_and_read_again_is_written_the_same() {
    let mut store = SessionStore::new();
    store.start("deep work".to_string(), 1_700_000_000).unwrap();
    store.stop(1_700_003_600).unwrap();
    store.start("\"quoted\" \u{e9}t\u{e9}".to_string(), 1_700_003_700).unwrap();
    let written = to_json(store.sessions());

    let loaded = SessionStore::from_sessions(from_json(&written)).unwrap();
    assert_eq!(to_json(loaded.sessions()), written);
    assert_eq!(loaded.sessions().len(), 2);
    assert_eq!(loaded.sessions()[0].tag, "deep work");
    assert_eq!(loaded.sessions()[0].start, 1_700_000_000);
    assert_eq!(loaded.sessions()[0].end, Some(1_700_003_600));
    assert_eq!(loaded.sessions()[1].end, None);
    assert_eq!(to_json(&loaded.into_sessions()), written);
}

#[test]
fn an_empty_log_is_an_empty_array() {
    let store = SessionStore::new();
    let written = to_json(store.sessions());
    assert_eq!(written, "[]");
    let loaded = SessionStore::from_sessions(from_json(&written)).unwrap();
    assert!(loaded.sessions().is_empty());
}
