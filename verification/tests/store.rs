use worklog::session::Session;
use worklog::store::{Hours, SessionStore, StoreError};

const T: i64 = 1_700_000_000;

fn completed(tag: &str, start: i64, end: i64) -> Session {
    Session { tag: tag.to_string(), start, end: Some(end) }
}

fn running(tag: &str, start: i64) -> Session {
    Session { tag: tag.to_string(), start, end: None }
}

fn fields(store: &SessionStore) -> Vec<(String, i64, Option<i64>)> {
    store.sessions().iter().map(|s| (s.tag.clone(), s.start, s.end)).collect()
}

fn running_count(store: &SessionStore) -> usize {
    store.sessions().iter().filter(|s| s.end.is_none()).count()
}

#[test]
fn a_new_log_is_empty() {
    let store = SessionStore::new();
    assert!(store.sessions().is_empty());
    assert!(store.status(T).is_none());
}

#[test]
fn start_appends_a_running_session() {
    let mut store = SessionStore::new();
    let session = store.start("write".to_string(), T).unwrap();
    assert_eq!(session.tag, "write");
    assert_eq!(session.start, T);
    assert_eq!(session.end, None);
    assert!(session.is_active());
    assert_eq!(fields(&store), vec![("write".to_string(), T, None)]);
}

#[test]
fn start_while_running_is_refused() {
    let mut store = SessionStore::new();
    store.start("a".to_string(), T).unwrap();
    let before = fields(&store);
    let second = store.start("b".to_string(), T + 10);
    assert_eq!(second.unwrap_err(), StoreError::AlreadyRunning);
    assert_eq!(fields(&store), before);
    let third = store.start("a".to_string(), T + 20);
    assert_eq!(third.unwrap_err(), StoreError::AlreadyRunning);
    assert_eq!(fields(&store), before);
}

#[test]
fn stop_ends_the_running_session() {
    let mut store = SessionStore::new();
    store.log_manual("old".to_string(), Hours { positive: true, seconds: 60 }, T - 100).unwrap();
    store.start("a".to_string(), T).unwrap();
    let stopped = store.stop(T + 90).unwrap();
    assert_eq!(stopped.tag, "a");
    assert_eq!(stopped.start, T);
    assert_eq!(stopped.end, Some(T + 90));
    assert_eq!(stopped.duration(), Some(90));
    assert_eq!(
        fields(&store),
        vec![
            ("old".to_string(), T - 160, Some(T - 100)),
            ("a".to_string(), T, Some(T + 90)),
        ]
    );
    assert!(store.status(T + 100).is_none());
}

#[test]
fn stop_without_a_running_session_is_refused() {
    let mut store = SessionStore::new();
    assert_eq!(store.stop(T).unwrap_err(), StoreError::NoActiveSession);
    assert!(store.sessions().is_empty());
    store.start("a".to_string(), T).unwrap();
    store.stop(T + 1).unwrap();
    let before = fields(&store);
    assert_eq!(store.stop(T + 2).unwrap_err(), StoreError::NoActiveSession);
    assert_eq!(fields(&store), before);
}

#[test]
fn start_is_taken_again_after_stop() {
    let mut store = SessionStore::new();
    store.start("a".to_string(), T).unwrap();
    store.stop(T + 5).unwrap();
    store.start("b".to_string(), T + 10).unwrap();
    assert_eq!(
        fields(&store),
        vec![("a".to_string(), T, Some(T + 5)), ("b".to_string(), T + 10, None)]
    );
}

#[test]
fn status_tells_the_running_session_and_its_age() {
    let mut store = SessionStore::new();
    store.start("a".to_string(), T).unwrap();
    let before = fields(&store);
    let status = store.status(T + 5400).unwrap();
    assert_eq!(status.session.tag, "a");
    assert_eq!(status.session.start, T);
    assert_eq!(status.session.end, None);
    assert_eq!(status.elapsed, 5400);
    assert_eq!(fields(&store), before);
    // A clock that ran backwards gives a negative age.
    assert_eq!(store.status(T - 1).unwrap().elapsed, -1);
}

#[test]
fn reset_without_a_running_session_is_refused() {
    let mut store = SessionStore::new();
    assert_eq!(store.reset().unwrap_err(), StoreError::NoActiveSession);
    store.log_manual("x".to_string(), Hours { positive: true, seconds: 10 }, T).unwrap();
    let before = fields(&store);
    assert_eq!(store.reset().unwrap_err(), StoreError::NoActiveSession);
    assert_eq!(fields(&store), before);
}

#[test]
fn reset_gives_back_the_log_as_it_was_before_start() {
    let mut store = SessionStore::new();
    store.start("a".to_string(), T).unwrap();
    store.stop(T + 5).unwrap();
    store.log_manual("b".to_string(), Hours { positive: true, seconds: 7 }, T + 6).unwrap();
    let before = fields(&store);
    store.start("c".to_string(), T + 10).unwrap();
    let discarded = store.reset().unwrap();
    assert_eq!(discarded.tag, "c");
    assert_eq!(discarded.start, T + 10);
    assert_eq!(discarded.end, None);
    assert_eq!(fields(&store), before);
    store.start("d".to_string(), T + 20).unwrap();
    assert_eq!(running_count(&store), 1);
}

#[test]
fn reset_removes_the_running_session_from_the_middle() {
    let sessions = vec![
        completed("a", 1, 2),
        running("b", 3),
        completed("c", 4, 5),
    ];
    let mut store = SessionStore::from_sessions(sessions).unwrap();
    let discarded = store.reset().unwrap();
    assert_eq!(discarded.tag, "b");
    assert_eq!(
        fields(&store),
        vec![("a".to_string(), 1, Some(2)), ("c".to_string(), 4, Some(5))]
    );
}

#[test]
fn stop_ends_the_running_session_in_the_middle() {
    let sessions = vec![
        completed("a", 1, 2),
        running("b", 3),
        completed("c", 4, 5),
    ];
    let mut store = SessionStore::from_sessions(sessions).unwrap();
    let stopped = store.stop(9).unwrap();
    assert_eq!(stopped.tag, "b");
    assert_eq!(stopped.end, Some(9));
    assert_eq!(
        fields(&store),
        vec![
            ("a".to_string(), 1, Some(2)),
            ("b".to_string(), 3, Some(9)),
            ("c".to_string(), 4, Some(5)),
        ]
    );
}

#[test]
fn hours_logged_by_hand_end_now() {
    let mut store = SessionStore::new();
    let session =
        store.log_manual("x".to_string(), Hours { positive: true, seconds: 9000 }, T).unwrap();
    assert_eq!(session.tag, "x");
    assert_eq!(session.start, T - 9000);
    assert_eq!(session.end, Some(T));
    assert_eq!(session.duration(), Some(9000));
    assert!(!session.is_active());
    assert_eq!(fields(&store), vec![("x".to_string(), T - 9000, Some(T))]);
}

#[test]
fn hours_that_round_to_nothing_are_still_logged() {
    let mut store = SessionStore::new();
    let session =
        store.log_manual("x".to_string(), Hours { positive: true, seconds: 0 }, T).unwrap();
    assert_eq!(session.start, T);
    assert_eq!(session.end, Some(T));
    assert_eq!(store.sessions().len(), 1);
}

#[test]
fn hours_not_above_zero_are_refused() {
    let mut store = SessionStore::new();
    store.start("a".to_string(), T).unwrap();
    let before = fields(&store);
    // Zero hours.
    let zero = store.log_manual("x".to_string(), Hours { positive: false, seconds: 0 }, T);
    assert_eq!(zero.unwrap_err(), StoreError::InvalidHours);
    assert_eq!(fields(&store), before);
    // Minus one hour.
    let negative = store.log_manual("x".to_string(), Hours { positive: false, seconds: -3600 }, T);
    assert_eq!(negative.unwrap_err(), StoreError::InvalidHours);
    assert_eq!(fields(&store), before);
    // An amount said to be above zero that is not.
    let confused = store.log_manual("x".to_string(), Hours { positive: true, seconds: -1 }, T);
    assert_eq!(confused.unwrap_err(), StoreError::InvalidHours);
    assert_eq!(fields(&store), before);
}

#[test]
fn hours_can_be_logged_while_a_session_runs() {
    let mut store = SessionStore::new();
    store.start("a".to_string(), T).unwrap();
    store.log_manual("x".to_string(), Hours { positive: true, seconds: 3600 }, T + 5).unwrap();
    assert_eq!(running_count(&store), 1);
    let stopped = store.stop(T + 10).unwrap();
    assert_eq!(stopped.tag, "a");
    assert_eq!(running_count(&store), 0);
}

#[test]
fn stored_sessions_come_back_as_they_were() {
    let sessions = vec![
        completed("a", 10, 20),
        completed("", -5, -50),
        running("b", 30),
        completed("a", i64::MIN, i64::MAX),
    ];
    let store = SessionStore::from_sessions(sessions).unwrap();
    let expected = vec![
        ("a".to_string(), 10, Some(20)),
        ("".to_string(), -5, Some(-50)),
        ("b".to_string(), 30, None),
        ("a".to_string(), i64::MIN, Some(i64::MAX)),
    ];
    assert_eq!(fields(&store), expected);
    let back = store.into_sessions();
    let again: Vec<(String, i64, Option<i64>)> =
        back.iter().map(|s| (s.tag.clone(), s.start, s.end)).collect();
    assert_eq!(again, expected);
}

#[test]
fn two_running_sessions_are_no_log() {
    let sessions = vec![running("a", 1), completed("b", 2, 3), running("c", 4)];
    assert_eq!(SessionStore::from_sessions(sessions).unwrap_err(), StoreError::CorruptData);
    assert!(SessionStore::from_sessions(vec![running("a", 1)]).is_ok());
    assert!(SessionStore::from_sessions(Vec::new()).is_ok());
}

#[test]
fn at_most_one_session_runs_whatever_is_done() {
    let mut store = SessionStore::new();
    let mut clock = T;
    // A fixed run of operations that takes every transition, refused ones too.
    let script: [u8; 24] = [0, 0, 3, 1, 1, 2, 0, 2, 2, 3, 0, 3, 0, 1, 0, 0, 2, 1, 3, 3, 0, 2, 0, 1];
    for step in script {
        clock += 7;
        match step {
            0 => {
                let _ = store.start("t".to_string(), clock);
            }
            1 => {
                let _ = store.stop(clock);
            }
            2 => {
                let _ = store.reset();
            }
            _ => {
                let _ = store.log_manual("m".to_string(), Hours { positive: true, seconds: 3 }, clock);
            }
        }
        assert!(running_count(&store) <= 1);
        assert_eq!(store.status(clock).is_some(), running_count(&store) == 1);
    }
}

#[test]
fn a_session_knows_its_length() {
    assert_eq!(completed("a", 10, 25).duration(), Some(15));
    assert_eq!(completed("a", 25, 10).duration(), Some(-15));
    assert_eq!(running("a", 10).duration(), None);
    assert_eq!(
        completed("a", i64::MIN, i64::MAX).duration(),
        Some(i64::MAX as i128 - i64::MIN as i128)
    );
    assert_eq!(running("a", 10).elapsed(70), 60);
    let begun = Session::begin("a".to_string(), 5);
    assert_eq!((begun.tag.as_str(), begun.start, begun.end), ("a", 5, None));
    let copy = begun.clone();
    assert_eq!((copy.tag.as_str(), copy.start, copy.end), ("a", 5, None));
}
