use points_store::codec::{Request, Response};
use points_store::db::Db;
use points_store::session::{Session, SessionError};

fn connected(channel: &str, db: &mut Db) -> Session {
    let mut session = Session::new("127.0.0.1:1".to_string());
    let r = session.handle_request(
        db,
        Request::Connect {
            channel: channel.to_string(),
        },
    );
    assert_eq!(r, Ok(None));
    assert!(session.is_connected());
    session
}

fn add(session: &mut Session, db: &mut Db, user: &str, points: u64) -> Response {
    session
        .handle_request(
            db,
            Request::Add {
                user: user.to_string(),
                points,
            },
        )
        .unwrap()
        .unwrap()
}

fn get(session: &mut Session, db: &mut Db, user: &str) -> Response {
    session
        .handle_request(
            db,
            Request::Get {
                user: user.to_string(),
            },
        )
        .unwrap()
        .unwrap()
}

fn remove(session: &mut Session, db: &mut Db, user: &str, points: u64, force: bool) -> Response {
    session
        .handle_request(
            db,
            Request::Remove {
                user: user.to_string(),
                points,
                force,
            },
        )
        .unwrap()
        .unwrap()
}

#[test]
fn scenario_connect_add_get() {
    let mut db = Db::default();
    let mut session = connected("foo", &mut db);
    assert_eq!(
        add(&mut session, &mut db, "a", 100),
        Response::ResultU64((true, 100))
    );
    assert_eq!(get(&mut session, &mut db, "a"), Response::U64(100));
}

#[test]
fn scenario_refused_remove_leaves_balance() {
    let mut db = Db::default();
    let mut session = connected("foo", &mut db);
    add(&mut session, &mut db, "a", 100);
    assert_eq!(
        remove(&mut session, &mut db, "a", 150, false),
        Response::ResultU64((false, 100))
    );
    assert_eq!(get(&mut session, &mut db, "a"), Response::U64(100));
}

#[test]
fn scenario_forced_remove_clamps_at_zero() {
    let mut db = Db::default();
    let mut session = connected("foo", &mut db);
    add(&mut session, &mut db, "a", 100);
    assert_eq!(
        remove(&mut session, &mut db, "a", 150, true),
        Response::ResultU64((true, 0))
    );
}

#[test]
fn scenario_bulk_edit_saturates_per_user() {
    let mut db = Db::default();
    let mut session = connected("foo", &mut db);
    add(&mut session, &mut db, "a", 3);
    add(&mut session, &mut db, "b", 10);
    let r = session.handle_request(
        &mut db,
        Request::BulkEdit {
            users: vec!["a".to_string(), "b".to_string()],
            points: -5,
        },
    );
    assert_eq!(r, Ok(None));
    assert_eq!(get(&mut session, &mut db, "a"), Response::U64(0));
    assert_eq!(get(&mut session, &mut db, "b"), Response::U64(5));
}

#[test]
fn bulk_edit_positive_and_duplicates() {
    let mut db = Db::default();
    let mut session = connected("foo", &mut db);
    let r = session.handle_request(
        &mut db,
        Request::BulkEdit {
            users: vec!["a".to_string(), "a".to_string(), "b".to_string()],
            points: 4,
        },
    );
    assert_eq!(r, Ok(None));
    assert_eq!(get(&mut session, &mut db, "a"), Response::U64(8));
    assert_eq!(get(&mut session, &mut db, "b"), Response::U64(4));
}

#[test]
fn request_before_connect_fails() {
    let mut db = Db::default();
    let mut session = Session::new("peer".to_string());
    let r = session.handle_request(
        &mut db,
        Request::Get {
            user: "a".to_string(),
        },
    );
    assert_eq!(r, Err(SessionError::NotConnected));
    assert!(!session.is_connected());
}

#[test]
fn second_connect_fails() {
    let mut db = Db::default();
    let mut session = connected("foo", &mut db);
    let r = session.handle_request(
        &mut db,
        Request::Connect {
            channel: "bar".to_string(),
        },
    );
    assert_eq!(r, Err(SessionError::AlreadyConnected));
    // the session stays bound to its first channel
    assert_eq!(get(&mut session, &mut db, "a"), Response::U64(0));
}

#[test]
fn zero_amounts_change_nothing() {
    let mut db = Db::default();
    let mut session = connected("foo", &mut db);
    add(&mut session, &mut db, "a", 42);
    assert_eq!(
        add(&mut session, &mut db, "a", 0),
        Response::ResultU64((true, 42))
    );
    assert_eq!(
        remove(&mut session, &mut db, "a", 0, false),
        Response::ResultU64((true, 42))
    );
    assert_eq!(
        remove(&mut session, &mut db, "a", 0, true),
        Response::ResultU64((true, 42))
    );
    let r = session.handle_request(
        &mut db,
        Request::BulkEdit {
            users: vec!["a".to_string()],
            points: 0,
        },
    );
    assert_eq!(r, Ok(None));
    assert_eq!(get(&mut session, &mut db, "a"), Response::U64(42));
}

#[test]
fn add_sequence_sums_and_saturates() {
    let mut db = Db::default();
    let mut session = connected("foo", &mut db);
    assert_eq!(
        add(&mut session, &mut db, "a", 1),
        Response::ResultU64((true, 1))
    );
    assert_eq!(
        add(&mut session, &mut db, "a", 2),
        Response::ResultU64((true, 3))
    );
    assert_eq!(
        add(&mut session, &mut db, "a", 3),
        Response::ResultU64((true, 6))
    );
    assert_eq!(
        add(&mut session, &mut db, "a", u64::MAX),
        Response::ResultU64((true, u64::MAX))
    );
    assert_eq!(
        add(&mut session, &mut db, "a", 1),
        Response::ResultU64((true, u64::MAX))
    );
}

#[test]
fn unit_adds_count_exactly() {
    let mut db = Db::default();
    let mut session = connected("foo", &mut db);
    for i in 1..=1000u64 {
        assert_eq!(
            add(&mut session, &mut db, "a", 1),
            Response::ResultU64((true, i))
        );
    }
    assert_eq!(get(&mut session, &mut db, "a"), Response::U64(1000));
}

#[test]
fn remove_from_unknown_user_refused_at_zero() {
    let mut db = Db::default();
    let mut session = connected("foo", &mut db);
    assert_eq!(
        remove(&mut session, &mut db, "ghost", 1, false),
        Response::ResultU64((false, 0))
    );
    assert_eq!(
        remove(&mut session, &mut db, "ghost", 1, true),
        Response::ResultU64((true, 0))
    );
}

#[test]
fn sessions_share_one_store() {
    let mut db = Db::default();
    let mut one = connected("foo", &mut db);
    let mut two = connected("foo", &mut db);
    add(&mut one, &mut db, "a", 10);
    assert_eq!(get(&mut two, &mut db, "a"), Response::U64(10));
    let mut other = connected("bar", &mut db);
    assert_eq!(get(&mut other, &mut db, "a"), Response::U64(0));
}
