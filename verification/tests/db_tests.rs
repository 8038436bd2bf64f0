use points_store::atomic::{checked_sub, saturating_add, saturating_sub, Atomic, AtomicU64};
use points_store::db::{ChannelDb, Db};

#[test]
fn counter_get_and_update() {
    let mut c = AtomicU64::new(10);
    assert_eq!(c.get(), 10);
    assert_eq!(c.update_infallible(5, saturating_add), 15);
    assert_eq!(c.get(), 15);
    assert_eq!(c.update_infallible(20, saturating_sub), 0);
    assert_eq!(c.get(), 0);
}

#[test]
fn counter_saturates_at_max() {
    let mut c = AtomicU64::new(u64::MAX - 1);
    assert_eq!(c.update_infallible(5, saturating_add), u64::MAX);
    assert_eq!(c.update_infallible(1, saturating_add), u64::MAX);
}

#[test]
fn counter_fallible_refusal_leaves_value() {
    let mut c = AtomicU64::new(10);
    assert_eq!(c.update_fallible(15, checked_sub), None);
    assert_eq!(c.get(), 10);
    assert_eq!(c.update_fallible(4, checked_sub), Some(6));
    assert_eq!(c.get(), 6);
}

#[test]
fn default_counter_is_zero() {
    let c = AtomicU64::default();
    assert_eq!(c.get(), 0);
}

#[test]
fn counter_from_value() {
    let c = AtomicU64::from(5);
    assert_eq!(c.get(), 5);
}

#[test]
fn channel_get_unknown_user_is_zero() {
    let cdb = ChannelDb::default();
    assert_eq!(cdb.get("nobody"), 0);
}

#[test]
fn channel_update_creates_user() {
    let mut cdb = ChannelDb::default();
    assert_eq!(cdb.update_infallible("a", 3, saturating_add), 3);
    assert_eq!(cdb.update_infallible("a", 4, saturating_add), 7);
    assert_eq!(cdb.get("a"), 7);
    assert_eq!(cdb.get("b"), 0);
}

#[test]
fn channel_zero_amount_reads_without_creating() {
    let mut cdb = ChannelDb::default();
    assert_eq!(cdb.update_infallible("ghost", 0, saturating_add), 0);
    assert_eq!(cdb.update_fallible("ghost", 0, checked_sub), Some(0));
    assert_eq!(cdb.get("ghost"), 0);
}

#[test]
fn channel_fallible_refusal_reports_none() {
    let mut cdb = ChannelDb::default();
    cdb.update_infallible("a", 10, saturating_add);
    assert_eq!(cdb.update_fallible("a", 11, checked_sub), None);
    assert_eq!(cdb.get("a"), 10);
    assert_eq!(cdb.update_fallible("a", 10, checked_sub), Some(0));
}

#[test]
fn store_tracks_channels_independently() {
    let mut db = Db::default();
    db.channel_db("one");
    db.channel_db("two");
    db.update_infallible("one", "a", 5, saturating_add);
    db.update_infallible("two", "a", 9, saturating_add);
    assert_eq!(db.get("one", "a"), 5);
    assert_eq!(db.get("two", "a"), 9);
    assert_eq!(db.get("three", "a"), 0);
}

#[test]
fn store_put_new_refuses_duplicates() {
    let mut cdb = ChannelDb::default();
    assert!(cdb.put_new("a".to_string(), 1));
    assert!(!cdb.put_new("a".to_string(), 2));
    assert_eq!(cdb.get("a"), 1);

    let mut db = Db::default();
    assert!(db.put_new_channel("c".to_string(), ChannelDb::default()));
    assert!(!db.put_new_channel("c".to_string(), ChannelDb::default()));
}
