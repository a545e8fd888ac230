use monster_arena::hub::{deliver, AttachError, Hub, MatchError};
use tokio::sync::mpsc::unbounded_channel;

fn lobby() -> Hub {
    Hub::new(2, 60)
}

#[test]
fn full_match_scenario() {
    let mut hub = lobby();
    let s = hub.create_matching("p1".to_string(), 0).unwrap();
    assert_eq!(hub.join_matching("p2".to_string(), s, 1), Ok(()));

    let (c1, mut r1) = unbounded_channel::<String>();
    let (c2, mut r2) = unbounded_channel::<String>();
    let peers1 = hub.attach(s, "p1".to_string(), "monster-p1".to_string(), c1).unwrap();
    assert!(peers1.is_empty());
    let peers2 = hub.attach(s, "p2".to_string(), "monster-p2".to_string(), c2).unwrap();
    assert_eq!(peers2, vec!["p1".to_string()]);
    assert!(hub.is_full(s));

    let reached = hub.broadcast(s, &"p1".to_string(), &"msg".to_string(), false);
    assert_eq!(reached, vec!["p2".to_string()]);
    assert_eq!(r2.try_recv().unwrap(), "msg");
    assert!(r1.try_recv().is_err());

    assert!(hub.detach(s, &"p1".to_string()));
    assert_eq!(hub.member_count(s), 1);
    assert!(hub.detach(s, &"p2".to_string()));
    assert_eq!(hub.member_count(s), 0);
    assert_eq!(hub.occupancy_of(s), 0);
    assert_eq!(
        hub.join_matching("p3".to_string(), s, 2),
        Err(MatchError::SessionNotFound)
    );
}

#[test]
fn join_unknown_session() {
    let mut hub = lobby();
    assert_eq!(
        hub.join_matching("p2".to_string(), 12345, 0),
        Err(MatchError::SessionNotFound)
    );
}

#[test]
fn third_joiner_is_refused() {
    let mut hub = lobby();
    let s = hub.create_matching("p1".to_string(), 0).unwrap();
    assert_eq!(hub.join_matching("p2".to_string(), s, 0), Ok(()));
    assert_eq!(
        hub.join_matching("p3".to_string(), s, 0),
        Err(MatchError::SessionFull)
    );
    assert_eq!(hub.occupancy_of(s), 2);
}

#[test]
fn third_joiner_refused_after_attach() {
    let mut hub = lobby();
    let s = hub.create_matching("p1".to_string(), 0).unwrap();
    let (c1, _r1) = unbounded_channel::<String>();
    hub.attach(s, "p1".to_string(), "monster-p1".to_string(), c1).unwrap();
    assert_eq!(hub.join_matching("p2".to_string(), s, 0), Ok(()));
    assert_eq!(
        hub.join_matching("p3".to_string(), s, 0),
        Err(MatchError::SessionFull)
    );
}

#[test]
fn duplicate_player_is_refused() {
    let mut hub = lobby();
    let s = hub.create_matching("p1".to_string(), 0).unwrap();
    assert_eq!(
        hub.create_matching("p1".to_string(), 0),
        Err(MatchError::DuplicatePlayer)
    );
    let t = hub.create_matching("p2".to_string(), 0).unwrap();
    assert_ne!(s, t);
    assert_eq!(
        hub.join_matching("p1".to_string(), t, 0),
        Err(MatchError::DuplicatePlayer)
    );
    let (c1, _r1) = unbounded_channel::<String>();
    hub.attach(s, "p1".to_string(), "monster-p1".to_string(), c1).unwrap();
    assert_eq!(
        hub.create_matching("p1".to_string(), 0),
        Err(MatchError::DuplicatePlayer)
    );
}

#[test]
fn session_id_in_use_is_refused() {
    let mut hub = lobby();
    assert_eq!(hub.create_matching_with_id("p1".to_string(), 7, 0), Ok(7));
    assert_eq!(
        hub.create_matching_with_id("p2".to_string(), 7, 0),
        Err(MatchError::SessionIdTaken)
    );
}

#[test]
fn abandoned_entry_expires() {
    let mut hub = Hub::new(2, 60);
    let s = hub.create_matching("p1".to_string(), 100).unwrap();
    assert!(hub.evict_expired(159).is_empty());
    assert_eq!(hub.occupancy_of(s), 1);
    assert_eq!(hub.evict_expired(160), vec!["p1".to_string()]);
    assert_eq!(hub.occupancy_of(s), 0);
    let (c1, _r1) = unbounded_channel::<String>();
    assert_eq!(
        hub.attach(s, "p1".to_string(), "monster-p1".to_string(), c1).unwrap_err(),
        AttachError::SessionNotFound
    );
}

#[test]
fn expiry_saturates() {
    let mut hub = Hub::new(2, 60);
    hub.create_matching_with_id("p1".to_string(), 1, u64::MAX - 10).unwrap();
    assert!(hub.evict_expired(u64::MAX - 1).is_empty());
    assert_eq!(hub.evict_expired(u64::MAX), vec!["p1".to_string()]);
}

#[test]
fn attach_errors() {
    let mut hub = lobby();
    let s = hub.create_matching("p1".to_string(), 0).unwrap();
    let t = hub.create_matching("p2".to_string(), 0).unwrap();
    let (c, _r) = unbounded_channel::<String>();
    assert_eq!(
        hub.attach(t, "p1".to_string(), "monster-p1".to_string(), c.clone()).unwrap_err(),
        AttachError::SessionNotFound
    );
    assert_eq!(
        hub.attach(s, "nobody".to_string(), "monster-nobody".to_string(), c.clone()).unwrap_err(),
        AttachError::SessionNotFound
    );
    hub.attach(s, "p1".to_string(), "monster-p1".to_string(), c.clone()).unwrap();
    assert_eq!(
        hub.attach(s, "p1".to_string(), "monster-p1".to_string(), c).unwrap_err(),
        AttachError::AlreadyAttached
    );
}

#[test]
fn detach_is_idempotent() {
    let mut hub = lobby();
    let s = hub.create_matching("p1".to_string(), 0).unwrap();
    let (c, _r) = unbounded_channel::<String>();
    hub.attach(s, "p1".to_string(), "monster-p1".to_string(), c).unwrap();
    assert!(!hub.detach(s + 1, &"p1".to_string()));
    assert!(hub.detach(s, &"p1".to_string()));
    assert!(!hub.detach(s, &"p1".to_string()));
    assert_eq!(hub.member_count(s), 0);
}

#[test]
fn broadcast_skips_closed_channel() {
    let mut hub = Hub::new(3, 60);
    let s = hub.create_matching("a".to_string(), 0).unwrap();
    hub.join_matching("b".to_string(), s, 0).unwrap();
    hub.join_matching("c".to_string(), s, 0).unwrap();
    let (ca, mut ra) = unbounded_channel::<String>();
    let (cb, rb) = unbounded_channel::<String>();
    let (cc, mut rc) = unbounded_channel::<String>();
    hub.attach(s, "a".to_string(), "monster-a".to_string(), ca).unwrap();
    hub.attach(s, "b".to_string(), "monster-b".to_string(), cb).unwrap();
    hub.attach(s, "c".to_string(), "monster-c".to_string(), cc).unwrap();
    drop(rb);
    let reached = hub.broadcast(s, &"a".to_string(), &"hit".to_string(), false);
    assert_eq!(reached, vec!["b".to_string(), "c".to_string()]);
    assert_eq!(rc.try_recv().unwrap(), "hit");
    assert!(ra.try_recv().is_err());
}

#[test]
fn sessions_do_not_mix() {
    let mut hub = lobby();
    let s = hub.create_matching("a".to_string(), 0).unwrap();
    let t = hub.create_matching("b".to_string(), 0).unwrap();
    let (ca, _ra) = unbounded_channel::<String>();
    let (cb, mut rb) = unbounded_channel::<String>();
    hub.attach(s, "a".to_string(), "monster-a".to_string(), ca).unwrap();
    hub.attach(t, "b".to_string(), "monster-b".to_string(), cb).unwrap();
    assert!(hub.broadcast(s, &"a".to_string(), &"x".to_string(), false).is_empty());
    assert!(rb.try_recv().is_err());
    assert_eq!(hub.peers(t), vec!["b".to_string()]);
}

#[test]
fn lobby_settings() {
    let hub = Hub::new(4, 30);
    assert_eq!(hub.capacity_value(), 4);
    assert_eq!(hub.timeout_value(), 30);
}

#[test]
fn echo_reaches_sender_too() {
    let mut hub = lobby();
    let s = hub.create_matching("p1".to_string(), 0).unwrap();
    hub.join_matching("p2".to_string(), s, 0).unwrap();
    let (c1, mut r1) = unbounded_channel::<String>();
    let (c2, mut r2) = unbounded_channel::<String>();
    hub.attach(s, "p1".to_string(), "m1".to_string(), c1).unwrap();
    hub.attach(s, "p2".to_string(), "m2".to_string(), c2).unwrap();
    let reached = hub.broadcast(s, &"p1".to_string(), &"e".to_string(), true);
    assert_eq!(reached, vec!["p1".to_string(), "p2".to_string()]);
    assert_eq!(r1.try_recv().unwrap(), "e");
    assert_eq!(r2.try_recv().unwrap(), "e");
}

#[test]
fn targets_then_delivery() {
    let mut hub = lobby();
    let s = hub.create_matching("p1".to_string(), 0).unwrap();
    hub.join_matching("p2".to_string(), s, 0).unwrap();
    let (c1, _r1) = unbounded_channel::<String>();
    let (c2, r2) = unbounded_channel::<String>();
    hub.attach(s, "p1".to_string(), "m1".to_string(), c1).unwrap();
    hub.attach(s, "p2".to_string(), "m2".to_string(), c2).unwrap();
    let targets = hub.outbound_targets(s, &"p1".to_string(), false);
    assert_eq!(targets.len(), 1);
    assert_eq!(targets[0].player_id, "p2");
    drop(r2);
    assert_eq!(deliver(&targets, &"late".to_string()), vec![false]);
}

#[test]
fn full_session_lists_its_assets() {
    let mut hub = lobby();
    let s = hub.create_matching("p1".to_string(), 0).unwrap();
    hub.join_matching("p2".to_string(), s, 0).unwrap();
    let (c1, _r1) = unbounded_channel::<String>();
    let (c2, _r2) = unbounded_channel::<String>();
    hub.attach(s, "p1".to_string(), "m1".to_string(), c1).unwrap();
    assert!(!hub.is_full(s));
    hub.attach(s, "p2".to_string(), "m2".to_string(), c2).unwrap();
    assert!(hub.is_full(s));
    assert_eq!(hub.session_assets(s), vec!["m1".to_string(), "m2".to_string()]);
    hub.detach(s, &"p1".to_string());
    assert_eq!(hub.session_assets(s), vec!["m2".to_string()]);
}

#[test]
fn second_joiner_after_one_is_full() {
    let mut hub = lobby();
    let s = hub.create_matching("p1".to_string(), 0).unwrap();
    assert_eq!(hub.join_matching("p3".to_string(), s, 0), Ok(()));
    assert_eq!(hub.join_matching("p2".to_string(), s, 0), Err(MatchError::SessionFull));
    assert_eq!(hub.occupancy_of(s), 2);
}
