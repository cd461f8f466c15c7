use chat_relay::registry::Delivery;
use chat_relay::registry::RegisterOutcome;
use chat_relay::registry::Registry;
use chat_relay::session::session_step;
use chat_relay::session::Event;
use chat_relay::session::SessionState;

/// One handshake attempt: the first chunk of a fresh connection.
fn join(reg: &mut Registry, handle: u64, nick: &str) -> (SessionState, Vec<Delivery>) {
    session_step(
        SessionState::Unregistered,
        handle,
        Event::Chunk(nick.as_bytes().to_vec()),
        reg,
    )
}

/// A registered session, as a fresh state value.
fn registered(nick: &str) -> SessionState {
    SessionState::Registered {
        nickname: nick.to_string(),
    }
}

/// The messages addressed to `handle`, across the given plans in order.
fn msgs_for(handle: u64, plans: &[&[Delivery]]) -> Vec<String> {
    let mut out = Vec::new();
    for plan in plans {
        for d in *plan {
            if d.to == handle {
                out.push(d.message.clone());
            }
        }
    }
    out
}

#[test]
fn uniqueness_fifty_identical_joins() {
    let mut reg = Registry::new();
    let mut successes = 0;
    for h in 1..=50u64 {
        let (st, ds) = join(&mut reg, h, "dup");
        if matches!(st, SessionState::Registered { .. }) {
            successes += 1;
        } else {
            assert!(matches!(st, SessionState::Terminated));
            assert_eq!(ds.len(), 1);
            assert_eq!(ds[0].to, h);
            assert_eq!(ds[0].message, "dup already exists");
        }
    }
    assert_eq!(successes, 1);
    assert_eq!(reg.len(), 1);
}

#[test]
fn try_register_outcomes() {
    let mut reg = Registry::new();
    assert!(matches!(
        reg.try_register("alice".to_string(), 1),
        RegisterOutcome::Registered
    ));
    assert!(matches!(
        reg.try_register("alice".to_string(), 2),
        RegisterOutcome::AlreadyExists
    ));
    assert_eq!(reg.len(), 1);
    assert!(reg.contains(&"alice".to_string()));
    assert!(!reg.contains(&"bob".to_string()));
}

#[test]
fn fanout_reaches_every_client() {
    let mut reg = Registry::new();
    let (alice, _) = join(&mut reg, 1, "alice");
    join(&mut reg, 2, "bob");
    join(&mut reg, 3, "carol");
    let (_, ds) = session_step(alice, 1, Event::Chunk(b"hello".to_vec()), &mut reg);
    assert_eq!(ds.len(), 3);
    let mut to: Vec<u64> = ds.iter().map(|d| d.to).collect();
    to.sort();
    assert_eq!(to, vec![1, 2, 3]);
    for d in &ds {
        assert_eq!(d.message, "hello");
    }
}

#[test]
fn oversize_rejection() {
    let mut reg = Registry::new();
    let nick = "a".repeat(33);
    let (st, ds) = join(&mut reg, 1, &nick);
    assert!(matches!(st, SessionState::Terminated));
    assert_eq!(ds.len(), 1);
    assert_eq!(ds[0].to, 1);
    assert_eq!(ds[0].message, "Maximum nickname size is 32");
    assert_eq!(reg.len(), 0);
    assert!(!reg.contains(&nick));
}

#[test]
fn oversize_boundary() {
    let mut reg = Registry::new();
    let (st, _) = join(&mut reg, 1, &"a".repeat(32));
    assert!(matches!(st, SessionState::Registered { .. }));
    let (st, _) = join(&mut reg, 2, &"b".repeat(33));
    assert!(matches!(st, SessionState::Terminated));
    assert_eq!(reg.len(), 1);
}

#[test]
fn join_and_leave_notifications() {
    let mut reg = Registry::new();
    join(&mut reg, 1, "bob");
    let (alice, ds) = join(&mut reg, 2, "alice");
    assert_eq!(msgs_for(1, &[&ds]), vec!["alice has joined!".to_string()]);
    assert_eq!(msgs_for(2, &[&ds]), vec!["alice has joined!".to_string()]);
    let (st, ds) = session_step(alice, 2, Event::EndOfStream, &mut reg);
    assert!(matches!(st, SessionState::Terminated));
    assert_eq!(ds.len(), 1);
    assert_eq!(ds[0].to, 1);
    assert_eq!(ds[0].message, "alice has left!");
    assert_eq!(reg.len(), 1);
    assert!(!reg.contains(&"alice".to_string()));
}

#[test]
fn join_announces_to_new_client_too() {
    let mut reg = Registry::new();
    let (st, ds) = join(&mut reg, 7, "alice");
    assert!(matches!(st, SessionState::Registered { .. }));
    assert_eq!(ds.len(), 1);
    assert_eq!(ds[0].to, 7);
    assert_eq!(ds[0].message, "alice has joined!");
}

#[test]
fn rejection_names_conflicting_nickname() {
    let mut reg = Registry::new();
    join(&mut reg, 1, "alice");
    let (st, ds) = join(&mut reg, 2, "alice");
    assert!(matches!(st, SessionState::Terminated));
    assert_eq!(ds.len(), 1);
    assert_eq!(ds[0].to, 2);
    assert_eq!(ds[0].message, "alice already exists");
    assert_eq!(reg.len(), 1);
}

#[test]
fn isolation_under_partial_failure() {
    let mut reg = Registry::new();
    let (alice, _) = join(&mut reg, 1, "alice");
    join(&mut reg, 2, "bob");
    join(&mut reg, 3, "carol");
    let (st, ds) = session_step(alice, 1, Event::Chunk(b"payload".to_vec()), &mut reg);
    // The plan is complete before any write happens; treat carol's
    // handle (3) as broken and deliver to the rest.
    let mut delivered: Vec<u64> = Vec::new();
    for d in &ds {
        if d.to != 3 {
            assert_eq!(d.message, "payload");
            delivered.push(d.to);
        }
    }
    delivered.sort();
    assert_eq!(delivered, vec![1, 2]);
    // The broadcaster is unaffected: still registered, registry intact,
    // and its next message is again planned for every client.
    assert!(matches!(st, SessionState::Registered { .. }));
    assert_eq!(reg.len(), 3);
    let (_, ds) = session_step(st, 1, Event::Chunk(b"again".to_vec()), &mut reg);
    assert_eq!(ds.len(), 3);
}

#[test]
fn serialized_ordering_consistent_across_observers() {
    let mut reg = Registry::new();
    let (alice, _) = join(&mut reg, 1, "alice");
    let (bob, _) = join(&mut reg, 2, "bob");
    join(&mut reg, 3, "carol");
    // The registry lock serializes the two broadcasts in some order;
    // here it granted alice's first.
    let (_, ds1) = session_step(alice, 1, Event::Chunk(b"M1".to_vec()), &mut reg);
    let (_, ds2) = session_step(bob, 2, Event::Chunk(b"M2".to_vec()), &mut reg);
    for h in [1, 2, 3] {
        assert_eq!(
            msgs_for(h, &[&ds1, &ds2]),
            vec!["M1".to_string(), "M2".to_string()]
        );
    }
}

#[test]
fn invalid_utf8_is_replaced() {
    let mut reg = Registry::new();
    let (alice, _) = join(&mut reg, 1, "alice");
    let (_, ds) = session_step(alice, 1, Event::Chunk(vec![0xff, b'a']), &mut reg);
    assert_eq!(ds.len(), 1);
    assert_eq!(ds[0].message, "\u{FFFD}a");
}

#[test]
fn closed_before_nickname() {
    let mut reg = Registry::new();
    let (st, ds) = session_step(SessionState::Unregistered, 1, Event::EndOfStream, &mut reg);
    assert!(matches!(st, SessionState::Terminated));
    assert!(ds.is_empty());
    assert_eq!(reg.len(), 0);
    let (st, ds) = session_step(SessionState::Unregistered, 1, Event::IoError, &mut reg);
    assert!(matches!(st, SessionState::Terminated));
    assert!(ds.is_empty());
}

#[test]
fn read_error_cleans_up_registration() {
    let mut reg = Registry::new();
    join(&mut reg, 1, "bob");
    let (alice, _) = join(&mut reg, 2, "alice");
    let (st, ds) = session_step(alice, 2, Event::IoError, &mut reg);
    assert!(matches!(st, SessionState::Terminated));
    assert_eq!(ds.len(), 1);
    assert_eq!(ds[0].to, 1);
    assert_eq!(ds[0].message, "alice has left!");
    assert_eq!(reg.len(), 1);
    assert!(!reg.contains(&"alice".to_string()));
}

#[test]
fn terminated_is_absorbing() {
    let mut reg = Registry::new();
    join(&mut reg, 1, "alice");
    let (st, ds) = session_step(
        SessionState::Terminated,
        1,
        Event::Chunk(b"late".to_vec()),
        &mut reg,
    );
    assert!(matches!(st, SessionState::Terminated));
    assert!(ds.is_empty());
    assert_eq!(reg.len(), 1);
}

#[test]
fn unregister_is_idempotent() {
    let mut reg = Registry::new();
    reg.try_register("alice".to_string(), 1);
    reg.unregister(&"bob".to_string());
    assert_eq!(reg.len(), 1);
    reg.unregister(&"alice".to_string());
    assert_eq!(reg.len(), 0);
    reg.unregister(&"alice".to_string());
    assert_eq!(reg.len(), 0);
}

#[test]
fn broadcast_with_exclusion() {
    let mut reg = Registry::new();
    reg.try_register("alice".to_string(), 1);
    reg.try_register("bob".to_string(), 2);
    reg.try_register("carol".to_string(), 3);
    let msg = "note".to_string();
    let ds = reg.broadcast(&msg, Some(&"bob".to_string()));
    let mut to: Vec<u64> = ds.iter().map(|d| d.to).collect();
    to.sort();
    assert_eq!(to, vec![1, 3]);
    for d in &ds {
        assert_eq!(d.message, "note");
    }
}

#[test]
fn broadcast_on_empty_registry() {
    let reg = Registry::new();
    let ds = reg.broadcast(&"ping".to_string(), None);
    assert!(ds.is_empty());
}
