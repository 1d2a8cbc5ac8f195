use rusty_mqtt::client_registry::{ClientRegistry, ConnectionCommand};
use tokio::sync::mpsc;

fn mk_channel() -> (
    mpsc::Sender<ConnectionCommand>,
    mpsc::Receiver<ConnectionCommand>,
) {
    mpsc::channel(4)
}

#[test]
fn swap_in_empty_slot_returns_none() {
    let mut reg = ClientRegistry::new();
    let (tx, _rx) = mk_channel();
    assert!(reg.swap_in("c1", tx).is_none());
}

#[test]
fn swap_in_existing_returns_previous_sender() {
    let mut reg = ClientRegistry::new();
    let (tx1, _rx1) = mk_channel();
    let (tx2, _rx2) = mk_channel();
    reg.swap_in("c1", tx1.clone());
    let old = reg.swap_in("c1", tx2).expect("old sender expected");
    assert!(old.same_channel(&tx1));
}

#[test]
fn remove_if_owner_skips_when_not_owner() {
    let mut reg = ClientRegistry::new();
    let (tx1, _rx1) = mk_channel();
    let (tx2, _rx2) = mk_channel();
    reg.swap_in("c1", tx1.clone());
    // tx2 is not the owner; remove must be a no-op
    reg.remove_if_owner("c1", &tx2);
    // owner remove succeeds
    reg.remove_if_owner("c1", &tx1);
    // After owner remove, slot is empty
    let (tx3, _rx3) = mk_channel();
    assert!(reg.swap_in("c1", tx3).is_none());
}

#[test]
fn displaced_session_cleanup_keeps_successor() {
    let mut reg = ClientRegistry::default();
    let (tx1, _rx1) = mk_channel();
    let (tx2, _rx2) = mk_channel();
    reg.swap_in("c1", tx1.clone());
    reg.swap_in("c1", tx2.clone());
    reg.remove_if_owner("c1", &tx1);
    let (tx3, _rx3) = mk_channel();
    let still = reg.swap_in("c1", tx3).expect("successor must still be registered");
    assert!(still.same_channel(&tx2));
}

#[test]
fn clients_are_independent() {
    let mut reg = ClientRegistry::new();
    let (tx1, _rx1) = mk_channel();
    let (tx2, _rx2) = mk_channel();
    assert!(reg.swap_in("a", tx1.clone()).is_none());
    assert!(reg.swap_in("b", tx2.clone()).is_none());
    reg.remove_if_owner("a", &tx1);
    reg.remove_if_owner("a", &tx1);
    let (tx3, _rx3) = mk_channel();
    let b = reg.swap_in("b", tx3).expect("b stays registered");
    assert!(b.same_channel(&tx2));
}
