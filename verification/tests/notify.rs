use ecs_jobs::notify::channel;

#[test]
fn receiver_cloned_after_completion_resolves_immediately() {
    let (mut ch, _rx) = channel();
    let woken = ch.drop_tx();
    assert!(woken.is_empty());

    // A clone made after the sender dropped registers no waiter slot.
    let late = ch.clone_receiver();
    assert_eq!(late.id, None);

    // Polling it resolves at once.
    assert!(ch.recv(late.id, 42));
}

#[test]
fn clone_before_completion_registers_slot() {
    let (mut ch, rx) = channel();
    assert_eq!(rx.id, Some(0));
    let rx2 = ch.clone_receiver();
    assert_eq!(rx2.id, Some(1));
}

#[test]
fn poll_parks_waker_until_completion() {
    let (mut ch, rx) = channel();
    assert!(!ch.recv(rx.id, 5));
    let rx2 = ch.clone_receiver();
    assert!(!ch.recv(rx2.id, 6));

    let mut woken = ch.drop_tx();
    woken.sort();
    assert_eq!(woken, vec![5, 6]);

    // Polls after completion resolve immediately.
    assert!(ch.recv(rx.id, 7));
    assert!(ch.recv(rx2.id, 8));
}

#[test]
fn dropped_receiver_is_not_woken() {
    let (mut ch, rx) = channel();
    assert!(!ch.recv(rx.id, 9));
    ch.drop_rx(rx.id);
    let woken = ch.drop_tx();
    assert!(woken.is_empty());
}
