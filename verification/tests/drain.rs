//! The bounded window of unacknowledged notifications.

use session_replay::drain::{ReplayCompletionDrain, REPLAY_COMPLETION_WINDOW};
use tokio::sync::oneshot::error::TryRecvError;
use tokio::sync::oneshot::{channel, Receiver};

type Completion = Receiver<Result<(), String>>;

/// Enters a receiver, after the oldest has come in where the window is full.
fn push(drain: &mut ReplayCompletionDrain<Completion>, rx: Completion) {
    if let Some(oldest) = drain.make_room() {
        let _ = oldest.blocking_recv();
    }
    drain.push(rx);
}

#[test]
fn completion_window_drains_all_ready_receivers() {
    assert_eq!(REPLAY_COMPLETION_WINDOW, 64);
    let mut drain = ReplayCompletionDrain::new();
    for _ in 0..5 {
        let (tx, rx) = channel();
        tx.send(Ok(())).unwrap();
        push(&mut drain, rx);
    }
    assert_eq!(drain.forwarded(), 5);
    for rx in drain.drain_all() {
        assert_eq!(rx.blocking_recv(), Ok(Ok(())));
    }
}

#[test]
fn completion_window_awaits_oldest_before_exceeding_cap() {
    let mut drain: ReplayCompletionDrain<Completion> = ReplayCompletionDrain::new();
    let mut early_txs = Vec::new();
    for _ in 0..REPLAY_COMPLETION_WINDOW {
        let (tx, rx) = channel();
        early_txs.push(tx);
        push(&mut drain, rx);
    }
    let (overflow_tx, overflow_rx) = channel();
    let mut oldest = drain
        .make_room()
        .expect("push must wait for the oldest completion when the window is full");
    assert_eq!(oldest.try_recv(), Err(TryRecvError::Empty));
    early_txs
        .remove(0)
        .send(Ok(()))
        .expect("oldest receiver still live");
    assert_eq!(oldest.blocking_recv(), Ok(Ok(())));
    drain.push(overflow_rx);
    overflow_tx.send(Ok(())).ok();
    for tx in early_txs {
        let _ = tx.send(Ok(()));
    }
    assert_eq!(drain.forwarded(), REPLAY_COMPLETION_WINDOW + 1);
    let rest = drain.drain_all();
    assert_eq!(rest.len(), REPLAY_COMPLETION_WINDOW);
    for rx in rest {
        assert_eq!(rx.blocking_recv(), Ok(Ok(())));
    }
}

#[test]
fn drain_all_awaits_fifo_remainder() {
    let mut drain: ReplayCompletionDrain<Completion> = ReplayCompletionDrain::new();
    let (tx0, rx0) = channel();
    let (tx1, rx1) = channel();
    let (tx2, rx2) = channel();
    push(&mut drain, rx0);
    push(&mut drain, rx1);
    push(&mut drain, rx2);
    let mut rest = drain.drain_all();
    assert_eq!(
        rest[0].try_recv(),
        Err(TryRecvError::Empty),
        "drain_all must wait for index 0 first"
    );
    tx2.send(Ok(())).ok();
    assert_eq!(
        rest[0].try_recv(),
        Err(TryRecvError::Empty),
        "index 2 ready must not finish drain before 0"
    );
    tx0.send(Ok(())).unwrap();
    tx1.send(Ok(())).unwrap();
    for rx in rest {
        assert_eq!(rx.blocking_recv(), Ok(Ok(())));
    }
}

#[test]
fn window_holds_the_last_and_hands_out_the_others_in_order() {
    let mut drain: ReplayCompletionDrain<usize> = ReplayCompletionDrain::new();
    let mut awaited = Vec::new();
    for n in 0..200 {
        awaited.extend(drain.make_room());
        drain.push(n);
    }
    assert_eq!(drain.forwarded(), 200);
    assert_eq!(awaited, (0..136).collect::<Vec<_>>());
    assert_eq!(
        drain.drain_all().into_iter().collect::<Vec<_>>(),
        (136..200).collect::<Vec<_>>()
    );
}
