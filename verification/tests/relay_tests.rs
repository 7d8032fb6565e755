use relay::dispatch::dispatch;
use relay::dispatch::DispatchOutcome;
use relay::lifecycle::close_connection;
use relay::lifecycle::handle_frame;
use relay::lifecycle::open_connection;
use relay::lifecycle::Frame;
use relay::lifecycle::ReaderAction;
use relay::registry::Policy;
use relay::registry::QueueSender;
use relay::registry::Registry;
use tokio::sync::mpsc;
use tokio::sync::mpsc::UnboundedReceiver;

fn channel() -> (QueueSender, UnboundedReceiver<String>) {
    mpsc::unbounded_channel()
}

#[test]
fn register_and_len() {
    let mut reg = Registry::new();
    assert_eq!(reg.len(), 0);
    let (tx_a, _rx_a) = channel();
    let (tx_b, _rx_b) = channel();
    assert!(reg.register(1, tx_a));
    assert!(reg.register(2, tx_b));
    assert_eq!(reg.len(), 2);
    assert!(reg.contains(1));
    assert!(reg.contains(2));
    assert!(!reg.contains(3));
}

#[test]
fn register_refuses_duplicate() {
    let mut reg = Registry::new();
    let (tx_a, _rx_a) = channel();
    let (tx_b, _rx_b) = channel();
    assert!(reg.register(7, tx_a));
    assert!(!reg.register(7, tx_b));
    assert_eq!(reg.len(), 1);
}

#[test]
fn remove_decrements_by_exactly_one() {
    let mut reg = Registry::new();
    let (tx_a, _rx_a) = channel();
    let (tx_b, _rx_b) = channel();
    reg.register(1, tx_a);
    reg.register(2, tx_b);
    reg.remove(1);
    assert_eq!(reg.len(), 1);
    assert!(!reg.contains(1));
    assert!(reg.contains(2));
}

#[test]
fn remove_is_idempotent() {
    let mut reg = Registry::new();
    let (tx_a, _rx_a) = channel();
    reg.register(1, tx_a);
    reg.remove(9);
    assert_eq!(reg.len(), 1);
    reg.remove(1);
    reg.remove(1);
    assert_eq!(reg.len(), 0);
}

#[test]
fn sender_for_reaches_the_queue() {
    let mut reg = Registry::new();
    let (tx_a, mut rx_a) = channel();
    reg.register(5, tx_a);
    let handle = reg.sender_for(5).unwrap();
    handle.send("direct".to_string()).unwrap();
    assert_eq!(rx_a.try_recv().unwrap(), "direct");
    assert!(reg.sender_for(6).is_none());
}

#[test]
fn broadcast_targets_follow_policy() {
    let mut reg = Registry::new();
    let (tx_a, _rx_a) = channel();
    let (tx_b, _rx_b) = channel();
    let (tx_c, _rx_c) = channel();
    reg.register(1, tx_a);
    reg.register(2, tx_b);
    reg.register(3, tx_c);
    let mut ids: Vec<u128> = reg
        .broadcast_targets(Policy::ExcludeSender, 1)
        .into_iter()
        .map(|p| p.0)
        .collect();
    ids.sort();
    assert_eq!(ids, vec![2, 3]);
    let mut all: Vec<u128> = reg
        .broadcast_targets(Policy::IncludeSender, 1)
        .into_iter()
        .map(|p| p.0)
        .collect();
    all.sort();
    assert_eq!(all, vec![1, 2, 3]);
}

#[test]
fn broadcast_reaches_exactly_the_others() {
    let mut reg = Registry::new();
    let (tx_a, mut rx_a) = channel();
    let (tx_b, mut rx_b) = channel();
    let (tx_c, mut rx_c) = channel();
    reg.register(1, tx_a);
    reg.register(2, tx_b);
    reg.register(3, tx_c);
    let payload = "{\"user\":\"alice\",\"msg\":\"hi\"}";
    let outcome = dispatch(&reg, Policy::ExcludeSender, 1, payload);
    match outcome {
        DispatchOutcome::Broadcast { payload: sent, mut targets, delivered } => {
            assert_eq!(sent, payload);
            targets.sort();
            assert_eq!(targets, vec![2, 3]);
            assert_eq!(delivered, 2);
        }
        DispatchOutcome::Rejected { .. } => panic!("well-formed payload was rejected"),
    }
    assert!(rx_a.try_recv().is_err());
    assert_eq!(rx_b.try_recv().unwrap(), payload);
    assert_eq!(rx_c.try_recv().unwrap(), payload);
    assert!(rx_b.try_recv().is_err());
    assert!(rx_c.try_recv().is_err());
}

#[test]
fn include_policy_echoes_to_sender() {
    let mut reg = Registry::new();
    let (tx_a, mut rx_a) = channel();
    let (tx_b, mut rx_b) = channel();
    reg.register(1, tx_a);
    reg.register(2, tx_b);
    let payload = "{\"user\":\"alice\",\"msg\":\"hi\"}";
    dispatch(&reg, Policy::IncludeSender, 1, payload);
    assert_eq!(rx_a.try_recv().unwrap(), payload);
    assert_eq!(rx_b.try_recv().unwrap(), payload);
}

#[test]
fn malformed_payload_gets_one_error_reply() {
    let mut reg = Registry::new();
    let (tx_a, mut rx_a) = channel();
    let (tx_b, mut rx_b) = channel();
    reg.register(1, tx_a);
    reg.register(2, tx_b);
    let outcome = dispatch(&reg, Policy::ExcludeSender, 1, "{\"foo\": \"bar\"}");
    match outcome {
        DispatchOutcome::Rejected { reply, replied } => {
            assert_eq!(reply, "{\"code\":400,\"error\":\"Invalid message format\"}");
            assert!(replied);
        }
        DispatchOutcome::Broadcast { .. } => panic!("malformed payload was broadcast"),
    }
    assert_eq!(
        rx_a.try_recv().unwrap(),
        "{\"code\":400,\"error\":\"Invalid message format\"}"
    );
    assert!(rx_a.try_recv().is_err());
    assert!(rx_b.try_recv().is_err());
}

#[test]
fn closed_queue_is_skipped_best_effort() {
    let mut reg = Registry::new();
    let (tx_a, _rx_a) = channel();
    let (tx_b, rx_b) = channel();
    let (tx_c, mut rx_c) = channel();
    reg.register(1, tx_a);
    reg.register(2, tx_b);
    reg.register(3, tx_c);
    drop(rx_b);
    let payload = "{\"user\":\"alice\",\"msg\":\"hi\"}";
    let outcome = dispatch(&reg, Policy::ExcludeSender, 1, payload);
    match outcome {
        DispatchOutcome::Broadcast { mut targets, delivered, .. } => {
            targets.sort();
            assert_eq!(targets, vec![2, 3]);
            assert_eq!(delivered, 1);
        }
        DispatchOutcome::Rejected { .. } => panic!("well-formed payload was rejected"),
    }
    assert_eq!(rx_c.try_recv().unwrap(), payload);
}

#[test]
fn reply_to_absent_sender_is_not_delivered() {
    let mut reg = Registry::new();
    let (tx_a, mut rx_a) = channel();
    reg.register(1, tx_a);
    let outcome = dispatch(&reg, Policy::ExcludeSender, 9, "not json");
    match outcome {
        DispatchOutcome::Rejected { replied, .. } => assert!(!replied),
        DispatchOutcome::Broadcast { .. } => panic!("malformed payload was broadcast"),
    }
    assert!(rx_a.try_recv().is_err());
}

#[test]
fn disconnected_client_is_never_queued() {
    let mut reg = Registry::new();
    let (tx_a, mut rx_a) = channel();
    let (tx_b, mut rx_b) = channel();
    let (tx_c, mut rx_c) = channel();
    reg.register(1, tx_a);
    reg.register(2, tx_b);
    reg.register(3, tx_c);
    close_connection(&mut reg, 3);
    assert_eq!(reg.len(), 2);
    let payload = "{\"user\":\"bob\",\"msg\":\"bye\"}";
    let outcome = dispatch(&reg, Policy::ExcludeSender, 2, payload);
    match outcome {
        DispatchOutcome::Broadcast { targets, .. } => assert_eq!(targets, vec![1]),
        DispatchOutcome::Rejected { .. } => panic!("well-formed payload was rejected"),
    }
    assert_eq!(rx_a.try_recv().unwrap(), payload);
    assert!(rx_b.try_recv().is_err());
    assert!(rx_c.try_recv().is_err());
}

#[test]
fn many_registrations_stay_distinct() {
    let mut reg = Registry::new();
    let mut ids: Vec<u128> = Vec::new();
    let mut receivers = Vec::new();
    for _ in 0..64 {
        let (tx, rx) = channel();
        let id = open_connection(&mut reg, tx).expect("fresh identifier collided");
        ids.push(id);
        receivers.push(rx);
    }
    assert_eq!(reg.len(), 64);
    let mut sorted = ids.clone();
    sorted.sort();
    sorted.dedup();
    assert_eq!(sorted.len(), 64);
    for id in &ids {
        assert!(reg.contains(*id));
    }
}

#[test]
fn open_and_close_connection() {
    let mut reg = Registry::new();
    let (tx, _rx) = channel();
    let id = open_connection(&mut reg, tx).unwrap();
    assert!(reg.contains(id));
    assert_eq!(reg.len(), 1);
    close_connection(&mut reg, id);
    assert!(!reg.contains(id));
    assert_eq!(reg.len(), 0);
    close_connection(&mut reg, id);
    assert_eq!(reg.len(), 0);
}

#[test]
fn frames_drive_the_reader() {
    let mut reg = Registry::new();
    let (tx_a, _rx_a) = channel();
    let (tx_b, mut rx_b) = channel();
    reg.register(1, tx_a);
    reg.register(2, tx_b);
    let (act, out) = handle_frame(&reg, Policy::ExcludeSender, 1, &Frame::Close);
    assert_eq!(act, ReaderAction::Stop);
    assert!(out.is_none());
    let (act, out) = handle_frame(&reg, Policy::ExcludeSender, 1, &Frame::Other);
    assert_eq!(act, ReaderAction::KeepReading);
    assert!(out.is_none());
    let payload = "{\"user\":\"alice\",\"msg\":\"hi\"}".to_string();
    let (act, out) = handle_frame(&reg, Policy::ExcludeSender, 1, &Frame::Text(payload.clone()));
    assert_eq!(act, ReaderAction::KeepReading);
    assert!(matches!(out, Some(DispatchOutcome::Broadcast { .. })));
    assert_eq!(rx_b.try_recv().unwrap(), payload);
}
