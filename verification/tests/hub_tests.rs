use chatatui::handler::inbound_step;
use chatatui::handler::outbound_step;
use chatatui::handler::InboundEvent;
use chatatui::handler::OutboundAction;
use chatatui::hub::Hub;
use chatatui::hub::RecvOutcome;

fn expect_payload(outcome: RecvOutcome) -> String {
    match outcome {
        RecvOutcome::Payload(p) => p,
        RecvOutcome::Lagged(_) => panic!("unexpected lag"),
        RecvOutcome::Empty => panic!("unexpected empty backlog"),
    }
}

#[test]
fn fanout_reaches_every_subscriber_in_publish_order() {
    let mut hub = Hub::new(16);
    let mut a = hub.subscribe();
    let mut b = hub.subscribe();
    let n = hub.publish("one".to_string());
    assert_eq!(n, 2);
    hub.publish("two".to_string());
    hub.publish("three".to_string());
    let got_a = a.receive_available(&hub);
    let got_b = b.receive_available(&hub);
    assert_eq!(got_a, vec!["one", "two", "three"]);
    assert_eq!(got_b, vec!["one", "two", "three"]);
}

#[test]
fn publish_with_no_subscribers_is_not_an_error() {
    let mut hub = Hub::new(4);
    let n = hub.publish("nobody listens".to_string());
    assert_eq!(n, 0);
}

#[test]
fn echo_reaches_the_originating_connection() {
    let mut hub = Hub::new(8);
    // the subscription that belongs to the publishing connection itself
    let mut own = hub.subscribe();
    hub.publish("echoed".to_string());
    assert_eq!(expect_payload(own.receive_next(&hub)), "echoed");
}

#[test]
fn new_subscriber_sees_no_replay() {
    let mut hub = Hub::new(8);
    hub.publish("before".to_string());
    let mut late = hub.subscribe();
    assert!(matches!(late.receive_next(&hub), RecvOutcome::Empty));
    hub.publish("after".to_string());
    assert_eq!(expect_payload(late.receive_next(&hub)), "after");
}

#[test]
fn paused_subscriber_gets_lag_signal_not_silent_loss() {
    let mut hub = Hub::new(1000);
    let mut paused = hub.subscribe();
    let mut i: i64 = 0;
    while i < 1001 {
        hub.publish(format!("m{}", i));
        i += 1;
    }
    // one more publish than the capacity: the next receive names the
    // one missed payload instead of silently skipping it
    match paused.receive_next(&hub) {
        RecvOutcome::Lagged(missed) => assert_eq!(missed, 1),
        _ => panic!("expected a lag signal"),
    }
    // delivery resumes in order with the oldest retained payload
    assert_eq!(expect_payload(paused.receive_next(&hub)), "m1");
    assert_eq!(expect_payload(paused.receive_next(&hub)), "m2");
}

#[test]
fn lag_counts_every_dropped_payload() {
    let mut hub = Hub::new(2);
    let mut slow = hub.subscribe();
    hub.publish("a".to_string());
    hub.publish("b".to_string());
    hub.publish("c".to_string());
    hub.publish("d".to_string());
    hub.publish("e".to_string());
    match slow.receive_next(&hub) {
        RecvOutcome::Lagged(missed) => assert_eq!(missed, 3),
        _ => panic!("expected a lag signal"),
    }
    assert_eq!(expect_payload(slow.receive_next(&hub)), "d");
    assert_eq!(expect_payload(slow.receive_next(&hub)), "e");
    assert!(matches!(slow.receive_next(&hub), RecvOutcome::Empty));
}

#[test]
fn lag_can_repeat_and_delivery_recovers_each_time() {
    let mut hub = Hub::new(2);
    let mut slow = hub.subscribe();
    for i in 0..5 {
        hub.publish(format!("x{}", i));
    }
    assert!(matches!(slow.receive_next(&hub), RecvOutcome::Lagged(3)));
    assert_eq!(expect_payload(slow.receive_next(&hub)), "x3");
    for i in 5..10 {
        hub.publish(format!("x{}", i));
    }
    assert!(matches!(slow.receive_next(&hub), RecvOutcome::Lagged(4)));
    assert_eq!(expect_payload(slow.receive_next(&hub)), "x8");
    assert_eq!(expect_payload(slow.receive_next(&hub)), "x9");
    assert!(matches!(slow.receive_next(&hub), RecvOutcome::Empty));
}

#[test]
fn relay_scenario_two_clients_see_the_exact_frame() {
    // two clients connect, then one sends a frame; the server relays it
    // verbatim — it never parses the payload — and both subscriptions,
    // the sender's own included, receive that exact text next
    let mut hub = Hub::new(1000);
    let mut sub_a = hub.subscribe();
    let mut sub_b = hub.subscribe();
    let frame = "{\"ts\":1,\"sender\":\"alice\",\"text\":\"hi\"}";
    let cont = inbound_step(&mut hub, InboundEvent::Frame(frame.to_string()));
    assert!(cont);
    assert_eq!(expect_payload(sub_a.receive_next(&hub)), frame);
    assert_eq!(expect_payload(sub_b.receive_next(&hub)), frame);
}

#[test]
fn inbound_stops_when_the_transport_closes() {
    let mut hub = Hub::new(8);
    assert!(!inbound_step(&mut hub, InboundEvent::Closed));
}

#[test]
fn outbound_sends_waits_and_skips() {
    let mut hub = Hub::new(1);
    let mut sub = hub.subscribe();
    assert!(matches!(outbound_step(&mut sub, &hub), OutboundAction::Wait));
    hub.publish("x".to_string());
    match outbound_step(&mut sub, &hub) {
        OutboundAction::Send(p) => assert_eq!(p, "x"),
        _ => panic!("expected a frame to send"),
    }
    hub.publish("y".to_string());
    hub.publish("z".to_string());
    assert!(matches!(outbound_step(&mut sub, &hub), OutboundAction::Skip));
    match outbound_step(&mut sub, &hub) {
        OutboundAction::Send(p) => assert_eq!(p, "z"),
        _ => panic!("expected a frame to send"),
    }
}
