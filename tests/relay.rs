use spit::relay::{
    completed_reply, relay, stream_outcome, Fragment, Pulled, Relay, StreamEvent, StreamOutcome,
};

fn frag(text: &str, is_final: bool) -> Pulled {
    Pulled::Fragment(Fragment { text: text.to_string(), is_final })
}

fn chunk(text: &str, is_final: bool) -> StreamEvent {
    StreamEvent::Chunk { text: text.to_string(), is_final }
}

#[test]
fn relay_three_fragments_then_done() {
    let items = vec![frag("Hi", false), frag(" there", false), frag("", true)];
    assert_eq!(
        relay(&items),
        vec![chunk("Hi", false), chunk(" there", false), chunk("", true), StreamEvent::Done]
    );
}

#[test]
fn relay_error_after_one_fragment() {
    let items = vec![frag("Hel", false), Pulled::Failed("connection reset".to_string())];
    assert_eq!(
        relay(&items),
        vec![
            chunk("Hel", false),
            StreamEvent::Error { message: "connection reset".to_string() }
        ]
    );
}

#[test]
fn relay_stops_at_final_fragment() {
    let items = vec![frag("a", true), frag("b", false), Pulled::Failed("late".to_string())];
    assert_eq!(relay(&items), vec![chunk("a", true), StreamEvent::Done]);
}

#[test]
fn relay_exhausted_source_ends_with_done() {
    assert_eq!(relay(&vec![]), vec![StreamEvent::Done]);
    assert_eq!(relay(&vec![frag("x", false)]), vec![chunk("x", false), StreamEvent::Done]);
}

#[test]
fn relay_has_exactly_one_terminal_event_last() {
    let items = vec![frag("1", false), frag("2", false), frag("3", false)];
    let evs = relay(&items);
    let terminal = evs.iter().filter(|e| !matches!(e, StreamEvent::Chunk { .. })).count();
    assert_eq!(terminal, 1);
    assert_eq!(evs.last(), Some(&StreamEvent::Done));
    assert_eq!(evs.len(), 4);
}

#[test]
fn step_machine_finishes_on_error() {
    let mut r = Relay::new();
    assert!(!r.is_finished());
    assert_eq!(r.on_item(&frag("a", false)), vec![chunk("a", false)]);
    assert!(!r.is_finished());
    assert_eq!(
        r.on_item(&Pulled::Failed("e".to_string())),
        vec![StreamEvent::Error { message: "e".to_string() }]
    );
    assert!(r.is_finished());
}

#[test]
fn step_machine_exhausted() {
    let mut r = Relay::new();
    assert_eq!(r.on_exhausted(), vec![StreamEvent::Done]);
    assert!(r.is_finished());
}

#[test]
fn reply_is_reassembled_after_done() {
    let evs = vec![chunk("Hi", false), chunk(" there", false), chunk("", true), StreamEvent::Done];
    assert_eq!(completed_reply(&evs), Some("Hi there".to_string()));
}

#[test]
fn no_reply_after_error() {
    let evs = vec![chunk("Hi", false), StreamEvent::Error { message: "x".to_string() }];
    assert_eq!(completed_reply(&evs), None);
    assert_eq!(completed_reply(&vec![]), None);
}

#[test]
fn cancel_stops_the_relay_without_events() {
    let mut r = Relay::new();
    assert_eq!(r.on_item(&frag("a", false)), vec![chunk("a", false)]);
    r.cancel();
    assert!(r.is_finished());
}

#[test]
fn outcome_by_terminal_event() {
    assert_eq!(
        stream_outcome(&vec![chunk("a", true), StreamEvent::Done]),
        StreamOutcome::Completed
    );
    assert_eq!(
        stream_outcome(&vec![StreamEvent::Error { message: "boom".to_string() }]),
        StreamOutcome::Failed("boom".to_string())
    );
    assert_eq!(stream_outcome(&vec![chunk("a", false)]), StreamOutcome::Cancelled);
    assert_eq!(stream_outcome(&vec![]), StreamOutcome::Cancelled);
}
