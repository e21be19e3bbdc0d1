use mongosync::checkpoint::{CheckpointTracker, ResumePosition};
use mongosync::config::{FileConfig, SinksConfig, StdoutConfig};
use mongosync::dispatch::DeliveryVerdict;
use mongosync::mapper::{MappingError, OpKind, RawEvent, RawNamespace};
use mongosync::message::{Doc, FieldValue};
use mongosync::relay::{ObserveOutcome, Relay};

fn bv(s: &str) -> Vec<u8> {
    s.as_bytes().to_vec()
}

fn pos(v: u64) -> ResumePosition {
    ResumePosition { value: v }
}

fn two_sinks() -> Vec<SinksConfig> {
    vec![
        SinksConfig::Stdout(StdoutConfig { pretty: Some(false) }),
        SinksConfig::File(FileConfig { path: String::from("out.jsonl") }),
    ]
}

fn insert_event(n: u64) -> RawEvent {
    RawEvent {
        op: OpKind::Insert,
        ns: Some(RawNamespace { db: bv("shop"), coll: Some(bv("orders")) }),
        key: Doc { fields: vec![(bv("_id"), FieldValue::Num(bv("1")))] },
        full_doc: Some(Doc { fields: vec![(bv("n"), FieldValue::Num(n.to_string().as_bytes().to_vec()))] }),
    }
}

#[test]
fn each_sink_receives_all_messages_in_feed_order() {
    let mut relay = Relay::new(two_sinks(), 8, 3, 1, None);
    for k in 0..3u64 {
        assert!(relay.can_observe());
        let o = relay.observe_event(insert_event(k), pos(10 + k));
        assert_eq!(o, ObserveOutcome::Accepted);
    }
    // drain each sink independently and record the order of first attempts
    for sink in 0..2usize {
        let mut order: Vec<u64> = Vec::new();
        while let Some(seq) = relay.poll_sink(sink) {
            order.push(seq);
            assert_eq!(relay.delivery_result(sink, true), DeliveryVerdict::Acked);
        }
        // exactly M = 3 attempts, in exactly the mapped order
        assert_eq!(order, vec![0, 1, 2]);
    }
}

#[test]
fn skipped_events_do_not_stop_the_loop() {
    let mut relay = Relay::new(two_sinks(), 8, 3, 1, None);
    let bad = RawEvent {
        op: OpKind::Insert,
        ns: None,
        key: Doc { fields: vec![] },
        full_doc: Some(Doc { fields: vec![] }),
    };
    let o = relay.observe_event(bad, pos(5));
    assert_eq!(o, ObserveOutcome::Skipped(MappingError::MissingNamespace));
    // the loop continues: the next event is observed normally
    assert!(relay.can_observe());
    assert_eq!(relay.observe_event(insert_event(1), pos(6)), ObserveOutcome::Accepted);
}

#[test]
fn administrative_events_are_dropped() {
    let mut relay = Relay::new(two_sinks(), 8, 3, 1, None);
    let admin = RawEvent { op: OpKind::Other, ns: None, key: Doc { fields: vec![] }, full_doc: None };
    assert_eq!(relay.observe_event(admin, pos(5)), ObserveOutcome::Dropped);
}

#[test]
fn failing_sink_blocks_checkpoint_but_not_other_sinks() {
    let mut relay = Relay::new(two_sinks(), 3, 2, 1, None);
    assert_eq!(relay.observe_event(insert_event(0), pos(10)), ObserveOutcome::Accepted);

    // sink 1 exhausts its two attempts and is degraded
    assert_eq!(relay.poll_sink(1), Some(0));
    assert_eq!(relay.delivery_result(1, false), DeliveryVerdict::RetryScheduled);
    assert_eq!(relay.delivery_result(1, false), DeliveryVerdict::Degraded);
    // a degraded sink gets no new attempts
    assert_eq!(relay.poll_sink(1), None);

    // sink 0 keeps making progress on later messages
    assert_eq!(relay.poll_sink(0), Some(0));
    assert_eq!(relay.delivery_result(0, true), DeliveryVerdict::Acked);
    assert_eq!(relay.observe_event(insert_event(1), pos(11)), ObserveOutcome::Accepted);
    assert_eq!(relay.observe_event(insert_event(2), pos(12)), ObserveOutcome::Accepted);
    assert_eq!(relay.poll_sink(0), Some(1));
    assert_eq!(relay.delivery_result(0, true), DeliveryVerdict::Acked);
    assert_eq!(relay.poll_sink(0), Some(2));
    assert_eq!(relay.delivery_result(0, true), DeliveryVerdict::Acked);

    // the checkpoint never advanced past the unacknowledged message
    assert_eq!(relay.commit_checkpoint(), None);
    assert_eq!(relay.resume_position(), None);

    // and the pending window now applies backpressure: bounded lag
    assert!(!relay.can_observe());

    // a healthy probe restores the sink; delivery resumes in order
    relay.probe_result(1, true);
    assert_eq!(relay.poll_sink(1), Some(0));
    assert_eq!(relay.delivery_result(1, true), DeliveryVerdict::Acked);
    assert_eq!(relay.poll_sink(1), Some(1));
    assert_eq!(relay.delivery_result(1, true), DeliveryVerdict::Acked);
    assert_eq!(relay.poll_sink(1), Some(2));
    assert_eq!(relay.delivery_result(1, true), DeliveryVerdict::Acked);

    // now everything is acknowledged and the checkpoint reaches the last position
    assert_eq!(relay.commit_checkpoint(), Some(pos(12)));
    assert_eq!(relay.resume_position(), Some(pos(12)));
    assert!(relay.can_observe());
}

#[test]
fn clean_shutdown_and_restart_resume_from_last_committed_position() {
    let mut relay = Relay::new(two_sinks(), 8, 3, 1, None);
    for k in 0..2u64 {
        assert_eq!(relay.observe_event(insert_event(k), pos(100 + k)), ObserveOutcome::Accepted);
    }
    for sink in 0..2usize {
        while let Some(_seq) = relay.poll_sink(sink) {
            assert_eq!(relay.delivery_result(sink, true), DeliveryVerdict::Acked);
        }
    }
    // clean shutdown: commit the last fully-acknowledged position
    let committed = relay.commit_checkpoint();
    assert_eq!(committed, Some(pos(101)));

    // restart: the new process resumes exactly there, no gap
    let restarted = Relay::new(two_sinks(), 8, 3, 1, committed);
    assert_eq!(restarted.resume_position(), Some(pos(101)));
}

#[test]
fn checkpoint_persistence_failure_pauses_consumption() {
    let mut relay = Relay::new(two_sinks(), 8, 3, 1, None);
    relay.persist_failed();
    assert!(!relay.can_observe());
}

#[test]
fn message_delivered_to_sinks_is_the_observed_one() {
    let mut relay = Relay::new(two_sinks(), 8, 3, 1, None);
    assert_eq!(relay.observe_event(insert_event(9), pos(1)), ObserveOutcome::Accepted);
    let seq = relay.poll_sink(0).unwrap();
    let m = relay.message_for(seq);
    assert_eq!(m.db, bv("shop"));
    assert_eq!(m.coll, bv("orders"));
}

#[test]
fn tracker_commit_cadence() {
    let mut t = CheckpointTracker::new(2, None);
    t.advance(pos(1));
    assert!(!t.commit_due());
    t.advance(pos(2));
    assert!(t.commit_due());
    assert_eq!(t.commit(), Some(pos(2)));
    assert!(!t.commit_due());
    assert_eq!(t.commit(), None);
    assert_eq!(t.load(), Some(pos(2)));
}

#[test]
fn no_sinks_checkpoint_advances_immediately() {
    let mut relay = Relay::new(Vec::new(), 8, 3, 1, None);
    assert_eq!(relay.observe_event(insert_event(0), pos(7)), ObserveOutcome::Accepted);
    assert!(relay.commit_due());
    assert_eq!(relay.commit_checkpoint(), Some(pos(7)));
    assert_eq!(relay.resume_position(), Some(pos(7)));
}
