use inverted_index::writer::FailingSegmentWriter;
use inverted_index::writer::PostingsWriter;
use inverted_index::writer::SegmentEvent;
use inverted_index::writer::VecSegmentWriter;

#[test]
fn repeated_and_out_of_order_subscriptions_are_dropped() {
    let mut w = PostingsWriter::new();
    w.suscribe(5, 42);
    w.suscribe(3, 42);
    w.suscribe(5, 42);
    let mut sink = VecSegmentWriter::new();
    assert!(w.serialize(&mut sink).is_ok());
    assert_eq!(
        sink.recorded,
        vec![SegmentEvent::TermHeader(42, 1), SegmentEvent::DocList(vec![5])]
    );
}

#[test]
fn stored_sequences_stay_strictly_increasing() {
    let mut w = PostingsWriter::new();
    for doc in [1, 5, 3, 5, 7, 7, 2, 9] {
        w.suscribe(doc, 8);
    }
    let mut sink = VecSegmentWriter::new();
    assert!(w.serialize(&mut sink).is_ok());
    assert_eq!(
        sink.recorded,
        vec![SegmentEvent::TermHeader(8, 4), SegmentEvent::DocList(vec![1, 5, 7, 9])]
    );
}

#[test]
fn serialization_iterates_terms_in_ascending_order() {
    let mut w = PostingsWriter::new();
    // first-seen order 1, 2, 1: handles {1: 0, 2: 1}; the emitted order
    // is the sorted key order, whatever the handles are
    w.suscribe(10, 1);
    w.suscribe(10, 2);
    w.suscribe(11, 1);
    let mut sink = VecSegmentWriter::new();
    assert!(w.serialize(&mut sink).is_ok());
    assert_eq!(
        sink.recorded,
        vec![
            SegmentEvent::TermHeader(1, 2),
            SegmentEvent::DocList(vec![10, 11]),
            SegmentEvent::TermHeader(2, 1),
            SegmentEvent::DocList(vec![10]),
        ]
    );
}

#[test]
fn serialization_order_is_sorted_even_against_first_seen_order() {
    let mut w = PostingsWriter::new();
    // terms arrive in descending order; serialization still ascends
    w.suscribe(10, 7);
    w.suscribe(10, 3);
    w.suscribe(10, 5);
    let mut sink = VecSegmentWriter::new();
    assert!(w.serialize(&mut sink).is_ok());
    assert_eq!(
        sink.recorded,
        vec![
            SegmentEvent::TermHeader(3, 1),
            SegmentEvent::DocList(vec![10]),
            SegmentEvent::TermHeader(5, 1),
            SegmentEvent::DocList(vec![10]),
            SegmentEvent::TermHeader(7, 1),
            SegmentEvent::DocList(vec![10]),
        ]
    );
}

#[test]
fn serializing_an_empty_accumulator_emits_nothing() {
    let w = PostingsWriter::new();
    let mut sink = VecSegmentWriter::new();
    assert!(w.serialize(&mut sink).is_ok());
    assert_eq!(sink.recorded, Vec::<SegmentEvent>::new());
}

#[test]
fn first_writer_failure_is_returned_and_stops_serialization() {
    let mut w = PostingsWriter::new();
    w.suscribe(1, 4);
    w.suscribe(2, 6);
    // the writer fails on the very first call
    let mut sink0 = FailingSegmentWriter::new(0);
    assert!(w.serialize(&mut sink0).is_err());
    assert_eq!(sink0.recorded, Vec::<SegmentEvent>::new());
    // the writer fails in the middle: only a prefix is written
    let mut sink1 = FailingSegmentWriter::new(3);
    assert!(w.serialize(&mut sink1).is_err());
    assert_eq!(
        sink1.recorded,
        vec![
            SegmentEvent::TermHeader(4, 1),
            SegmentEvent::DocList(vec![1]),
            SegmentEvent::TermHeader(6, 1),
        ]
    );
}

#[test]
fn failing_writer_with_enough_budget_succeeds() {
    let mut w = PostingsWriter::new();
    w.suscribe(1, 4);
    let mut sink = FailingSegmentWriter::new(2);
    assert!(w.serialize(&mut sink).is_ok());
    assert_eq!(
        sink.recorded,
        vec![SegmentEvent::TermHeader(4, 1), SegmentEvent::DocList(vec![1])]
    );
}
