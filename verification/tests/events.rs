use ribble_ecs::{EventCursor, EventReader, EventWriter, Events};

#[derive(Clone, Debug, PartialEq)]
struct Damage {
    amount: u32,
}

#[test]
fn events_send_and_read() {
    let mut events = Events::<Damage>::new();
    events.send(Damage { amount: 10 });
    events.send(Damage { amount: 5 });

    let mut reader = EventReader::new(&events);
    let batch: Vec<_> = reader.read_iter().to_vec();
    assert_eq!(batch, vec![Damage { amount: 10 }, Damage { amount: 5 }]);
    assert!(reader.is_empty());
}

#[test]
fn events_update_clears_buffers() {
    let mut events = Events::<Damage>::new();
    events.send(Damage { amount: 1 });
    events.update();
    assert!(events.is_empty());
}

#[test]
fn read_does_not_advance_the_cursor() {
    let mut events = Events::<Damage>::new();
    events.send_batch(vec![Damage { amount: 1 }, Damage { amount: 2 }]);
    assert_eq!(events.len(), 2);
    let mut reader = EventReader::new(&events);
    assert_eq!(reader.read().len(), 2);
    assert_eq!(reader.read().len(), 2);
    assert!(!reader.is_empty());
    assert_eq!(reader.read_iter().len(), 2);
    assert!(reader.is_empty());
    assert_eq!(reader.read_iter().len(), 0);
}

#[test]
fn reader_cursor_resumes_and_clamps() {
    let mut events = Events::<Damage>::new();
    events.send(Damage { amount: 1 });
    let mut reader = EventReader::new(&events);
    let _ = reader.read_iter();
    let cursor = reader.cursor();
    events.send(Damage { amount: 2 });
    let mut resumed = EventReader::with_cursor(&events, cursor);
    assert_eq!(resumed.read_iter(), &[Damage { amount: 2 }]);

    let mut events2 = Events::<Damage>::new();
    events2.send(Damage { amount: 7 });
    events2.send(Damage { amount: 8 });
    let mut far = EventReader::new(&events2);
    let _ = far.read_iter();
    let past_end = far.cursor();
    events2.clear();
    let mut clamped = EventReader::with_cursor(&events2, past_end);
    assert!(clamped.read().is_empty());

    let mut c = EventCursor::new();
    c.reset();
    let mut from_start = EventReader::with_cursor(&events, c);
    assert_eq!(from_start.read_iter().len(), 2);
}

#[test]
fn drain_takes_current_events() {
    let mut events = Events::<Damage>::default();
    {
        let mut writer = EventWriter::new(&mut events);
        writer.send(Damage { amount: 3 });
        writer.send_batch(vec![Damage { amount: 4 }]);
    }
    assert_eq!(events.iter(), &[Damage { amount: 3 }, Damage { amount: 4 }]);
    let drained = events.drain();
    assert_eq!(drained, vec![Damage { amount: 3 }, Damage { amount: 4 }]);
    assert!(events.is_empty());
}
