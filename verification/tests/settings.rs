use ircd::{
    create_message, get_current_time, timestamp_of, Args, ClockError, EventId, Model, View,
    CONFIG_FILE,
};

#[test]
fn a_new_view_has_seen_nothing() {
    let view = View::new();
    assert!(view.seen.is_empty());
    let model = Model::with_timestamp(3);
    let shown = view.process(&model);
    assert_eq!(shown.len(), 1);
    assert_eq!(shown[0].0, model.get_root());
    assert_eq!(shown[0].1.fmt(), "PRIVMSG root: Let there be dark (3)");
}

#[test]
fn unseen_events_are_replayed_by_time() {
    let mut model = Model::with_timestamp(5);
    let root = model.get_root();
    let late = create_message(root, "late", "message", 9);
    let late_id = late.hash();
    let early = create_message(root, "early", "message", 7);
    let early_id = early.hash();
    let last = create_message(early_id, "last", "message", 9);
    let last_id = last.hash();
    model.add(late);
    model.add(early);
    model.add(last);

    let ids = |seen: &Vec<EventId>| -> Vec<EventId> {
        View::unseen(&model, seen).iter().map(|e| e.0).collect()
    };
    assert_eq!(ids(&vec![]), vec![root, early_id, late_id, last_id]);
    assert_eq!(ids(&vec![late_id, root, [0u8; 32]]), vec![early_id, last_id]);
    assert!(ids(&model.event_map.keys()).is_empty());
    let mut view = View::new();
    let mut shown = Vec::new();
    for (id, event) in view.process(&model) {
        assert_eq!(event.hash(), id);
        shown.push(event.timestamp);
        view.seen.push(id);
    }
    assert_eq!(shown, vec![5, 7, 9, 9]);
    assert!(view.process(&model).is_empty());
    let next = create_message(late_id, "next", "message", 6);
    let next_id = next.hash();
    model.add(next);
    let shown = view.process(&model);
    assert_eq!(shown.len(), 1);
    assert_eq!(shown[0].0, next_id);
    assert_eq!(model.event_map.len(), 5);
}

#[test]
fn times_are_counted_in_milliseconds() {
    assert_eq!(timestamp_of(Some((0, 999_999))), Ok(0));
    assert_eq!(timestamp_of(Some((12, 345_678_901))), Ok(12_345));
    assert_eq!(timestamp_of(Some((18_446_744_073_709_551, 615_999_999))), Ok(u64::MAX));
    assert_eq!(
        timestamp_of(Some((18_446_744_073_709_551, 616_000_000))),
        Err(ClockError::TooLate)
    );
    assert_eq!(timestamp_of(None), Err(ClockError::BeforeEpoch));
}

#[test]
fn the_clock_is_past_the_start_of_2020() {
    let now = get_current_time().unwrap();
    assert!(now > 1_577_836_800_000);
    assert!(now < 100_000_000_000_000);
}

#[test]
fn settings_are_plain_values() {
    let args = Args { config: Some("ircd.toml".to_string()), verbose: 2 };
    let copy = args.clone();
    assert_eq!(copy.config, Some("ircd.toml".to_string()));
    assert_eq!(copy.verbose, 2);
    assert_eq!(CONFIG_FILE, "ircd_config.toml");
}

#[test]
fn a_model_needs_a_time() {
    let model = Model::with_reading(Ok(7)).unwrap();
    assert_eq!(model.get_root(), Model::with_timestamp(7).get_root());
    assert_eq!(
        Model::with_reading(Err(ClockError::BeforeEpoch)).err(),
        Some(ClockError::BeforeEpoch)
    );
    assert_eq!(Model::with_reading(Err(ClockError::TooLate)).err(), Some(ClockError::TooLate));
}
