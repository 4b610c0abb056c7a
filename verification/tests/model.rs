use ircd::{create_message, get_current_time, Event, EventId, Model};

fn new_model() -> Model {
    Model::new().unwrap()
}

fn now() -> u64 {
    get_current_time().unwrap()
}

fn message(previous: EventId, nick: &str, timestamp: u64) -> Event {
    create_message(previous, nick, "message", timestamp)
}

/// Appends `count` messages after `from` and gives back the id of the last one.
fn extend(model: &mut Model, from: EventId, name: &str, count: usize) -> EventId {
    let mut id = from;
    for x in 0..count {
        let event = message(id, &format!("{} {}", name, x), now() + 1);
        id = event.hash();
        model.add(event);
    }
    id
}

#[test]
fn test_update_root() {
    let mut model = new_model();
    let root_id = model.get_root();

    // event_node 1
    // Fill this node with 5 events
    let mut id1 = root_id;
    for x in 0..5 {
        let timestamp = get_current_time().unwrap() + 1;
        let node = create_message(id1, &format!("chain 1 msg {}", x), "message", timestamp);
        id1 = node.hash();
        model.add(node);
    }

    // event_node 2
    // Fill this node with 14 events
    let mut id2 = root_id;
    for x in 0..14 {
        let timestamp = get_current_time().unwrap() + 1;
        let node = create_message(id2, &format!("chain 2 msg {}", x), "message", timestamp);
        id2 = node.hash();
        model.add(node);
    }

    // Fill id2 node with 8 events
    let mut id3 = id2;
    for x in 14..22 {
        let timestamp = get_current_time().unwrap() + 1;
        let node = create_message(id3, &format!("chain 2 msg {}", x), "message", timestamp);
        id3 = node.hash();
        model.add(node);
    }

    // The clock moves on, so that the messages differ from those before
    let before = get_current_time().unwrap();
    while get_current_time().unwrap() == before {}

    // Fill id2 node with 9 events
    let mut id4 = id2;
    for x in 14..23 {
        let timestamp = get_current_time().unwrap() + 1;
        let node = create_message(id4, &format!("chain 2 msg {}", x), "message", timestamp);
        id4 = node.hash();
        model.add(node);
    }

    assert_eq!(model.find_height(model.get_root(), id2).unwrap(), 0);
    assert_eq!(model.find_height(model.get_root(), id3).unwrap(), 8);
    assert_eq!(model.find_height(model.get_root(), id4).unwrap(), 9);
    assert_eq!(model.current_root, id2);
}

#[test]
fn test_find_height() {
    let mut model = new_model();
    let root_id = model.get_root();

    // event_node 1
    // Fill this node with 8 events
    let mut id1 = root_id;
    for x in 0..8 {
        let timestamp = get_current_time().unwrap() + 1;
        let node = create_message(id1, &format!("chain 1 msg {}", x), "message", timestamp);
        id1 = node.hash();
        model.add(node);
    }

    // event_node 2
    // Fill this node with 14 events
    let mut id2 = root_id;
    for x in 0..14 {
        let timestamp = get_current_time().unwrap() + 1;
        let node = create_message(id2, &format!("chain 2 msg {}", x), "message", timestamp);
        id2 = node.hash();
        model.add(node);
    }

    assert_eq!(model.find_height(model.get_root(), id1).unwrap(), 8);
    assert_eq!(model.find_height(model.get_root(), id2).unwrap(), 14);
}

#[test]
fn test_prune_forks() {
    let mut model = new_model();
    let root_id = model.get_root();

    // event_node 1
    // Fill this node with 3 events
    let mut event_node_1_ids = vec![];
    let mut id1 = root_id;
    for x in 0..3 {
        let timestamp = get_current_time().unwrap() + 1;
        let node = create_message(id1, &format!("chain 1 msg {}", x), "message", timestamp);
        id1 = node.hash();
        model.add(node);
        event_node_1_ids.push(id1);
    }

    // event_node 2
    // Start from the root_id and fill the node with 14 events
    // All the events from event_node_1 should get removed from the tree
    let mut id2 = root_id;
    for x in 0..14 {
        let timestamp = get_current_time().unwrap() + 1;
        let node = create_message(id2, &format!("chain 2 msg {}", x), "message", timestamp);
        id2 = node.hash();
        model.add(node);
    }

    assert_eq!(model.find_head(), id2);

    for id in event_node_1_ids {
        assert!(!model.event_map.contains_key(&id));
    }

    assert_eq!(model.event_map.len(), 15);
}

#[test]
fn test_diff_depth() {
    let mut model = new_model();
    let root_id = model.get_root();

    // event_node 1
    // Fill this node with 7 events
    let mut id1 = root_id;
    for x in 0..7 {
        let timestamp = get_current_time().unwrap() + 1;
        let node = create_message(id1, &format!("chain 1 msg {}", x), "message", timestamp);
        id1 = node.hash();
        model.add(node);
    }

    // event_node 2
    // Start from the root_id and fill the node with 14 events
    // all the events must be added since the depth between id1
    // and the last head is less than 9
    let mut id2 = root_id;
    for x in 0..14 {
        let timestamp = get_current_time().unwrap() + 1;
        let node = create_message(id2, &format!("chain 2 msg {}", x), "message", timestamp);
        id2 = node.hash();
        model.add(node);
    }

    assert_eq!(model.find_head(), id2);

    // event_node 3
    // This will start as new fork, but no events will be added
    // since the last event's depth is 14
    let mut id3 = root_id;
    for x in 0..3 {
        let timestamp = get_current_time().unwrap() + 1;
        let node = create_message(id3, &format!("chain 3 msg {}", x), "message", timestamp);
        id3 = node.hash();
        model.add(node);

        // ensure events are not added
        assert!(!model.event_map.contains_key(&id3));
    }

    assert_eq!(model.find_head(), id2);

    // Add more events to the event_node 1
    // At the end this fork must overtake the event_node 2
    for x in 7..14 {
        let timestamp = get_current_time().unwrap() + 1;
        let node = create_message(id1, &format!("chain 1 msg {}", x), "message", timestamp);
        id1 = node.hash();
        model.add(node);
    }

    assert_eq!(model.find_head(), id1);
}

#[test]
fn demonstration_chains() {
    let mut model = new_model();
    let root_id = model.get_root();
    let timestamp = now() + 1;

    model.add(create_message(root_id, "alice", "alice message", timestamp));
    let node2 = create_message(root_id, "bob", "bob message", timestamp);
    let node2_id = node2.hash();
    model.add(node2);
    let node3 = create_message(root_id, "charlie", "charlie message", timestamp);
    let node3_id = node3.hash();
    model.add(node3);
    let node4 = create_message(node2_id, "delta", "delta message", timestamp);
    let node4_id = node4.hash();
    model.add(node4);
    assert_eq!(model.find_head(), node4_id);

    // Now lets extend another chain
    let node5 = create_message(node3_id, "epsilon", "epsilon message", timestamp);
    let node5_id = node5.hash();
    model.add(node5);
    let node6 = create_message(node5_id, "phi", "phi message", timestamp);
    let node6_id = node6.hash();
    model.add(node6);
    assert_eq!(model.find_head(), node6_id);
    assert_eq!(model.event_map.len(), 7);
}

#[test]
fn new_model_holds_the_root() {
    let model = Model::with_timestamp(42);
    let root = model.get_root();
    assert_eq!(model.event_map.len(), 1);
    assert_eq!(model.current_root, root);
    assert!(model.orphans.is_empty());
    let node = model.event_map.get(&root).unwrap();
    assert!(node.parent.is_none());
    assert!(node.children.is_empty());
    assert_eq!(node.event.previous_event_hash, [0u8; 32]);
    assert_eq!(node.event.timestamp, 42);
    assert_eq!(node.event.fmt(), "PRIVMSG root: Let there be dark (42)");
    assert_eq!(node.event.hash(), root);
    assert_eq!(model.find_head(), root);
}

#[test]
fn head_ties_go_to_the_later_then_to_the_older_branch() {
    let mut model = Model::with_timestamp(0);
    let root = model.get_root();
    let a = message(root, "a", 5);
    let b = message(root, "b", 5);
    let c = message(root, "c", 9);
    let (a_id, c_id) = (a.hash(), c.hash());
    model.add(a);
    model.add(b);
    assert_eq!(model.find_head(), a_id);
    model.add(c);
    assert_eq!(model.find_head(), c_id);
    assert_eq!(model.find_longest_chain(root, 3), (c_id, 4));
}

#[test]
fn depths_heights_and_ancestors() {
    let mut model = Model::with_timestamp(0);
    let root = model.get_root();
    let stem = extend(&mut model, root, "stem", 2);
    let left = extend(&mut model, stem, "left", 3);
    let right = extend(&mut model, stem, "right", 3);
    let short = extend(&mut model, stem, "short", 1);

    assert_eq!(model.find_depth(left, root), 5);
    assert_eq!(model.find_depth(left, stem), 3);
    assert_eq!(model.find_depth(left, left), 0);
    // not above: one more than the way to the root
    assert_eq!(model.find_depth(left, right), 6);

    assert_eq!(model.find_height(root, left), Some(5));
    assert_eq!(model.find_height(stem, right), Some(3));
    assert_eq!(model.find_height(left, right), None);
    assert_eq!(model.find_height(root, [7u8; 32]), None);

    // equally deep: the lowest common ancestor
    assert_eq!(model.find_ancestor(left, right), stem);
    // not equally deep: the root
    assert_eq!(model.find_ancestor(short, left), root);
    // a child of the other node: that node
    assert_eq!(model.find_ancestor(short, stem), stem);

    assert_eq!(model.diff_depth(left, right), 1);
    assert_eq!(model.diff_depth(short, left), 3);
    assert_eq!(model.diff_depth(short, stem), 0);
}

#[test]
fn pruning_stops_where_another_leaf_hangs() {
    let mut model = Model::with_timestamp(0);
    let root = model.get_root();
    let stem = extend(&mut model, root, "stem", 2);
    let old = extend(&mut model, stem, "old", 1);
    let head = extend(&mut model, stem, "long", 10);
    // depth of the head is 12, of the old leaf 3: 12 + 1 - 3 is the limit
    model.prune_forks();
    assert!(model.event_map.contains_key(&old));
    let head = extend(&mut model, head, "more", 1);
    model.prune_forks();
    assert!(!model.event_map.contains_key(&old));
    assert!(model.event_map.contains_key(&stem));
    assert_eq!(model.find_head(), head);
    let count = model.event_map.len();
    model.prune_forks();
    assert_eq!(model.event_map.len(), count);
}

#[test]
fn removing_a_leaf_removes_its_chain() {
    let mut model = Model::with_timestamp(0);
    let root = model.get_root();
    let a = extend(&mut model, root, "a", 3);
    let b = extend(&mut model, root, "b", 2);
    model.remove_node(a);
    assert_eq!(model.event_map.len(), 3);
    assert!(!model.event_map.contains_key(&a));
    assert_eq!(model.event_map.get(&root).unwrap().children.len(), 1);
    assert_eq!(model.find_head(), b);
}

#[test]
fn moving_the_root_discards_the_way_and_keeps_the_head() {
    let mut model = Model::with_timestamp(0);
    let root = model.get_root();
    let stem = extend(&mut model, root, "stem", 11);
    let left = extend(&mut model, stem, "left", 2);
    let right = extend(&mut model, stem, "right", 2);
    assert_eq!(model.current_root, root);
    let head = model.find_head();
    model.update_root();
    assert_eq!(model.current_root, stem);
    assert!(model.event_map.get(&stem).unwrap().parent.is_none());
    assert_eq!(model.find_head(), head);
    assert_eq!(model.event_map.len(), 5);
    assert!(!model.event_map.contains_key(&root));
    assert_eq!(model.find_height(stem, left), Some(2));
    assert_eq!(model.find_height(stem, right), Some(2));
    model.update_root();
    assert_eq!(model.current_root, stem);
}

#[test]
fn a_fork_that_is_not_high_enough_keeps_the_root() {
    let mut model = Model::with_timestamp(0);
    let root = model.get_root();
    let stem = extend(&mut model, root, "stem", 9);
    extend(&mut model, stem, "left", 2);
    extend(&mut model, stem, "right", 2);
    model.update_root();
    assert_eq!(model.current_root, root);
}

#[test]
fn a_fork_at_height_ten_keeps_the_root() {
    let mut model = Model::with_timestamp(0);
    let root = model.get_root();
    let stem = extend(&mut model, root, "stem", 10);
    extend(&mut model, stem, "left", 1);
    extend(&mut model, stem, "right", 1);
    assert_eq!(model.find_height(root, stem), Some(10));
    model.update_root();
    assert_eq!(model.current_root, root);
    assert_eq!(model.event_map.len(), 13);
}

#[test]
fn an_event_without_its_previous_one_is_not_kept() {
    let mut model = Model::with_timestamp(0);
    let root = model.get_root();
    let first = message(root, "first", 1);
    let second = message(first.hash(), "second", 2);
    let second_id = second.hash();
    model.add(second);
    assert!(model.orphans.is_empty());
    assert!(!model.event_map.contains_key(&second_id));
    model.add(first);
    assert_eq!(model.event_map.len(), 2);
    assert!(!model.event_map.contains_key(&second_id));
}

#[test]
fn a_batch_is_dealt_with_in_order() {
    let mut one = Model::with_timestamp(0);
    let mut two = Model::with_timestamp(0);
    let root = one.get_root();
    let first = message(root, "first", 1);
    let second = message(first.hash(), "second", 2);
    two.orphans.push(first.duplicate());
    two.orphans.push(second.duplicate());
    two.reorganize();
    one.add(first);
    one.add(second);
    assert_eq!(one.find_head(), two.find_head());
    assert_eq!(one.event_map.keys(), two.event_map.keys());
    assert!(two.orphans.is_empty());
}

#[test]
fn with_nothing_put_aside_nothing_changes() {
    let mut model = Model::with_timestamp(0);
    let root = model.get_root();
    let stem = extend(&mut model, root, "stem", 11);
    extend(&mut model, stem, "left", 1);
    extend(&mut model, stem, "right", 1);
    let keys = model.event_map.keys();
    model.reorganize();
    assert_eq!(model.current_root, root);
    assert_eq!(model.event_map.keys(), keys);
    model.update_root();
    assert_eq!(model.current_root, stem);
}

#[test]
fn try_add_refuses_an_event_that_is_already_there() {
    let mut model = Model::with_timestamp(0);
    let root = model.get_root();
    let event = message(root, "once", 1);
    let id = event.hash();
    assert!(model.try_add(event.duplicate()).is_ok());
    let back = model.try_add(event).err().unwrap();
    assert_eq!(back.hash(), id);
    assert_eq!(model.event_map.len(), 2);
    assert_eq!(model.find_head(), id);
}

#[test]
fn try_add_refuses_while_a_fork_blocks_the_root() {
    let mut model = Model::with_timestamp(0);
    let root = model.get_root();
    extend(&mut model, root, "side", 8);
    let stem = extend(&mut model, root, "stem", 12);
    let left = extend(&mut model, stem, "left", 5);
    let right = extend(&mut model, stem, "right", 5);
    let count = model.event_map.len();
    assert!(model.try_add(message(left, "next", now())).is_err());
    assert!(model.try_add(message(right, "next", now())).is_err());
    assert_eq!(model.event_map.len(), count);
    assert_eq!(model.current_root, root);
}

#[test]
fn every_node_is_filed_under_its_hash_and_hangs_from_its_previous_event() {
    let mut model = Model::with_timestamp(0);
    let root = model.get_root();
    let stem = extend(&mut model, root, "stem", 4);
    extend(&mut model, stem, "left", 3);
    extend(&mut model, stem, "right", 2);
    for id in model.event_map.keys() {
        let node = model.event_map.get(&id).unwrap();
        assert_eq!(node.event.hash(), id);
        if id == root {
            assert!(node.parent.is_none());
        } else {
            assert_eq!(node.parent, Some(node.event.previous_event_hash));
        }
    }
}

#[test]
fn debug_lists_every_event_and_then_root_and_head() {
    let mut model = Model::with_timestamp(7);
    let root = model.get_root();
    let event = create_message(root, "alice", "hi", 1234567890);
    let id = event.hash();
    model.add(event);
    let lines = model.debug();
    assert_eq!(lines.len(), 4);
    let expected = format!("{}: PRIVMSG alice: hi (1234567890) [depth=1]", hex::encode(id));
    assert!(lines[..2].contains(&expected));
    assert_eq!(lines[2], format!("root: {}", hex::encode(root)));
    assert_eq!(lines[3], format!("head: {}", hex::encode(id)));
}
