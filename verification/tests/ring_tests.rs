use consistent_hash::ConsistentHash;

#[test]
fn test_empty() {
    let consistent_hash: ConsistentHash<String> = ConsistentHash::new(vec![], 10);
    assert_eq!(None, consistent_hash.get("foo".to_string()));
}

#[test]
fn test_full() {
    let mut consistent_hash: ConsistentHash<String> = ConsistentHash::new(
        vec!["foo".to_string(), "bar".to_string(), "baz".to_string()],
        10,
    );

    assert_eq!(Some("foo".to_string()), consistent_hash.get("1").map(|x| x.to_string()));
    assert_eq!(Some("baz".to_string()), consistent_hash.get("2").map(|x| x.to_string()));
    assert_eq!(Some("baz".to_string()), consistent_hash.get("3").map(|x| x.to_string()));
    assert_eq!(Some("bar".to_string()), consistent_hash.get("4").map(|x| x.to_string()));
    assert_eq!(Some("foo".to_string()), consistent_hash.get("5").map(|x| x.to_string()));
    assert_eq!(Some("bar".to_string()), consistent_hash.get("6").map(|x| x.to_string()));
    assert_eq!(Some("bar".to_string()), consistent_hash.get("7").map(|x| x.to_string()));
    assert_eq!(Some("foo".to_string()), consistent_hash.get("8").map(|x| x.to_string()));
    assert_eq!(Some("baz".to_string()), consistent_hash.get("9").map(|x| x.to_string()));

    consistent_hash.remove("foo".to_string());

    assert_eq!(Some("bar".to_string()), consistent_hash.get("1").map(|x| x.to_string()));
    assert_eq!(Some("bar".to_string()), consistent_hash.get("5").map(|x| x.to_string()));
    assert_eq!(Some("baz".to_string()), consistent_hash.get("8").map(|x| x.to_string()));

    consistent_hash.insert("foo".to_string());

    assert_eq!(Some("foo".to_string()), consistent_hash.get("1").map(|x| x.to_string()));
    assert_eq!(Some("foo".to_string()), consistent_hash.get("5").map(|x| x.to_string()));
    assert_eq!(Some("foo".to_string()), consistent_hash.get("8").map(|x| x.to_string()));
}

fn three_node_ring() -> ConsistentHash<String> {
    ConsistentHash::new(
        vec!["foo".to_string(), "bar".to_string(), "baz".to_string()],
        10,
    )
}

fn sample_keys() -> Vec<String> {
    (0..200).map(|i| format!("key-{}", i)).collect()
}

#[test]
fn zero_virtuals_yields_empty_ring() {
    let ring: ConsistentHash<String> =
        ConsistentHash::new(vec!["foo".to_string(), "bar".to_string()], 0);
    assert_eq!(0, ring.len());
    assert_eq!(None, ring.get("anything"));
}

#[test]
fn negative_virtuals_yields_empty_ring() {
    let ring: ConsistentHash<String> =
        ConsistentHash::new(vec!["foo".to_string()], -3);
    assert_eq!(0, ring.len());
    assert_eq!(None, ring.get("anything"));
}

#[test]
fn repeated_lookups_agree() {
    let ring = three_node_ring();
    for key in sample_keys() {
        let first = ring.get(key.as_str()).cloned();
        let second = ring.get(key.as_str()).cloned();
        let third = ring.get(key.clone()).cloned();
        assert_eq!(first, second);
        assert_eq!(first, third);
        assert!(first.is_some());
    }
}

#[test]
fn nonempty_ring_covers_every_key() {
    let ring = three_node_ring();
    for key in sample_keys() {
        assert!(ring.get(key.as_str()).is_some());
    }
}

#[test]
fn entry_counts_track_nodes_and_virtuals() {
    let mut ring = three_node_ring();
    assert_eq!(30, ring.len());

    ring.insert("foo".to_string());
    assert_eq!(30, ring.len());

    ring.remove("foo".to_string());
    assert_eq!(20, ring.len());

    ring.remove("foo".to_string());
    assert_eq!(20, ring.len());

    ring.remove("never-inserted".to_string());
    assert_eq!(20, ring.len());
}

#[test]
fn reinserting_a_node_changes_no_assignment() {
    let mut ring = three_node_ring();
    let before: Vec<Option<String>> = sample_keys()
        .iter()
        .map(|k| ring.get(k.as_str()).cloned())
        .collect();

    ring.insert("bar".to_string());
    assert_eq!(30, ring.len());

    for (key, expected) in sample_keys().iter().zip(before.iter()) {
        assert_eq!(expected, &ring.get(key.as_str()).cloned());
    }
}

#[test]
fn removed_node_is_unreachable() {
    let mut ring = three_node_ring();
    ring.remove("foo".to_string());
    for key in sample_keys() {
        let assigned = ring.get(key.as_str()).cloned();
        assert!(assigned.is_some());
        assert_ne!(Some("foo".to_string()), assigned);
    }
}

#[test]
fn removal_only_moves_keys_of_the_removed_node() {
    let mut ring = three_node_ring();
    let before: Vec<Option<String>> = sample_keys()
        .iter()
        .map(|k| ring.get(k.as_str()).cloned())
        .collect();

    ring.remove("foo".to_string());

    let mut some_key_was_on_foo = false;
    for (key, previous) in sample_keys().iter().zip(before.iter()) {
        let now = ring.get(key.as_str()).cloned();
        if previous == &Some("foo".to_string()) {
            some_key_was_on_foo = true;
            assert!(now.is_some());
            assert_ne!(Some("foo".to_string()), now);
        } else {
            assert_eq!(previous, &now);
        }
    }
    assert!(some_key_was_on_foo);
}

#[test]
fn reinsertion_restores_prior_assignments() {
    let mut ring = three_node_ring();
    let before: Vec<Option<String>> = sample_keys()
        .iter()
        .map(|k| ring.get(k.as_str()).cloned())
        .collect();

    ring.remove("baz".to_string());
    ring.insert("baz".to_string());

    for (key, expected) in sample_keys().iter().zip(before.iter()) {
        assert_eq!(expected, &ring.get(key.as_str()).cloned());
    }
}
