use consistent_hash::digest::compute_key_pos;
use consistent_hash::digest::compute_virtual_pos;
use consistent_hash::hashing::StableHash;
use consistent_hash::ConsistentHash;

#[test]
fn positions_are_stable_and_distinct() {
    let h = "foo".stable_hash();
    let h_owned = "foo".to_string().stable_hash();
    assert_eq!(h, h_owned);
    assert_eq!(compute_key_pos(h), compute_key_pos(h));
    assert_eq!(compute_virtual_pos(3, h), compute_virtual_pos(3, h));
    assert_ne!(compute_virtual_pos(0, h), compute_virtual_pos(1, h));
    assert_ne!(compute_key_pos(h), compute_virtual_pos(0, h));
    assert_ne!("foo".stable_hash(), "bar".stable_hash());
}

#[test]
fn lookup_wraps_past_the_largest_position() {
    let foo = "foo".to_string();
    let bar = "bar".to_string();
    let ring = ConsistentHash::new(vec![foo.clone(), bar.clone()], 1);

    let p_foo = compute_virtual_pos(0, foo.stable_hash());
    let p_bar = compute_virtual_pos(0, bar.stable_hash());
    let largest = p_foo.max(p_bar);
    let smallest_node = if p_foo < p_bar { &foo } else { &bar };

    let mut wrapped = false;
    for i in 0..10000 {
        let key = format!("wrap-{}", i);
        if compute_key_pos(key.as_str().stable_hash()) > largest {
            wrapped = true;
            assert_eq!(Some(smallest_node.clone()), ring.get(key.as_str()).cloned());
        }
    }
    assert!(wrapped);
}
