use binbloom::addrtree::AddrTree;

#[test]
fn single_address_one_leaf() {
    let mut t = AddrTree::new();
    t.register_address(0x1234_5678);
    let leaves = t.leaves();
    assert_eq!(leaves.len(), 1);
    assert_eq!(leaves[0], (0x1234_5678, 1));
    assert_eq!(t.count_nodes(), 1);
    assert_eq!(t.max_vote(), 1);
    // 8 levels created for one fresh address.
    assert_eq!(t.nb_nodes(), 8);
}

#[test]
fn repeated_address_accumulates_votes() {
    let mut t = AddrTree::new();
    for _ in 0..5 {
        t.register_address(0xdead_beef);
    }
    let leaves = t.leaves();
    assert_eq!(leaves, vec![(0xdead_beef, 5)]);
    assert_eq!(t.max_vote(), 5);
    // Still a single path: no new nodes after the first registration.
    assert_eq!(t.nb_nodes(), 8);
}

#[test]
fn distinct_addresses_distinct_leaves() {
    let mut t = AddrTree::new();
    t.register_address(0x1000);
    t.register_address(0x2000);
    t.register_address(0x1000);
    let mut leaves = t.leaves();
    leaves.sort();
    assert_eq!(leaves, vec![(0x1000, 2), (0x2000, 1)]);
    assert_eq!(t.count_nodes(), 2);
    assert_eq!(t.max_vote(), 2);
}

#[test]
fn shared_prefix_branches_late() {
    let mut t = AddrTree::new();
    // Same first 7 bytes, differ in the last.
    t.register_address(0xaabb_ccdd_eeff_0011);
    t.register_address(0xaabb_ccdd_eeff_0022);
    assert_eq!(t.count_nodes(), 2);
    // 8 nodes for the first, 1 extra leaf for the divergent last byte.
    assert_eq!(t.nb_nodes(), 9);
}

#[test]
fn filter_removes_low_votes() {
    let mut t = AddrTree::new();
    t.register_address(0x10); // votes 1
    for _ in 0..4 {
        t.register_address(0x20); // votes 4
    }
    t.filter(2);
    let leaves = t.leaves();
    assert_eq!(leaves, vec![(0x20, 4)]);
    assert_eq!(t.count_nodes(), 1);
}

#[test]
fn filter_can_empty_tree() {
    let mut t = AddrTree::new();
    t.register_address(0x10);
    t.register_address(0x20);
    t.filter(100);
    // Everything pruned: root collapses to a single zero-vote leaf.
    let leaves = t.leaves();
    assert_eq!(leaves, vec![(0, 0)]);
    assert_eq!(t.max_vote(), 0);
}

#[test]
fn navigate_children_for_endianness() {
    let mut t = AddrTree::new();
    // High 4 bytes zero (32-bit value stored in 64-bit slot).
    t.register_address(0x0000_0000_1122_3344);
    // Descend four zero bytes from the root, as endianness detection does.
    let mut node = t.root();
    for _ in 0..4 {
        node = node.child(0).expect("zero-byte path exists");
    }
    // Next byte should be 0x11.
    assert!(node.child(0x11).is_some());
}

#[test]
fn fresh_tree_is_one_idle_leaf() {
    let t = AddrTree::new();
    assert_eq!(t.leaves(), vec![(0, 1)]);
    assert_eq!(t.max_vote(), 1);
    assert_eq!(t.count_nodes(), 1);
    assert_eq!(t.nb_nodes(), 0);
    assert_eq!(t.memsize(), 0);
    let d = AddrTree::default();
    assert_eq!(d.leaves(), vec![(0, 1)]);
}

#[test]
fn leaves_come_in_address_order() {
    let mut t = AddrTree::new();
    for a in [0x3000u64, 0x10, 0xffff_ffff_ffff_ffff, 0x2000, 0x10] {
        t.register_address(a);
    }
    assert_eq!(
        t.leaves(),
        vec![(0x10, 2), (0x2000, 1), (0x3000, 1), (0xffff_ffff_ffff_ffff, 1)]
    );
    assert_eq!(t.count_nodes(), 4);
}

#[test]
fn memsize_counts_node_footprint() {
    let mut t = AddrTree::new();
    t.register_address(0x1);
    // Eight nodes of 2056 bytes each.
    assert_eq!(t.memsize(), 8 * 2056);
    t.register_address(0x1_0000_0000);
    // Shares three leading bytes with 0x1: five new nodes.
    assert_eq!(t.nb_nodes(), 13);
    assert_eq!(t.memsize(), 13 * 2056);
}

#[test]
fn filter_keeps_threshold_exactly() {
    let mut t = AddrTree::new();
    for _ in 0..3 {
        t.register_address(0x30);
    }
    for _ in 0..2 {
        t.register_address(0x20);
    }
    t.register_address(0x10);
    t.filter(2);
    assert_eq!(t.leaves(), vec![(0x20, 2), (0x30, 3)]);
    assert_eq!(t.max_vote(), 3);
    // Filtering keeps the creation count.
    assert_eq!(t.nb_nodes(), 10);
}

#[test]
fn node_votes_and_leaf_flags() {
    let mut t = AddrTree::new();
    t.register_address(0x0102_0304_0506_0708);
    t.register_address(0x0102_0304_0506_0708);
    let mut node = t.root();
    assert!(!node.is_leaf());
    for b in [1usize, 2, 3, 4, 5, 6, 7, 8] {
        node = node.child(b).expect("path exists");
    }
    assert!(node.is_leaf());
    assert_eq!(node.votes(), 2);
    assert_eq!(t.root().max_vote(), 2);
    assert_eq!(t.root().count_nodes(), 1);
}

#[test]
fn registration_inserts_or_bumps_in_address_order() {
    let mut t = AddrTree::new();
    t.register_address(0x3000);
    t.register_address(0x1000);
    assert_eq!(t.leaves(), vec![(0x1000, 1), (0x3000, 1)]);
    t.register_address(0x2000);
    assert_eq!(t.leaves(), vec![(0x1000, 1), (0x2000, 1), (0x3000, 1)]);
    t.register_address(0x3000);
    assert_eq!(t.leaves(), vec![(0x1000, 1), (0x2000, 1), (0x3000, 2)]);
    assert_eq!(t.count_nodes(), t.leaves().len());
    assert_eq!(t.max_vote(), 2);
}

#[test]
fn node_count_is_the_number_of_distinct_prefixes() {
    // 0x1000, 0x2000 and 0x1001 share their first six bytes; 0x1000 and
    // 0x1001 share seven.
    let mut t = AddrTree::new();
    t.register_address(0x1000);
    assert_eq!(t.nb_nodes(), 8);
    t.register_address(0x2000);
    assert_eq!(t.nb_nodes(), 10);
    t.register_address(0x1001);
    assert_eq!(t.nb_nodes(), 11);
    t.register_address(0x1001);
    assert_eq!(t.nb_nodes(), 11);
}

#[test]
fn children_lead_to_leaves() {
    let mut t = AddrTree::new();
    t.register_address(0x0000_0000_1122_3344);
    let mut n = t.root();
    assert!(!n.is_leaf());
    for _ in 0..4 {
        n = n.child(0).expect("a zero byte leads on");
    }
    for b in 0..256usize {
        assert_eq!(n.child(b).is_some(), b == 0x11);
    }
    let leaf = n.child(0x11).unwrap().child(0x22).unwrap().child(0x33).unwrap().child(0x44).unwrap();
    assert!(leaf.is_leaf());
    assert!((0..256usize).all(|b| leaf.child(b).is_none()));
}
