use cart::{common_prefix_len, Art, Node};

#[test]
fn test_common_prefix_len() {
    assert_eq!(common_prefix_len(b"abc", b"abc"), 3);
    assert_eq!(common_prefix_len(b"ab", b"abc"), 2);
    assert_eq!(common_prefix_len(b"abc", b"ab"), 2);
    assert_eq!(common_prefix_len(b"bc", b"abc"), 0);
    assert_eq!(common_prefix_len(b"abc", b"bc"), 0);
}

#[test]
fn common_prefix_len_of_empty() {
    assert_eq!(common_prefix_len(b"", b"abc"), 0);
    assert_eq!(common_prefix_len(b"", b""), 0);
    assert_eq!(common_prefix_len(b"abxd", b"abyd"), 2);
}

#[test]
fn empty_tree_has_no_keys() {
    let t: Art<u8> = Art::default();
    assert_eq!(t.get(b""), None);
    assert_eq!(t.get(b"a"), None);
    assert_eq!(t.get(&[9u8; 9]), None);
}

#[test]
fn three_keys_found() {
    let mut t = Art::default();
    t.set(vec![9u8; 9], 58u8);
    t.set(vec![4u8; 4], 10);
    t.set(vec![2u8; 2], 209);
    assert_eq!(t.get(&[2u8; 2]), Some(&209));
    assert_eq!(t.get(&[4u8; 4]), Some(&10));
    assert_eq!(t.get(&[9u8; 9]), Some(&58));
    assert_eq!(t.get(&[15u8; 15]), None);
}

#[test]
fn overwrite_keeps_last() {
    let mut t = Art::default();
    t.set(vec![10u8; 10], 215u8);
    t.set(vec![10u8; 10], 82);
    assert_eq!(t.get(&[10u8; 10]), Some(&82));
}

#[test]
fn set_twice_after_other_keys() {
    let mut t = Art::default();
    t.set(b"abc".to_vec(), 1u32);
    t.set(b"abd".to_vec(), 2);
    t.set(b"abc".to_vec(), 3);
    assert_eq!(t.get(b"abc"), Some(&3));
    assert_eq!(t.get(b"abd"), Some(&2));
}

#[test]
fn empty_key_stored_at_root() {
    let mut t = Art::default();
    t.set(vec![], 5u8);
    t.set(b"x".to_vec(), 6);
    assert_eq!(t.get(b""), Some(&5));
    assert_eq!(t.get(b"x"), Some(&6));
    assert_eq!(t.get(b"y"), None);
}

#[test]
fn prefix_keys_shorter_first() {
    let mut t = Art::default();
    t.set(b"ab".to_vec(), 1u8);
    t.set(b"abcde".to_vec(), 2);
    assert_eq!(t.get(b"ab"), Some(&1));
    assert_eq!(t.get(b"abcde"), Some(&2));
    assert_eq!(t.get(b"abc"), None);
    assert_eq!(t.get(b"a"), None);
}

#[test]
fn prefix_keys_longer_first() {
    let mut t = Art::default();
    t.set(b"abcde".to_vec(), 2u8);
    t.set(b"ab".to_vec(), 1);
    assert_eq!(t.get(b"ab"), Some(&1));
    assert_eq!(t.get(b"abcde"), Some(&2));
    assert_eq!(t.get(b"abcd"), None);
    assert_eq!(t.get(b"abcdef"), None);
}

#[test]
fn split_inside_prefix() {
    let mut t = Art::default();
    t.set(b"hello".to_vec(), 1u8);
    t.set(b"help".to_vec(), 2);
    t.set(b"hex".to_vec(), 3);
    t.set(b"world".to_vec(), 4);
    assert_eq!(t.get(b"hello"), Some(&1));
    assert_eq!(t.get(b"help"), Some(&2));
    assert_eq!(t.get(b"hex"), Some(&3));
    assert_eq!(t.get(b"world"), Some(&4));
    assert_eq!(t.get(b"hel"), None);
    assert_eq!(t.get(b"he"), None);
    assert_eq!(t.get(b"h"), None);
    assert_eq!(t.get(b"helper"), None);
}

#[test]
fn growth_through_every_layout() {
    let mut t = Art::default();
    t.set(b"k".to_vec(), 1000u32);
    for b in 0..=255u8 {
        let mut k = b"k".to_vec();
        k.push(b);
        t.set(k, b as u32);
        for c in 0..=b {
            let mut q = b"k".to_vec();
            q.push(c);
            assert_eq!(t.get(&q), Some(&(c as u32)));
        }
        assert_eq!(t.get(b"k"), Some(&1000));
    }
    for b in 0..=255u8 {
        let mut q = b"k".to_vec();
        q.push(b);
        q.push(0);
        assert_eq!(t.get(&q), None);
    }
}

#[test]
fn growth_under_root_with_longer_keys() {
    let mut t = Art::default();
    for b in (0..=255u8).rev() {
        t.set(vec![b, b, 1], b as u16);
        t.set(vec![b, b, 2], b as u16 + 300);
    }
    for b in 0..=255u8 {
        assert_eq!(t.get(&[b, b, 1]), Some(&(b as u16)));
        assert_eq!(t.get(&[b, b, 2]), Some(&(b as u16 + 300)));
        assert_eq!(t.get(&[b, b]), None);
    }
}

#[test]
fn insertion_order_does_not_matter() {
    let pairs: Vec<(Vec<u8>, u8)> = vec![
        (b"a".to_vec(), 1),
        (b"ab".to_vec(), 2),
        (b"abc".to_vec(), 3),
        (b"b".to_vec(), 4),
        (b"".to_vec(), 5),
        (b"bcd".to_vec(), 6),
    ];
    let mut forward = Art::default();
    for (k, v) in pairs.iter() {
        forward.set(k.clone(), *v);
    }
    let mut backward = Art::default();
    for (k, v) in pairs.iter().rev() {
        backward.set(k.clone(), *v);
    }
    let probes: Vec<&[u8]> = vec![b"", b"a", b"ab", b"abc", b"abcd", b"b", b"bc", b"bcd", b"c"];
    for q in probes {
        assert_eq!(forward.get(q), backward.get(q));
    }
    assert_eq!(forward.get(b"abc"), Some(&3));
    assert_eq!(backward.get(b"bc"), None);
}

#[test]
fn node_set_and_get() {
    let mut n: Node<i32> = Node::default();
    n.set(b"xyz".to_vec(), -1);
    n.set(b"xy".to_vec(), -2);
    assert_eq!(n.get(b"xyz"), Some(&-1));
    assert_eq!(n.get(b"xy"), Some(&-2));
    assert_eq!(n.get(b"x"), None);
}

#[test]
fn default_node_is_empty_four_way() {
    let n: Node<u8> = Node::default();
    match &n {
        Node::Node4 { value, prefix, pointers, .. } => {
            assert!(value.is_none());
            assert!(prefix.is_empty());
            assert_eq!(pointers.len(), 4);
            assert!(pointers.iter().all(|p| p.is_none()));
        }
        _ => panic!("expected a 4-way node"),
    }
    assert_eq!(n.get(b""), None);
}

fn layout_after(m: u8) -> &'static str {
    let mut n: Node<u8> = Node::default();
    for b in 1..=m {
        n.set(vec![b], b);
    }
    for b in 1..=m {
        assert_eq!(n.get(&[b]), Some(&b));
    }
    match n {
        Node::Node4 { .. } => "4",
        Node::Node16 { .. } => "16",
        Node::Node48 { .. } => "48",
        Node::Node256 { .. } => "256",
    }
}

#[test]
fn grows_only_when_full() {
    assert_eq!(layout_after(4), "4");
    assert_eq!(layout_after(5), "16");
    assert_eq!(layout_after(16), "16");
    assert_eq!(layout_after(17), "48");
    assert_eq!(layout_after(48), "48");
    assert_eq!(layout_after(49), "256");
}

#[test]
fn split_builds_four_way_parent() {
    let mut n: Node<u8> = Node::default();
    n.set(b"abcd".to_vec(), 1);
    n.set(b"abxy".to_vec(), 2);
    assert_eq!(n.get(b"abcd"), Some(&1));
    assert_eq!(n.get(b"abxy"), Some(&2));
    let split = match &n {
        Node::Node4 { index, pointers, .. } => {
            assert_eq!(index[0], b'a');
            pointers[0].as_ref().expect("child under 'a'")
        }
        _ => panic!("root stays a 4-way node"),
    };
    match &**split {
        Node::Node4 { value, prefix, index, pointers } => {
            assert!(value.is_none());
            assert_eq!(prefix, &b"b".to_vec());
            assert_eq!(pointers.iter().filter(|p| p.is_some()).count(), 2);
            assert_eq!(index[0], b'c');
            assert_eq!(index[1], b'x');
        }
        _ => panic!("the split node is a 4-way node"),
    }
}

#[test]
fn clone_is_independent() {
    let mut t = Art::default();
    t.set(b"one".to_vec(), 1u8);
    t.set(b"two".to_vec(), 2);
    let copy = t.clone();
    t.set(b"one".to_vec(), 9);
    t.set(b"three".to_vec(), 3);
    assert_eq!(copy.get(b"one"), Some(&1));
    assert_eq!(copy.get(b"two"), Some(&2));
    assert_eq!(copy.get(b"three"), None);
    assert_eq!(t.get(b"one"), Some(&9));
}
