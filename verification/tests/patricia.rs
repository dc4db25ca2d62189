use std::rc::Rc;

use patricia_tree::bits::BitVec;
use patricia_tree::node::Node;
use patricia_tree::tree::PatriciaTree;

fn key(n: u64) -> BitVec {
    BitVec::from_u64(n)
}

#[test]
fn test_basic_insertion() {
    let mut map: PatriciaTree<usize> = PatriciaTree::new();
    map.insert(key(1), 111);
    map.insert(key(22), 222);
    map.insert(key(42), 444);
    map.insert(key(42), 444);
    map.insert(key(42), 444);
    map.insert(key(13), 1313);

    assert!(map.contains_key(&key(1)));
    assert!(map.contains_key(&key(22)));
    assert!(map.contains_key(&key(42)));
    assert!(!map.contains_key(&key(2)));
    assert!(!map.contains_key(&key(3)));

    assert_eq!(map.len(), 4);

    let mut map2 = map.clone();

    map2.insert(key(55), 555);
    assert_eq!(map.len(), 4);
    assert_eq!(map2.len(), 5);

    map2.remove(&key(1));
    assert_eq!(map2.len(), 4);
    assert!(map.contains_key(&key(1)));
    assert!(!map2.contains_key(&key(1)));

    map2.remove(&key(1));
    assert_eq!(map2.len(), 4);
    assert!(!map2.contains_key(&key(1)));

    map2.remove(&key(22));
    assert_eq!(map2.len(), 3);
    assert!(!map2.contains_key(&key(22)));

    map2.remove(&key(13));
    assert_eq!(map2.len(), 2);
    assert!(!map2.contains_key(&key(13)));

    map2.remove(&key(42));
    assert_eq!(map2.len(), 1);

    map2.remove(&key(55));
    assert_eq!(map2.len(), 0);
}

#[test]
fn test_overwrite_last_insert_wins() {
    let mut map: PatriciaTree<u32> = PatriciaTree::new();
    map.insert(key(7), 1);
    map.insert(key(9), 90);
    map.insert(key(7), 2);
    map.insert(key(7), 3);
    assert_eq!(map.get(&key(7)), Some(&3));
    assert_eq!(map.get(&key(9)), Some(&90));
    assert_eq!(map.len(), 2);
}

#[test]
fn test_get_absent() {
    let mut map: PatriciaTree<u32> = PatriciaTree::new();
    assert_eq!(map.get(&key(5)), None);
    map.insert(key(5), 50);
    assert_eq!(map.get(&key(5)), Some(&50));
    assert_eq!(map.get(&key(4)), None);
}

#[test]
fn test_remove_absent_is_noop() {
    let mut map: PatriciaTree<u32> = PatriciaTree::new();
    map.insert(key(3), 30);
    map.insert(key(8), 80);
    map.remove(&key(100));
    assert_eq!(map.len(), 2);
    assert_eq!(map.get(&key(3)), Some(&30));
    assert_eq!(map.get(&key(8)), Some(&80));
    assert!(!map.contains_key(&key(100)));

    let mut empty: PatriciaTree<u32> = PatriciaTree::new();
    empty.remove(&key(0));
    assert!(empty.is_empty());
}

#[test]
fn test_clone_isolation() {
    let mut original: PatriciaTree<u32> = PatriciaTree::new();
    original.insert(key(10), 100);
    original.insert(key(20), 200);

    let mut snapshot = original.clone();
    snapshot.insert(key(30), 300);
    snapshot.insert(key(10), 999);
    snapshot.remove(&key(20));

    assert_eq!(original.len(), 2);
    assert_eq!(original.get(&key(10)), Some(&100));
    assert_eq!(original.get(&key(20)), Some(&200));
    assert!(!original.contains_key(&key(30)));

    assert_eq!(snapshot.len(), 2);
    assert_eq!(snapshot.get(&key(10)), Some(&999));
    assert!(!snapshot.contains_key(&key(20)));
    assert_eq!(snapshot.get(&key(30)), Some(&300));
}

#[test]
fn test_snapshot_scenario() {
    let mut map: PatriciaTree<u32> = PatriciaTree::new();
    map.insert(key(1), 111);
    map.insert(key(22), 222);
    map.insert(key(42), 444);
    map.insert(key(42), 444);
    map.insert(key(13), 1313);
    assert_eq!(map.len(), 4);
    assert!(map.contains_key(&key(1)));
    assert!(!map.contains_key(&key(2)));

    let mut clone = map.clone();
    clone.insert(key(55), 555);
    assert_eq!(map.len(), 4);
    assert_eq!(clone.len(), 5);

    clone.remove(&key(1));
    assert_eq!(clone.len(), 4);
    clone.remove(&key(1));
    assert_eq!(clone.len(), 4);
    assert!(map.contains_key(&key(1)));

    clone.remove(&key(22));
    assert_eq!(map.len(), 4);
    clone.remove(&key(13));
    assert_eq!(map.len(), 4);
    clone.remove(&key(42));
    assert_eq!(map.len(), 4);
    clone.remove(&key(55));
    assert_eq!(clone.len(), 0);
    assert_eq!(map.len(), 4);
}

#[test]
fn test_iter_yields_exactly_the_contents() {
    let mut map: PatriciaTree<u64> = PatriciaTree::new();
    let keys: [u64; 5] = [1, 22, 42, 13, 55];
    for k in keys.iter() {
        map.insert(key(*k), k * 10);
    }
    map.insert(key(22), 220);

    let mut seen: Vec<(u64, u64)> = Vec::new();
    let mut it = map.iter();
    while let Some((k, v)) = it.next() {
        let mut decoded: u64 = 0;
        for i in 0..64 {
            if k.get(i) {
                decoded |= 1u64 << i;
            }
        }
        seen.push((decoded, *v));
    }

    assert_eq!(seen.len(), 5);
    assert_eq!(seen.len(), map.len());
    for (k, v) in seen.iter() {
        assert!(map.contains_key(&key(*k)));
        assert_eq!(map.get(&key(*k)), Some(v));
    }
    for k in keys.iter() {
        assert!(seen.iter().any(|(k2, _)| k2 == k));
    }
    for i in 0..seen.len() {
        for j in (i + 1)..seen.len() {
            assert_ne!(seen[i].0, seen[j].0);
        }
    }
}

#[test]
fn test_iter_empty() {
    let map: PatriciaTree<u32> = PatriciaTree::new();
    let mut it = map.iter();
    assert!(it.next().is_none());
    assert!(it.next().is_none());
}

#[test]
fn test_iter_postorder_left_before_right() {
    // Keys are encoded least significant bit first, so 2 (bit 0 clear) sits
    // left of 1 (bit 0 set) and must come out first.
    let mut map: PatriciaTree<u32> = PatriciaTree::new();
    map.insert(key(1), 1);
    map.insert(key(2), 2);
    let mut it = map.iter();
    let first = it.next().expect("two entries");
    assert!(first.0.equals(&key(2)));
    let second = it.next().expect("two entries");
    assert!(second.0.equals(&key(1)));
    assert!(it.next().is_none());
}

#[test]
fn test_clear_and_is_empty() {
    let mut map: PatriciaTree<u32> = PatriciaTree::new();
    assert!(map.is_empty());
    map.insert(key(4), 40);
    assert!(!map.is_empty());
    let backup = map.clone();
    map.clear();
    assert!(map.is_empty());
    assert_eq!(map.len(), 0);
    assert!(!backup.is_empty());
    assert_eq!(backup.get(&key(4)), Some(&40));
}

#[test]
fn test_bitvec_operations() {
    let a = key(6);
    let b = key(6);
    let c = key(5);
    assert!(a.equals(&b));
    assert!(!a.equals(&c));
    assert_eq!(a.len(), 64);
    assert!(!a.get(0));
    assert!(a.get(1));
    assert!(a.get(2));
    assert!(!a.get(3));

    let empty = BitVec::new();
    assert_eq!(empty.len(), 0);
    assert!(a.begins_with(&empty));

    let p = BitVec::from_bits(vec![false, true]);
    assert!(a.begins_with(&p));
    assert!(!c.begins_with(&p));

    // 6 = [0,1,1,...], 5 = [1,0,1,...]: no shared leading bit.
    let lcp = BitVec::common_prefix(&a, &c);
    assert_eq!(lcp.len(), 0);
    // 6 and 2 share [0,1] and differ at position 2.
    let lcp2 = BitVec::common_prefix(&a, &key(2));
    assert_eq!(lcp2.len(), 2);
    assert!(a.begins_with(&lcp2));
    assert!(key(2).begins_with(&lcp2));
}

#[test]
fn test_diagnostic_rendering() {
    let bits = BitVec::from_bits(vec![true, false, true]);
    assert_eq!(bits.bit_string(), "101");
    assert_eq!(BitVec::new().bit_string(), "");

    let leaf: Node<u32> = Node::Leaf { key: BitVec::from_bits(vec![true, false]), value: 7 };
    assert_eq!(leaf.to_string(), "(Leaf 10)");

    let zero_one = Rc::new(Node::Leaf { key: BitVec::from_bits(vec![false, true]), value: 1 });
    let one_zero = Rc::new(Node::Leaf { key: BitVec::from_bits(vec![true, false]), value: 2 });
    let branch: Node<u32> = Node::make_branch(zero_one, one_zero);
    assert_eq!(
        branch.to_string(),
        "(Branch prefix:  Left: (Leaf 01) Right: (Leaf 10))"
    );
}

#[test]
fn test_remove_prefix_shaped_keys_is_noop() {
    // Keys [0,0] and [0,1] make the root a branch with prefix [0]. Removing
    // a key that ends at or inside that prefix, extends a stored key, or
    // diverges from the prefix must leave the tree untouched.
    let k00 = || BitVec::from_bits(vec![false, false]);
    let k01 = || BitVec::from_bits(vec![false, true]);
    let mut map: PatriciaTree<u32> = PatriciaTree::new();
    map.insert(k00(), 1);
    map.insert(k01(), 2);
    assert_eq!(map.len(), 2);

    // equal to the branch prefix (a strict prefix of both stored keys)
    map.remove(&BitVec::from_bits(vec![false]));
    // inside the branch prefix (the empty key)
    map.remove(&BitVec::from_bits(vec![]));
    // a strict extension of a stored key
    map.remove(&BitVec::from_bits(vec![false, true, true]));
    // diverging right at the root
    map.remove(&BitVec::from_bits(vec![true]));

    assert_eq!(map.len(), 2);
    assert_eq!(map.get(&k00()), Some(&1));
    assert_eq!(map.get(&k01()), Some(&2));
    assert!(!map.contains_key(&BitVec::from_bits(vec![false])));
    assert!(!map.contains_key(&BitVec::from_bits(vec![])));
}

#[test]
fn test_get_prefix_shaped_keys_is_absent() {
    let mut map: PatriciaTree<u32> = PatriciaTree::new();
    map.insert(BitVec::from_bits(vec![false, false]), 1);
    map.insert(BitVec::from_bits(vec![false, true]), 2);
    // The lookup meets the branch whose prefix equals the key, which is no
    // stored value.
    assert_eq!(map.get(&BitVec::from_bits(vec![false])), None);
    assert_eq!(map.get(&BitVec::from_bits(vec![])), None);
    assert_eq!(map.get(&BitVec::from_bits(vec![false, false, false])), None);
}
