use rand::seq::SliceRandom;
use rand::Rng;
use rb_tree::{Color, Link, RbTree, RbTreeNode, Violation};

const N: usize = 1000;
const MAX: i32 = 10000;

fn node(val: i32, color: Color, left: Link, right: Link) -> Link {
    Some(Box::new(RbTreeNode { val, color, left, right }))
}

#[test]
fn test_add() {
    let mut rng = rand::thread_rng();

    let mut t = RbTree::new();

    for _ in 0..N {
        let v = rng.gen_range(0..MAX);
        t.add(v);

        let valid = t.is_valid();
        assert_eq!(valid, true);
    }
    assert_eq!(t.len(), N);
}

#[test]
fn test_remove() {
    let mut rng = rand::thread_rng();
    let mut vec = Vec::new();

    for _ in 0..N {
        vec.push(rng.gen_range(0..MAX));
    }

    let mut t = RbTree::new();

    for i in 0..N {
        t.add(vec[i]);
    }

    vec.shuffle(&mut rng);

    for i in 0..N {
        let v = vec[i];
        let ok = t.remove(&v);
        assert_eq!(ok, true);

        let valid = t.is_valid();
        assert_eq!(valid, true);
    }
    assert_eq!(t.len(), 0);
}

#[test]
fn driver_sequence_then_remove_seven() {
    let mut t = RbTree::new();
    for v in [3, 5, 1, 7, 13, 15, 4, 17, 9, 11, 2, 21] {
        t.add(v);
    }
    assert!(t.remove(&7));
    assert_eq!(t.len(), 11);
    assert_eq!(t.in_order(), vec![1, 2, 3, 4, 5, 9, 11, 13, 15, 17, 21]);
    assert!(t.is_valid());
    assert_eq!(t.validate(), Ok(()));
}

#[test]
fn remove_from_empty_tree() {
    let mut t = RbTree::new();
    assert!(!t.remove(&42));
    assert_eq!(t.len(), 0);
    assert!(t.root().is_none());
}

#[test]
fn duplicate_keys_are_kept() {
    let mut t = RbTree::new();
    t.add(5);
    t.add(5);
    assert_eq!(t.len(), 2);
    assert_eq!(t.in_order(), vec![5, 5]);
    assert!(t.is_valid());
    assert!(t.remove(&5));
    assert_eq!(t.in_order(), vec![5]);
    assert!(t.remove(&5));
    assert!(!t.remove(&5));
    assert_eq!(t.len(), 0);
}

#[test]
fn many_equal_keys_stay_valid() {
    let mut t = RbTree::new();
    for _ in 0..50 {
        t.add(7);
        assert!(t.is_valid());
    }
    t.add(3);
    t.add(9);
    assert_eq!(t.len(), 52);
    let keys = t.in_order();
    assert_eq!(keys[0], 3);
    assert_eq!(keys[51], 9);
    for _ in 0..50 {
        assert!(t.remove(&7));
        assert!(t.is_valid());
    }
    assert_eq!(t.in_order(), vec![3, 9]);
}

#[test]
fn remove_missing_key_keeps_tree() {
    let mut t = RbTree::new();
    for v in [10, 20, 30, 40, 50] {
        t.add(v);
    }
    let before = t.in_order();
    assert!(!t.remove(&25));
    assert_eq!(t.len(), 5);
    assert_eq!(t.in_order(), before);
    assert!(t.remove(&30));
    assert!(!t.remove(&30));
    assert_eq!(t.len(), 4);
    assert_eq!(t.in_order(), vec![10, 20, 40, 50]);
}

#[test]
fn in_order_is_sorted_after_mixed_operations() {
    let mut t = RbTree::new();
    let mut x: i64 = 12345;
    let mut held: Vec<i32> = Vec::new();
    for i in 0..400 {
        x = (x * 1103515245 + 12345) % 2147483648;
        let v = (x % 97) as i32 - 48;
        if i % 3 == 2 {
            let found = held.iter().position(|&h| h == v);
            assert_eq!(t.remove(&v), found.is_some());
            if let Some(p) = found {
                held.remove(p);
            }
        } else {
            t.add(v);
            held.push(v);
        }
        assert!(t.is_valid());
        assert_eq!(t.len(), held.len());
    }
    held.sort();
    assert_eq!(t.in_order(), held);
}

#[test]
fn round_trip_empties_tree() {
    let keys = [8, 3, 10, 1, 6, 14, 4, 7, 13, 3, 8];
    let mut t = RbTree::new();
    for k in keys {
        t.add(k);
    }
    for k in [13, 3, 8, 1, 14, 7, 3, 10, 4, 6, 8] {
        assert!(t.remove(&k));
        assert!(t.is_valid());
    }
    assert_eq!(t.len(), 0);
    assert!(t.root().is_none());
}

#[test]
fn root_is_black_after_each_add() {
    let mut t = RbTree::new();
    for v in 0..64 {
        t.add(v);
        assert_eq!(t.root().as_ref().unwrap().color, Color::Black);
    }
}

#[test]
fn ascending_inserts_rotate() {
    let mut t = RbTree::new();
    t.add(1);
    t.add(2);
    t.add(3);
    let r = t.root().as_ref().unwrap();
    assert_eq!(r.val, 2);
    assert_eq!(r.color, Color::Black);
    assert_eq!(r.left.as_ref().unwrap().val, 1);
    assert_eq!(r.left.as_ref().unwrap().color, Color::Red);
    assert_eq!(r.right.as_ref().unwrap().val, 3);
    assert_eq!(r.right.as_ref().unwrap().color, Color::Red);
}

#[test]
fn duplicates_go_left_on_insert() {
    let mut t = RbTree::new();
    t.add(5);
    t.add(5);
    let r = t.root().as_ref().unwrap();
    assert!(r.left.is_some());
    assert!(r.right.is_none());
}

#[test]
fn black_height_counts_black_nodes() {
    let t = node(
        10,
        Color::Black,
        node(5, Color::Black, None, None),
        node(20, Color::Red, node(15, Color::Black, None, None), node(25, Color::Black, None, None)),
    );
    assert_eq!(RbTree::black_height(&t, 0), Ok(2));
    assert_eq!(RbTree::black_height(&None, 0), Ok(0));
}

#[test]
fn black_height_reports_double_red() {
    let t = node(
        10,
        Color::Black,
        node(5, Color::Red, node(3, Color::Red, None, None), None),
        None,
    );
    assert_eq!(RbTree::black_height(&t, 0), Err(Violation::DoubleRed { key: 5, level: 1 }));
}

#[test]
fn black_height_reports_deeper_violation_level() {
    let t = node(
        10,
        Color::Black,
        node(5, Color::Black, None, None),
        node(20, Color::Black, node(15, Color::Black, None, None), None),
    );
    assert_eq!(RbTree::black_height(&t, 0), Err(Violation::BlackHeight { key: 20, level: 2, left: 1, right: 0 }));
}

#[test]
fn black_height_reports_double_red_at_given_level() {
    let t = node(1, Color::Red, node(0, Color::Red, None, None), node(2, Color::Red, None, None));
    assert_eq!(RbTree::black_height(&t, 1), Err(Violation::DoubleRed { key: 1, level: 1 }));
}

#[test]
fn black_height_reports_unequal_heights_at_given_level() {
    let t = node(
        2,
        Color::Black,
        node(1, Color::Black, None, None),
        node(4, Color::Black, node(3, Color::Black, None, None), node(5, Color::Black, None, None)),
    );
    assert_eq!(RbTree::black_height(&t, 1), Err(Violation::BlackHeight { key: 2, level: 2, left: 1, right: 2 }));
}

#[test]
fn duplicate_goes_below_as_red_left_leaf() {
    let mut t = RbTree::new();
    t.add(5);
    t.add(5);
    let r = t.root().as_ref().unwrap();
    assert_eq!(r.val, 5);
    assert_eq!(r.color, Color::Black);
    let l = r.left.as_ref().unwrap();
    assert_eq!(l.val, 5);
    assert_eq!(l.color, Color::Red);
    assert!(l.left.is_none() && l.right.is_none());
    assert!(r.right.is_none());
}

#[test]
fn removing_the_root_promotes_its_child_black() {
    let mut t = RbTree::new();
    t.add(5);
    t.add(3);
    assert!(t.remove(&5));
    let r = t.root().as_ref().unwrap();
    assert_eq!(r.val, 3);
    assert_eq!(r.color, Color::Black);
    assert!(r.left.is_none() && r.right.is_none());
}

#[test]
fn black_height_reports_unequal_heights() {
    let t = node(10, Color::Black, node(5, Color::Black, None, None), None);
    assert_eq!(RbTree::black_height(&t, 0), Err(Violation::BlackHeight { key: 10, level: 1, left: 1, right: 0 }));
}
