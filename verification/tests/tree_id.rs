use spanning_tree::tree_id::TreeId;
use std::cmp::Ordering;

#[test]
fn tree_id_new_simple() {
    assert_eq!(
        TreeId::new_simple(1001),
        TreeId {
            primary: 1001,
            secondary: 0
        }
    );
}

#[test]
fn tree_id_ordering() {
    let x = TreeId::new_simple(1);
    assert_eq!(x.cmp(&TreeId { primary: 0, ..x }), Ordering::Greater);
    assert_eq!(x.cmp(&TreeId { primary: 2, ..x }), Ordering::Less);
    assert_eq!(x.cmp(&TreeId { secondary: 1, ..x }), Ordering::Less);
}

#[test]
fn tree_id_equal_ids_compare_equal() {
    let x = TreeId { primary: 7, secondary: 3 };
    assert_eq!(x.cmp(&x), Ordering::Equal);
    assert_eq!(
        TreeId { primary: 1, secondary: 9 }.cmp(&TreeId { primary: 2, secondary: 0 }),
        Ordering::Less
    );
}

#[test]
fn tree_id_new_random_stays_below_max() {
    let mut rng = rand::rng();
    for _ in 0..100 {
        let id = TreeId::new_random(5, &mut rng);
        assert!(id.primary < 5);
        assert!(id.secondary < 5);
    }
}

#[test]
fn tree_id_partial_order_follows_cmp() {
    let small = TreeId { primary: 1, secondary: 9 };
    let large = TreeId { primary: 2, secondary: 0 };
    assert!(small < large);
    assert!(large > small);
    assert_eq!(small.partial_cmp(&large), Some(Ordering::Less));
    assert_eq!(small.partial_cmp(&small), Some(Ordering::Equal));
}
