use spanning_tree::tree_color::TreeColor;
use spanning_tree::tree_id::TreeId;
use spanning_tree::tree_info::TreeInfo;
use std::cmp::Ordering;

#[test]
fn tree_info_ordering() {
    let id1 = TreeId {
        primary: 10,
        secondary: 1,
    };
    let id2 = TreeId {
        primary: 10,
        secondary: 2,
    };
    let id3 = TreeId {
        primary: 5,
        secondary: 100,
    };
    let x = TreeInfo {
        tree_id: id1,
        depth: 0,
        color: TreeColor::of(100),
        reset_countdown: 0,
    };
    assert_eq!(x.cmp(&TreeInfo { tree_id: id2, ..x }), Ordering::Less);
    assert_eq!(x.cmp(&TreeInfo { tree_id: id3, ..x }), Ordering::Greater);
    assert_eq!(x.cmp(&TreeInfo { depth: 1, ..x }), Ordering::Greater);
    assert_eq!(
        x.cmp(&TreeInfo {
            color: TreeColor::of(10),
            reset_countdown: 5,
            ..x
        }),
        Ordering::Equal
    );
}

#[test]
fn tree_info_deeper_offer_of_same_tree_is_less() {
    let id = TreeId::new_simple(3);
    let shallow = TreeInfo { tree_id: id, depth: 1, color: TreeColor::of(0), reset_countdown: 0 };
    let deep = TreeInfo { depth: 4, ..shallow };
    assert_eq!(deep.cmp(&shallow), Ordering::Less);
    assert_eq!(shallow.cmp(&deep), Ordering::Greater);
}

#[test]
fn tree_info_partial_order_ignores_colour_and_countdown() {
    let id = TreeId::new_simple(3);
    let a = TreeInfo { tree_id: id, depth: 2, color: TreeColor::of(1), reset_countdown: 0 };
    let b = TreeInfo { color: TreeColor::of(7), reset_countdown: 4, ..a };
    assert_eq!(a.partial_cmp(&b), Some(Ordering::Equal));
    assert!(a != b);
    let deeper = TreeInfo { depth: 3, ..a };
    assert!(deeper < a);
}
