use spanning_tree::Probability;
use spanning_tree::algorithm::coloring::ColoringData;
use spanning_tree::messages::{Message, ReceivedMessage};
use spanning_tree::tree_color::TreeColor;
use spanning_tree::Configuration;

fn confirmation(source: usize, color: Option<usize>) -> ReceivedMessage {
    ReceivedMessage { source, message: Message::Confirmation(color.map(TreeColor::of)) }
}

#[test]
fn a_new_colouring_knows_its_colour_only() {
    let c = ColoringData::new(TreeColor::of(4));
    assert_eq!(c.curr_color(), TreeColor::of(4));
    assert!(c.is_valid_color(TreeColor::of(4)));
    assert!(!c.is_valid_color(TreeColor::of(5)));
    assert_eq!(c.subtree_color(), None);
    assert_eq!(c.recoloring_rounds(), 0);
}

#[test]
fn recolouring_keeps_the_previous_colour_valid() {
    let mut c = ColoringData::new(TreeColor::of(4));
    c.recolor(TreeColor::of(7));
    assert_eq!(c.curr_color(), TreeColor::of(7));
    assert!(c.is_valid_color(TreeColor::of(7)));
    assert!(c.is_valid_color(TreeColor::of(4)));
    assert!(!c.is_valid_color(TreeColor::of(5)));
}

#[test]
fn a_subtree_is_coloured_when_every_child_confirms_the_colour() {
    let conf = Configuration::new(3, 2, Probability::new(1, 1), 10);
    let mut rng = rand::rng();
    let mut c = ColoringData::new(TreeColor::of(2));
    c.process_confirmations(&[confirmation(1, Some(2)), confirmation(2, Some(2))], false, &conf, &mut rng);
    assert_eq!(c.subtree_color(), Some(TreeColor::of(2)));
    assert_eq!(c.recoloring_rounds(), 1);
    c.process_confirmations(&[confirmation(1, Some(2)), confirmation(2, None)], false, &conf, &mut rng);
    assert_eq!(c.subtree_color(), None);
    assert_eq!(c.recoloring_rounds(), 2);
}

#[test]
fn a_root_with_a_coloured_tree_moves_on_to_another_colour() {
    let conf = Configuration::new(3, 2, Probability::new(1, 1), 10);
    let mut rng = rand::rng();
    for _ in 0..20 {
        let mut c = ColoringData::new(TreeColor::of(1));
        c.process_confirmations(&[confirmation(1, Some(1))], true, &conf, &mut rng);
        assert_ne!(c.curr_color(), TreeColor::of(1));
        assert!(c.curr_color().value <= 3);
        assert!(c.is_valid_color(TreeColor::of(1)));
        assert_eq!(c.subtree_color(), None);
        assert_eq!(c.recoloring_rounds(), 0);
    }
}

#[test]
fn random_colours_stay_below_the_bound() {
    let conf = Configuration::new(4, 2, Probability::new(1, 1), 10);
    let mut rng = rand::rng();
    for _ in 0..50 {
        let c = ColoringData::new_random(&conf, &mut rng);
        assert!(c.curr_color().value < 4);
        assert!(TreeColor::new_random(&conf, &mut rng).value < 4);
    }
}
