use spanning_tree::Probability;
use spanning_tree::algorithm::parenting::ParentingData;
use spanning_tree::messages::{Message, ReceivedMessage, SentMessage};
use spanning_tree::random_peer_generator::RandomPeerGenerator;
use spanning_tree::tree_color::TreeColor;
use spanning_tree::tree_id::TreeId;
use spanning_tree::tree_info::TreeInfo;
use spanning_tree::Configuration;

fn info(primary: u64, depth: usize) -> TreeInfo {
    TreeInfo { tree_id: TreeId::new_simple(primary), depth, color: TreeColor::of(0), reset_countdown: 0 }
}

fn request(source: usize, tree_info: TreeInfo) -> ReceivedMessage {
    ReceivedMessage { source, message: Message::Request(tree_info) }
}

fn conf(n: usize, d: usize) -> Configuration {
    Configuration::new(n, d, Probability::new(1, 1), 10)
}

#[test]
fn a_new_root_has_no_parent_and_no_children() {
    let p = ParentingData::new_root(TreeId::new_simple(3));
    assert_eq!(*p.tree_id(), TreeId::new_simple(3));
    assert!(p.is_root());
    assert_eq!(p.parent(), None);
    assert_eq!(p.my_depth(), 0);
    assert!(p.confirmed_children().is_empty());
    assert!(p.tentative_children().is_empty());
    assert!(p.children(false).is_empty());
}

#[test]
fn a_node_joins_the_largest_tree_offered() {
    let mut p = ParentingData::new_root(TreeId::new_simple(3));
    let joined = p.process_requests(&[
        request(1, info(5, 2)),
        request(2, info(7, 4)),
        ReceivedMessage { source: 4, message: Message::Confirmation(None) },
        request(3, info(6, 0)),
    ]);
    assert_eq!(joined, Some(info(7, 4)));
    assert_eq!(p.parent(), Some(2));
    assert_eq!(*p.tree_id(), TreeId::new_simple(7));
    assert_eq!(p.my_depth(), 5);
}

#[test]
fn within_a_tree_the_shallowest_offer_wins() {
    let mut p = ParentingData::new_root(TreeId::new_simple(3));
    assert_eq!(p.process_requests(&[request(1, info(7, 4)), request(2, info(7, 1))]), Some(info(7, 1)));
    assert_eq!(p.parent(), Some(2));
    assert_eq!(p.my_depth(), 2);
}

#[test]
fn a_node_keeps_its_parent_among_equal_offers() {
    let mut p = ParentingData::new_root(TreeId::new_simple(3));
    p.process_requests(&[request(1, info(7, 1))]);
    assert_eq!(p.parent(), Some(1));
    p.process_requests(&[request(1, info(7, 1)), request(2, info(7, 1))]);
    assert_eq!(p.parent(), Some(1));
    let mut q = ParentingData::new_root(TreeId::new_simple(3));
    q.process_requests(&[request(1, info(7, 1)), request(2, info(7, 1))]);
    assert_eq!(q.parent(), Some(2));
}

#[test]
fn a_node_without_a_better_offer_becomes_a_root() {
    let mut p = ParentingData::new_root(TreeId::new_simple(9));
    assert_eq!(p.process_requests(&[request(1, info(7, 0)), request(2, info(9, 0))]), None);
    assert!(p.is_root());
    assert_eq!(*p.tree_id(), TreeId::new_simple(9));
    p.process_requests(&[request(1, info(10, 0))]);
    assert_eq!(p.parent(), Some(1));
    assert_eq!(p.process_requests(&[]), None);
    assert!(p.is_root());
    assert_eq!(p.my_depth(), 0);
    assert_eq!(*p.tree_id(), TreeId::new_simple(10));
}

#[test]
fn confirmations_keep_children_and_new_ones_are_found() {
    let c = conf(5, 3);
    let mut rng = rand::rng();
    let mut p = ParentingData::new_root(TreeId::new_simple(1));
    p.process_confirmations(&[], &c, RandomPeerGenerator::new(5, vec![0], &mut rng));
    assert_eq!(p.children(false).len(), 3);
    assert!(p.confirmed_children().is_empty());
    assert!(!p.children(false).contains(&0));
    let kept = p.children(false)[1];
    p.process_confirmations(
        &[ReceivedMessage { source: kept, message: Message::Confirmation(None) }],
        &c,
        RandomPeerGenerator::new(5, vec![0], &mut rng),
    );
    assert_eq!(p.confirmed_children(), &[kept]);
    assert_eq!(p.tentative_children().len(), 2);
    assert!(!p.tentative_children().contains(&kept));
    assert!(!p.children(false).contains(&0));
}

#[test]
fn requests_go_to_every_child() {
    let c = conf(4, 3);
    let mut rng = rand::rng();
    let mut p = ParentingData::new_root(TreeId::new_simple(1));
    p.process_confirmations(&[], &c, RandomPeerGenerator::new(4, vec![0], &mut rng));
    let sent = p.send_requests(info(1, 0));
    assert_eq!(sent.len(), 3);
    for (k, m) in sent.iter().enumerate() {
        assert_eq!(*m, SentMessage { destination: p.children(false)[k], message: Message::Request(info(1, 0)) });
    }
}

#[test]
fn resizing_drops_parent_and_children_outside_the_graph() {
    let c = conf(6, 5);
    let mut rng = rand::rng();
    let mut p = ParentingData::new_root(TreeId::new_simple(1));
    p.process_requests(&[request(5, info(7, 0))]);
    p.process_confirmations(&[], &c, RandomPeerGenerator::new(6, vec![0], &mut rng));
    assert_eq!(p.children(false).len(), 4);
    p.update_for_configuration(&conf(3, 1));
    assert_eq!(p.parent(), None);
    assert_eq!(p.children(false).len(), 1);
    assert!(p.children(false)[0] < 3);
    assert!(p.confirmed_children().is_empty());
}

#[test]
fn a_reset_starts_over_as_a_root() {
    let mut p = ParentingData::new_root(TreeId::new_simple(1));
    p.process_requests(&[request(2, info(7, 3))]);
    p.reset(TreeId::new_simple(4));
    assert!(p.is_root());
    assert_eq!(p.my_depth(), 0);
    assert_eq!(*p.tree_id(), TreeId::new_simple(4));
    p.set_tree_id(TreeId::new_simple(8));
    assert_eq!(*p.tree_id(), TreeId::new_simple(8));
}

#[test]
fn random_parenting_stays_in_the_graph() {
    let c = Configuration::new(5, 2, Probability::new(1, 2), 10);
    let mut rng = rand::rng();
    for _ in 0..50 {
        let p = ParentingData::new_random(&c, &mut rng);
        assert!(p.tree_id().primary < 10 && p.tree_id().secondary < 10);
        match p.parent() {
            None => assert_eq!(p.my_depth(), 0),
            Some(parent) => {
                assert!(parent < 5);
                assert!(1 <= p.my_depth() && p.my_depth() < 5);
            }
        }
        assert!(p.children(false).is_empty());
    }
}

#[test]
fn renewing_children_draws_peers_until_d_children_or_none_is_left() {
    let mut rng = rand::rng();
    // Five peers, one of them the node itself: four can be drawn, three are wanted.
    let mut p = ParentingData::new_root(TreeId::new_simple(3));
    let pg = RandomPeerGenerator::new(5, vec![0], &mut rng);
    p.process_confirmations(&[], &conf(5, 3), pg);
    assert_eq!(p.children(false).len(), 3);
    assert!(p.children(false).iter().all(|c| *c != 0 && *c < 5));
    // Three peers, one of them the node itself: only two can be drawn.
    let mut q = ParentingData::new_root(TreeId::new_simple(3));
    let pg = RandomPeerGenerator::new(3, vec![0], &mut rng);
    q.process_confirmations(&[], &conf(3, 3), pg);
    let mut drawn = q.children(false).to_vec();
    drawn.sort_unstable();
    assert_eq!(drawn, vec![1, 2]);
}
