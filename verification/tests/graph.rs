use spanning_tree::Probability;
use spanning_tree::algorithm::timers::RoundType;
use spanning_tree::forest::ForestLayout;
use spanning_tree::graph::Graph;
use spanning_tree::messages::{Message, ReceivedMessage};
use spanning_tree::tree_color::TreeColor;
use spanning_tree::tree_id::TreeId;
use spanning_tree::view::{status, ChordLayout, RootPositions, Settings, ViewMode};
use spanning_tree::Configuration;

fn three_roots() -> Graph {
    Graph::new_test(
        vec![
            (TreeId::new_simple(1), TreeColor::of(1)),
            (TreeId::new_simple(2), TreeColor::of(2)),
            (TreeId::new_simple(3), TreeColor::of(0)),
        ],
        2,
    )
}

fn ids(n: usize) -> Vec<TreeId> {
    (0..n).map(|i| TreeId::new_simple(100 + i as u64)).collect()
}

#[test]
fn a_test_graph_is_made_of_roots() {
    let g = three_roots();
    assert_eq!(g.nodes().len(), 3);
    assert_eq!(g.configuration().n, 3);
    assert_eq!(g.configuration().d, 2);
    assert_eq!(g.configuration().id_range, 3);
    assert_eq!(g.num_trees(), 3);
    assert_eq!(g.reset_countdown(), None);
    assert!(g.can_execute_round());
    assert!(g.in_flight_messages().iter().all(|m| m.is_empty()));
    for (i, node) in g.nodes().iter().enumerate() {
        assert!(node.parenting().is_root());
        assert_eq!(node.timers().get_round_type(), RoundType::ExchangeRequests);
        assert_eq!(node.to_string(), format!("{}:0", i + 1));
    }
    assert_eq!(g.nodes()[2].color(), TreeColor::of(0));
}

#[test]
fn three_rounds_join_every_node_to_the_largest_tree() {
    let mut g = three_roots();
    let mut rng = rand::rng();
    for _ in 0..3 {
        assert!(g.can_execute_round());
        g.execute_round(&mut rng, &ids(3));
    }
    assert_eq!(g.nodes()[0].parenting().parent(), Some(2));
    assert_eq!(g.nodes()[1].parenting().parent(), Some(2));
    assert!(g.nodes()[2].parenting().is_root());
    assert_eq!(*g.nodes()[0].parenting().tree_id(), TreeId::new_simple(3));
    assert_eq!(g.nodes()[1].parenting().my_depth(), 1);
    assert_eq!(g.num_trees(), 1);
    assert!(g.validate_parenting(2, 0, false));
    assert!(g.validate_parenting(2, 1, false));
    assert!(!g.validate_parenting(0, 2, false));
    assert!(!g.validate_parenting(2, 0, true));

    let trees = g.trees(false);
    assert_eq!(trees.len(), 1);
    assert_eq!(trees[0].root(), 2);
    let mut members = trees[0].nodes().to_vec();
    members.sort_unstable();
    assert_eq!(members, vec![0, 1, 2]);
    assert_eq!(trees[0].height(), 2);
    assert_eq!(trees[0].to_string(), "tree of 3 nodes rooted at [2] 3:0");

    // The children confirm to their parent, which keeps them as confirmed
    // children in the next round.
    let mut sources: Vec<usize> = g.in_flight_messages()[2].iter().map(|m| m.source).collect();
    sources.sort_unstable();
    assert_eq!(sources, vec![0, 1]);
    g.execute_round(&mut rng, &ids(3));
    assert!(g.validate_parenting(2, 0, true));
    let confirmed = g.trees(true);
    assert_eq!(confirmed.len(), 1);
    let tree = confirmed.into_iter().next().unwrap();
    assert_eq!(tree.into_nodes().len(), 3);
}

#[test]
fn no_node_ever_sends_to_itself_or_outside_the_graph() {
    let mut g = Graph::new_test(
        (0..8).map(|i| (TreeId::new_simple(i), TreeColor::of(0))).collect(),
        3,
    );
    let mut rng = rand::rng();
    for _ in 0..30 {
        g.execute_round(&mut rng, &ids(8));
        for (i, queue) in g.in_flight_messages().iter().enumerate() {
            for m in queue {
                assert!(m.source < 8 && m.source != i);
            }
        }
    }
}

#[test]
fn growing_adds_roots_and_shrinking_forgets_the_nodes_that_left() {
    let mut g = three_roots();
    let mut rng = rand::rng();
    for _ in 0..3 {
        g.execute_round(&mut rng, &ids(3));
    }
    g.resize(5, &mut rng, &ids(5));
    assert_eq!(g.nodes().len(), 5);
    assert_eq!(g.configuration().n, 5);
    assert_eq!(*g.nodes()[4].parenting().tree_id(), TreeId::new_simple(104));
    assert!(g.nodes()[3].parenting().is_root());
    assert_eq!(g.nodes()[0].parenting().parent(), Some(2));
    g.resize(2, &mut rng, &ids(2));
    assert_eq!(g.nodes().len(), 2);
    assert_eq!(g.in_flight_messages().len(), 2);
    assert_eq!(g.nodes()[0].parenting().parent(), None);
    assert!(g.nodes()[1].parenting().children(false).iter().all(|c| *c < 2));
}

#[test]
fn a_reset_countdown_is_reported_and_resets_the_node() {
    let mut g = three_roots();
    let mut rng = rand::rng();
    let conf = *g.configuration();
    assert_eq!(g.reset_countdown(), None);
    // A confirmation in a request round does not fit: it starts a reset
    // count-down of `n` rounds.
    let unexpected = ReceivedMessage { source: 1, message: Message::Confirmation(None) };
    g.edit_node(0).receive_messages(vec![unexpected], &conf, 0, &mut rng);
    assert_eq!(g.nodes()[0].timers().reset_countdown(), 3);
    assert_eq!(g.reset_countdown(), Some(3));
    // When the count-down comes due, the node starts over as the root of a
    // fresh tree.
    g.execute_round(&mut rng, &ids(3));
    assert_eq!(g.nodes()[0].timers().reset_countdown(), 2);
    g.execute_round(&mut rng, &ids(3));
    assert_eq!(*g.nodes()[0].parenting().tree_id(), TreeId::new_simple(100));
    assert!(g.nodes()[0].parenting().is_root());
    // Starting over renews the timers: the convergence timer is full again.
    assert_eq!(g.nodes()[0].timers().to_string(), "conv in 3\n");
    assert!(g.nodes()[0].color().value < 3);
}

#[test]
fn editing_a_node_changes_its_tree_id() {
    let mut g = three_roots();
    g.edit_node(0).set_tree_id(TreeId::new_simple(50));
    assert_eq!(*g.nodes()[0].parenting().tree_id(), TreeId::new_simple(50));
    assert_eq!(g.reset_countdown(), None);
}

#[test]
fn random_graphs_are_well_formed() {
    let conf = Configuration::new(6, 2, Probability::new(1, 2), 100);
    let mut rng = rand::rng();
    let mut g = Graph::new_random(conf, &mut rng);
    assert_eq!(g.nodes().len(), 6);
    for _ in 0..10 {
        g.execute_round(&mut rng, &ids(6));
    }
    assert!(g.num_trees() >= 1 || g.nodes().iter().all(|n| !n.parenting().is_root()));
}

#[test]
fn the_chord_order_places_every_node_once() {
    let mut g = three_roots();
    let mut rng = rand::rng();
    assert_eq!(ChordLayout::new(&g, RootPositions::Constant).permutation(), &[0, 1, 2]);
    for _ in 0..3 {
        g.execute_round(&mut rng, &ids(3));
    }
    let sorted = ChordLayout::new(&g, RootPositions::Sorted);
    assert_eq!(sorted.permutation()[0], 2);
    let mut all = sorted.permutation().to_vec();
    all.sort_unstable();
    assert_eq!(all, vec![0, 1, 2]);
}

#[test]
fn default_settings_show_the_chord_view() {
    let s = Settings::default();
    assert_eq!(s.view_mode, ViewMode::Chord);
    assert_eq!(s.root_positions, RootPositions::Constant);
    assert!(s.show_tentative_requests);
}

#[test]
fn default_configuration_has_three_nodes() {
    let c = Configuration::default();
    assert_eq!((c.n, c.d, c.id_range), (3, 2, 0xffff));
    assert_eq!(c.max_color(), 3);
    assert_eq!(c.reset_countdown_max(), 3);
    assert_eq!(c.num_rounds_to_convergence(), 3);
    let mut rng = rand::rng();
    assert!(c.draw_from_initial_root_probablity(&mut rng));
}

#[test]
fn the_forest_view_lists_each_tree_level_by_level() {
    let mut g = three_roots();
    let mut rng = rand::rng();
    let forest = ForestLayout::new(&g, RootPositions::Constant);
    assert_eq!(forest.total_nodes(), 3);
    assert_eq!(forest.trees().len(), 3);
    for (i, tree) in forest.trees().iter().enumerate() {
        assert_eq!(tree.levels(), &[vec![i]]);
        assert_eq!(tree.max_width(), 1);
    }
    // Once the children have confirmed, the largest tree holds all nodes.
    for _ in 0..4 {
        g.execute_round(&mut rng, &ids(3));
    }
    let forest = ForestLayout::new(&g, RootPositions::Sorted);
    assert_eq!(forest.trees().len(), 1);
    let levels = forest.trees()[0].levels();
    assert_eq!(levels.len(), 2);
    assert_eq!(levels[0], vec![2]);
    let mut below = levels[1].clone();
    below.sort_unstable();
    assert_eq!(below, vec![0, 1]);
    assert_eq!(forest.trees()[0].max_width(), 2);
}

#[test]
fn the_status_line_counts_rounds_trees_and_the_reset() {
    assert_eq!(status(0, 1, None), "round 0, 1 tree");
    assert_eq!(status(12, 3, None), "round 12, 3 trees");
    assert_eq!(status(7, 2, Some(4)), "round 7, 2 trees, resetting in 4 rounds");
    assert_eq!(status(1, 0, Some(1)), "round 1, 0 tree, resetting in 1 rounds");
}

#[test]
fn the_trees_of_a_graph_never_share_a_node() {
    let mut g = Graph::new_test(
        (0..9).map(|i| (TreeId::new_simple(i % 4), TreeColor::of(0))).collect(),
        2,
    );
    let mut rng = rand::rng();
    for round in 0..25 {
        g.execute_round(&mut rng, &ids(9));
        for confirmed_only in [false, true] {
            let mut seen = vec![false; 9];
            for tree in g.trees(confirmed_only) {
                for &node in tree.nodes() {
                    assert!(!seen[node], "node {node} listed twice in round {round}");
                    seen[node] = true;
                }
            }
        }
    }
}

#[test]
fn a_round_never_lowers_a_tree_id_without_a_reset() {
    let mut g = Graph::new_test(
        (0..7).map(|i| (TreeId::new_simple(10 + i), TreeColor::of(0))).collect(),
        2,
    );
    let mut rng = rand::rng();
    for _ in 0..20 {
        let before: Vec<TreeId> = g.nodes().iter().map(|n| *n.parenting().tree_id()).collect();
        let fresh = ids(7);
        g.execute_round(&mut rng, &fresh);
        for (i, node) in g.nodes().iter().enumerate() {
            let now = *node.parenting().tree_id();
            assert!(now >= before[i] || now == fresh[i]);
        }
    }
}

#[test]
fn the_number_of_trees_is_the_number_of_listed_trees() {
    let mut g = Graph::new_test(
        (0..8).map(|i| (TreeId::new_simple(i % 3), TreeColor::of(0))).collect(),
        2,
    );
    let mut rng = rand::rng();
    for _ in 0..15 {
        assert_eq!(g.num_trees(), g.trees(false).len());
        g.execute_round(&mut rng, &ids(8));
    }
}

#[test]
fn the_root_probability_decides_at_its_ends() {
    let mut rng = rand::rng();
    let always = Configuration::new(1, 1, Probability::new(1, 1), 4);
    assert!(always.draw_from_initial_root_probablity(&mut rng));
    let g = Graph::new_random(always, &mut rng);
    assert!(g.nodes()[0].parenting().is_root());
    let never = Configuration::new(5, 2, Probability::new(0, 1), 4);
    assert!(!never.draw_from_initial_root_probablity(&mut rng));
    let g = Graph::new_random(never, &mut rng);
    assert!(g.nodes().iter().all(|n| !n.parenting().is_root()));
    let p = Probability::new(3, 7);
    assert_eq!((p.numerator(), p.denominator()), (3, 7));
}

#[test]
fn the_sorted_chord_order_puts_larger_trees_first() {
    let mut rng = rand::rng();
    for _ in 0..10 {
        let mut g = Graph::new_test(
            (0..10).map(|i| (TreeId::new_simple(i), TreeColor::of(0))).collect(),
            2,
        );
        for _ in 0..6 {
            g.execute_round(&mut rng, &ids(10));
            let mut size = vec![0usize; 10];
            for tree in g.trees(false) {
                for &node in tree.nodes() {
                    size[node] = tree.nodes().len();
                }
            }
            let order = ChordLayout::new(&g, RootPositions::Sorted);
            let perm = order.permutation();
            assert_eq!(perm.len(), 10);
            for w in perm.windows(2) {
                assert!(size[w[0]] >= size[w[1]]);
            }
        }
    }
}

#[test]
fn a_round_counts_the_convergence_timer_down() {
    let mut g = three_roots();
    let mut rng = rand::rng();
    assert_eq!(g.nodes()[1].timers().to_string(), "conv in 3\n");
    g.execute_round(&mut rng, &ids(3));
    assert_eq!(g.nodes()[1].timers().to_string(), "conv in 2\n");
    g.execute_round(&mut rng, &ids(3));
    assert_eq!(g.nodes()[1].timers().to_string(), "conv in 1\n");
    g.execute_round(&mut rng, &ids(3));
    assert_eq!(g.nodes()[1].timers().to_string(), "");
}

#[test]
fn random_nodes_are_drawn_within_their_ranges() {
    let mut rng = rand::rng();
    let conf = Configuration::new(7, 2, Probability::new(1, 2), 20);
    for _ in 0..20 {
        let g = Graph::new_random(conf, &mut rng);
        for node in g.nodes() {
            let p = node.parenting();
            assert!(p.tree_id().primary < 20 && p.tree_id().secondary < 20);
            match p.parent() {
                None => assert_eq!(p.my_depth(), 0),
                Some(parent) => assert!(parent < 7 && 1 <= p.my_depth() && p.my_depth() < 7),
            }
            assert!(node.color().value < 7);
            assert!(node.timers().reset_countdown() <= 7);
        }
    }
}
