use spanning_tree::Probability;
use spanning_tree::algorithm::coloring::ColoringData;
use spanning_tree::algorithm::timers::{process_messages, RoundType, TimersData};
use spanning_tree::messages::{Message, ReceivedMessage};
use spanning_tree::tree_color::TreeColor;
use spanning_tree::tree_id::TreeId;
use spanning_tree::tree_info::TreeInfo;
use spanning_tree::Configuration;

fn conf(n: usize) -> Configuration {
    Configuration::new(n, 2, Probability::new(1, 1), 10)
}

fn request(source: usize, tree_id: TreeId, color: usize, reset_countdown: usize) -> ReceivedMessage {
    ReceivedMessage {
        source,
        message: Message::Request(TreeInfo {
            tree_id,
            depth: 0,
            color: TreeColor::of(color),
            reset_countdown,
        }),
    }
}

#[test]
fn new_timers_wait_for_convergence_in_a_request_round() {
    let t = TimersData::new(&conf(10));
    assert_eq!(t.get_round_type(), RoundType::ExchangeRequests);
    assert_eq!(t.reset_countdown(), 0);
    assert!(!t.is_counting_down_to_reset());
    assert!(!t.should_reset());
    assert_eq!(t.to_string(), "conv in 10\n");
}

#[test]
fn advancing_flips_the_round_and_counts_down() {
    let mut t = TimersData::new(&conf(10));
    t.advance_time();
    assert_eq!(t.get_round_type(), RoundType::ExchangeConfirmations);
    assert_eq!(t.to_string(), "conv in 9\n");
    t.advance_time();
    assert_eq!(t.get_round_type(), RoundType::ExchangeRequests);
    assert_eq!(t.to_string(), "conv in 8\n");
    assert_eq!(RoundType::ExchangeRequests.next(), RoundType::ExchangeConfirmations);
}

#[test]
fn a_request_in_a_confirmation_round_starts_a_reset() {
    let c = conf(4);
    let mut t = TimersData::new(&c);
    t.advance_time();
    let coloring = ColoringData::new(TreeColor::of(0));
    process_messages(
        &[request(1, TreeId::new_simple(5), 0, 0)],
        &mut t,
        &TreeId::new_simple(1),
        &coloring,
        false,
        &c,
    );
    assert_eq!(t.reset_countdown(), 4);
    assert!(t.is_counting_down_to_reset());
    assert_eq!(t.to_string(), "reset in 4\nconvin 3\n");
    t.advance_time();
    t.advance_time();
    assert_eq!(t.reset_countdown(), 2);
    t.advance_time();
    assert!(t.should_reset());
    t.advance_time();
    assert_eq!(t.reset_countdown(), 1);
}

#[test]
fn requests_pass_on_the_largest_countdown() {
    let c = conf(10);
    let mut t = TimersData::new(&c);
    let coloring = ColoringData::new(TreeColor::of(0));
    process_messages(
        &[request(1, TreeId::new_simple(5), 0, 3), request(2, TreeId::new_simple(5), 0, 7)],
        &mut t,
        &TreeId::new_simple(1),
        &coloring,
        false,
        &c,
    );
    assert_eq!(t.reset_countdown(), 7);
    assert_eq!(t.get_round_type(), RoundType::ExchangeRequests);
}

#[test]
fn a_converged_root_resets_on_an_unknown_colour_of_its_own_tree() {
    let c = conf(1);
    let mut t = TimersData::new(&c);
    t.advance_time();
    t.advance_time();
    assert_eq!(t.to_string(), "");
    let coloring = ColoringData::new(TreeColor::of(3));
    let me = TreeId::new_simple(9);
    process_messages(&[request(1, me, 3, 0)], &mut t, &me, &coloring, true, &c);
    assert_eq!(t.reset_countdown(), 0);
    process_messages(&[request(1, me, 4, 0)], &mut t, &me, &coloring, true, &c);
    assert_eq!(t.reset_countdown(), 1);
}

#[test]
fn a_confirmation_in_a_request_round_starts_a_reset() {
    let c = conf(6);
    let mut t = TimersData::new(&c);
    let coloring = ColoringData::new(TreeColor::of(0));
    let confirmation = ReceivedMessage { source: 1, message: Message::Confirmation(None) };
    process_messages(&[confirmation], &mut t, &TreeId::new_simple(1), &coloring, false, &c);
    assert_eq!(t.reset_countdown(), 6);
}

#[test]
fn updating_for_a_smaller_configuration_caps_the_timers() {
    let mut t = TimersData::new(&conf(10));
    t.update_for_configuration(&conf(4));
    assert_eq!(t.to_string(), "conv in 4\n");
}

#[test]
fn to_string() {
    let conf = Configuration::new(10, 2, Probability::new(1, 1), 10);
    let mut td = TimersData::new(&conf);
    assert_eq!(td.to_string(), "conv in 10\n");
    td.advance_time();
    td.start_reset(&conf);
    assert_eq!(td.to_string(), "reset in 10\nconvin 9\n");
    td.advance_time();
    assert_eq!(td.to_string(), "reset in 9\nconv in 8\n");
}

#[test]
fn random_timers_start_in_a_confirmation_round_within_their_maxima() {
    let c = conf(6);
    let mut rng = rand::rng();
    for _ in 0..50 {
        let t = TimersData::new_random(&c, &mut rng);
        assert_eq!(t.get_round_type(), RoundType::ExchangeConfirmations);
        assert!(t.reset_countdown() <= 6);
    }
}
