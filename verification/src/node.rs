//! A node: its parenting, colouring and timers, and how a round's messages
//! move them on.
use rand::rngs::ThreadRng;
use vstd::prelude::*;

use crate::algorithm::coloring::{confirmations_counted, recolored, ColoringData};
use crate::algorithm::parenting::{
    best_of_prefix,
    children_in_graph,
    children_regenerated,
    confirmation_sources,
    elected,
    lemma_best_is_a_request,
    lemma_requests_come_from_messages,
    parent_in_graph,
    request_depths_bounded,
    requests_of,
    requests_processed,
    retained_children,
    ParentingData,
};
use crate::algorithm::timers::{self, min_of, RoundType, TimersData};
use crate::graph::NodeIndex;
use crate::messages::{Message, ReceivedMessage, SentMessage};
use crate::random_peer_generator::{floor_sub, PeerGenerator, RandomPeerGenerator};
use crate::tree_color::TreeColor;
use crate::tree_id::{display_of, TreeId};
use crate::tree_info::TreeInfo;
use crate::Configuration;

verus! {

/// A node of the graph.
#[derive(Debug)]
pub struct Node {
    parenting: ParentingData,
    coloring: ColoringData,
    timers: TimersData,
}

/// Every message comes from a node of the graph other than `index`.
pub open spec fn messages_from_peers(messages: Seq<ReceivedMessage>, index: nat, n: nat) -> bool {
    forall|k: int|
        0 <= k < messages.len() ==> #[trigger] messages[k].source < n && messages[k].source != index
}

/// How a round's messages move a node on (see `Node::receive_messages`).
pub open spec fn received(
    before: Node,
    after: Node,
    messages: Seq<ReceivedMessage>,
    conf: Configuration,
    self_id: NodeIndex,
) -> bool {
    &&& after.spec_timers() == timers::timers_after_messages(
        messages,
        0,
        before.spec_timers(),
        before.spec_parenting().spec_tree_id(),
        before.spec_coloring(),
        before.spec_parenting().spec_parent() is None,
        conf.spec_reset_countdown_max(),
    )
    &&& after.spec_timers().spec_round_type() == before.spec_timers().spec_round_type()
    &&& before.spec_timers().spec_round_type() == RoundType::ExchangeRequests ==> {
        &&& requests_processed(before.spec_parenting(), after.spec_parenting(), messages)
        &&& after.spec_parenting().spec_parent() != Some(self_id)
        &&& match elected(
            requests_of(messages),
            before.spec_parenting().spec_parent(),
            before.spec_parenting().spec_tree_id(),
            before.spec_parenting().spec_depth(),
        ) {
            Some(chosen) => recolored(
                before.spec_coloring(),
                after.spec_coloring(),
                chosen.tree_info.color,
            ),
            None => after.spec_coloring() == before.spec_coloring(),
        }
    }
    &&& before.spec_timers().spec_round_type() == RoundType::ExchangeConfirmations ==> {
        &&& children_regenerated(
            before.spec_parenting(),
            after.spec_parenting(),
            confirmation_sources(messages),
            conf.n,
            conf.d,
            |q: NodeIndex| q == self_id,
            floor_sub(conf.n as nat, 1),
        )
        &&& confirmations_counted(
            before.spec_coloring(),
            after.spec_coloring(),
            messages,
            before.spec_parenting().spec_parent() is None,
            conf.spec_max_color(),
        )
    }
}

/// How moving on by one round changes a node: a reset comes due when the
/// count-down was at 1 or 2, and the node starts over (see `Node::reset`) as
/// a root of the tree `fresh_tree_id`, with a random colour and fresh timers;
/// otherwise only the timers move on.
pub open spec fn advanced_node(before: Node, after: Node, conf: Configuration, fresh_tree_id: TreeId) -> bool {
    let countdown = before.spec_timers().spec_reset_countdown();
    let convergence = before.spec_timers().spec_convergence_timer();
    let due = countdown == 1 || countdown == 2;
    &&& due ==> {
        &&& after.spec_parenting().spec_tree_id() == fresh_tree_id
        &&& after.spec_parenting().spec_parent() == None::<NodeIndex>
        &&& after.spec_parenting().spec_depth() == 0
        &&& after.spec_parenting().spec_children() == before.spec_parenting().spec_children()
        &&& after.spec_parenting().spec_num_confirmed() == 0
        &&& after.spec_coloring().spec_color().value < conf.spec_max_color()
        &&& after.spec_coloring().spec_prev_color().value < conf.spec_max_color()
        &&& !after.spec_coloring().spec_subtree_colored()
        &&& after.spec_coloring().spec_recoloring_rounds() == 0
        &&& after.spec_timers() == TimersData::spec_new(&conf)
        &&& after.spec_timers().spec_round_type() == RoundType::ExchangeRequests
        &&& after.spec_timers().spec_reset_countdown() == 0
        &&& after.spec_timers().spec_convergence_timer() == conf.spec_num_rounds_to_convergence()
    }
    &&& !due ==> {
        &&& after.spec_parenting() == before.spec_parenting()
        &&& after.spec_coloring() == before.spec_coloring()
        &&& after.spec_timers().spec_round_type() == before.spec_timers().spec_round_type().spec_next()
        &&& after.spec_timers().spec_reset_countdown() == (if countdown > 1 {
            (countdown - 1) as usize
        } else {
            countdown
        })
        &&& after.spec_timers().spec_convergence_timer() == (if convergence > 0 {
            (convergence - 1) as usize
        } else {
            0
        })
    }
}

/// What holds of every random node (see `Node::new_random`): its tree id's
/// keys are below `id_range`; a root has depth 0, and another node a parent
/// below `n` and a depth from 1 to below `n`; it has no children; both its
/// colours are below `max_color`, with nothing counted yet; and its timers
/// are in a confirmation round with both timers within their maxima.
pub open spec fn random_node_in_range(node: Node, conf: Configuration) -> bool {
    let p = node.spec_parenting();
    let c = node.spec_coloring();
    let t = node.spec_timers();
    &&& p.spec_tree_id().primary < conf.id_range
    &&& p.spec_tree_id().secondary < conf.id_range
    &&& p.spec_parent() is None ==> p.spec_depth() == 0
    &&& p.spec_parent() matches Some(parent) ==> parent < conf.n && 1 <= p.spec_depth() < conf.n
    &&& p.spec_children() == Seq::<NodeIndex>::empty()
    &&& p.spec_num_confirmed() == 0
    &&& c.spec_color().value < conf.spec_max_color()
    &&& c.spec_prev_color().value < conf.spec_max_color()
    &&& !c.spec_subtree_colored()
    &&& c.spec_recoloring_rounds() == 0
    &&& t.spec_round_type() == RoundType::ExchangeConfirmations
    &&& t.spec_reset_countdown() <= conf.spec_reset_countdown_max()
    &&& t.spec_convergence_timer() <= conf.spec_num_rounds_to_convergence()
}

/// In a request round a node offers its tree to each of its children, in
/// order, and each offer carries the node's own tree id, depth, colour and
/// reset count-down; in a confirmation round it confirms to its parent
/// alone, with its colour once its subtree is known to have it.
pub proof fn lemma_messages_carry_the_node_state(node: Node)
    ensures
        node.spec_timers().spec_round_type() == RoundType::ExchangeRequests ==> {
            &&& node.spec_outbox().len() == node.spec_parenting().spec_children().len()
            &&& forall|k: int|
                0 <= k < node.spec_outbox().len() ==> #[trigger] node.spec_outbox()[k] == (SentMessage {
                    destination: node.spec_parenting().spec_children()[k],
                    message: Message::Request(
                        TreeInfo {
                            tree_id: node.spec_parenting().spec_tree_id(),
                            depth: node.spec_parenting().spec_depth(),
                            color: node.spec_coloring().spec_color(),
                            reset_countdown: node.spec_timers().spec_reset_countdown(),
                        },
                    ),
                })
        },
        node.spec_timers().spec_round_type() == RoundType::ExchangeConfirmations ==> {
            &&& node.spec_parenting().spec_parent() is None ==> node.spec_outbox().len() == 0
            &&& node.spec_parenting().spec_parent() matches Some(p) ==> {
                &&& node.spec_outbox().len() == 1
                &&& node.spec_outbox()[0].destination == p
                &&& node.spec_outbox()[0].message == Message::Confirmation(
                    if node.spec_coloring().spec_subtree_colored() {
                        Some(node.spec_coloring().spec_color())
                    } else {
                        None
                    },
                )
            }
        },
{
}

/// How fitting a node to a resized graph changes it: the parent and
/// children that left the graph are dropped, at most `d` children stay, none
/// of them confirmed, and both timers are capped by their new maxima.
pub open spec fn updated_for(before: Node, after: Node, conf: Configuration) -> bool {
    let in_graph = children_in_graph(before.spec_parenting().spec_children(), conf.n);
    &&& after.spec_parenting().wf()
    &&& after.spec_parenting().spec_tree_id() == before.spec_parenting().spec_tree_id()
    &&& after.spec_parenting().spec_depth() == before.spec_parenting().spec_depth()
    &&& after.spec_parenting().spec_parent() == parent_in_graph(
        before.spec_parenting().spec_parent(),
        conf.n,
    )
    &&& after.spec_parenting().spec_children() == if in_graph.len() > conf.d {
        in_graph.take(conf.d as int)
    } else {
        in_graph
    }
    &&& after.spec_parenting().spec_num_confirmed() == 0
    &&& after.spec_coloring() == before.spec_coloring()
    &&& after.spec_timers().spec_round_type() == before.spec_timers().spec_round_type()
    &&& after.spec_timers().spec_reset_countdown() == min_of(
        before.spec_timers().spec_reset_countdown(),
        conf.spec_reset_countdown_max(),
    )
    &&& after.spec_timers().spec_convergence_timer() == min_of(
        before.spec_timers().spec_convergence_timer(),
        conf.spec_num_rounds_to_convergence(),
    )
}

impl Node {
    pub closed spec fn spec_parenting(&self) -> ParentingData {
        self.parenting
    }

    pub closed spec fn spec_coloring(&self) -> ColoringData {
        self.coloring
    }

    pub closed spec fn spec_timers(&self) -> TimersData {
        self.timers
    }

    /// The node is fit to be node `index` of a graph of `n` nodes: its parent
    /// and children are nodes of the graph, and it is not its own child.
    pub open spec fn wf_at(&self, index: nat, n: nat) -> bool {
        &&& self.spec_parenting().wf()
        &&& self.spec_parenting().spec_parent() matches Some(p) ==> p < n
        &&& forall|k: int|
            0 <= k < self.spec_parenting().spec_children().len() ==> #[trigger] self.spec_parenting().spec_children()[k]
                < n && self.spec_parenting().spec_children()[k] != index
    }

    /// A random node: random parenting, colouring and timers (see
    /// `ParentingData::new_random`).
    pub fn new_random(conf: &Configuration, rng: &mut ThreadRng) -> (node: Self)
        requires
            conf.n >= 1,
            conf.n == 1 ==> conf.initial_root_probability.is_certain(),
            conf.id_range > 0,
        ensures
            conf.initial_root_probability.is_certain() ==> node.spec_parenting().spec_parent() is None,
            conf.initial_root_probability.is_impossible()
                ==> node.spec_parenting().spec_parent() is Some,
            forall|index: nat| #[trigger] node.wf_at(index, conf.n as nat),
            random_node_in_range(node, *conf),
            node.spec_parenting().spec_children() == Seq::<NodeIndex>::empty(),
            node.spec_coloring().spec_recoloring_rounds() == 0,
            node.spec_timers().spec_round_type() == RoundType::ExchangeConfirmations,
    {
        Node {
            coloring: ColoringData::new_random(conf, rng),
            parenting: ParentingData::new_random(conf, rng),
            timers: TimersData::new_random(conf, rng),
        }
    }

    /// A root of the tree `tree_id`, coloured `color`, with fresh timers.
    pub fn new_root(conf: &Configuration, tree_id: TreeId, color: TreeColor) -> (node: Self)
        ensures
            forall|index: nat, n: nat| #[trigger] node.wf_at(index, n),
            node.spec_parenting().spec_tree_id() == tree_id,
            node.spec_parenting().spec_parent() == None::<NodeIndex>,
            node.spec_parenting().spec_depth() == 0,
            node.spec_parenting().spec_children() == Seq::<NodeIndex>::empty(),
            node.spec_coloring().spec_color() == color,
            node.spec_coloring().spec_recoloring_rounds() == 0,
            node.spec_timers() == TimersData::spec_new(conf),
            node.spec_timers().spec_round_type() == RoundType::ExchangeRequests,
            node.spec_timers().spec_reset_countdown() == 0,
    {
        let node = Node {
            coloring: ColoringData::new(color),
            parenting: ParentingData::new_root(tree_id),
            timers: TimersData::new(conf),
        };
        node
    }

    /// A root of the tree `tree_id` with a random colour and fresh timers.
    pub fn new_random_root(conf: &Configuration, rng: &mut ThreadRng, tree_id: TreeId) -> (node: Self)
        requires
            conf.spec_max_color() > 0,
        ensures
            forall|index: nat, n: nat| #[trigger] node.wf_at(index, n),
            node.spec_parenting().spec_tree_id() == tree_id,
            node.spec_parenting().spec_parent() == None::<NodeIndex>,
            node.spec_parenting().spec_depth() == 0,
            node.spec_parenting().spec_children() == Seq::<NodeIndex>::empty(),
            node.spec_coloring().spec_color().value < conf.spec_max_color(),
            node.spec_coloring().spec_recoloring_rounds() == 0,
            node.spec_timers().spec_round_type() == RoundType::ExchangeRequests,
            node.spec_timers().spec_reset_countdown() == 0,
    {
        Node {
            coloring: ColoringData::new_random(conf, rng),
            parenting: ParentingData::new_root(tree_id),
            timers: TimersData::new(conf),
        }
    }

    /// Starts over: a root of the tree `tree_id` with a random colour and
    /// fresh timers; the children are kept, none of them confirmed.
    pub fn reset(&mut self, conf: &Configuration, rng: &mut ThreadRng, tree_id: TreeId)
        requires
            old(self).spec_parenting().wf(),
            conf.spec_max_color() > 0,
        ensures
            forall|index: nat, n: nat| old(self).wf_at(index, n) ==> #[trigger] final(self).wf_at(index, n),
            final(self).spec_parenting().spec_tree_id() == tree_id,
            final(self).spec_parenting().spec_parent() == None::<NodeIndex>,
            final(self).spec_parenting().spec_depth() == 0,
            final(self).spec_parenting().spec_children() == old(self).spec_parenting().spec_children(),
            final(self).spec_parenting().spec_num_confirmed() == 0,
            final(self).spec_coloring().spec_color().value < conf.spec_max_color(),
            final(self).spec_coloring().spec_prev_color().value < conf.spec_max_color(),
            !final(self).spec_coloring().spec_subtree_colored(),
            final(self).spec_coloring().spec_recoloring_rounds() == 0,
            final(self).spec_timers() == TimersData::spec_new(conf),
            final(self).spec_timers().spec_round_type() == RoundType::ExchangeRequests,
            final(self).spec_timers().spec_reset_countdown() == 0,
            final(self).spec_timers().spec_convergence_timer() == conf.spec_num_rounds_to_convergence(),
    {
        self.parenting.reset(tree_id);
        self.coloring.reset(conf, rng);
        self.timers.reset(conf);
    }

    pub fn parenting(&self) -> (r: &ParentingData)
        ensures
            *r == self.spec_parenting(),
    {
        &self.parenting
    }

    /// The node as text: its tree id.
    pub fn to_string(&self) -> (r: String)
        ensures
            r@ == display_of(self.spec_parenting().spec_tree_id()),
    {
        self.parenting.tree_id().to_string()
    }

    pub fn coloring(&self) -> (r: &ColoringData)
        ensures
            *r == self.spec_coloring(),
    {
        &self.coloring
    }

    pub fn timers(&self) -> (r: &TimersData)
        ensures
            *r == self.spec_timers(),
    {
        &self.timers
    }

    pub fn color(&self) -> (r: TreeColor)
        ensures
            r == self.spec_coloring().spec_color(),
    {
        self.coloring.curr_color()
    }

    /// Moves the timers on by one round, and starts over when a reset has
    /// come due, as a root of the tree `fresh_tree_id`.
    pub fn advance_time(&mut self, conf: &Configuration, rng: &mut ThreadRng, fresh_tree_id: TreeId)
        requires
            old(self).spec_parenting().wf(),
            ({
                let countdown = old(self).spec_timers().spec_reset_countdown();
                countdown == 1 || countdown == 2
            }) ==> conf.spec_max_color() > 0,
        ensures
            forall|index: nat, n: nat| old(self).wf_at(index, n) ==> #[trigger] final(self).wf_at(index, n),
            advanced_node(*old(self), *final(self), *conf, fresh_tree_id),
    {
        self.timers.advance_time();
        if self.timers.should_reset() {
            self.reset(conf, rng, fresh_tree_id);
        }
    }

    pub fn update_for_configuration(&mut self, conf: &Configuration)
        requires
            old(self).spec_parenting().wf(),
        ensures
            forall|index: nat, m: nat|
                #[trigger] old(self).wf_at(index, m) ==> final(self).wf_at(index, conf.n as nat),
            updated_for(*old(self), *final(self), *conf),
    {
        self.parenting.update_for_configuration(conf);
        self.timers.update_for_configuration(conf);
        proof {
            let old_children = old(self).spec_parenting().spec_children();
            let in_graph = old_children.filter(|c: NodeIndex| c < conf.n);
            let children = self.spec_parenting().spec_children();
            assert forall|k: int| 0 <= k < children.len() implies #[trigger] children[k] < conf.n
                && exists|j: int| 0 <= j < old_children.len() && old_children[j] == children[k] by {
                assert(in_graph.contains(children[k]) || children[k] == in_graph[k]);
                assert(in_graph.contains(in_graph[k]));
                old_children.lemma_filter_contains_rev(|c: NodeIndex| c < conf.n, children[k]);
                old_children.lemma_filter_pred(|c: NodeIndex| c < conf.n, k);
            }
        }
    }

    pub fn set_tree_id(&mut self, value: TreeId)
        ensures
            final(self).spec_parenting().spec_tree_id() == value,
            final(self).spec_parenting().spec_parent() == old(self).spec_parenting().spec_parent(),
            final(self).spec_parenting().spec_depth() == old(self).spec_parenting().spec_depth(),
            final(self).spec_parenting().spec_children() == old(self).spec_parenting().spec_children(),
            final(self).spec_parenting().spec_num_confirmed() == old(self).spec_parenting().spec_num_confirmed(),
            final(self).spec_coloring() == old(self).spec_coloring(),
            final(self).spec_timers() == old(self).spec_timers(),
    {
        self.parenting.set_tree_id(value)
    }

    /// Reacts to the round's messages: the timers first (see
    /// `timers::process_messages`); then, in a request round, the node elects
    /// its parent and takes the elected tree's colour; in a confirmation
    /// round, it renews its children (never itself) and counts the
    /// confirmations of its colour.
    pub fn receive_messages(
        &mut self,
        messages: Vec<ReceivedMessage>,
        conf: &Configuration,
        self_id: NodeIndex,
        rng: &mut ThreadRng,
    )
        requires
            old(self).wf_at(self_id as nat, conf.n as nat),
            self_id < conf.n,
            messages_from_peers(messages@, self_id as nat, conf.n as nat),
            request_depths_bounded(messages@),
            old(self).spec_coloring().spec_recoloring_rounds() < usize::MAX,
        ensures
            final(self).wf_at(self_id as nat, conf.n as nat),
            received(*old(self), *final(self), messages@, *conf, self_id),
    {
        let is_root = self.parenting.is_root();
        timers::process_messages(
            messages.as_slice(),
            &mut self.timers,
            self.parenting.tree_id(),
            &self.coloring,
            is_root,
            conf,
        );
        match self.timers.get_round_type() {
            RoundType::ExchangeRequests => {
                proof {
                    lemma_requests_come_from_messages(messages@);
                }
                let chosen = self.parenting.process_requests(messages.as_slice());
                proof {
                    let requests = requests_of(messages@);
                    let parent = old(self).spec_parenting().spec_parent();
                    if requests.len() > 0 {
                        lemma_best_is_a_request(requests, requests.len() as int, parent);
                    }
                    if self.parenting.spec_parent() is Some {
                        let j = choose|j: int|
                            0 <= j < requests.len() && requests[j] == best_of_prefix(
                                requests,
                                requests.len() as int,
                                parent,
                            );
                        let i = choose|i: int|
                            0 <= i < messages@.len() && messages@[i].source
                                == #[trigger] requests[j].source && messages@[i].message
                                == Message::Request(requests[j].tree_info);
                        assert(messages@[i].source != self_id);
                    }
                }
                if let Some(parent) = chosen {
                    self.coloring.recolor(parent.color);
                }
            },
            RoundType::ExchangeConfirmations => {
                let mut excluded: Vec<NodeIndex> = Vec::new();
                excluded.push(self_id);
                let pg = RandomPeerGenerator::new(conf.n, excluded, rng);
                proof {
                    assert forall|q: NodeIndex| pg.is_excluded(q) <==> q == self_id by {
                        if q == self_id {
                            assert(excluded@[0] == q);
                        }
                    }
                }
                self.parenting.process_confirmations(messages.as_slice(), conf, pg);
                proof {
                    let kept = retained_children(
                        old(self).spec_parenting().spec_children(),
                        confirmation_sources(messages@),
                    );
                    let old_children = old(self).spec_parenting().spec_children();
                    let children = self.parenting.spec_children();
                    assert forall|k: int| 0 <= k < children.len() implies #[trigger] children[k]
                        < conf.n && children[k] != self_id by {
                        if k < kept.len() {
                            assert(children.take(kept.len() as int)[k] == children[k]);
                            assert(kept.contains(kept[k]));
                            old_children.lemma_filter_contains_rev(
                                |c: NodeIndex| confirmation_sources(messages@).contains(c),
                                kept[k],
                            );
                        }
                    }
                }
                let is_root = self.parenting.is_root();
                self.coloring.process_confirmations(messages.as_slice(), is_root, conf, rng);
            },
        }
    }

    /// The round's messages: in a request round, an offer of the node's tree
    /// to each child; in a confirmation round, a confirmation to the parent.
    pub fn send_messages(&self) -> (r: Vec<SentMessage>)
        requires
            self.spec_parenting().wf(),
        ensures
            self.spec_timers().spec_round_type() == RoundType::ExchangeRequests ==> {
                &&& r@.len() == self.spec_parenting().spec_children().len()
                &&& forall|k: int|
                    0 <= k < r@.len() ==> #[trigger] r@[k] == (SentMessage {
                        destination: self.spec_parenting().spec_children()[k],
                        message: Message::Request(self.spec_tree_info()),
                    })
            },
            self.spec_timers().spec_round_type() == RoundType::ExchangeConfirmations ==> r@
                == self.spec_confirmations(),
            r@ == self.spec_outbox(),
    {
        match self.timers.get_round_type() {
            RoundType::ExchangeRequests => self.parenting.send_requests(
                TreeInfo {
                    tree_id: *self.parenting.tree_id(),
                    depth: self.parenting.my_depth(),
                    color: self.coloring.curr_color(),
                    reset_countdown: self.timers.reset_countdown(),
                },
            ),
            RoundType::ExchangeConfirmations => self.send_confirmations(),
        }
    }

    /// The messages the node sends in its current round.
    pub open spec fn spec_outbox(&self) -> Seq<SentMessage> {
        match self.spec_timers().spec_round_type() {
            RoundType::ExchangeRequests => self.spec_parenting().spec_children().map_values(
                |c: NodeIndex| SentMessage { destination: c, message: Message::Request(self.spec_tree_info()) },
            ),
            RoundType::ExchangeConfirmations => self.spec_confirmations(),
        }
    }

    /// What the node tells of its tree in its requests.
    pub open spec fn spec_tree_info(&self) -> TreeInfo {
        TreeInfo {
            tree_id: self.spec_parenting().spec_tree_id(),
            depth: self.spec_parenting().spec_depth(),
            color: self.spec_coloring().spec_color(),
            reset_countdown: self.spec_timers().spec_reset_countdown(),
        }
    }

    /// A root confirms to no one; another node confirms to its parent, with
    /// its subtree's colour once the whole subtree has it.
    pub open spec fn spec_confirmations(&self) -> Seq<SentMessage> {
        match self.spec_parenting().spec_parent() {
            None => Seq::empty(),
            Some(p) => seq![
                SentMessage {
                    destination: p,
                    message: Message::Confirmation(
                        if self.spec_coloring().spec_subtree_colored() {
                            Some(self.spec_coloring().spec_color())
                        } else {
                            None
                        },
                    ),
                },
            ],
        }
    }

    fn send_confirmations(&self) -> (r: Vec<SentMessage>)
        ensures
            r@ == self.spec_confirmations(),
    {
        match self.parenting.parent() {
            None => Vec::new(),
            Some(parent) => {
                let mut r: Vec<SentMessage> = Vec::new();
                r.push(
                    SentMessage {
                        destination: parent,
                        message: Message::Confirmation(self.coloring.subtree_color()),
                    },
                );
                assert(r@ =~= self.spec_confirmations());
                r
            },
        }
    }
}

} // verus!
