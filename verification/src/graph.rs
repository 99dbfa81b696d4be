//! The graph of nodes and the messages in flight between them.
use rand::rngs::ThreadRng;
use vstd::prelude::*;

use crate::algorithm::parenting::{lemma_elected_is_best, request_depths_bounded};
use crate::algorithm::timers::{lemma_messages_keep_round, RoundType};
use crate::messages::{Message, ReceivedMessage, SentMessage};
use crate::node::{advanced_node, messages_from_peers, random_node_in_range, received, updated_for, Node};
use crate::rng;
use crate::tree_color::TreeColor;
use crate::numerals::{digits, to_digits};
use crate::tree_id::{display_of, id_lt, lemma_id_order_is_total, TreeId};
use crate::{Configuration, Probability};

verus! {

/// The position of a node in the graph.
pub type NodeIndex = usize;

/// A graph of nodes, with the messages addressed to each node that it has
/// yet to receive.
#[derive(Debug)]
pub struct Graph {
    conf: Configuration,
    nodes: Vec<Node>,
    messages: Vec<Vec<ReceivedMessage>>,
}

/// The messages of the outbox of node `source` that are addressed to `to`,
/// as `to` receives them.
pub open spec fn delivered(outbox: Seq<SentMessage>, source: NodeIndex, to: NodeIndex) -> Seq<
    ReceivedMessage,
>
    decreases outbox.len(),
{
    if outbox.len() == 0 {
        Seq::empty()
    } else {
        delivered(outbox.drop_last(), source, to) + if outbox.last().destination == to {
            seq![ReceivedMessage { source, message: outbox.last().message }]
        } else {
            Seq::empty()
        }
    }
}

/// The messages that node `to` receives from the outboxes of the nodes
/// before `k`, in the order of the senders.
pub open spec fn routed(outboxes: Seq<Seq<SentMessage>>, k: int, to: NodeIndex) -> Seq<
    ReceivedMessage,
>
    decreases k,
{
    if k <= 0 {
        Seq::empty()
    } else {
        routed(outboxes, k - 1, to) + delivered(outboxes[k - 1], (k - 1) as NodeIndex, to)
    }
}

/// How a round moves a node on: it receives its messages, then moves on in
/// time.
pub open spec fn round_step(
    before: Node,
    messages: Seq<ReceivedMessage>,
    after: Node,
    conf: Configuration,
    index: NodeIndex,
    fresh_tree_id: TreeId,
) -> bool {
    exists|mid: Node|
        received(before, mid, messages, conf, index) && advanced_node(mid, after, conf, fresh_tree_id)
}

/// A node's position after a round: it started over as a root of its fresh
/// tree, or its tree id did not decrease and, within the same tree, its
/// depth did not grow.
pub open spec fn position_kept_or_reset(before: Node, after: Node, fresh_tree_id: TreeId) -> bool {
    let old_id = before.spec_parenting().spec_tree_id();
    let new_id = after.spec_parenting().spec_tree_id();
    ||| new_id == fresh_tree_id && after.spec_parenting().spec_parent() is None
    ||| id_lt(old_id, new_id)
    ||| new_id == old_id && after.spec_parenting().spec_depth() <= before.spec_parenting().spec_depth()
}

/// A round never worsens a node's position: unless a reset comes due, the
/// node stays in its tree no deeper than before, or joins a larger tree.
pub proof fn lemma_round_keeps_positions(
    before: Node,
    messages: Seq<ReceivedMessage>,
    after: Node,
    conf: Configuration,
    index: NodeIndex,
    fresh_tree_id: TreeId,
)
    requires
        round_step(before, messages, after, conf, index, fresh_tree_id),
    ensures
        position_kept_or_reset(before, after, fresh_tree_id),
{
    let mid = choose|mid: Node|
        received(before, mid, messages, conf, index) && advanced_node(mid, after, conf, fresh_tree_id);
    let p = before.spec_parenting();
    match before.spec_timers().spec_round_type() {
        RoundType::ExchangeRequests => {
            lemma_elected_is_best(messages, p.spec_parent(), p.spec_tree_id(), p.spec_depth());
            lemma_id_order_is_total(
                p.spec_tree_id(),
                mid.spec_parenting().spec_tree_id(),
                p.spec_tree_id(),
            );
        },
        RoundType::ExchangeConfirmations => {},
    }
}

/// A running reset count-down never stops short: in each round the node
/// either starts over as a root of its fresh tree, its count-down cleared,
/// or still counts down, at most one round closer to the reset.
pub proof fn lemma_countdown_runs_to_reset(
    before: Node,
    messages: Seq<ReceivedMessage>,
    after: Node,
    conf: Configuration,
    index: NodeIndex,
    fresh_tree_id: TreeId,
)
    requires
        round_step(before, messages, after, conf, index, fresh_tree_id),
        before.spec_timers().spec_reset_countdown() > 0,
    ensures
        ({
            let countdown = before.spec_timers().spec_reset_countdown();
            let left = after.spec_timers().spec_reset_countdown();
            ||| after.spec_parenting().spec_tree_id() == fresh_tree_id
                && after.spec_parenting().spec_parent() is None && left == 0
            ||| left >= countdown - 1 && left >= 2
        }),
{
    let mid = choose|mid: Node|
        received(before, mid, messages, conf, index) && advanced_node(mid, after, conf, fresh_tree_id);
    lemma_messages_keep_round(
        messages,
        0,
        before.spec_timers(),
        before.spec_parenting().spec_tree_id(),
        before.spec_coloring(),
        before.spec_parenting().spec_parent() is None,
        conf.spec_reset_countdown_max(),
    );
}

/// The depth of node `index`.
pub open spec fn depth_of(nodes: Seq<Node>, index: NodeIndex) -> usize {
    nodes[index as int].spec_parenting().spec_depth()
}

/// The children that node `index` lists (the confirmed ones, if asked).
pub open spec fn listed_of(nodes: Seq<Node>, index: NodeIndex, confirmed_only: bool) -> Seq<
    NodeIndex,
> {
    nodes[index as int].spec_parenting().listed_children(confirmed_only)
}

/// Whether `child` hangs below `index` in its tree: it names `index` as its
/// parent and is deeper (which breaks any cycle of parents).
pub open spec fn hangs_below(nodes: Seq<Node>, child: NodeIndex, index: NodeIndex) -> bool {
    &&& child < nodes.len()
    &&& nodes[child as int].spec_parenting().spec_parent() == Some(index)
    &&& depth_of(nodes, child) > depth_of(nodes, index)
}

/// The subtree below node `index`: the node itself, then, for each listed
/// child that hangs below it in turn, that child's subtree.
pub open spec fn subtree_of(nodes: Seq<Node>, index: NodeIndex, confirmed_only: bool) -> Seq<
    NodeIndex,
>
    decreases usize::MAX - depth_of(nodes, index), listed_of(nodes, index, confirmed_only).len()
        + 1,
{
    seq![index] + subtrees_below(
        nodes,
        index,
        confirmed_only,
        listed_of(nodes, index, confirmed_only).len() as int,
    )
}

/// The subtrees of the first `k` listed children of node `index` that hang
/// below it, one after the other.
pub open spec fn subtrees_below(
    nodes: Seq<Node>,
    index: NodeIndex,
    confirmed_only: bool,
    k: int,
) -> Seq<NodeIndex>
    decreases usize::MAX - depth_of(nodes, index), k,
{
    if k <= 0 {
        Seq::empty()
    } else {
        let child = listed_of(nodes, index, confirmed_only)[k - 1];
        subtrees_below(nodes, index, confirmed_only, k - 1) + if hangs_below(nodes, child, index) {
            subtree_of(nodes, child, confirmed_only)
        } else {
            Seq::empty()
        }
    }
}

/// Whether node `index` is the root of a tree: it has no parent, or, when
/// only confirmed children count, its parent does not list it as one.
pub open spec fn is_tree_root(nodes: Seq<Node>, index: NodeIndex, confirmed_only: bool) -> bool {
    match nodes[index as int].spec_parenting().spec_parent() {
        None => true,
        Some(p) => confirmed_only && !listed_of(nodes, p, confirmed_only).contains(index),
    }
}

/// The trees rooted among the first `k` nodes, as their lists of nodes.
pub open spec fn trees_of(nodes: Seq<Node>, confirmed_only: bool, k: int) -> Seq<Seq<NodeIndex>>
    decreases k,
{
    if k <= 0 {
        Seq::empty()
    } else {
        trees_of(nodes, confirmed_only, k - 1) + if is_tree_root(
            nodes,
            (k - 1) as NodeIndex,
            confirmed_only,
        ) {
            seq![subtree_of(nodes, (k - 1) as NodeIndex, confirmed_only)]
        } else {
            Seq::empty()
        }
    }
}

/// Every node of a subtree is a node of the graph, and the subtree starts
/// at its root.
pub proof fn lemma_subtree_in_graph(graph: Graph, index: NodeIndex, confirmed_only: bool)
    requires
        graph.wf(),
        index < graph.spec_nodes().len(),
    ensures
        subtree_of(graph.spec_nodes(), index, confirmed_only)[0] == index,
        forall|k: int|
            0 <= k < subtree_of(graph.spec_nodes(), index, confirmed_only).len() ==> #[trigger] subtree_of(
                graph.spec_nodes(),
                index,
                confirmed_only,
            )[k] < graph.spec_nodes().len(),
    decreases usize::MAX - depth_of(graph.spec_nodes(), index), listed_of(
        graph.spec_nodes(),
        index,
        confirmed_only,
    ).len() + 1,
{
    let nodes = graph.spec_nodes();
    let below = subtrees_below(
        nodes,
        index,
        confirmed_only,
        listed_of(nodes, index, confirmed_only).len() as int,
    );
    lemma_subtrees_below_in_graph(
        graph,
        index,
        confirmed_only,
        listed_of(nodes, index, confirmed_only).len() as int,
    );
    let whole = subtree_of(nodes, index, confirmed_only);
    assert(whole == seq![index] + below);
    assert forall|k: int| 0 <= k < whole.len() implies #[trigger] whole[k] < nodes.len() by {
        if k > 0 {
            assert(whole[k] == below[k - 1]);
        }
    }
}

/// Every node of every tree is a node of the graph.
pub proof fn lemma_trees_in_graph(graph: Graph, confirmed_only: bool, k: int)
    requires
        graph.wf(),
        k <= graph.spec_nodes().len(),
    ensures
        forall|a: int, b: int|
            0 <= a < trees_of(graph.spec_nodes(), confirmed_only, k).len() && 0 <= b < trees_of(
                graph.spec_nodes(),
                confirmed_only,
                k,
            )[a].len() ==> #[trigger] trees_of(graph.spec_nodes(), confirmed_only, k)[a][b]
                < graph.spec_nodes().len(),
    decreases k,
{
    let nodes = graph.spec_nodes();
    if k > 0 {
        lemma_trees_in_graph(graph, confirmed_only, k - 1);
        let front = trees_of(nodes, confirmed_only, k - 1);
        let all = trees_of(nodes, confirmed_only, k);
        if is_tree_root(nodes, (k - 1) as NodeIndex, confirmed_only) {
            lemma_subtree_in_graph(graph, (k - 1) as NodeIndex, confirmed_only);
            assert(all == front.push(subtree_of(nodes, (k - 1) as NodeIndex, confirmed_only)));
        } else {
            assert(all =~= front);
        }
        assert forall|a: int, b: int| 0 <= a < all.len() && 0 <= b < all[a].len() implies #[trigger] all[a][b]
            < nodes.len() by {
            if a < front.len() {
                assert(all[a] == front[a]);
            }
        }
    }
}

/// Every node of the subtrees below a node is a node of the graph.
pub proof fn lemma_subtrees_below_in_graph(
    graph: Graph,
    index: NodeIndex,
    confirmed_only: bool,
    k: int,
)
    requires
        graph.wf(),
        index < graph.spec_nodes().len(),
        k <= listed_of(graph.spec_nodes(), index, confirmed_only).len(),
    ensures
        forall|j: int|
            0 <= j < subtrees_below(graph.spec_nodes(), index, confirmed_only, k).len() ==> #[trigger] subtrees_below(
                graph.spec_nodes(),
                index,
                confirmed_only,
                k,
            )[j] < graph.spec_nodes().len(),
    decreases usize::MAX - depth_of(graph.spec_nodes(), index), k,
{
    let nodes = graph.spec_nodes();
    if k > 0 {
        lemma_subtrees_below_in_graph(graph, index, confirmed_only, k - 1);
        let child = listed_of(nodes, index, confirmed_only)[k - 1];
        let front = subtrees_below(nodes, index, confirmed_only, k - 1);
        let back = if hangs_below(nodes, child, index) {
            subtree_of(nodes, child, confirmed_only)
        } else {
            Seq::empty()
        };
        if hangs_below(nodes, child, index) {
            lemma_subtree_in_graph(graph, child, confirmed_only);
        }
        let whole = subtrees_below(nodes, index, confirmed_only, k);
        assert(whole == front + back);
        assert forall|j: int| 0 <= j < whole.len() implies #[trigger] whole[j] < nodes.len() by {
            if j < front.len() {
                assert(whole[j] == front[j]);
            } else {
                assert(whole[j] == back[j - front.len()]);
            }
        }
    }
}

/// Whether following parents up from `y` reaches `x`, each step as in
/// `subtree_of`: the node hangs below its parent, which lists it (among its
/// confirmed children, if asked).
pub open spec fn descends(nodes: Seq<Node>, y: NodeIndex, x: NodeIndex, confirmed_only: bool) -> bool
    decreases depth_of(nodes, y),
{
    if y == x {
        true
    } else {
        match nodes[y as int].spec_parenting().spec_parent() {
            Some(p) => if hangs_below(nodes, y, p) && listed_of(nodes, p, confirmed_only).contains(y) {
                descends(nodes, p, x, confirmed_only)
            } else {
                false
            },
            None => false,
        }
    }
}

/// Whether `y` lies below one of the first `k` listed children of `x` that
/// hang below it.
pub open spec fn below_child(nodes: Seq<Node>, x: NodeIndex, confirmed_only: bool, k: int, y: NodeIndex) -> bool {
    exists|j: int|
        0 <= j < k && hangs_below(nodes, listed_of(nodes, x, confirmed_only)[j], x) && descends(
            nodes,
            y,
            #[trigger] listed_of(nodes, x, confirmed_only)[j],
            confirmed_only,
        )
}

proof fn lemma_descends_trans(nodes: Seq<Node>, y: NodeIndex, a: NodeIndex, x: NodeIndex, confirmed_only: bool)
    requires
        descends(nodes, y, a, confirmed_only),
        descends(nodes, a, x, confirmed_only),
    ensures
        descends(nodes, y, x, confirmed_only),
    decreases depth_of(nodes, y),
{
    if y != a && y != x {
        let p = nodes[y as int].spec_parenting().spec_parent()->0;
        lemma_descends_trans(nodes, p, a, x, confirmed_only);
    }
}

proof fn lemma_descends_depth(nodes: Seq<Node>, y: NodeIndex, x: NodeIndex, confirmed_only: bool)
    requires
        descends(nodes, y, x, confirmed_only),
    ensures
        depth_of(nodes, y) >= depth_of(nodes, x),
        y != x ==> depth_of(nodes, y) > depth_of(nodes, x),
    decreases depth_of(nodes, y),
{
    if y != x {
        let p = nodes[y as int].spec_parenting().spec_parent()->0;
        lemma_descends_depth(nodes, p, x, confirmed_only);
    }
}

/// Two nodes that a node descends from lie on one chain of parents.
proof fn lemma_descends_chain(
    nodes: Seq<Node>,
    y: NodeIndex,
    a: NodeIndex,
    b: NodeIndex,
    confirmed_only: bool,
)
    requires
        descends(nodes, y, a, confirmed_only),
        descends(nodes, y, b, confirmed_only),
    ensures
        descends(nodes, a, b, confirmed_only) || descends(nodes, b, a, confirmed_only),
    decreases depth_of(nodes, y),
{
    if y != a && y != b {
        let p = nodes[y as int].spec_parenting().spec_parent()->0;
        lemma_descends_chain(nodes, p, a, b, confirmed_only);
    }
}

/// The root of a tree descends from no other node.
proof fn lemma_root_tops(nodes: Seq<Node>, r: NodeIndex, x: NodeIndex, confirmed_only: bool)
    requires
        is_tree_root(nodes, r, confirmed_only),
        descends(nodes, r, x, confirmed_only),
    ensures
        r == x,
{
}

/// Every node of the subtree below `x` descends from `x`.
proof fn lemma_subtree_descends(nodes: Seq<Node>, x: NodeIndex, confirmed_only: bool)
    ensures
        forall|i: int|
            0 <= i < subtree_of(nodes, x, confirmed_only).len() ==> descends(
                nodes,
                #[trigger] subtree_of(nodes, x, confirmed_only)[i],
                x,
                confirmed_only,
            ),
    decreases usize::MAX - depth_of(nodes, x), listed_of(nodes, x, confirmed_only).len() + 1,
{
    let listed = listed_of(nodes, x, confirmed_only);
    let below = subtrees_below(nodes, x, confirmed_only, listed.len() as int);
    lemma_subtrees_below_descend(nodes, x, confirmed_only, listed.len() as int);
    let whole = subtree_of(nodes, x, confirmed_only);
    assert(whole == seq![x] + below);
    assert forall|i: int| 0 <= i < whole.len() implies descends(nodes, #[trigger] whole[i], x, confirmed_only) by {
        if i > 0 {
            assert(whole[i] == below[i - 1]);
            assert(below_child(nodes, x, confirmed_only, listed.len() as int, below[i - 1]));
            let j = choose|j: int|
                0 <= j < listed.len() && hangs_below(nodes, listed[j], x) && descends(
                    nodes,
                    below[i - 1],
                    #[trigger] listed[j],
                    confirmed_only,
                );
            assert(listed.contains(listed[j]));
            assert(descends(nodes, x, x, confirmed_only));
            assert(descends(nodes, listed[j], x, confirmed_only));
            lemma_descends_trans(nodes, whole[i], listed[j], x, confirmed_only);
        }
    }
}

/// Every node of the subtrees below the first `k` listed children of `x`
/// lies below one of those children.
proof fn lemma_subtrees_below_descend(nodes: Seq<Node>, x: NodeIndex, confirmed_only: bool, k: int)
    ensures
        forall|i: int|
            0 <= i < subtrees_below(nodes, x, confirmed_only, k).len() ==> below_child(
                nodes,
                x,
                confirmed_only,
                k,
                #[trigger] subtrees_below(nodes, x, confirmed_only, k)[i],
            ),
    decreases usize::MAX - depth_of(nodes, x), k,
{
    if k > 0 {
        lemma_subtrees_below_descend(nodes, x, confirmed_only, k - 1);
        let listed = listed_of(nodes, x, confirmed_only);
        let child = listed[k - 1];
        let front = subtrees_below(nodes, x, confirmed_only, k - 1);
        let back = if hangs_below(nodes, child, x) {
            subtree_of(nodes, child, confirmed_only)
        } else {
            Seq::empty()
        };
        if hangs_below(nodes, child, x) {
            lemma_subtree_descends(nodes, child, confirmed_only);
        }
        let whole = subtrees_below(nodes, x, confirmed_only, k);
        assert(whole == front + back);
        assert forall|i: int| 0 <= i < whole.len() implies below_child(
            nodes,
            x,
            confirmed_only,
            k,
            #[trigger] whole[i],
        ) by {
            if i < front.len() {
                assert(whole[i] == front[i]);
                assert(below_child(nodes, x, confirmed_only, k - 1, front[i]));
                let j = choose|j: int|
                    0 <= j < k - 1 && hangs_below(nodes, listed[j], x) && descends(
                        nodes,
                        front[i],
                        #[trigger] listed[j],
                        confirmed_only,
                    );
                assert(descends(nodes, whole[i], listed[j], confirmed_only));
            } else {
                assert(whole[i] == back[i - front.len()]);
                assert(descends(nodes, whole[i], listed[k - 1], confirmed_only));
            }
        }
    }
}

/// A node of the graph lists each child once.
proof fn lemma_listed_no_duplicates(graph: Graph, x: NodeIndex, confirmed_only: bool)
    requires
        graph.wf(),
        x < graph.spec_nodes().len(),
    ensures
        listed_of(graph.spec_nodes(), x, confirmed_only).no_duplicates(),
{
    let nodes = graph.spec_nodes();
    assert(nodes[x as int].wf_at(x as nat, graph.spec_conf().n as nat));
    let children = nodes[x as int].spec_parenting().spec_children();
    let listed = listed_of(nodes, x, confirmed_only);
    assert forall|i: int, j: int| 0 <= i < listed.len() && 0 <= j < listed.len() && i != j implies listed[i]
        != listed[j] by {
        assert(listed[i] == children[i] && listed[j] == children[j]);
    }
}

/// The subtree below a node lists each of its nodes once.
proof fn lemma_subtree_no_duplicates(graph: Graph, x: NodeIndex, confirmed_only: bool)
    requires
        graph.wf(),
        x < graph.spec_nodes().len(),
    ensures
        subtree_of(graph.spec_nodes(), x, confirmed_only).no_duplicates(),
    decreases usize::MAX - depth_of(graph.spec_nodes(), x), listed_of(
        graph.spec_nodes(),
        x,
        confirmed_only,
    ).len() + 1,
{
    let nodes = graph.spec_nodes();
    let listed = listed_of(nodes, x, confirmed_only);
    let below = subtrees_below(nodes, x, confirmed_only, listed.len() as int);
    lemma_subtrees_below_no_duplicates(graph, x, confirmed_only, listed.len() as int);
    lemma_subtrees_below_descend(nodes, x, confirmed_only, listed.len() as int);
    assert forall|i: int| 0 <= i < below.len() implies #[trigger] below[i] != x by {
        assert(below_child(nodes, x, confirmed_only, listed.len() as int, below[i]));
        let j = choose|j: int|
            0 <= j < listed.len() && hangs_below(nodes, listed[j], x) && descends(
                nodes,
                below[i],
                #[trigger] listed[j],
                confirmed_only,
            );
        lemma_descends_depth(nodes, below[i], listed[j], confirmed_only);
    }
    vstd::seq_lib::lemma_no_dup_in_concat(seq![x], below);
    assert(subtree_of(nodes, x, confirmed_only) == seq![x] + below);
}

/// The subtrees below the first `k` listed children of a node list each of
/// their nodes once.
proof fn lemma_subtrees_below_no_duplicates(graph: Graph, x: NodeIndex, confirmed_only: bool, k: int)
    requires
        graph.wf(),
        x < graph.spec_nodes().len(),
        k <= listed_of(graph.spec_nodes(), x, confirmed_only).len(),
    ensures
        subtrees_below(graph.spec_nodes(), x, confirmed_only, k).no_duplicates(),
    decreases usize::MAX - depth_of(graph.spec_nodes(), x), k,
{
    let nodes = graph.spec_nodes();
    if k > 0 {
        lemma_subtrees_below_no_duplicates(graph, x, confirmed_only, k - 1);
        let listed = listed_of(nodes, x, confirmed_only);
        let child = listed[k - 1];
        let front = subtrees_below(nodes, x, confirmed_only, k - 1);
        let whole = subtrees_below(nodes, x, confirmed_only, k);
        if hangs_below(nodes, child, x) {
            let back = subtree_of(nodes, child, confirmed_only);
            assert(whole == front + back);
            lemma_subtree_no_duplicates(graph, child, confirmed_only);
            lemma_subtrees_below_descend(nodes, x, confirmed_only, k - 1);
            lemma_subtree_descends(nodes, child, confirmed_only);
            lemma_listed_no_duplicates(graph, x, confirmed_only);
            assert forall|i: int, j: int| 0 <= i < front.len() && 0 <= j < back.len() implies front[i]
                != back[j] by {
                if front[i] == back[j] {
                    let y = front[i];
                    assert(below_child(nodes, x, confirmed_only, k - 1, y));
                    let m = choose|m: int|
                        0 <= m < k - 1 && hangs_below(nodes, listed[m], x) && descends(
                            nodes,
                            y,
                            #[trigger] listed[m],
                            confirmed_only,
                        );
                    let a = listed[m];
                    assert(descends(nodes, y, child, confirmed_only));
                    lemma_descends_chain(nodes, y, a, child, confirmed_only);
                    assert(a != child);
                    if descends(nodes, a, child, confirmed_only) {
                        assert(descends(nodes, x, child, confirmed_only));
                        lemma_descends_depth(nodes, x, child, confirmed_only);
                    } else {
                        assert(descends(nodes, x, a, confirmed_only));
                        lemma_descends_depth(nodes, x, a, confirmed_only);
                    }
                }
            }
            vstd::seq_lib::lemma_no_dup_in_concat(front, back);
        } else {
            assert(whole =~= front);
        }
    }
}

/// Whether `tree` is the subtree of a tree root among the first `k` nodes.
spec fn rooted_below(nodes: Seq<Node>, confirmed_only: bool, k: int, tree: Seq<NodeIndex>) -> bool {
    exists|r: NodeIndex|
        r < k && is_tree_root(nodes, r, confirmed_only) && tree == #[trigger] subtree_of(
            nodes,
            r,
            confirmed_only,
        )
}

/// The trees rooted among the first `k` nodes: each is the subtree of a
/// root among them, each lists its nodes once, and no two share a node.
proof fn lemma_trees_of_disjoint(graph: Graph, confirmed_only: bool, k: int)
    requires
        graph.wf(),
        0 <= k <= graph.spec_nodes().len(),
    ensures
        forall|a: int|
            0 <= a < trees_of(graph.spec_nodes(), confirmed_only, k).len() ==> rooted_below(
                graph.spec_nodes(),
                confirmed_only,
                k,
                #[trigger] trees_of(graph.spec_nodes(), confirmed_only, k)[a],
            ),
        forall|a: int|
            0 <= a < trees_of(graph.spec_nodes(), confirmed_only, k).len() ==> (#[trigger] trees_of(
                graph.spec_nodes(),
                confirmed_only,
                k,
            )[a]).no_duplicates(),
        forall|a: int, b: int|
            0 <= a < trees_of(graph.spec_nodes(), confirmed_only, k).len() && 0 <= b < trees_of(
                graph.spec_nodes(),
                confirmed_only,
                k,
            ).len() && a != b ==> (#[trigger] trees_of(graph.spec_nodes(), confirmed_only, k)[a]).disjoint(
                #[trigger] trees_of(graph.spec_nodes(), confirmed_only, k)[b],
            ),
    decreases k,
{
    let nodes = graph.spec_nodes();
    if k > 0 {
        lemma_trees_of_disjoint(graph, confirmed_only, k - 1);
        let front = trees_of(nodes, confirmed_only, k - 1);
        let all = trees_of(nodes, confirmed_only, k);
        let r = (k - 1) as NodeIndex;
        if is_tree_root(nodes, r, confirmed_only) {
            let tree = subtree_of(nodes, r, confirmed_only);
            assert(all == front.push(tree));
            lemma_subtree_no_duplicates(graph, r, confirmed_only);
            lemma_subtree_descends(nodes, r, confirmed_only);
            assert forall|a: int| 0 <= a < front.len() implies (#[trigger] front[a]).disjoint(tree) by {
                assert(rooted_below(nodes, confirmed_only, k - 1, front[a]));
                let q = choose|q: NodeIndex|
                    q < k - 1 && is_tree_root(nodes, q, confirmed_only) && front[a]
                        == #[trigger] subtree_of(nodes, q, confirmed_only);
                lemma_subtree_descends(nodes, q, confirmed_only);
                assert forall|i: int, j: int| 0 <= i < front[a].len() && 0 <= j < tree.len() implies front[a][i]
                    != tree[j] by {
                    if front[a][i] == tree[j] {
                        let y = tree[j];
                        assert(descends(nodes, y, q, confirmed_only));
                        assert(descends(nodes, y, r, confirmed_only));
                        lemma_descends_chain(nodes, y, q, r, confirmed_only);
                        if descends(nodes, q, r, confirmed_only) {
                            lemma_root_tops(nodes, q, r, confirmed_only);
                        } else {
                            lemma_root_tops(nodes, r, q, confirmed_only);
                        }
                    }
                }
            }
            assert forall|a: int| 0 <= a < all.len() implies rooted_below(
                nodes,
                confirmed_only,
                k,
                #[trigger] all[a],
            ) by {
                if a < front.len() {
                    assert(all[a] == front[a]);
                    assert(rooted_below(nodes, confirmed_only, k - 1, front[a]));
                    let q = choose|q: NodeIndex|
                        q < k - 1 && is_tree_root(nodes, q, confirmed_only) && front[a]
                            == #[trigger] subtree_of(nodes, q, confirmed_only);
                    assert(q < k);
                } else {
                    assert(all[a] == tree);
                }
            }
            assert forall|a: int| 0 <= a < all.len() implies (#[trigger] all[a]).no_duplicates() by {
                if a < front.len() {
                    assert(all[a] == front[a]);
                }
            }
            assert forall|a: int, b: int| 0 <= a < all.len() && 0 <= b < all.len() && a != b implies (
            #[trigger] all[a]).disjoint(#[trigger] all[b]) by {
                if a < front.len() && b < front.len() {
                    assert(all[a] == front[a] && all[b] == front[b]);
                } else if a < front.len() {
                    assert(all[a] == front[a] && all[b] == tree);
                } else {
                    assert(all[b] == front[b] && all[a] == tree);
                    assert(front[b].disjoint(tree));
                }
            }
        } else {
            assert(all =~= front);
            assert forall|a: int| 0 <= a < all.len() implies rooted_below(
                nodes,
                confirmed_only,
                k,
                #[trigger] all[a],
            ) by {
                assert(all[a] == front[a]);
                assert(rooted_below(nodes, confirmed_only, k - 1, front[a]));
                let q = choose|q: NodeIndex|
                    q < k - 1 && is_tree_root(nodes, q, confirmed_only) && front[a]
                        == #[trigger] subtree_of(nodes, q, confirmed_only);
                assert(q < k);
            }
        }
    }
}

/// The trees of a graph form a forest: each tree lists each of its nodes
/// once, and no node belongs to two trees.
pub proof fn lemma_trees_are_disjoint(graph: Graph, confirmed_only: bool)
    requires
        graph.wf(),
    ensures
        forall|a: int|
            0 <= a < trees_of(graph.spec_nodes(), confirmed_only, graph.spec_nodes().len() as int).len()
                ==> (#[trigger] trees_of(
                graph.spec_nodes(),
                confirmed_only,
                graph.spec_nodes().len() as int,
            )[a]).no_duplicates(),
        forall|a: int, b: int|
            0 <= a < trees_of(graph.spec_nodes(), confirmed_only, graph.spec_nodes().len() as int).len()
                && 0 <= b < trees_of(
                graph.spec_nodes(),
                confirmed_only,
                graph.spec_nodes().len() as int,
            ).len() && a != b ==> (#[trigger] trees_of(
                graph.spec_nodes(),
                confirmed_only,
                graph.spec_nodes().len() as int,
            )[a]).disjoint(
                #[trigger] trees_of(graph.spec_nodes(), confirmed_only, graph.spec_nodes().len() as int)[b],
            ),
{
    lemma_trees_of_disjoint(graph, confirmed_only, graph.spec_nodes().len() as int);
}

/// Over all children, the trees rooted among the first `k` nodes are as
/// many as those nodes without a parent.
proof fn lemma_trees_of_count(nodes: Seq<Node>, k: int)
    requires
        0 <= k <= nodes.len() <= usize::MAX,
    ensures
        trees_of(nodes, false, k).len() == nodes.take(k).filter(
            |node: Node| node.spec_parenting().spec_parent() is None,
        ).len(),
    decreases k,
{
    let pred = |node: Node| node.spec_parenting().spec_parent() is None;
    if k > 0 {
        lemma_trees_of_count(nodes, k - 1);
        assert(nodes.take(k) =~= nodes.take(k - 1).push(nodes[k - 1]));
        nodes.take(k - 1).lemma_filter_push(nodes[k - 1], pred);
        let r = (k - 1) as NodeIndex;
        assert(is_tree_root(nodes, r, false) == pred(nodes[k - 1]));
        if is_tree_root(nodes, r, false) {
            assert(trees_of(nodes, false, k).len() == trees_of(nodes, false, k - 1).len() + 1);
        } else {
            assert(trees_of(nodes, false, k).len() == trees_of(nodes, false, k - 1).len());
        }
    } else {
        assert(nodes.take(k) =~= Seq::<Node>::empty());
    }
}

/// The number of trees that `Graph::num_trees` counts is the number of
/// trees that `Graph::trees` lists over all children.
pub proof fn lemma_num_trees_counts_trees(graph: Graph)
    requires
        graph.wf(),
    ensures
        trees_of(graph.spec_nodes(), false, graph.spec_nodes().len() as int).len()
            == graph.spec_nodes().filter(|node: Node| node.spec_parenting().spec_parent() is None).len(),
{
    let nodes = graph.spec_nodes();
    lemma_trees_of_count(nodes, nodes.len() as int);
    assert(nodes.take(nodes.len() as int) =~= nodes);
}

/// Whether node `r` is the first node of one of the trees.
pub open spec fn heads_a_tree(trees: Seq<Seq<NodeIndex>>, r: NodeIndex) -> bool {
    exists|a: int| 0 <= a < trees.len() && trees[a].len() > 0 && #[trigger] trees[a][0] == r
}

/// The trees rooted among the first `k` nodes start at their roots, and a
/// node among them heads one exactly when it is a tree root.
proof fn lemma_tree_heads(nodes: Seq<Node>, confirmed_only: bool, k: int)
    requires
        0 <= k <= nodes.len() <= usize::MAX,
    ensures
        forall|a: int|
            0 <= a < trees_of(nodes, confirmed_only, k).len() ==> (#[trigger] trees_of(
                nodes,
                confirmed_only,
                k,
            )[a]).len() > 0 && trees_of(nodes, confirmed_only, k)[a][0] < k,
        forall|r: NodeIndex|
            r < k ==> (#[trigger] heads_a_tree(trees_of(nodes, confirmed_only, k), r) <==> is_tree_root(
                nodes,
                r,
                confirmed_only,
            )),
    decreases k,
{
    if k > 0 {
        lemma_tree_heads(nodes, confirmed_only, k - 1);
        let front = trees_of(nodes, confirmed_only, k - 1);
        let all = trees_of(nodes, confirmed_only, k);
        let index = (k - 1) as NodeIndex;
        let tree = subtree_of(nodes, index, confirmed_only);
        assert(tree == seq![index] + subtrees_below(
            nodes,
            index,
            confirmed_only,
            listed_of(nodes, index, confirmed_only).len() as int,
        ));
        assert(tree[0] == index);
        if is_tree_root(nodes, index, confirmed_only) {
            assert(all == front.push(tree));
        } else {
            assert(all =~= front);
        }
        assert forall|a: int| 0 <= a < all.len() implies (#[trigger] all[a]).len() > 0 && all[a][0]
            < k by {
            if a < front.len() {
                assert(all[a] == front[a]);
            }
        }
        assert forall|r: NodeIndex| r < k implies (#[trigger] heads_a_tree(all, r) <==> is_tree_root(
            nodes,
            r,
            confirmed_only,
        )) by {
            if heads_a_tree(all, r) {
                let a = choose|a: int| 0 <= a < all.len() && all[a].len() > 0 && #[trigger] all[a][0] == r;
                if a < front.len() {
                    assert(all[a] == front[a]);
                    assert(heads_a_tree(front, r));
                } else {
                    assert(all[a] == tree);
                }
            }
            if is_tree_root(nodes, r, confirmed_only) {
                if r < k - 1 {
                    assert(heads_a_tree(front, r));
                    let a = choose|a: int| 0 <= a < front.len() && front[a].len() > 0 && #[trigger] front[a][0] == r;
                    assert(all[a] == front[a]);
                } else {
                    assert(all[front.len() as int] == tree);
                }
            }
        }
    }
}

/// A node heads a tree exactly when it has no parent, or, counting
/// confirmed children only, its parent has not confirmed it; so a node whose
/// parent has not confirmed it heads its own tree in the confirmed view.
pub proof fn lemma_trees_are_headed_by_unattached_nodes(graph: Graph, confirmed_only: bool)
    requires
        graph.wf(),
    ensures
        forall|r: NodeIndex|
            r < graph.spec_nodes().len() ==> (#[trigger] heads_a_tree(
                trees_of(graph.spec_nodes(), confirmed_only, graph.spec_nodes().len() as int),
                r,
            ) <==> match graph.spec_nodes()[r as int].spec_parenting().spec_parent() {
                None => true,
                Some(p) => confirmed_only && !graph.spec_nodes()[p as int].spec_parenting().spec_children().take(
                    graph.spec_nodes()[p as int].spec_parenting().spec_num_confirmed() as int,
                ).contains(r),
            }),
{
    let nodes = graph.spec_nodes();
    lemma_tree_heads(nodes, confirmed_only, nodes.len() as int);
}

/// Whether a message comes from one of the first `n` nodes.
pub open spec fn sent_from_first(n: usize) -> spec_fn(ReceivedMessage) -> bool {
    |m: ReceivedMessage| m.source < n
}

/// The outboxes of the nodes.
pub open spec fn outboxes(nodes: Seq<Node>) -> Seq<Seq<SentMessage>> {
    nodes.map_values(|node: Node| node.spec_outbox())
}

impl Graph {
    pub closed spec fn spec_conf(&self) -> Configuration {
        self.conf
    }

    pub closed spec fn spec_nodes(&self) -> Seq<Node> {
        self.nodes@
    }

    /// The messages in flight, by destination.
    pub closed spec fn spec_messages(&self) -> Seq<Seq<ReceivedMessage>> {
        self.messages@.map_values(|v: Vec<ReceivedMessage>| v@)
    }

    /// A node and a message queue for each of the `n` nodes; each node fits
    /// its place, and every message in flight comes from another node.
    pub open spec fn wf(&self) -> bool {
        &&& self.spec_nodes().len() == self.spec_conf().n
        &&& self.spec_messages().len() == self.spec_conf().n
        &&& forall|i: int|
            0 <= i < self.spec_nodes().len() ==> (#[trigger] self.spec_nodes()[i]).wf_at(
                i as nat,
                self.spec_conf().n as nat,
            )
        &&& forall|i: int|
            0 <= i < self.spec_messages().len() ==> messages_from_peers(
                #[trigger] self.spec_messages()[i],
                i as nat,
                self.spec_conf().n as nat,
            )
    }

    /// The counters that a round increments are below their limit: no request
    /// in flight offers a tree at the largest depth, and no node has counted
    /// the largest number of confirmation rounds.
    pub open spec fn round_ready(&self) -> bool {
        &&& forall|i: int|
            0 <= i < self.spec_messages().len() ==> request_depths_bounded(
                #[trigger] self.spec_messages()[i],
            )
        &&& forall|i: int|
            0 <= i < self.spec_nodes().len()
                ==> #[trigger] self.spec_nodes()[i].spec_coloring().spec_recoloring_rounds()
                < usize::MAX
    }

    pub fn nodes(&self) -> (r: &[Node])
        ensures
            r@ == self.spec_nodes(),
    {
        self.nodes.as_slice()
    }

    pub fn configuration(&self) -> (r: &Configuration)
        ensures
            *r == self.spec_conf(),
    {
        &self.conf
    }

    pub fn in_flight_messages(&self) -> (r: &[Vec<ReceivedMessage>])
        ensures
            r@.map_values(|v: Vec<ReceivedMessage>| v@) == self.spec_messages(),
    {
        self.messages.as_slice()
    }

    /// Empty message queues for `n` nodes.
    fn no_messages(n: usize) -> (r: Vec<Vec<ReceivedMessage>>)
        ensures
            r@.len() == n,
            forall|i: int| 0 <= i < n ==> (#[trigger] r@[i])@ == Seq::<ReceivedMessage>::empty(),
    {
        let mut r: Vec<Vec<ReceivedMessage>> = Vec::new();
        let mut i: usize = 0;
        while i < n
            invariant
                i <= n,
                r@.len() == i,
                forall|j: int| 0 <= j < i ==> (#[trigger] r@[j])@ == Seq::<ReceivedMessage>::empty(),
            decreases n - i,
        {
            r.push(Vec::new());
            i = i + 1;
        }
        r
    }

    /// Whether a round can be run: no counter that it increments is at its
    /// limit (see `round_ready`).
    pub fn can_execute_round(&self) -> (r: bool)
        requires
            self.wf(),
        ensures
            r == self.round_ready(),
    {
        let mut i: usize = 0;
        while i < self.nodes.len()
            invariant
                self.wf(),
                i <= self.nodes@.len(),
                forall|j: int|
                    0 <= j < i ==> request_depths_bounded(#[trigger] self.spec_messages()[j]),
                forall|j: int|
                    0 <= j < i ==> (#[trigger] self.spec_nodes()[j]).spec_coloring().spec_recoloring_rounds()
                        < usize::MAX,
            decreases self.nodes@.len() - i,
        {
            if self.nodes[i].coloring().recoloring_rounds() == usize::MAX {
                return false;
            }
            let queue = &self.messages[i];
            assert(self.spec_messages()[i as int] == queue@);
            let mut k: usize = 0;
            while k < queue.len()
                invariant
                    k <= queue@.len(),
                    i < self.spec_messages().len(),
                    queue@ == self.spec_messages()[i as int],
                    forall|q: int|
                        0 <= q < k ==> (#[trigger] queue@[q].message matches Message::Request(info)
                            ==> info.depth < usize::MAX),
                decreases queue@.len() - k,
            {
                match queue[k].message {
                    Message::Request(info) => {
                        if info.depth == usize::MAX {
                            assert(!request_depths_bounded(self.spec_messages()[i as int])) by {
                                assert(queue@[k as int].message == Message::Request(info));
                            }
                            return false;
                        }
                    },
                    Message::Confirmation(_) => {},
                }
                k = k + 1;
            }
            i = i + 1;
        }
        true
    }

    /// The largest key of the given tree ids, 0 if there is none.
    pub open spec fn max_key(nodes: Seq<(TreeId, TreeColor)>) -> u64
        decreases nodes.len(),
    {
        if nodes.len() == 0 {
            0
        } else {
            let rest = Self::max_key(nodes.drop_last());
            let id = nodes.last().0;
            let key = if id.primary > id.secondary {
                id.primary
            } else {
                id.secondary
            };
            if key > rest {
                key
            } else {
                rest
            }
        }
    }

    /// A graph of roots, one for each given tree id and colour, that each
    /// look for `d` children; no node is ever a root at random, and tree ids
    /// are drawn up to the largest given key. No message is in flight.
    pub fn new_test(nodes: Vec<(TreeId, TreeColor)>, d: usize) -> (g: Self)
        requires
            d <= nodes@.len(),
        ensures
            g.wf(),
            g.round_ready(),
            g.spec_conf().n == nodes@.len(),
            g.spec_conf().d == d,
            g.spec_conf().initial_root_probability.is_impossible(),
            g.spec_conf().id_range == Self::max_key(nodes@),
            forall|i: int|
                0 <= i < nodes@.len() ==> {
                    &&& (#[trigger] g.spec_nodes()[i]).spec_parenting().spec_tree_id() == nodes@[i].0
                    &&& g.spec_nodes()[i].spec_coloring().spec_color() == nodes@[i].1
                    &&& g.spec_nodes()[i].spec_parenting().spec_parent() == None::<NodeIndex>
                    &&& g.spec_nodes()[i].spec_parenting().spec_depth() == 0
                    &&& g.spec_nodes()[i].spec_parenting().spec_children() == Seq::<NodeIndex>::empty()
                    &&& g.spec_nodes()[i].spec_timers().spec_round_type() == RoundType::ExchangeRequests
                    &&& g.spec_nodes()[i].spec_timers().spec_reset_countdown() == 0
                },
            forall|j: int|
                0 <= j < nodes@.len() ==> #[trigger] g.spec_messages()[j] == Seq::<ReceivedMessage>::empty(),
    {
        let mut id_range: u64 = 0;
        let mut i: usize = 0;
        while i < nodes.len()
            invariant
                i <= nodes@.len(),
                id_range == Self::max_key(nodes@.take(i as int)),
            decreases nodes@.len() - i,
        {
            let id = nodes[i].0;
            let key = if id.primary > id.secondary {
                id.primary
            } else {
                id.secondary
            };
            if key > id_range {
                id_range = key;
            }
            proof {
                assert(nodes@.take(i + 1).drop_last() =~= nodes@.take(i as int));
                assert(nodes@.take(i + 1).last() == nodes@[i as int]);
            }
            i = i + 1;
        }
        assert(nodes@.take(i as int) =~= nodes@);
        let never = Probability::new(0, 1);
        let conf = Configuration::new(nodes.len(), d, never, id_range);
        let mut graph_nodes: Vec<Node> = Vec::new();
        let mut k: usize = 0;
        while k < nodes.len()
            invariant
                k <= nodes@.len(),
                conf.n == nodes@.len(),
                graph_nodes@.len() == k,
                forall|j: int|
                    0 <= j < k ==> {
                        &&& (#[trigger] graph_nodes@[j]).wf_at(j as nat, conf.n as nat)
                        &&& graph_nodes@[j].spec_parenting().spec_tree_id() == nodes@[j].0
                        &&& graph_nodes@[j].spec_coloring().spec_color() == nodes@[j].1
                        &&& graph_nodes@[j].spec_coloring().spec_recoloring_rounds() == 0
                        &&& graph_nodes@[j].spec_parenting().spec_parent() == None::<NodeIndex>
                        &&& graph_nodes@[j].spec_parenting().spec_depth() == 0
                        &&& graph_nodes@[j].spec_parenting().spec_children() == Seq::<NodeIndex>::empty()
                        &&& graph_nodes@[j].spec_timers().spec_round_type() == RoundType::ExchangeRequests
                        &&& graph_nodes@[j].spec_timers().spec_reset_countdown() == 0
                    },
            decreases nodes@.len() - k,
        {
            let node = Node::new_root(&conf, nodes[k].0, nodes[k].1);
            proof {
                assert(node.wf_at(k as nat, conf.n as nat));
            }
            graph_nodes.push(node);
            k = k + 1;
        }
        let messages = Self::no_messages(conf.n);
        let g = Graph { messages, conf, nodes: graph_nodes };
        proof {
            assert forall|j: int| 0 <= j < g.spec_messages().len() implies #[trigger] g.spec_messages()[j]
                == Seq::<ReceivedMessage>::empty() by {
                assert(g.spec_messages()[j] == g.messages@[j]@);
            }
        }
        g
    }

    /// A graph of `n` random nodes (see `Node::new_random`), with no message
    /// in flight.
    pub fn new_random(conf: Configuration, rng: &mut ThreadRng) -> (g: Self)
        requires
            conf.n > 0 ==> conf.id_range > 0,
            conf.n == 1 ==> conf.initial_root_probability.is_certain(),
        ensures
            g.wf(),
            g.round_ready(),
            g.spec_conf() == conf,
            forall|i: int|
                0 <= i < conf.n ==> {
                    &&& (#[trigger] g.spec_nodes()[i]).spec_parenting().spec_children() == Seq::<
                        NodeIndex,
                    >::empty()
                    &&& g.spec_nodes()[i].spec_timers().spec_round_type()
                        == RoundType::ExchangeConfirmations
                    &&& conf.initial_root_probability.is_certain()
                        ==> g.spec_nodes()[i].spec_parenting().spec_parent() is None
                    &&& conf.initial_root_probability.is_impossible()
                        ==> g.spec_nodes()[i].spec_parenting().spec_parent() is Some
                    &&& random_node_in_range(g.spec_nodes()[i], conf)
                },
            forall|j: int|
                0 <= j < conf.n ==> #[trigger] g.spec_messages()[j] == Seq::<ReceivedMessage>::empty(),
    {
        let mut nodes: Vec<Node> = Vec::new();
        let mut k: usize = 0;
        while k < conf.n
            invariant
                conf.n > 0 ==> conf.id_range > 0,
                conf.n == 1 ==> conf.initial_root_probability.is_certain(),
                k <= conf.n,
                nodes@.len() == k,
                forall|j: int|
                    0 <= j < k ==> {
                        &&& (#[trigger] nodes@[j]).wf_at(j as nat, conf.n as nat)
                        &&& nodes@[j].spec_coloring().spec_recoloring_rounds() == 0
                        &&& nodes@[j].spec_parenting().spec_children() == Seq::<NodeIndex>::empty()
                        &&& nodes@[j].spec_timers().spec_round_type() == RoundType::ExchangeConfirmations
                        &&& conf.initial_root_probability.is_certain()
                            ==> nodes@[j].spec_parenting().spec_parent() is None
                        &&& conf.initial_root_probability.is_impossible()
                            ==> nodes@[j].spec_parenting().spec_parent() is Some
                        &&& random_node_in_range(nodes@[j], conf)
                    },
            decreases conf.n - k,
        {
            let node = Node::new_random(&conf, rng);
            proof {
                assert(node.wf_at(k as nat, conf.n as nat));
            }
            nodes.push(node);
            k = k + 1;
        }
        let messages = Self::no_messages(conf.n);
        let g = Graph { messages, conf, nodes };
        proof {
            assert forall|j: int| 0 <= j < g.spec_messages().len() implies #[trigger] g.spec_messages()[j]
                == Seq::<ReceivedMessage>::empty() by {
                assert(g.spec_messages()[j] == g.messages@[j]@);
            }
        }
        g
    }

    /// Resizes the graph to `new_size` nodes. New nodes are random roots
    /// (see `Node::new_random_root`), node `i` of the tree id given at index
    /// `i`, with no message in flight. When the graph shrinks, the remaining
    /// nodes forget the nodes that left (see `Node::update_for_configuration`)
    /// and the messages from those nodes are dropped.
    pub fn resize(&mut self, new_size: usize, rng: &mut ThreadRng, fresh_tree_ids: &Vec<TreeId>)
        requires
            old(self).wf(),
            new_size > 0,
            fresh_tree_ids@.len() >= new_size,
        ensures
            final(self).wf(),
            final(self).spec_conf() == (Configuration { n: new_size, ..old(self).spec_conf() }),
            ({
                let old_n = old(self).spec_conf().n;
                &&& new_size < old_n ==> forall|i: int|
                    0 <= i < new_size ==> {
                        &&& updated_for(
                            old(self).spec_nodes()[i],
                            #[trigger] final(self).spec_nodes()[i],
                            final(self).spec_conf(),
                        )
                        &&& final(self).spec_messages()[i] == old(self).spec_messages()[i].filter(
                            sent_from_first(new_size),
                        )
                    }
                &&& new_size >= old_n ==> forall|i: int|
                    0 <= i < old_n ==> {
                        &&& #[trigger] final(self).spec_nodes()[i] == old(self).spec_nodes()[i]
                        &&& final(self).spec_messages()[i] == old(self).spec_messages()[i]
                    }
                &&& forall|i: int|
                    old_n <= i < new_size ==> {
                        &&& (#[trigger] final(self).spec_nodes()[i]).spec_parenting().spec_tree_id()
                            == fresh_tree_ids@[i]
                        &&& final(self).spec_nodes()[i].spec_parenting().spec_parent() == None::<NodeIndex>
                        &&& final(self).spec_nodes()[i].spec_parenting().spec_depth() == 0
                        &&& final(self).spec_nodes()[i].spec_parenting().spec_children() == Seq::<
                            NodeIndex,
                        >::empty()
                        &&& final(self).spec_nodes()[i].spec_coloring().spec_color().value < new_size
                        &&& final(self).spec_nodes()[i].spec_coloring().spec_recoloring_rounds() == 0
                        &&& final(self).spec_nodes()[i].spec_timers().spec_round_type()
                            == RoundType::ExchangeRequests
                        &&& final(self).spec_nodes()[i].spec_timers().spec_reset_countdown() == 0
                        &&& final(self).spec_messages()[i] == Seq::<ReceivedMessage>::empty()
                    }
            }),
    {
        let old_n = self.conf.n;
        let downsized = new_size < old_n;
        self.conf.n = new_size;
        let ghost start = *old(self);
        if downsized {
            self.nodes.truncate(new_size);
            self.messages.truncate(new_size);
        } else {
            let mut i: usize = old_n;
            while i < new_size
                invariant
                    start.wf(),
                    old_n == start.conf.n,
                    old_n <= i <= new_size,
                    fresh_tree_ids@.len() >= new_size,
                    self.conf == (Configuration { n: new_size, ..start.conf }),
                    self.nodes@.len() == i,
                    self.messages@.len() == i,
                    forall|j: int| 0 <= j < old_n ==> #[trigger] self.nodes@[j] == start.nodes@[j],
                    forall|j: int| 0 <= j < old_n ==> #[trigger] self.messages@[j] == start.messages@[j],
                    forall|j: int|
                        old_n <= j < i ==> {
                            &&& (#[trigger] self.nodes@[j]).wf_at(j as nat, new_size as nat)
                            &&& self.nodes@[j].spec_parenting().spec_tree_id() == fresh_tree_ids@[j]
                            &&& self.nodes@[j].spec_parenting().spec_parent() == None::<NodeIndex>
                            &&& self.nodes@[j].spec_parenting().spec_depth() == 0
                            &&& self.nodes@[j].spec_parenting().spec_children() == Seq::<NodeIndex>::empty()
                            &&& self.nodes@[j].spec_coloring().spec_color().value < new_size
                            &&& self.nodes@[j].spec_coloring().spec_recoloring_rounds() == 0
                            &&& self.nodes@[j].spec_timers().spec_round_type()
                                == RoundType::ExchangeRequests
                            &&& self.nodes@[j].spec_timers().spec_reset_countdown() == 0
                            &&& self.messages@[j]@ == Seq::<ReceivedMessage>::empty()
                        },
                decreases new_size - i,
            {
                let node = Node::new_random_root(&self.conf, rng, fresh_tree_ids[i]);
                proof {
                    assert(node.wf_at(i as nat, new_size as nat));
                }
                self.nodes.push(node);
                self.messages.push(Vec::new());
                i = i + 1;
            }
        }
        if downsized {
            let mut i: usize = 0;
            while i < new_size
                invariant
                    start.wf(),
                    new_size < start.conf.n,
                    i <= new_size,
                    self.conf == (Configuration { n: new_size, ..start.conf }),
                    self.nodes@.len() == new_size,
                    self.messages@.len() == new_size,
                    forall|j: int|
                        0 <= j < i ==> {
                            &&& updated_for(start.nodes@[j], #[trigger] self.nodes@[j], self.conf)
                            &&& self.nodes@[j].wf_at(j as nat, new_size as nat)
                            &&& self.messages@[j]@ == start.messages@[j]@.filter(
                                sent_from_first(new_size),
                            )
                        },
                    forall|j: int| i <= j < new_size ==> #[trigger] self.nodes@[j] == start.nodes@[j],
                    forall|j: int| i <= j < new_size ==> #[trigger] self.messages@[j] == start.messages@[j],
                decreases new_size - i,
            {
                proof {
                    assert(start.spec_nodes()[i as int] == start.nodes@[i as int]);
                    assert(start.nodes@[i as int].wf_at(i as nat, start.conf.n as nat));
                }
                self.nodes[i].update_for_configuration(&self.conf);
                let mut kept: Vec<ReceivedMessage> = Vec::new();
                let queue = &self.messages[i];
                let ghost pred = sent_from_first(new_size);
                let mut k: usize = 0;
                while k < queue.len()
                    invariant
                        k <= queue@.len(),
                        pred == sent_from_first(new_size),
                        kept@ == queue@.take(k as int).filter(pred),
                    decreases queue@.len() - k,
                {
                    let m = queue[k];
                    proof {
                        assert(queue@.take(k + 1) =~= queue@.take(k as int).push(m));
                        queue@.take(k as int).lemma_filter_push(m, pred);
                    }
                    if m.source < new_size {
                        kept.push(m);
                    }
                    k = k + 1;
                }
                assert(queue@.take(k as int) =~= queue@);
                self.messages.set(i, kept);
                i = i + 1;
            }
        }
        proof {
            assert forall|j: int| 0 <= j < self.messages@.len() implies messages_from_peers(
                #[trigger] self.spec_messages()[j],
                j as nat,
                self.spec_conf().n as nat,
            ) by {
                assert(self.spec_messages()[j] == self.messages@[j]@);
                assert(self.spec_nodes()[j] == self.nodes@[j]);
                if j < start.messages@.len() {
                    assert(start.spec_messages()[j] == start.messages@[j]@);
                    assert(messages_from_peers(start.spec_messages()[j], j as nat, start.conf.n as nat));
                }
                if downsized {
                    let q = start.messages@[j]@;
                    let pred = sent_from_first(new_size);
                    assert forall|k: int| 0 <= k < q.filter(pred).len() implies #[trigger] q.filter(pred)[k].source
                        < new_size && q.filter(pred)[k].source != j by {
                        q.lemma_filter_pred(pred, k);
                        q.lemma_filter_contains_rev(pred, q.filter(pred)[k]);
                        let w = choose|w: int| 0 <= w < q.len() && q[w] == q.filter(pred)[k];
                        assert(q[w].source != j);
                    }
                    assert(self.messages@[j]@ == q.filter(pred));
                } else if j >= old_n {
                    assert(self.messages@[j]@ == Seq::<ReceivedMessage>::empty());
                } else {
                    assert(self.messages@[j] == start.messages@[j]);
                }
            }
            assert forall|j: int| 0 <= j < self.nodes@.len() implies (
            #[trigger] self.spec_nodes()[j]).wf_at(j as nat, self.spec_conf().n as nat) by {
                if !downsized && j < old_n {
                    assert(start.spec_nodes()[j] == start.nodes@[j]);
                }
            }
            assert forall|j: int| 0 <= j < self.spec_messages().len() implies #[trigger] self.spec_messages()[j]
                == self.messages@[j]@ by {}
            assert forall|j: int| 0 <= j < start.spec_messages().len() implies #[trigger] start.spec_messages()[j]
                == start.messages@[j]@ by {}
        }
    }

    /// Every node receives the messages addressed to it.
    fn receive_messages(&mut self, rng: &mut ThreadRng)
        requires
            old(self).wf(),
            old(self).round_ready(),
        ensures
            final(self).conf == old(self).conf,
            final(self).nodes@.len() == old(self).nodes@.len(),
            final(self).messages@.len() == old(self).messages@.len(),
            forall|i: int|
                0 <= i < old(self).nodes@.len() ==> received(
                    old(self).nodes@[i],
                    #[trigger] final(self).nodes@[i],
                    old(self).messages@[i]@,
                    old(self).conf,
                    i as NodeIndex,
                ),
            forall|i: int|
                0 <= i < old(self).nodes@.len() ==> (#[trigger] final(self).nodes@[i]).wf_at(
                    i as nat,
                    old(self).conf.n as nat,
                ),
            forall|i: int|
                0 <= i < old(self).messages@.len() ==> (#[trigger] final(self).messages@[i])@
                    == Seq::<ReceivedMessage>::empty(),
    {
        let n = self.messages.len();
        let mut i: usize = 0;
        while i < n
            invariant
                old(self).wf(),
                old(self).round_ready(),
                n == old(self).conf.n,
                i <= n,
                self.conf == old(self).conf,
                self.nodes@.len() == n,
                self.messages@.len() == n,
                forall|j: int|
                    0 <= j < i ==> received(
                        old(self).nodes@[j],
                        #[trigger] self.nodes@[j],
                        old(self).messages@[j]@,
                        old(self).conf,
                        j as NodeIndex,
                    ),
                forall|j: int|
                    0 <= j < i ==> (#[trigger] self.nodes@[j]).wf_at(j as nat, n as nat),
                forall|j: int|
                    0 <= j < i ==> (#[trigger] self.messages@[j])@ == Seq::<ReceivedMessage>::empty(),
                forall|j: int| i <= j < n ==> #[trigger] self.nodes@[j] == old(self).nodes@[j],
                forall|j: int| i <= j < n ==> #[trigger] self.messages@[j] == old(self).messages@[j],
            decreases n - i,
        {
            proof {
                assert(old(self).spec_nodes()[i as int] == old(self).nodes@[i as int]);
                assert(old(self).spec_messages()[i as int] == old(self).messages@[i as int]@);
            }
            let mut incoming: Vec<ReceivedMessage> = Vec::new();
            std::mem::swap(&mut incoming, &mut self.messages[i]);
            self.nodes[i].receive_messages(incoming, &self.conf, i, rng);
            i = i + 1;
        }
    }

    /// Every node moves on by one round; a node that resets takes the tree
    /// id given for its index.
    fn advance_time(&mut self, rng: &mut ThreadRng, fresh_tree_ids: &Vec<TreeId>)
        requires
            old(self).nodes@.len() == old(self).conf.n,
            fresh_tree_ids@.len() >= old(self).nodes@.len(),
            forall|i: int|
                0 <= i < old(self).nodes@.len() ==> (#[trigger] old(self).nodes@[i]).wf_at(
                    i as nat,
                    old(self).conf.n as nat,
                ),
        ensures
            final(self).conf == old(self).conf,
            final(self).messages == old(self).messages,
            final(self).nodes@.len() == old(self).nodes@.len(),
            forall|i: int|
                0 <= i < old(self).nodes@.len() ==> advanced_node(
                    old(self).nodes@[i],
                    #[trigger] final(self).nodes@[i],
                    old(self).conf,
                    fresh_tree_ids@[i],
                ),
            forall|i: int|
                0 <= i < old(self).nodes@.len() ==> (#[trigger] final(self).nodes@[i]).wf_at(
                    i as nat,
                    old(self).conf.n as nat,
                ),
    {
        let n = self.nodes.len();
        let mut i: usize = 0;
        while i < n
            invariant
                n == old(self).nodes@.len(),
                n == old(self).conf.n,
                fresh_tree_ids@.len() >= n,
                i <= n,
                self.conf == old(self).conf,
                self.messages == old(self).messages,
                self.nodes@.len() == n,
                forall|j: int|
                    0 <= j < i ==> advanced_node(
                        old(self).nodes@[j],
                        #[trigger] self.nodes@[j],
                        old(self).conf,
                        fresh_tree_ids@[j],
                    ),
                forall|j: int|
                    0 <= j < i ==> (#[trigger] self.nodes@[j]).wf_at(j as nat, n as nat),
                forall|j: int| i <= j < n ==> #[trigger] self.nodes@[j] == old(self).nodes@[j],
                forall|j: int|
                    0 <= j < n ==> (#[trigger] old(self).nodes@[j]).wf_at(j as nat, n as nat),
            decreases n - i,
        {
            proof {
                assert(old(self).nodes@[i as int].wf_at(i as nat, n as nat));
            }
            self.nodes[i].advance_time(&self.conf, rng, fresh_tree_ids[i]);
            i = i + 1;
        }
    }

    /// Every node sends its round's messages; each lands in the queue of its
    /// destination, after the messages of the nodes before the sender.
    fn send_messages(&mut self)
        requires
            old(self).nodes@.len() == old(self).conf.n,
            old(self).messages@.len() == old(self).conf.n,
            forall|i: int|
                0 <= i < old(self).nodes@.len() ==> (#[trigger] old(self).nodes@[i]).wf_at(
                    i as nat,
                    old(self).conf.n as nat,
                ),
            forall|i: int|
                0 <= i < old(self).nodes@.len() ==> ((#[trigger] old(self).nodes@[i]).spec_timers().spec_round_type()
                    == RoundType::ExchangeConfirmations ==> old(self).nodes@[i].spec_parenting().spec_parent()
                    != Some(i as NodeIndex)),
            forall|i: int|
                0 <= i < old(self).messages@.len() ==> (#[trigger] old(self).messages@[i])@
                    == Seq::<ReceivedMessage>::empty(),
        ensures
            final(self).conf == old(self).conf,
            final(self).nodes == old(self).nodes,
            final(self).wf(),
            forall|j: int|
                0 <= j < final(self).messages@.len() ==> (#[trigger] final(self).messages@[j])@
                    == routed(
                    outboxes(old(self).nodes@),
                    old(self).nodes@.len() as int,
                    j as NodeIndex,
                ),
    {
        let n = self.nodes.len();
        let ghost boxes = outboxes(self.nodes@);
        let mut i: usize = 0;
        while i < n
            invariant
                n == old(self).nodes@.len(),
                n == old(self).conf.n,
                i <= n,
                self.conf == old(self).conf,
                self.nodes == old(self).nodes,
                self.messages@.len() == n,
                boxes == outboxes(self.nodes@),
                forall|j: int|
                    0 <= j < n ==> (#[trigger] self.nodes@[j]).wf_at(j as nat, n as nat),
                forall|j: int|
                    0 <= j < n ==> ((#[trigger] self.nodes@[j]).spec_timers().spec_round_type()
                        == RoundType::ExchangeConfirmations ==> self.nodes@[j].spec_parenting().spec_parent()
                        != Some(j as NodeIndex)),
                forall|j: int|
                    0 <= j < n ==> (#[trigger] self.messages@[j])@ == routed(
                        boxes,
                        i as int,
                        j as NodeIndex,
                    ),
                forall|j: int|
                    0 <= j < n ==> messages_from_peers(
                        (#[trigger] self.messages@[j])@,
                        j as nat,
                        n as nat,
                    ),
            decreases n - i,
        {
            let sent = self.nodes[i].send_messages();
            let ghost before = self.messages@;
            proof {
                assert(self.nodes@[i as int].wf_at(i as nat, n as nat));
                assert(boxes[i as int] == sent@);
            }
            let mut k: usize = 0;
            while k < sent.len()
                invariant
                    n == old(self).conf.n,
                    i < n,
                    k <= sent@.len(),
                    self.conf == old(self).conf,
                    self.nodes == old(self).nodes,
                    self.messages@.len() == n,
                    sent@ == self.nodes@[i as int].spec_outbox(),
                    self.nodes@[i as int].wf_at(i as nat, n as nat),
                    self.nodes@[i as int].spec_timers().spec_round_type()
                        == RoundType::ExchangeConfirmations ==> self.nodes@[i as int].spec_parenting().spec_parent()
                        != Some(i as NodeIndex),
                    forall|j: int|
                        0 <= j < n ==> (#[trigger] self.messages@[j])@ == before[j]@ + delivered(
                            sent@.take(k as int),
                            i,
                            j as NodeIndex,
                        ),
                    forall|j: int|
                        0 <= j < n ==> messages_from_peers(
                            (#[trigger] self.messages@[j])@,
                            j as nat,
                            n as nat,
                        ),
                decreases sent@.len() - k,
            {
                let m = sent[k];
                proof {
                    let node = self.nodes@[i as int];
                    if node.spec_timers().spec_round_type() == RoundType::ExchangeRequests {
                        assert(m.destination == node.spec_parenting().spec_children()[k as int]);
                    } else {
                        assert(m == node.spec_confirmations()[k as int]);
                    }
                    assert(m.destination < n && m.destination != i);
                    assert(sent@.take(k + 1).drop_last() =~= sent@.take(k as int));
                    assert(sent@.take(k + 1).last() == m);
                }
                let ghost mid = self.messages@;
                self.messages[m.destination].push(ReceivedMessage { source: i, message: m.message });
                proof {
                    assert forall|j: int| 0 <= j < n implies (#[trigger] self.messages@[j])@
                        == before[j]@ + delivered(sent@.take(k + 1), i, j as NodeIndex) by {
                        if j == m.destination {
                            assert(self.messages@[j]@ =~= mid[j]@.push(
                                ReceivedMessage { source: i, message: m.message },
                            ));
                        } else {
                            assert(self.messages@[j] == mid[j]);
                        }
                    }
                    assert forall|j: int| 0 <= j < n implies messages_from_peers(
                        (#[trigger] self.messages@[j])@,
                        j as nat,
                        n as nat,
                    ) by {
                        if j != m.destination {
                            assert(self.messages@[j] == mid[j]);
                        } else {
                            assert(self.messages@[j]@ =~= mid[j]@.push(
                                ReceivedMessage { source: i, message: m.message },
                            ));
                        }
                    }
                }
                k = k + 1;
            }
            proof {
                assert(sent@.take(k as int) =~= sent@);
            }
            i = i + 1;
        }
        proof {
            assert forall|j: int| 0 <= j < self.messages@.len() implies messages_from_peers(
                #[trigger] self.spec_messages()[j],
                j as nat,
                self.spec_conf().n as nat,
            ) by {
                assert(self.spec_messages()[j] == self.messages@[j]@);
            }
            assert forall|j: int| 0 <= j < self.nodes@.len() implies (
            #[trigger] self.spec_nodes()[j]).wf_at(j as nat, self.spec_conf().n as nat) by {}
        }
    }

    /// Runs one round: every node receives its messages, moves on in time
    /// (a node whose reset comes due takes the tree id given for its index),
    /// and sends its messages for the next round.
    pub fn execute_round(&mut self, rng: &mut ThreadRng, fresh_tree_ids: &Vec<TreeId>)
        requires
            old(self).wf(),
            old(self).round_ready(),
            fresh_tree_ids@.len() >= old(self).spec_nodes().len(),
        ensures
            final(self).wf(),
            final(self).spec_conf() == old(self).spec_conf(),
            final(self).spec_nodes().len() == old(self).spec_nodes().len(),
            forall|i: int|
                0 <= i < old(self).spec_nodes().len() ==> round_step(
                    old(self).spec_nodes()[i],
                    old(self).spec_messages()[i],
                    #[trigger] final(self).spec_nodes()[i],
                    old(self).spec_conf(),
                    i as NodeIndex,
                    fresh_tree_ids@[i],
                ),
            forall|j: int|
                0 <= j < final(self).spec_messages().len() ==> #[trigger] final(self).spec_messages()[j]
                    == routed(
                    outboxes(final(self).spec_nodes()),
                    final(self).spec_nodes().len() as int,
                    j as NodeIndex,
                ),
    {
        let ghost start = *self;
        assert(start == *old(self));
        self.receive_messages(rng);
        let ghost mid = self.nodes@;
        proof {
            assert forall|i: int|
                0 <= i < mid.len() && (#[trigger] mid[i]).spec_timers().spec_round_type()
                    == RoundType::ExchangeRequests implies mid[i].spec_parenting().spec_parent()
                != Some(i as NodeIndex) by {
                assert(received(start.nodes@[i], mid[i], start.messages@[i]@, start.conf, i as NodeIndex));
            }
        }
        self.advance_time(rng, fresh_tree_ids);
        proof {
            assert forall|i: int|
                0 <= i < self.nodes@.len() && (#[trigger] self.nodes@[i]).spec_timers().spec_round_type()
                    == RoundType::ExchangeConfirmations implies self.nodes@[i].spec_parenting().spec_parent()
                != Some(i as NodeIndex) by {
                assert(advanced_node(mid[i], self.nodes@[i], start.conf, fresh_tree_ids@[i]));
                assert(mid[i].spec_timers().spec_round_type() == RoundType::ExchangeRequests ==> mid[i].spec_parenting().spec_parent() != Some(
                i as NodeIndex));
            }
        }
        self.send_messages();
        proof {
            assert forall|i: int| 0 <= i < start.spec_nodes().len() implies round_step(
                start.spec_nodes()[i],
                start.spec_messages()[i],
                #[trigger] self.spec_nodes()[i],
                start.spec_conf(),
                i as NodeIndex,
                fresh_tree_ids@[i],
            ) by {
                assert(received(start.nodes@[i], mid[i], start.messages@[i]@, start.conf, i as NodeIndex));
                assert(advanced_node(mid[i], self.nodes@[i], start.conf, fresh_tree_ids@[i]));
                assert(start.spec_messages()[i] == start.messages@[i]@);
            }
            assert forall|j: int| 0 <= j < self.spec_messages().len() implies #[trigger] self.spec_messages()[j]
                == routed(outboxes(self.spec_nodes()), self.spec_nodes().len() as int, j as NodeIndex) by {
                assert(self.spec_messages()[j] == self.messages@[j]@);
            }
        }
    }

    /// The node at `index`, to be changed in place.
    pub fn edit_node(&mut self, index: NodeIndex) -> (r: &mut Node)
        requires
            index < old(self).spec_nodes().len(),
        ensures
            *r == old(self).spec_nodes()[index as int],
            final(self).spec_nodes() == old(self).spec_nodes().update(index as int, *final(r)),
            final(self).spec_conf() == old(self).spec_conf(),
            final(self).spec_messages() == old(self).spec_messages(),
    {
        &mut self.nodes[index]
    }

    /// The nodes of the subtree below `node_index` (see `subtree_of`).
    fn subtree(&self, node_index: NodeIndex, confirmed_only: bool) -> (r: Vec<NodeIndex>)
        requires
            self.wf(),
            node_index < self.spec_nodes().len(),
        ensures
            r@ == subtree_of(self.spec_nodes(), node_index, confirmed_only),
        decreases usize::MAX - depth_of(self.spec_nodes(), node_index),
    {
        let ghost nodes = self.spec_nodes();
        proof {
            assert(nodes[node_index as int].wf_at(node_index as nat, self.spec_conf().n as nat));
        }
        let parenting_root = self.nodes[node_index].parenting();
        let root_depth = parenting_root.my_depth();
        let children = parenting_root.children(confirmed_only);
        let mut result: Vec<NodeIndex> = Vec::new();
        result.push(node_index);
        let mut i: usize = 0;
        while i < children.len()
            invariant
                self.wf(),
                nodes == self.spec_nodes(),
                node_index < nodes.len(),
                root_depth == depth_of(nodes, node_index),
                children@ == listed_of(nodes, node_index, confirmed_only),
                forall|k: int| 0 <= k < children@.len() ==> #[trigger] children@[k] < nodes.len(),
                i <= children@.len(),
                result@ == seq![node_index] + subtrees_below(nodes, node_index, confirmed_only, i as int),
            decreases children@.len() - i,
        {
            let child = children[i];
            let child_parenting = self.nodes[child].parenting();
            if child_parenting.parent() == Some(node_index) && child_parenting.my_depth() > root_depth {
                let mut below = self.subtree(child, confirmed_only);
                result.append(&mut below);
            }
            proof {
                assert(seq![node_index] + subtrees_below(nodes, node_index, confirmed_only, i + 1)
                    =~= seq![node_index] + subtrees_below(nodes, node_index, confirmed_only, i as int)
                    + if hangs_below(nodes, child, node_index) {
                    subtree_of(nodes, child, confirmed_only)
                } else {
                    Seq::empty()
                });
            }
            i = i + 1;
        }
        result
    }

    /// The trees of the graph: one for each node that is a tree root (see
    /// `is_tree_root`), in the order of the roots, each listing the root's
    /// subtree (see `subtree_of`).
    pub fn trees<'a>(&'a self, confirmed_only: bool) -> (r: Vec<Tree<'a>>)
        requires
            self.wf(),
        ensures
            r@.len() == trees_of(self.spec_nodes(), confirmed_only, self.spec_nodes().len() as int).len(),
            forall|k: int|
                0 <= k < r@.len() ==> {
                    &&& (#[trigger] r@[k]).spec_nodes() == trees_of(
                        self.spec_nodes(),
                        confirmed_only,
                        self.spec_nodes().len() as int,
                    )[k]
                    &&& r@[k].spec_graph() == *self
                },
    {
        let ghost nodes = self.spec_nodes();
        let mut r: Vec<Tree<'a>> = Vec::new();
        let mut i: usize = 0;
        while i < self.nodes.len()
            invariant
                self.wf(),
                nodes == self.spec_nodes(),
                i <= nodes.len(),
                r@.len() == trees_of(nodes, confirmed_only, i as int).len(),
                forall|k: int|
                    0 <= k < r@.len() ==> {
                        &&& (#[trigger] r@[k]).spec_nodes() == trees_of(nodes, confirmed_only, i as int)[k]
                        &&& r@[k].spec_graph() == *self
                    },
            decreases nodes.len() - i,
        {
            proof {
                assert(nodes[i as int].wf_at(i as nat, self.spec_conf().n as nat));
            }
            let is_root = match self.nodes[i].parenting().parent() {
                None => true,
                Some(p) => {
                    proof {
                        assert(nodes[p as int].wf_at(p as nat, self.spec_conf().n as nat));
                    }
                    confirmed_only && !slice_contains(self.nodes[p].parenting().children(confirmed_only), i)
                },
            };
            let ghost before = r@;
            if is_root {
                let tree = Tree::new(self, self.subtree(i, confirmed_only));
                r.push(tree);
            }
            proof {
                assert(trees_of(nodes, confirmed_only, i + 1) == trees_of(nodes, confirmed_only, i as int)
                    + if is_tree_root(nodes, i, confirmed_only) {
                    seq![subtree_of(nodes, i, confirmed_only)]
                } else {
                    Seq::empty()
                });
                assert forall|k: int| 0 <= k < r@.len() implies {
                    &&& (#[trigger] r@[k]).spec_nodes() == trees_of(nodes, confirmed_only, i + 1)[k]
                    &&& r@[k].spec_graph() == *self
                } by {
                    if k < before.len() {
                        assert(r@[k] == before[k]);
                    }
                }
            }
            i = i + 1;
        }
        r
    }

    /// Whether `child_index` names `parent_index` as its parent and is among
    /// its (confirmed, if asked) children.
    pub fn validate_parenting(
        &self,
        parent_index: NodeIndex,
        child_index: NodeIndex,
        confirmed_only: bool,
    ) -> (r: bool)
        requires
            self.wf(),
            parent_index < self.spec_nodes().len(),
            child_index < self.spec_nodes().len(),
        ensures
            r == (self.spec_nodes()[child_index as int].spec_parenting().spec_parent() == Some(
                parent_index,
            ) && self.spec_nodes()[parent_index as int].spec_parenting().listed_children(
                confirmed_only,
            ).contains(child_index)),
    {
        assert(self.spec_nodes()[parent_index as int].wf_at(
            parent_index as nat,
            self.spec_conf().n as nat,
        ));
        let child_parenting = self.nodes[child_index].parenting();
        let parent_parenting = self.nodes[parent_index].parenting();
        child_parenting.parent() == Some(parent_index) && slice_contains(
            parent_parenting.children(confirmed_only),
            child_index,
        )
    }

    /// The number of trees: the nodes without a parent.
    pub fn num_trees(&self) -> (r: usize)
        ensures
            r == self.spec_nodes().filter(|node: Node| node.spec_parenting().spec_parent() is None).len(),
    {
        let ghost pred = |node: Node| node.spec_parenting().spec_parent() is None;
        let mut count: usize = 0;
        let mut i: usize = 0;
        while i < self.nodes.len()
            invariant
                i <= self.nodes@.len(),
                pred == (|node: Node| node.spec_parenting().spec_parent() is None),
                count == self.nodes@.take(i as int).filter(pred).len(),
                count <= i,
            decreases self.nodes@.len() - i,
        {
            proof {
                assert(self.nodes@.take(i + 1) =~= self.nodes@.take(i as int).push(self.nodes@[i as int]));
                self.nodes@.take(i as int).lemma_filter_push(self.nodes@[i as int], pred);
            }
            if self.nodes[i].parenting().is_root() {
                count = count + 1;
            }
            i = i + 1;
        }
        assert(self.nodes@.take(i as int) =~= self.nodes@);
        count
    }

    /// The longest reset count-down running in the graph, if any runs.
    pub fn reset_countdown(&self) -> (r: Option<usize>)
        ensures
            r is None <==> forall|i: int|
                0 <= i < self.spec_nodes().len()
                    ==> #[trigger] self.spec_nodes()[i].spec_timers().spec_reset_countdown() == 0,
            r matches Some(c) ==> {
                &&& c > 0
                &&& exists|i: int|
                    0 <= i < self.spec_nodes().len()
                        && #[trigger] self.spec_nodes()[i].spec_timers().spec_reset_countdown() == c
                &&& forall|i: int|
                    0 <= i < self.spec_nodes().len()
                        ==> #[trigger] self.spec_nodes()[i].spec_timers().spec_reset_countdown() <= c
            },
    {
        let mut best: Option<usize> = None;
        let mut i: usize = 0;
        while i < self.nodes.len()
            invariant
                i <= self.nodes@.len(),
                best is None <==> forall|j: int|
                    0 <= j < i ==> #[trigger] self.nodes@[j].spec_timers().spec_reset_countdown() == 0,
                best matches Some(c) ==> {
                    &&& c > 0
                    &&& exists|j: int|
                        0 <= j < i && #[trigger] self.nodes@[j].spec_timers().spec_reset_countdown()
                            == c
                    &&& forall|j: int|
                        0 <= j < i ==> #[trigger] self.nodes@[j].spec_timers().spec_reset_countdown()
                            <= c
                },
            decreases self.nodes@.len() - i,
        {
            let countdown = self.nodes[i].timers().reset_countdown();
            if countdown > 0 {
                best = match best {
                    Some(c) => if countdown > c {
                        Some(countdown)
                    } else {
                        Some(c)
                    },
                    None => Some(countdown),
                };
            }
            i = i + 1;
        }
        best
    }
}

/// A tree of the graph: the nodes of a root's subtree, the root first.
#[derive(Debug)]
pub struct Tree<'a> {
    nodes: Vec<NodeIndex>,
    graph: &'a Graph,
}

impl<'a> Tree<'a> {
    /// A tree is never empty.
    #[verifier::type_invariant]
    spec fn non_empty(&self) -> bool {
        self.nodes@.len() > 0
    }

    pub closed spec fn spec_nodes(&self) -> Seq<NodeIndex> {
        self.nodes@
    }

    pub closed spec fn spec_graph(&self) -> Graph {
        *self.graph
    }

    /// The tree of `graph` made of `nodes`, the root first; it may not be
    /// empty.
    pub fn new(graph: &'a Graph, nodes: Vec<NodeIndex>) -> (t: Tree<'a>)
        requires
            nodes@.len() > 0,
        ensures
            t.spec_nodes() == nodes@,
            t.spec_graph() == *graph,
    {
        Tree { nodes, graph }
    }

    /// The root of the tree.
    pub fn root(&self) -> (r: NodeIndex)
        ensures
            self.spec_nodes().len() > 0,
            r == self.spec_nodes()[0],
    {
        proof {
            use_type_invariant(self);
        }
        self.nodes[0]
    }

    pub fn nodes(&self) -> (r: &[NodeIndex])
        ensures
            r@ == self.spec_nodes(),
    {
        self.nodes.as_slice()
    }

    /// The tree as text: its size, its root and the root's tree id.
    pub open spec fn spec_text(&self) -> Seq<char> {
        let count = self.spec_nodes().len();
        let root = self.spec_nodes()[0];
        "tree of "@ + digits(count, 10, false) + " node"@ + (if count == 1 {
            Seq::empty()
        } else {
            "s"@
        }) + " rooted at ["@ + digits(root as nat, 10, false) + "] "@ + display_of(
            self.spec_graph().spec_nodes()[root as int].spec_parenting().spec_tree_id(),
        )
    }

    /// The tree as text (see `spec_text`); its root must be a node of the
    /// graph.
    pub fn to_string(&self) -> (r: String)
        requires
            self.spec_nodes()[0] < self.spec_graph().spec_nodes().len(),
        ensures
            r@ == self.spec_text(),
    {
        proof {
            use_type_invariant(self);
        }
        let count = self.nodes.len();
        let root = self.root();
        let mut text = String::new();
        text.append("tree of ");
        let count_text = to_digits(count as u64, 10, false);
        text.append(count_text.as_str());
        text.append(" node");
        if count != 1 {
            text.append("s");
        }
        text.append(" rooted at [");
        let root_text = to_digits(root as u64, 10, false);
        text.append(root_text.as_str());
        text.append("] ");
        let id_text = self.graph.nodes()[root].to_string();
        text.append(id_text.as_str());
        assert(text@ =~= self.spec_text());
        text
    }

    /// The nodes of the tree, the root first.
    pub fn into_nodes(self) -> (r: Vec<NodeIndex>)
        ensures
            r@ == self.spec_nodes(),
    {
        self.nodes
    }

    /// One more than the largest depth among the tree's nodes, each of which
    /// must be a node of the graph below the largest depth.
    pub fn height(&self) -> (r: usize)
        requires
            forall|k: int|
                0 <= k < self.spec_nodes().len() ==> #[trigger] self.spec_nodes()[k]
                    < self.spec_graph().spec_nodes().len() && depth_of(
                    self.spec_graph().spec_nodes(),
                    self.spec_nodes()[k],
                ) < usize::MAX,
        ensures
            self.spec_nodes().len() > 0,
            exists|k: int|
                0 <= k < self.spec_nodes().len() && r == depth_of(
                    self.spec_graph().spec_nodes(),
                    #[trigger] self.spec_nodes()[k],
                ) + 1,
            forall|k: int|
                0 <= k < self.spec_nodes().len() ==> depth_of(
                    self.spec_graph().spec_nodes(),
                    #[trigger] self.spec_nodes()[k],
                ) < r,
    {
        proof {
            use_type_invariant(self);
        }
        let ghost graph_nodes = self.spec_graph().spec_nodes();
        let mut max_depth = self.graph.nodes()[self.nodes[0]].parenting().my_depth();
        let mut i: usize = 1;
        while i < self.nodes.len()
            invariant
                graph_nodes == self.spec_graph().spec_nodes(),
                1 <= i <= self.nodes@.len(),
                forall|k: int|
                    0 <= k < self.nodes@.len() ==> #[trigger] self.nodes@[k] < graph_nodes.len()
                        && depth_of(graph_nodes, self.nodes@[k]) < usize::MAX,
                exists|k: int| 0 <= k < i && max_depth == depth_of(graph_nodes, #[trigger] self.nodes@[k]),
                forall|k: int| 0 <= k < i ==> depth_of(graph_nodes, #[trigger] self.nodes@[k]) <= max_depth,
            decreases self.nodes@.len() - i,
        {
            let depth = self.graph.nodes()[self.nodes[i]].parenting().my_depth();
            if depth > max_depth {
                max_depth = depth;
            }
            i = i + 1;
        }
        max_depth + 1
    }
}

/// Whether the slice holds `x`.
fn slice_contains(s: &[NodeIndex], x: NodeIndex) -> (r: bool)
    ensures
        r == s@.contains(x),
{
    let mut i: usize = 0;
    while i < s.len()
        invariant
            i <= s@.len(),
            forall|j: int| 0 <= j < i ==> s@[j] != x,
        decreases s@.len() - i,
    {
        if s[i] == x {
            return true;
        }
        i = i + 1;
    }
    false
}

} // verus!
