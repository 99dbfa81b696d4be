//! Parenting: each node elects as its parent the peer that offers the best
//! tree, and looks for children to offer its own tree to.
use rand::rngs::ThreadRng;
use std::cmp::Ordering;
use vstd::prelude::*;

use crate::graph::NodeIndex;
use crate::messages::{Message, ReceivedMessage, SentMessage};
use crate::random_peer_generator::{floor_sub, PeerGenerator};
use crate::rng;
use crate::tree_id::{id_lt, lemma_id_order_is_total, TreeId};
use crate::tree_info::{info_lt, info_tied, TreeInfo};
use crate::Configuration;

verus! {

/// A node's tree, its parent (none for a root), its depth in the tree, and
/// its children: first the confirmed ones, then those only offered the tree.
#[derive(Debug)]
pub struct ParentingData {
    pub(crate) tree_id: TreeId,
    pub(crate) parent: Option<NodeIndex>,
    pub(crate) my_depth: usize,
    pub(crate) children: Vec<NodeIndex>,
    pub(crate) num_confirmed_children: usize,
}

/// An offer of a tree, and the peer that made it.
#[derive(Debug, Clone, Copy, PartialEq, Eq, Structural)]
pub struct ReceivedRequest {
    pub source: NodeIndex,
    pub tree_info: TreeInfo,
}

/// Whether, running through the requests to find the best one, the best so
/// far (`kept`) stays ahead of the `next` one: it must be strictly
/// preferred, or tied with it and come from the current parent.
pub open spec fn keeps(kept: ReceivedRequest, next: ReceivedRequest, parent: Option<NodeIndex>) -> bool {
    info_lt(next.tree_info, kept.tree_info) || (info_tied(kept.tree_info, next.tree_info) && parent
        == Some(kept.source))
}

/// The best of the first `k` requests (at least one).
pub open spec fn best_of_prefix(
    requests: Seq<ReceivedRequest>,
    k: int,
    parent: Option<NodeIndex>,
) -> ReceivedRequest
    decreases k,
{
    if k <= 1 {
        requests[0]
    } else {
        let kept = best_of_prefix(requests, k - 1, parent);
        if keeps(kept, requests[k - 1], parent) {
            kept
        } else {
            requests[k - 1]
        }
    }
}

/// The best request, if there is any.
pub open spec fn best_request(requests: Seq<ReceivedRequest>, parent: Option<NodeIndex>) -> Option<
    ReceivedRequest,
> {
    if requests.len() == 0 {
        None
    } else {
        Some(best_of_prefix(requests, requests.len() as int, parent))
    }
}

/// Whether joining the offered tree improves on the node's own position: a
/// larger tree, or the same tree at a smaller depth.
pub open spec fn improves(offer: TreeInfo, tree_id: TreeId, depth: usize) -> bool {
    id_lt(tree_id, offer.tree_id) || (offer.tree_id == tree_id && offer.depth < depth)
}

/// The request a node elects as its parent: the best one, if it improves on
/// the node's position.
pub open spec fn elected(
    requests: Seq<ReceivedRequest>,
    parent: Option<NodeIndex>,
    tree_id: TreeId,
    depth: usize,
) -> Option<ReceivedRequest> {
    match best_request(requests, parent) {
        Some(best) => if improves(best.tree_info, tree_id, depth) {
            Some(best)
        } else {
            None
        },
        None => None,
    }
}

/// How requests move a node's parenting on: it joins the elected tree one
/// level below the elected parent, or, without one, becomes a root of its
/// own tree; its children stay.
pub open spec fn requests_processed(
    before: ParentingData,
    after: ParentingData,
    messages: Seq<ReceivedMessage>,
) -> bool {
    &&& after.spec_children() == before.spec_children()
    &&& after.spec_num_confirmed() == before.spec_num_confirmed()
    &&& match elected(
        requests_of(messages),
        before.spec_parent(),
        before.spec_tree_id(),
        before.spec_depth(),
    ) {
        Some(chosen) => {
            &&& after.spec_parent() == Some(chosen.source)
            &&& after.spec_tree_id() == chosen.tree_info.tree_id
            &&& after.spec_depth() == chosen.tree_info.depth + 1
        },
        None => {
            &&& after.spec_parent() == None::<NodeIndex>
            &&& after.spec_depth() == 0
            &&& after.spec_tree_id() == before.spec_tree_id()
        },
    }
}

/// The smaller of two numbers.
pub open spec fn min_nat(a: nat, b: nat) -> nat {
    if a <= b {
        a
    } else {
        b
    }
}

/// The peers a generator with `remaining` peers still gives once the kept
/// children and the parent, if any, are excluded as well.
pub open spec fn available_peers(remaining: nat, kept: nat, parent: Option<NodeIndex>) -> nat {
    floor_sub(remaining, kept + if parent is Some {
        1nat
    } else {
        0nat
    })
}

/// How a node's children are renewed, drawing new children from a generator
/// of peers with `remaining` peers left: the children in `confirmed` stay, in
/// order and confirmed; then, while there are fewer than `d` children, new
/// children are drawn until there are `d` or the generator runs out, so
/// that as many are drawn as `d` allows and the generator can give once
/// the staying children and the parent are excluded. A new child is a node
/// of the graph, not the parent, not excluded, not a staying child, and not
/// another new child. Tree, parent and depth stay.
pub open spec fn children_regenerated(
    before: ParentingData,
    after: ParentingData,
    confirmed: Seq<NodeIndex>,
    n: usize,
    d: usize,
    excluded: spec_fn(NodeIndex) -> bool,
    remaining: nat,
) -> bool {
    let kept = retained_children(before.spec_children(), confirmed);
    let children = after.spec_children();
    let drawn = (children.len() - kept.len()) as nat;
    &&& after.spec_tree_id() == before.spec_tree_id()
    &&& after.spec_parent() == before.spec_parent()
    &&& after.spec_depth() == before.spec_depth()
    &&& after.spec_num_confirmed() == kept.len()
    &&& kept.len() <= children.len()
    &&& children.take(kept.len() as int) == kept
    &&& kept.len() < d ==> drawn == min_nat(
        (d - kept.len()) as nat,
        available_peers(remaining, kept.len(), before.spec_parent()),
    )
    &&& kept.len() >= d ==> children.len() == kept.len()
    &&& forall|k: int|
        kept.len() <= k < children.len() ==> {
            &&& #[trigger] children[k] < n
            &&& before.spec_parent() != Some(children[k])
            &&& !excluded(children[k])
            &&& !kept.contains(children[k])
        }
    &&& forall|k1: int, k2: int|
        kept.len() <= k1 < k2 < children.len() ==> children[k1] != children[k2]
}

/// The requests among the messages, in order.
pub open spec fn requests_of(messages: Seq<ReceivedMessage>) -> Seq<ReceivedRequest>
    decreases messages.len(),
{
    if messages.len() == 0 {
        Seq::empty()
    } else {
        let rest = requests_of(messages.drop_last());
        match messages.last().message {
            Message::Request(info) => rest.push(ReceivedRequest { source: messages.last().source, tree_info: info }),
            Message::Confirmation(_) => rest,
        }
    }
}

/// The senders of confirmations among the messages, in order.
pub open spec fn confirmation_sources(messages: Seq<ReceivedMessage>) -> Seq<NodeIndex>
    decreases messages.len(),
{
    if messages.len() == 0 {
        Seq::empty()
    } else {
        let rest = confirmation_sources(messages.drop_last());
        match messages.last().message {
            Message::Confirmation(_) => rest.push(messages.last().source),
            Message::Request(_) => rest,
        }
    }
}

/// No request among the messages offers a tree at the largest depth, which
/// could not be joined one level further down.
pub open spec fn request_depths_bounded(messages: Seq<ReceivedMessage>) -> bool {
    forall|i: int|
        0 <= i < messages.len() ==> (#[trigger] messages[i].message matches Message::Request(info)
            ==> info.depth < usize::MAX)
}

/// The children that stay: those that confirmed, in their order.
pub open spec fn retained_children(children: Seq<NodeIndex>, confirmed: Seq<NodeIndex>) -> Seq<
    NodeIndex,
> {
    children.filter(|c: NodeIndex| confirmed.contains(c))
}

/// The children that stay when the graph is resized: those still in it.
pub open spec fn children_in_graph(children: Seq<NodeIndex>, n: usize) -> Seq<NodeIndex> {
    children.filter(|c: NodeIndex| c < n)
}

/// The parent that stays when the graph is resized: one still in it.
pub open spec fn parent_in_graph(parent: Option<NodeIndex>, n: usize) -> Option<NodeIndex> {
    match parent {
        Some(p) => if p < n {
            Some(p)
        } else {
            None
        },
        None => None,
    }
}

/// Every request comes from a request message of the same sender.
pub proof fn lemma_requests_come_from_messages(messages: Seq<ReceivedMessage>)
    ensures
        forall|j: int|
            0 <= j < requests_of(messages).len() ==> exists|i: int|
                0 <= i < messages.len() && messages[i].source == #[trigger] requests_of(
                    messages,
                )[j].source && messages[i].message == Message::Request(
                    requests_of(messages)[j].tree_info,
                ),
    decreases messages.len(),
{
    if messages.len() > 0 {
        let rest = messages.drop_last();
        lemma_requests_come_from_messages(rest);
        assert forall|j: int| 0 <= j < requests_of(messages).len() implies exists|i: int|
            0 <= i < messages.len() && messages[i].source == #[trigger] requests_of(
                messages,
            )[j].source && messages[i].message == Message::Request(
                requests_of(messages)[j].tree_info,
            ) by {
            if j < requests_of(rest).len() {
                let i = choose|i: int|
                    0 <= i < rest.len() && rest[i].source == #[trigger] requests_of(rest)[j].source
                        && rest[i].message == Message::Request(requests_of(rest)[j].tree_info);
                assert(messages[i] == rest[i]);
            } else {
                assert(messages[messages.len() - 1] == messages.last());
            }
        }
    }
}

/// Keeping some elements of a sequence without duplicates leaves none.
proof fn lemma_filter_no_duplicates(s: Seq<NodeIndex>, pred: spec_fn(NodeIndex) -> bool)
    requires
        s.no_duplicates(),
    ensures
        s.filter(pred).no_duplicates(),
    decreases s.len(),
{
    if s.len() > 0 {
        let rest = s.drop_last();
        let x = s.last();
        assert(rest.push(x) =~= s);
        rest.lemma_filter_push(x, pred);
        assert forall|i: int, j: int| 0 <= i < rest.len() && 0 <= j < rest.len() && i != j implies rest[i]
            != rest[j] by {
            assert(rest[i] == s[i] && rest[j] == s[j]);
        }
        lemma_filter_no_duplicates(rest, pred);
        if pred(x) {
            let kept = rest.filter(pred);
            if kept.contains(x) {
                rest.lemma_filter_contains_rev(pred, x);
                let k = choose|k: int| 0 <= k < rest.len() && rest[k] == x;
                assert(s[k] == s[s.len() - 1]);
            }
            assert forall|i: int, j: int|
                0 <= i < kept.len() + 1 && 0 <= j < kept.len() + 1 && i != j implies kept.push(x)[i]
                != kept.push(x)[j] by {
                if i < kept.len() && j == kept.len() {
                    assert(kept.contains(kept[i]));
                }
                if j < kept.len() && i == kept.len() {
                    assert(kept.contains(kept[j]));
                }
            }
        }
    }
}

/// Whether the slice holds `x`.
fn slice_contains(s: &[NodeIndex], x: NodeIndex) -> (r: bool)
    ensures
        r == s@.contains(x),
{
    let mut i: usize = 0;
    while i < s.len()
        invariant
            i <= s@.len(),
            forall|j: int| 0 <= j < i ==> s@[j] != x,
        decreases s@.len() - i,
    {
        if s[i] == x {
            return true;
        }
        i = i + 1;
    }
    false
}

/// The requests among the messages.
fn collect_requests(messages: &[ReceivedMessage]) -> (r: Vec<ReceivedRequest>)
    ensures
        r@ == requests_of(messages@),
{
    let mut r: Vec<ReceivedRequest> = Vec::new();
    let mut i: usize = 0;
    while i < messages.len()
        invariant
            i <= messages@.len(),
            r@ == requests_of(messages@.take(i as int)),
        decreases messages@.len() - i,
    {
        let m = messages[i];
        proof {
            assert(messages@.take(i + 1).drop_last() =~= messages@.take(i as int));
            assert(messages@.take(i + 1).last() == m);
        }
        match m.message {
            Message::Request(info) => {
                r.push(ReceivedRequest { source: m.source, tree_info: info });
            },
            Message::Confirmation(_) => {},
        }
        i = i + 1;
    }
    assert(messages@.take(i as int) =~= messages@);
    r
}

/// The senders of the confirmations among the messages.
fn collect_confirmation_sources(messages: &[ReceivedMessage]) -> (r: Vec<NodeIndex>)
    ensures
        r@ == confirmation_sources(messages@),
{
    let mut r: Vec<NodeIndex> = Vec::new();
    let mut i: usize = 0;
    while i < messages.len()
        invariant
            i <= messages@.len(),
            r@ == confirmation_sources(messages@.take(i as int)),
        decreases messages@.len() - i,
    {
        let m = messages[i];
        proof {
            assert(messages@.take(i + 1).drop_last() =~= messages@.take(i as int));
            assert(messages@.take(i + 1).last() == m);
        }
        match m.message {
            Message::Confirmation(_) => {
                r.push(m.source);
            },
            Message::Request(_) => {},
        }
        i = i + 1;
    }
    assert(messages@.take(i as int) =~= messages@);
    r
}

/// The best request is one of the requests.
pub proof fn lemma_best_is_a_request(requests: Seq<ReceivedRequest>, k: int, parent: Option<NodeIndex>)
    requires
        1 <= k <= requests.len(),
    ensures
        exists|j: int| 0 <= j < k && requests[j] == best_of_prefix(requests, k, parent),
    decreases k,
{
    if k > 1 {
        lemma_best_is_a_request(requests, k - 1, parent);
        let kept = best_of_prefix(requests, k - 1, parent);
        if !keeps(kept, requests[k - 1], parent) {
            assert(requests[k - 1] == best_of_prefix(requests, k, parent));
        }
    } else {
        assert(requests[0] == best_of_prefix(requests, k, parent));
    }
}

/// No request is preferred to the best one.
pub proof fn lemma_best_is_maximal(requests: Seq<ReceivedRequest>, k: int, parent: Option<NodeIndex>)
    requires
        1 <= k <= requests.len(),
    ensures
        forall|j: int|
            0 <= j < k ==> !info_lt(best_of_prefix(requests, k, parent).tree_info, #[trigger] requests[j].tree_info),
    decreases k,
{
    if k > 1 {
        lemma_best_is_maximal(requests, k - 1, parent);
    }
}

/// When the current parent's request is among the most preferred ones, it
/// is the one elected: a node does not switch between equally good parents.
pub proof fn lemma_best_keeps_parent(
    requests: Seq<ReceivedRequest>,
    k: int,
    parent_index: NodeIndex,
    j: int,
)
    requires
        0 <= j < k <= requests.len(),
        requests[j].source == parent_index,
        forall|i: int| 0 <= i < requests.len() ==> !info_lt(requests[j].tree_info, #[trigger] requests[i].tree_info),
    ensures
        best_of_prefix(requests, k, Some(parent_index)).source == parent_index,
        info_tied(best_of_prefix(requests, k, Some(parent_index)).tree_info, requests[j].tree_info),
    decreases k,
{
    let parent = Some(parent_index);
    if k == j + 1 {
        if k > 1 {
            lemma_best_is_a_request(requests, k - 1, parent);
        }
    } else {
        lemma_best_keeps_parent(requests, k - 1, parent_index, j);
    }
}

/// The request a node elects is one of the requests among its messages, no
/// request is preferred to it, and joining its tree improves on the node's
/// position.
pub proof fn lemma_elected_is_best(
    messages: Seq<ReceivedMessage>,
    parent: Option<NodeIndex>,
    tree_id: TreeId,
    depth: usize,
)
    ensures
        elected(requests_of(messages), parent, tree_id, depth) matches Some(chosen) ==> {
            &&& requests_of(messages).contains(chosen)
            &&& forall|j: int|
                0 <= j < requests_of(messages).len() ==> !info_lt(
                    chosen.tree_info,
                    #[trigger] requests_of(messages)[j].tree_info,
                )
            &&& improves(chosen.tree_info, tree_id, depth)
        },
{
    let requests = requests_of(messages);
    if requests.len() > 0 {
        lemma_best_is_a_request(requests, requests.len() as int, parent);
        lemma_best_is_maximal(requests, requests.len() as int, parent);
    }
}

/// Every request message appears among the requests, with its sender.
proof fn lemma_messages_give_requests(messages: Seq<ReceivedMessage>, i: int, info: TreeInfo)
    requires
        0 <= i < messages.len(),
        messages[i].message == Message::Request(info),
    ensures
        requests_of(messages).contains(ReceivedRequest { source: messages[i].source, tree_info: info }),
    decreases messages.len(),
{
    let rest = messages.drop_last();
    let wanted = ReceivedRequest { source: messages[i].source, tree_info: info };
    if i == messages.len() - 1 {
        assert(messages.last() == messages[i]);
        assert(requests_of(messages) == requests_of(rest).push(wanted));
        assert(requests_of(messages)[requests_of(rest).len() as int] == wanted);
    } else {
        assert(rest[i] == messages[i]);
        lemma_messages_give_requests(rest, i, info);
        let k = choose|k: int| 0 <= k < requests_of(rest).len() && requests_of(rest)[k] == wanted;
        match messages.last().message {
            Message::Request(last) => {
                assert(requests_of(messages)[k] == wanted);
            },
            Message::Confirmation(_) => {
                assert(requests_of(messages) == requests_of(rest));
            },
        }
    }
}

/// Processing requests gives a node a parent exactly when some request
/// offers a larger tree than its own, or its own tree at a smaller depth
/// than its own. The node then joins the tree of a request from its new
/// parent, one level below it, and no request offers a larger tree, or the
/// same tree at a smaller depth.
pub proof fn lemma_parent_exactly_on_better_offer(
    before: ParentingData,
    after: ParentingData,
    messages: Seq<ReceivedMessage>,
)
    requires
        requests_processed(before, after, messages),
    ensures
        after.spec_parent() is Some <==> exists|i: int|
            0 <= i < messages.len() && (#[trigger] messages[i].message matches Message::Request(
                info,
            ) && (id_lt(before.spec_tree_id(), info.tree_id) || (info.tree_id
                == before.spec_tree_id() && info.depth < before.spec_depth()))),
        after.spec_parent() matches Some(parent) ==> exists|i: int|
            0 <= i < messages.len() && (#[trigger] messages[i].message matches Message::Request(
                info,
            ) && messages[i].source == parent && after.spec_tree_id() == info.tree_id
                && after.spec_depth() == info.depth + 1 && forall|k: int|
                0 <= k < messages.len() ==> !(#[trigger] messages[k].message matches Message::Request(
                    other,
                ) && (id_lt(info.tree_id, other.tree_id) || (info.tree_id == other.tree_id
                    && other.depth < info.depth)))),
{
    let requests = requests_of(messages);
    let id = before.spec_tree_id();
    let depth = before.spec_depth();
    let parent = before.spec_parent();
    lemma_elected_is_best(messages, parent, id, depth);
    lemma_requests_come_from_messages(messages);
    let better = exists|i: int|
        0 <= i < messages.len() && (#[trigger] messages[i].message matches Message::Request(info)
            && (id_lt(id, info.tree_id) || (info.tree_id == id && info.depth < depth)));
    if better {
        let i = choose|i: int|
            0 <= i < messages.len() && (#[trigger] messages[i].message matches Message::Request(
                info,
            ) && (id_lt(id, info.tree_id) || (info.tree_id == id && info.depth < depth)));
        let info = messages[i].message->Request_0;
        lemma_messages_give_requests(messages, i, info);
        let r = ReceivedRequest { source: messages[i].source, tree_info: info };
        let j = choose|j: int| 0 <= j < requests.len() && requests[j] == r;
        lemma_best_is_maximal(requests, requests.len() as int, parent);
        let best = best_of_prefix(requests, requests.len() as int, parent);
        assert(!info_lt(best.tree_info, requests[j].tree_info));
        lemma_id_order_is_total(id, info.tree_id, best.tree_info.tree_id);
        lemma_id_order_is_total(info.tree_id, best.tree_info.tree_id, id);
        assert(improves(best.tree_info, id, depth));
        assert(elected(requests, parent, id, depth) is Some);
    }
    match elected(requests, parent, id, depth) {
        Some(chosen) => {
            let j = choose|j: int| 0 <= j < requests.len() && requests[j] == chosen;
            let i = choose|i: int|
                0 <= i < messages.len() && messages[i].source == #[trigger] requests[j].source
                    && messages[i].message == Message::Request(requests[j].tree_info);
            assert(messages[i].message matches Message::Request(info) && (id_lt(id, info.tree_id)
                || (info.tree_id == id && info.depth < depth)));
            assert forall|k: int| 0 <= k < messages.len() implies !(#[trigger] messages[k].message matches Message::Request(
                other,
            ) && (id_lt(chosen.tree_info.tree_id, other.tree_id) || (chosen.tree_info.tree_id
                == other.tree_id && other.depth < chosen.tree_info.depth))) by {
                if messages[k].message is Request {
                    let other = messages[k].message->Request_0;
                    lemma_messages_give_requests(messages, k, other);
                    let m = choose|m: int|
                        0 <= m < requests.len() && requests[m] == ReceivedRequest {
                            source: messages[k].source,
                            tree_info: other,
                        };
                    assert(!info_lt(chosen.tree_info, requests[m].tree_info));
                }
            }
        },
        None => {},
    }
}

/// A node does not leave its parent for an equally good one: when the
/// current parent offers a most preferred tree, a node that elects a parent
/// elects the current one.
pub proof fn lemma_elected_keeps_parent(
    messages: Seq<ReceivedMessage>,
    parent_index: NodeIndex,
    tree_id: TreeId,
    depth: usize,
    j: int,
)
    requires
        0 <= j < requests_of(messages).len(),
        requests_of(messages)[j].source == parent_index,
        forall|i: int|
            0 <= i < requests_of(messages).len() ==> !info_lt(
                requests_of(messages)[j].tree_info,
                #[trigger] requests_of(messages)[i].tree_info,
            ),
    ensures
        elected(requests_of(messages), Some(parent_index), tree_id, depth) matches Some(chosen)
            ==> chosen.source == parent_index,
{
    let requests = requests_of(messages);
    lemma_best_keeps_parent(requests, requests.len() as int, parent_index, j);
}

impl ParentingData {
    pub closed spec fn spec_tree_id(&self) -> TreeId {
        self.tree_id
    }

    pub closed spec fn spec_parent(&self) -> Option<NodeIndex> {
        self.parent
    }

    pub closed spec fn spec_depth(&self) -> usize {
        self.my_depth
    }

    /// All children, confirmed ones first.
    pub closed spec fn spec_children(&self) -> Seq<NodeIndex> {
        self.children@
    }

    pub closed spec fn spec_num_confirmed(&self) -> nat {
        self.num_confirmed_children as nat
    }

    /// The confirmed children, or all children.
    pub open spec fn listed_children(&self, confirmed_only: bool) -> Seq<NodeIndex> {
        if confirmed_only {
            self.spec_children().take(self.spec_num_confirmed() as int)
        } else {
            self.spec_children()
        }
    }

    /// The confirmed children are a prefix of the children, and no child is
    /// listed twice.
    pub open spec fn wf(&self) -> bool {
        &&& self.spec_num_confirmed() <= self.spec_children().len()
        &&& self.spec_children().no_duplicates()
    }

    /// A root of the tree `tree_id`, without children.
    pub fn new_root(tree_id: TreeId) -> (p: Self)
        ensures
            p.wf(),
            p.spec_tree_id() == tree_id,
            p.spec_parent() == None::<NodeIndex>,
            p.spec_depth() == 0,
            p.spec_children() == Seq::<NodeIndex>::empty(),
            p.spec_num_confirmed() == 0,
    {
        ParentingData {
            tree_id,
            parent: None,
            my_depth: 0,
            children: Vec::new(),
            num_confirmed_children: 0,
        }
    }

    pub fn tree_id(&self) -> (r: &TreeId)
        ensures
            *r == self.spec_tree_id(),
    {
        &self.tree_id
    }

    pub fn is_root(&self) -> (r: bool)
        ensures
            r == (self.spec_parent() is None),
    {
        self.parent.is_none()
    }

    pub fn parent(&self) -> (r: Option<NodeIndex>)
        ensures
            r == self.spec_parent(),
    {
        self.parent
    }

    pub fn my_depth(&self) -> (r: usize)
        ensures
            r == self.spec_depth(),
    {
        self.my_depth
    }

    /// The children that confirmed.
    pub fn confirmed_children(&self) -> (r: &[NodeIndex])
        requires
            self.wf(),
        ensures
            r@ == self.spec_children().take(self.spec_num_confirmed() as int),
    {
        vstd::slice::slice_subrange(self.children.as_slice(), 0, self.num_confirmed_children)
    }

    /// The children that were offered the tree but have not confirmed.
    pub fn tentative_children(&self) -> (r: &[NodeIndex])
        requires
            self.wf(),
        ensures
            r@ == self.spec_children().skip(self.spec_num_confirmed() as int),
    {
        vstd::slice::slice_subrange(
            self.children.as_slice(),
            self.num_confirmed_children,
            self.children.len(),
        )
    }

    /// The confirmed children, or all children.
    pub fn children(&self, confirmed_only: bool) -> (r: &[NodeIndex])
        requires
            self.wf(),
        ensures
            r@ == self.listed_children(confirmed_only),
    {
        if confirmed_only {
            self.confirmed_children()
        } else {
            self.children.as_slice()
        }
    }

    pub fn set_tree_id(&mut self, value: TreeId)
        ensures
            final(self).spec_tree_id() == value,
            final(self).spec_parent() == old(self).spec_parent(),
            final(self).spec_depth() == old(self).spec_depth(),
            final(self).spec_children() == old(self).spec_children(),
            final(self).spec_num_confirmed() == old(self).spec_num_confirmed(),
    {
        self.tree_id = value;
    }

    /// Starts over as a root of the tree `tree_id`; the children are kept,
    /// none of them confirmed.
    pub fn reset(&mut self, tree_id: TreeId)
        requires
            old(self).wf(),
        ensures
            final(self).wf(),
            final(self).spec_tree_id() == tree_id,
            final(self).spec_parent() == None::<NodeIndex>,
            final(self).spec_depth() == 0,
            final(self).spec_children() == old(self).spec_children(),
            final(self).spec_num_confirmed() == 0,
    {
        self.tree_id = tree_id;
        self.parent = None;
        self.my_depth = 0;
        self.num_confirmed_children = 0;
    }

    fn adopt_parent(&mut self, parent_request: &ReceivedRequest)
        requires
            parent_request.tree_info.depth < usize::MAX,
        ensures
            final(self).parent == Some(parent_request.source),
            final(self).tree_id == parent_request.tree_info.tree_id,
            final(self).my_depth == parent_request.tree_info.depth + 1,
            final(self).children == old(self).children,
            final(self).num_confirmed_children == old(self).num_confirmed_children,
    {
        self.parent = Some(parent_request.source);
        self.tree_id = parent_request.tree_info.tree_id;
        self.my_depth = parent_request.tree_info.depth + 1;
    }

    fn become_root(&mut self)
        ensures
            final(self).parent == None::<NodeIndex>,
            final(self).my_depth == 0,
            final(self).tree_id == old(self).tree_id,
            final(self).children == old(self).children,
            final(self).num_confirmed_children == old(self).num_confirmed_children,
    {
        self.parent = None;
        self.my_depth = 0;
    }

    /// Whether the best request so far stays ahead of `next`.
    fn keeps_request(&self, kept: &ReceivedRequest, next: &ReceivedRequest) -> (r: bool)
        ensures
            r == keeps(*kept, *next, self.parent),
    {
        match kept.tree_info.cmp(&next.tree_info) {
            Ordering::Greater => true,
            Ordering::Less => false,
            Ordering::Equal => self.parent == Some(kept.source),
        }
    }

    /// Whether joining the offered tree improves on this node's position.
    fn improved_by(&self, offer: &TreeInfo) -> (r: bool)
        ensures
            r == improves(*offer, self.tree_id, self.my_depth),
    {
        match offer.tree_id.cmp(&self.tree_id) {
            Ordering::Less => false,
            Ordering::Equal => offer.depth < self.my_depth,
            Ordering::Greater => true,
        }
    }

    /// The best request, if it improves on this node's position.
    fn elect_parent(&self, requests: Vec<ReceivedRequest>) -> (r: Option<ReceivedRequest>)
        ensures
            r == elected(requests@, self.parent, self.tree_id, self.my_depth),
    {
        if requests.len() == 0 {
            return None;
        }
        let mut best = requests[0];
        let mut k: usize = 1;
        while k < requests.len()
            invariant
                1 <= k <= requests@.len(),
                best == best_of_prefix(requests@, k as int, self.parent),
            decreases requests@.len() - k,
        {
            if !self.keeps_request(&best, &requests[k]) {
                best = requests[k];
            }
            k = k + 1;
        }
        if self.improved_by(&best.tree_info) {
            Some(best)
        } else {
            None
        }
    }

    /// Elects a parent among the requests in the messages and joins its tree
    /// one level below it; without a request that improves on this node's
    /// position, the node becomes a root of its own tree. Returns the joined
    /// tree's offer.
    pub fn process_requests(&mut self, messages: &[ReceivedMessage]) -> (r: Option<TreeInfo>)
        requires
            old(self).wf(),
            request_depths_bounded(messages@),
        ensures
            final(self).wf(),
            requests_processed(*old(self), *final(self), messages@),
            r == match elected(
                requests_of(messages@),
                old(self).spec_parent(),
                old(self).spec_tree_id(),
                old(self).spec_depth(),
            ) {
                Some(chosen) => Some(chosen.tree_info),
                None => None,
            },
            // A node's position never gets worse: its tree id does not
            // decrease, and within the same tree its depth does not grow.
            !id_lt(final(self).spec_tree_id(), old(self).spec_tree_id()),
            final(self).spec_tree_id() == old(self).spec_tree_id() ==> final(self).spec_depth()
                <= old(self).spec_depth(),
    {
        let requests = collect_requests(messages);
        proof {
            lemma_requests_come_from_messages(messages@);
        }
        let ghost all_requests = requests@;
        match self.elect_parent(requests) {
            Some(parent) => {
                proof {
                    lemma_best_is_a_request(all_requests, all_requests.len() as int, self.parent);
                    let j = choose|j: int|
                        0 <= j < all_requests.len() && all_requests[j] == best_of_prefix(
                            all_requests,
                            all_requests.len() as int,
                            self.parent,
                        );
                    let i = choose|i: int|
                        0 <= i < messages@.len() && messages@[i].source == #[trigger] all_requests[j].source
                            && messages@[i].message == Message::Request(all_requests[j].tree_info);
                    assert(messages@[i].message matches Message::Request(info) ==> info.depth
                        < usize::MAX);
                }
                self.adopt_parent(&parent);
                Some(parent.tree_info)
            },
            None => {
                self.become_root();
                None
            },
        }
    }

    /// Keeps, in order, the children that confirmed, then looks for new
    /// children among the peers that `pg` generates until there are `d`
    /// children or no peer is left. A new child is neither the parent, nor
    /// an existing child, nor a peer `pg` excluded from the start.
    pub fn regenerate_children<G: PeerGenerator>(
        &mut self,
        conf: &Configuration,
        confirmed_children: Vec<NodeIndex>,
        pg: G,
    )
        requires
            old(self).wf(),
            pg.inv(),
            pg.peer_count() == conf.n,
        ensures
            final(self).wf(),
            children_regenerated(
                *old(self),
                *final(self),
                confirmed_children@,
                conf.n,
                conf.d,
                |q: NodeIndex| pg.is_excluded(q),
                pg.remaining(),
            ),
            exists|drawn_from: G|
                #[trigger] drawn_from.drawn() == pg.drawn() + final(self).spec_children().skip(
                    final(self).spec_num_confirmed() as int,
                ),
    {
        let ghost start = self.children@;
        let ghost confirmed = confirmed_children@;
        let ghost keep_pred = |c: NodeIndex| confirmed.contains(c);
        let mut kept: Vec<NodeIndex> = Vec::new();
        let mut excludes: Vec<NodeIndex> = Vec::new();
        let mut i: usize = 0;
        while i < self.children.len()
            invariant
                i <= self.children@.len(),
                self.children@ == start,
                confirmed == confirmed_children@,
                keep_pred == (|c: NodeIndex| confirmed.contains(c)),
                kept@ == start.take(i as int).filter(keep_pred),
                excludes@ == kept@,
            decreases self.children@.len() - i,
        {
            let c = self.children[i];
            proof {
                assert(start.take(i + 1) =~= start.take(i as int).push(c));
                start.take(i as int).lemma_filter_push(c, keep_pred);
            }
            if slice_contains(confirmed_children.as_slice(), c) {
                kept.push(c);
                excludes.push(c);
            }
            i = i + 1;
        }
        assert(start.take(i as int) =~= start);
        let ghost kept_seq = kept@;
        let num_kept = kept.len();
        self.num_confirmed_children = 0;
        self.children = kept;
        self.num_confirmed_children = num_kept;
        match self.parent {
            Some(p) => excludes.push(p),
            None => {},
        }
        proof {
            lemma_filter_no_duplicates(start, keep_pred);
        }
        let mut pg = pg;
        let ghost first = pg;
        let ghost exclude_seq = excludes@;
        pg.exclude(excludes);
        let ghost available = pg.remaining();
        proof {
            if self.parent is Some {
                assert(exclude_seq =~= kept_seq.push(self.parent->0));
            } else {
                assert(exclude_seq =~= kept_seq);
            }
            assert(available == available_peers(first.remaining(), kept_seq.len(), self.parent));
            assert(self.children@.skip(kept_seq.len() as int) =~= Seq::<NodeIndex>::empty());
            assert(self.children@.take(kept_seq.len() as int) =~= kept_seq);
            assert forall|q: NodeIndex| exclude_seq.contains(q) <==> (kept_seq.contains(q)
                || self.parent == Some(q)) by {
                if self.parent is Some {
                    let p = self.parent->0;
                    assert(exclude_seq =~= kept_seq.push(p));
                    if exclude_seq.contains(q) {
                        let k = choose|k: int| 0 <= k < exclude_seq.len() && exclude_seq[k] == q;
                        if k < kept_seq.len() {
                            assert(kept_seq[k] == q);
                        }
                    }
                    if kept_seq.contains(q) {
                        let k = choose|k: int| 0 <= k < kept_seq.len() && kept_seq[k] == q;
                        assert(exclude_seq[k] == q);
                    }
                    if self.parent == Some(q) {
                        assert(exclude_seq[kept_seq.len() as int] == q);
                    }
                } else {
                    assert(exclude_seq =~= kept_seq);
                }
            }
        }
        while self.children.len() < conf.d
            invariant
                pg.inv(),
                pg.peer_count() == conf.n,
                self.num_confirmed_children == kept_seq.len(),
                kept_seq.len() <= self.children@.len(),
                self.children@.take(kept_seq.len() as int) == kept_seq,
                kept_seq.len() < conf.d ==> self.children@.len() <= conf.d,
                kept_seq.len() >= conf.d ==> self.children@.len() == kept_seq.len(),
                forall|q: NodeIndex|
                    #[trigger] pg.is_excluded(q) <==> (first.is_excluded(q) || kept_seq.contains(q)
                        || self.parent == Some(q) || self.children@.skip(
                        kept_seq.len() as int,
                    ).contains(q)),
                forall|k: int|
                    kept_seq.len() <= k < self.children@.len() ==> {
                        &&& #[trigger] self.children@[k] < conf.n
                        &&& self.parent != Some(self.children@[k])
                        &&& !first.is_excluded(self.children@[k])
                        &&& !kept_seq.contains(self.children@[k])
                    },
                forall|k1: int, k2: int|
                    kept_seq.len() <= k1 < k2 < self.children@.len() ==> self.children@[k1]
                        != self.children@[k2],
                self.tree_id == old(self).tree_id,
                self.parent == old(self).parent,
                self.my_depth == old(self).my_depth,
                kept_seq.no_duplicates(),
                self.children@.len() - kept_seq.len() <= available,
                pg.remaining() == available - (self.children@.len() - kept_seq.len()),
                pg.drawn() == first.drawn() + self.children@.skip(kept_seq.len() as int),
            ensures
                kept_seq.len() < conf.d ==> (self.children@.len() == conf.d || pg.remaining() == 0),
            decreases conf.d - self.children@.len(),
        {
            let candidate = match pg.generate_peer() {
                Some(candidate) => candidate,
                None => break,
            };
            let ghost before = self.children@;
            assert(candidate < conf.n && self.parent != Some(candidate) && !before.contains(
                candidate,
            )) by {
                if before.contains(candidate) {
                    let k = choose|k: int| 0 <= k < before.len() && before[k] == candidate;
                    if k < kept_seq.len() {
                        assert(before.take(kept_seq.len() as int)[k] == candidate);
                    } else {
                        assert(before.skip(kept_seq.len() as int)[k - kept_seq.len()] == candidate);
                    }
                }
            }
            self.children.push(candidate);
            proof {
                assert(self.children@.take(kept_seq.len() as int) =~= before.take(
                    kept_seq.len() as int,
                ));
                assert(self.children@.skip(kept_seq.len() as int) =~= before.skip(
                    kept_seq.len() as int,
                ).push(candidate));
                assert forall|q: NodeIndex| #[trigger]
                    self.children@.skip(kept_seq.len() as int).contains(q) <==> (before.skip(
                        kept_seq.len() as int,
                    ).contains(q) || q == candidate) by {
                    let tail = before.skip(kept_seq.len() as int);
                    if self.children@.skip(kept_seq.len() as int).contains(q) {
                        let k = choose|k: int|
                            0 <= k < tail.len() + 1 && tail.push(candidate)[k] == q;
                        if k < tail.len() {
                            assert(tail[k] == q);
                        }
                    }
                    if tail.contains(q) {
                        let k = choose|k: int| 0 <= k < tail.len() && tail[k] == q;
                        assert(tail.push(candidate)[k] == q);
                    }
                    if q == candidate {
                        assert(tail.push(candidate)[tail.len() as int] == q);
                    }
                }
                assert forall|k: int| kept_seq.len() <= k < before.len() implies before[k]
                    != candidate by {
                    assert(before.skip(kept_seq.len() as int)[k - kept_seq.len()] == before[k]);
                }
            }
        }
        assert(pg.drawn() == first.drawn() + self.children@.skip(self.num_confirmed_children as int));
        proof {
            let c = self.children@;
            let kl = kept_seq.len() as int;
            assert forall|i: int, j: int| 0 <= i < c.len() && 0 <= j < c.len() && i != j implies c[i]
                != c[j] by {
                if i < kl {
                    assert(c.take(kl)[i] == c[i]);
                }
                if j < kl {
                    assert(c.take(kl)[j] == c[j]);
                }
                if i < kl && j >= kl {
                    assert(kept_seq.contains(c[i]));
                }
                if j < kl && i >= kl {
                    assert(kept_seq.contains(c[j]));
                }
            }
        }
    }

    /// Keeps the children that confirmed and looks for new ones (see
    /// `regenerate_children`).
    pub fn process_confirmations<G: PeerGenerator>(
        &mut self,
        messages: &[ReceivedMessage],
        conf: &Configuration,
        pg: G,
    )
        requires
            old(self).wf(),
            pg.inv(),
            pg.peer_count() == conf.n,
        ensures
            final(self).wf(),
            children_regenerated(
                *old(self),
                *final(self),
                confirmation_sources(messages@),
                conf.n,
                conf.d,
                |q: NodeIndex| pg.is_excluded(q),
                pg.remaining(),
            ),
            exists|drawn_from: G|
                #[trigger] drawn_from.drawn() == pg.drawn() + final(self).spec_children().skip(
                    final(self).spec_num_confirmed() as int,
                ),
    {
        let confirmed = collect_confirmation_sources(messages);
        self.regenerate_children(conf, confirmed, pg);
    }

    /// Fits the parenting to a resized graph: drops the parent and children
    /// no longer in it, keeps at most `d` children, and forgets which
    /// children confirmed.
    pub fn update_for_configuration(&mut self, conf: &Configuration)
        requires
            old(self).wf(),
        ensures
            final(self).wf(),
            final(self).spec_tree_id() == old(self).spec_tree_id(),
            final(self).spec_depth() == old(self).spec_depth(),
            final(self).spec_parent() == parent_in_graph(old(self).spec_parent(), conf.n),
            ({
                let in_graph = children_in_graph(old(self).spec_children(), conf.n);
                final(self).spec_children() == if in_graph.len() > conf.d {
                    in_graph.take(conf.d as int)
                } else {
                    in_graph
                }
            }),
            final(self).spec_num_confirmed() == 0,
    {
        let ghost start = self.children@;
        let ghost pred = |c: NodeIndex| c < conf.n;
        let mut in_graph: Vec<NodeIndex> = Vec::new();
        let mut i: usize = 0;
        while i < self.children.len()
            invariant
                i <= self.children@.len(),
                self.children@ == start,
                pred == (|c: NodeIndex| c < conf.n),
                in_graph@ == start.take(i as int).filter(pred),
            decreases self.children@.len() - i,
        {
            let c = self.children[i];
            proof {
                assert(start.take(i + 1) =~= start.take(i as int).push(c));
                start.take(i as int).lemma_filter_push(c, pred);
            }
            if c < conf.n {
                in_graph.push(c);
            }
            i = i + 1;
        }
        assert(start.take(i as int) =~= start);
        proof {
            lemma_filter_no_duplicates(start, pred);
        }
        if in_graph.len() > conf.d {
            let ghost all = in_graph@;
            in_graph.truncate(conf.d);
            assert forall|a: int, b: int|
                0 <= a < in_graph@.len() && 0 <= b < in_graph@.len() && a != b implies in_graph@[a]
                != in_graph@[b] by {
                assert(in_graph@[a] == all[a] && in_graph@[b] == all[b]);
            }
        }
        self.num_confirmed_children = 0;
        self.children = in_graph;
        self.parent = match self.parent {
            Some(p) => if p < conf.n {
                Some(p)
            } else {
                None
            },
            None => None,
        };
    }

    /// Offers the tree to every child, confirmed or not, in order.
    pub fn send_requests(&self, my_tree_info: TreeInfo) -> (r: Vec<SentMessage>)
        ensures
            r@.len() == self.spec_children().len(),
            forall|k: int|
                0 <= k < r@.len() ==> #[trigger] r@[k] == (SentMessage {
                    destination: self.spec_children()[k],
                    message: Message::Request(my_tree_info),
                }),
    {
        let mut r: Vec<SentMessage> = Vec::new();
        let mut i: usize = 0;
        while i < self.children.len()
            invariant
                i <= self.children@.len(),
                r@.len() == i,
                forall|k: int|
                    0 <= k < i ==> #[trigger] r@[k] == (SentMessage {
                        destination: self.children@[k],
                        message: Message::Request(my_tree_info),
                    }),
            decreases self.children@.len() - i,
        {
            r.push(SentMessage { destination: self.children[i], message: Message::Request(my_tree_info) });
            i = i + 1;
        }
        r
    }

    /// A node with a random tree id below `id_range`; it is a root with the
    /// configuration's probability (always, when that is certain, and never,
    /// when it is impossible), and otherwise has a random parent and depth
    /// below `n`, which then must be at least 2. It has no children.
    pub fn new_random(conf: &Configuration, rng: &mut ThreadRng) -> (p: Self)
        requires
            conf.n >= 2 || conf.initial_root_probability.is_certain(),
            conf.id_range > 0,
        ensures
            conf.initial_root_probability.is_certain() ==> p.spec_parent() is None,
            conf.initial_root_probability.is_impossible() ==> p.spec_parent() is Some,
            p.wf(),
            p.spec_tree_id().primary < conf.id_range,
            p.spec_tree_id().secondary < conf.id_range,
            p.spec_children() == Seq::<NodeIndex>::empty(),
            p.spec_num_confirmed() == 0,
            p.spec_parent() is None ==> p.spec_depth() == 0,
            p.spec_parent() matches Some(parent) ==> parent < conf.n && 1 <= p.spec_depth() < conf.n,
    {
        let is_root = conf.draw_from_initial_root_probablity(rng);
        let tree_id = TreeId::new_random(conf.id_range, rng);
        let parent = if is_root {
            None
        } else {
            Some(rng::random_usize(rng, 0, conf.n))
        };
        let my_depth = if is_root {
            0
        } else {
            rng::random_usize(rng, 1, conf.n)
        };
        ParentingData {
            tree_id,
            parent,
            my_depth,
            children: Vec::with_capacity(conf.n),
            num_confirmed_children: 0,
        }
    }
}

} // verus!
