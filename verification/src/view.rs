//! What a viewer of the simulation chooses to see, and the order in which the
//! chord view places the nodes around its circle.
use indexmap::IndexSet;
use itertools::Itertools;
use vstd::prelude::*;

use crate::graph::{lemma_trees_in_graph, trees_of, Graph, NodeIndex, Tree};
use crate::numerals::{digits, to_digits};
use crate::tree_id::TreeId;

verus! {

/// Whether the nodes are drawn on a circle or as a forest of trees.
#[derive(Clone, Debug, Copy, PartialEq, Eq, Structural)]
pub enum ViewMode {
    Forest,
    Chord,
}

/// Whether nodes keep their places, or are grouped by tree, largest first.
#[derive(Clone, Debug, Copy, PartialEq, Eq, Structural)]
pub enum RootPositions {
    Constant,
    Sorted,
}

/// The viewer's settings.
#[derive(Copy, Clone, Debug, PartialEq, Eq, Structural)]
pub struct Settings {
    pub view_mode: ViewMode,
    pub root_positions: RootPositions,
    pub show_tentative_requests: bool,
}

impl Default for Settings {
    /// The chord view with nodes in place, showing tentative requests.
    fn default() -> (s: Self)
        ensures
            s.view_mode == ViewMode::Chord,
            s.root_positions == RootPositions::Constant,
            s.show_tentative_requests,
    {
        Settings {
            view_mode: ViewMode::Chord,
            root_positions: RootPositions::Constant,
            show_tentative_requests: true,
        }
    }
}

/// An edit of a node's tree id: a valid id, or text that is not (yet) one.
#[derive(Debug, Clone)]
pub enum TreeIdEdit {
    Valid(TreeId),
    Invalid(String),
}

/// `sorted` holds the lists of `lists`, each once, by decreasing length,
/// lists of equal length in their order in `lists`: the list at place `k` of
/// `sorted` is the one at place `order[k]` of `lists`.
pub open spec fn sorted_by_size_as(
    lists: Seq<Seq<NodeIndex>>,
    sorted: Seq<Seq<NodeIndex>>,
    order: Seq<int>,
) -> bool {
    &&& sorted.len() == lists.len()
    &&& order.len() == lists.len()
    &&& forall|k: int|
        0 <= k < order.len() ==> 0 <= #[trigger] order[k] < lists.len() && sorted[k] == lists[order[k]]
    &&& forall|k: int, j: int|
        #![trigger order[k], order[j]]
        0 <= k < j < order.len() ==> order[k] != order[j]
    &&& forall|k: int, j: int|
        #![trigger sorted[k], sorted[j]]
        0 <= k < j < sorted.len() ==> sorted[k].len() >= sorted[j].len()
    &&& forall|k: int, j: int|
        #![trigger order[k], order[j]]
        0 <= k < j < sorted.len() && sorted[k].len() == sorted[j].len() ==> order[k] < order[j]
}

/// `sorted` is `lists` sorted stably by decreasing length.
pub open spec fn is_sorted_by_size(lists: Seq<Seq<NodeIndex>>, sorted: Seq<Seq<NodeIndex>>) -> bool {
    exists|order: Seq<int>| sorted_by_size_as(lists, sorted, order)
}

/// The lists one after the other.
pub open spec fn concat_all(lists: Seq<Seq<NodeIndex>>) -> Seq<NodeIndex>
    decreases lists.len(),
{
    if lists.len() == 0 {
        Seq::empty()
    } else {
        concat_all(lists.drop_last()) + lists.last()
    }
}

/// The elements of `s` in the order in which they first occur.
pub open spec fn first_occurrences(s: Seq<NodeIndex>) -> Seq<NodeIndex>
    decreases s.len(),
{
    if s.len() == 0 {
        Seq::empty()
    } else {
        let before = first_occurrences(s.drop_last());
        if before.contains(s.last()) {
            before
        } else {
            before.push(s.last())
        }
    }
}

/// The indices below `n`, in order.
pub open spec fn indices_below(n: nat) -> Seq<NodeIndex> {
    Seq::new(n, |i: int| i as NodeIndex)
}

/// The chord order of a graph's `n` nodes grouped by tree: the nodes of the
/// trees, in the given order of the trees, then the nodes in no tree; each
/// node at the first place it comes.
pub open spec fn chord_order(ordered_trees: Seq<Seq<NodeIndex>>, n: nat) -> Seq<NodeIndex> {
    first_occurrences(concat_all(ordered_trees) + indices_below(n))
}

/// The first occurrences hold each element once, and exactly the elements of
/// the sequence.
pub proof fn lemma_first_occurrences(s: Seq<NodeIndex>)
    ensures
        first_occurrences(s).no_duplicates(),
        forall|x: NodeIndex| #[trigger] first_occurrences(s).contains(x) <==> s.contains(x),
    decreases s.len(),
{
    if s.len() > 0 {
        let rest = s.drop_last();
        lemma_first_occurrences(rest);
        let before = first_occurrences(rest);
        assert forall|x: NodeIndex| #[trigger] first_occurrences(s).contains(x) <==> s.contains(x) by {
            if s.contains(x) && x != s.last() {
                let i = choose|i: int| 0 <= i < s.len() && s[i] == x;
                assert(rest[i] == x);
            }
            if rest.contains(x) {
                let i = choose|i: int| 0 <= i < rest.len() && rest[i] == x;
                assert(s[i] == x);
            }
            if !before.contains(s.last()) {
                if before.push(s.last()).contains(x) && x != s.last() {
                    let i = choose|i: int| 0 <= i < before.len() + 1 && before.push(s.last())[i] == x;
                    assert(before[i] == x);
                }
                if before.contains(x) {
                    let i = choose|i: int| 0 <= i < before.len() && before[i] == x;
                    assert(before.push(s.last())[i] == x);
                }
                assert(before.push(s.last())[before.len() as int] == s.last());
            }
            assert(s[s.len() - 1] == s.last());
        }
    }
}

/// In the chord order every node has exactly one place, whatever the
/// trees and their order, as long as they list nodes of the graph only.
pub proof fn lemma_chord_order_is_permutation(trees: Seq<Seq<NodeIndex>>, n: nat)
    requires
        forall|k: int, j: int|
            0 <= k < trees.len() && 0 <= j < trees[k].len() ==> #[trigger] trees[k][j] < n,
    ensures
        chord_order(trees, n).no_duplicates(),
        forall|x: NodeIndex| #[trigger] chord_order(trees, n).contains(x) <==> x < n,
{
    let front = concat_all(trees);
    let all = front + indices_below(n);
    lemma_first_occurrences(all);
    lemma_concat_below(trees, n);
    assert forall|x: NodeIndex| #[trigger] all.contains(x) <==> x < n by {
        if x < n {
            assert(all[front.len() + x] == x);
        }
        if all.contains(x) {
            let i = choose|i: int| 0 <= i < all.len() && all[i] == x;
            if i >= front.len() {
                assert(indices_below(n)[i - front.len()] == x);
            } else {
                assert(front[i] == x);
            }
        }
    }
}

/// Whether `list` is one of `lists`.
pub open spec fn one_of(lists: Seq<Seq<NodeIndex>>, list: Seq<NodeIndex>) -> bool {
    exists|j: int| 0 <= j < lists.len() && lists[j] == list
}

/// Every list of the sorted lists is one of the lists.
pub(crate) proof fn lemma_sorted_lists_come_from(lists: Seq<Seq<NodeIndex>>, sorted: Seq<Seq<NodeIndex>>)
    requires
        is_sorted_by_size(lists, sorted),
    ensures
        sorted.len() == lists.len(),
        forall|k: int| 0 <= k < sorted.len() ==> one_of(lists, #[trigger] sorted[k]),
{
    let order = choose|order: Seq<int>| sorted_by_size_as(lists, sorted, order);
    assert forall|k: int| 0 <= k < sorted.len() implies one_of(lists, #[trigger] sorted[k]) by {
        assert(0 <= order[k] < lists.len() && sorted[k] == lists[order[k]]);
    }
}

proof fn lemma_concat_below(lists: Seq<Seq<NodeIndex>>, n: nat)
    requires
        forall|k: int, j: int|
            0 <= k < lists.len() && 0 <= j < lists[k].len() ==> #[trigger] lists[k][j] < n,
    ensures
        forall|i: int| 0 <= i < concat_all(lists).len() ==> #[trigger] concat_all(lists)[i] < n,
    decreases lists.len(),
{
    if lists.len() > 0 {
        let rest = lists.drop_last();
        assert forall|k: int, j: int|
            0 <= k < rest.len() && 0 <= j < rest[k].len() implies #[trigger] rest[k][j] < n by {
            assert(rest[k] == lists[k]);
        }
        lemma_concat_below(rest, n);
        let front = concat_all(rest);
        assert forall|i: int| 0 <= i < concat_all(lists).len() implies #[trigger] concat_all(
            lists,
        )[i] < n by {
            if i < front.len() {
                assert(concat_all(lists)[i] == front[i]);
            } else {
                assert(concat_all(lists)[i] == lists.last()[i - front.len()]);
                assert(lists[lists.len() - 1] == lists.last());
            }
        }
    }
}

/// The contents of a list of vectors.
pub open spec fn views(lists: Seq<Vec<NodeIndex>>) -> Seq<Seq<NodeIndex>> {
    lists.map_values(|v: Vec<NodeIndex>| v@)
}

/// The key that puts longer lists first: the larger the list, the smaller
/// the key.
pub(crate) fn size_key(list: &Vec<NodeIndex>) -> (r: usize)
    ensures
        r == usize::MAX - list@.len(),
{
    usize::MAX - list.len()
}

/// Calls `Itertools::sorted_by_key` with `size_key`: the lists in order of
/// increasing key, so of decreasing length. `itertools` documents the sort
/// as stable (it collects into a `Vec` and calls `slice::sort_by_key`).
/// Claimed: the result is the lists sorted stably by decreasing length.
#[verifier::external_body]
fn sorted_by_size(lists: Vec<Vec<NodeIndex>>) -> (r: Vec<Vec<NodeIndex>>)
    ensures
        is_sorted_by_size(views(lists@), views(r@)),
{
    lists.into_iter().sorted_by_key(size_key).collect()
}

/// Calls `slice::sort_by_key` with `size_key`, which sorts by increasing
/// key, so by decreasing length, and is stable, as std documents.
/// Claimed: the lists end up sorted stably by decreasing length.
#[verifier::external_body]
pub(crate) fn sort_by_size(lists: &mut Vec<Vec<NodeIndex>>)
    ensures
        is_sorted_by_size(views(old(lists)@), views(final(lists)@)),
{
    lists.sort_by_key(size_key)
}

/// The lists one after the other (see `concat_all`).
fn concat_lists(lists: &Vec<Vec<NodeIndex>>) -> (r: Vec<NodeIndex>)
    ensures
        r@ == concat_all(views(lists@)),
{
    let mut r: Vec<NodeIndex> = Vec::new();
    let mut i: usize = 0;
    while i < lists.len()
        invariant
            i <= lists@.len(),
            r@ == concat_all(views(lists@).take(i as int)),
        decreases lists@.len() - i,
    {
        let mut part = vstd::slice::slice_to_vec(lists[i].as_slice());
        r.append(&mut part);
        proof {
            let taken = views(lists@).take(i + 1);
            assert(taken.drop_last() =~= views(lists@).take(i as int));
            assert(taken.last() == lists@[i as int]@);
        }
        i = i + 1;
    }
    assert(views(lists@).take(i as int) =~= views(lists@));
    r
}

/// Collects the items into an `indexmap::IndexSet` and back. Inserting an
/// item that the set holds leaves it at its place, and a new item goes last,
/// as `indexmap` documents. Claimed: the result holds each item once, in the
/// order in which the items first occur.
#[verifier::external_body]
fn first_occurrences_in(items: Vec<NodeIndex>) -> (r: Vec<NodeIndex>)
    ensures
        r@ == first_occurrences(items@),
{
    let set: IndexSet<NodeIndex> = items.into_iter().collect();
    set.into_iter().collect()
}

/// The node lists of the graph's trees (see `trees_of`).
pub(crate) fn tree_node_lists(graph: &Graph, confirmed_only: bool) -> (r: Vec<Vec<NodeIndex>>)
    requires
        graph.wf(),
    ensures
        views(r@) == trees_of(graph.spec_nodes(), confirmed_only, graph.spec_nodes().len() as int),
{
    let trees = graph.trees(confirmed_only);
    let mut lists: Vec<Vec<NodeIndex>> = Vec::new();
    let mut k: usize = 0;
    while k < trees.len()
        invariant
            k <= trees@.len(),
            lists@.len() == k,
            views(lists@) == trees@.take(k as int).map_values(|t: Tree| t.spec_nodes()),
        decreases trees@.len() - k,
    {
        let ghost before = lists@;
        let list = vstd::slice::slice_to_vec(trees[k].nodes());
        lists.push(list);
        proof {
            let target = trees@.take(k + 1).map_values(|t: Tree| t.spec_nodes());
            assert forall|j: int| 0 <= j < k + 1 implies views(lists@)[j] == target[j] by {
                if j < k {
                    assert(lists@[j] == before[j]);
                    assert(views(before)[j] == trees@.take(k as int).map_values(
                        |t: Tree| t.spec_nodes(),
                    )[j]);
                } else {
                    assert(lists@[j] == list);
                }
            }
            assert(views(lists@) =~= target);
        }
        k = k + 1;
    }
    let ghost tree_lists = trees_of(graph.spec_nodes(), confirmed_only, graph.spec_nodes().len() as int);
    assert(views(lists@) =~= tree_lists);
    lists
}

/// Where the chord view places the graph's nodes: the node at each position
/// of the circle.
pub struct ChordLayout {
    graph_to_chord_permutation: Vec<NodeIndex>,
}

impl ChordLayout {
    pub closed spec fn spec_permutation(&self) -> Seq<NodeIndex> {
        self.graph_to_chord_permutation@
    }

    /// The order of the graph's nodes around the circle: in place, or grouped
    /// by tree (see `chord_order`), the trees over all children sorted stably
    /// by decreasing size. Every node has exactly one place.
    pub fn new(graph: &Graph, root_positions: RootPositions) -> (c: Self)
        requires
            graph.wf(),
        ensures
            root_positions == RootPositions::Constant ==> c.spec_permutation() == indices_below(
                graph.spec_nodes().len(),
            ),
            root_positions == RootPositions::Sorted ==> exists|ordered: Seq<Seq<NodeIndex>>|
                is_sorted_by_size(
                    trees_of(graph.spec_nodes(), false, graph.spec_nodes().len() as int),
                    ordered,
                ) && c.spec_permutation() == #[trigger] chord_order(ordered, graph.spec_nodes().len()),
            c.spec_permutation().no_duplicates(),
            forall|x: NodeIndex|
                #[trigger] c.spec_permutation().contains(x) <==> x < graph.spec_nodes().len(),
    {
        let num_nodes = graph.nodes().len();
        let mut in_place: Vec<NodeIndex> = Vec::new();
        let mut i: usize = 0;
        while i < num_nodes
            invariant
                i <= num_nodes,
                in_place@ == indices_below(i as nat),
            decreases num_nodes - i,
        {
            in_place.push(i);
            assert(in_place@ =~= indices_below((i + 1) as nat));
            i = i + 1;
        }
        let permutation = match root_positions {
            RootPositions::Constant => {
                proof {
                    let p = in_place@;
                    assert forall|x: NodeIndex| #[trigger] p.contains(x) <==> x < num_nodes by {
                        if x < num_nodes {
                            assert(p[x as int] == x);
                        }
                    }
                    assert forall|a: int, b: int|
                        0 <= a < p.len() && 0 <= b < p.len() && a != b implies p[a] != p[b] by {}
                }
                in_place
            },
            RootPositions::Sorted => {
                let lists = tree_node_lists(graph, false);
                let ghost tree_lists = trees_of(graph.spec_nodes(), false, num_nodes as int);
                assert(views(lists@) =~= tree_lists);
                let sorted = sorted_by_size(lists);
                let ghost ordered = views(sorted@);
                proof {
                    lemma_trees_in_graph(*graph, false, num_nodes as int);
                    lemma_sorted_lists_come_from(tree_lists, ordered);
                    assert forall|a: int, b: int|
                        0 <= a < ordered.len() && 0 <= b < ordered[a].len() implies #[trigger] ordered[a][b]
                        < num_nodes by {
                        assert(one_of(tree_lists, ordered[a]));
                        let j = choose|j: int| 0 <= j < tree_lists.len() && tree_lists[j] == ordered[a];
                        assert(tree_lists[j][b] < num_nodes);
                    }
                    lemma_chord_order_is_permutation(ordered, num_nodes as nat);
                }
                let mut all = concat_lists(&sorted);
                let mut rest = in_place;
                all.append(&mut rest);
                let permutation = first_occurrences_in(all);
                assert(permutation@ == chord_order(ordered, num_nodes as nat));
                permutation
            },
        };
        ChordLayout { graph_to_chord_permutation: permutation }
    }

    /// The node at each position of the circle.
    pub fn permutation(&self) -> (r: &[NodeIndex])
        ensures
            r@ == self.spec_permutation(),
    {
        self.graph_to_chord_permutation.as_slice()
    }
}

/// The status line of the viewer: the round, the number of trees, and the
/// rounds left until a reset, while one is counting down.
pub open spec fn status_text(round: nat, num_trees: nat, reset_countdown: Option<usize>) -> Seq<char> {
    "round "@ + digits(round, 10, false) + ", "@ + digits(num_trees, 10, false) + " tree"@ + (if num_trees > 1 {
        "s"@
    } else {
        Seq::empty()
    }) + match reset_countdown {
        Some(c) => ", resetting in "@ + digits(c as nat, 10, false) + " rounds"@,
        None => Seq::empty(),
    }
}

/// The status line (see `status_text`).
pub fn status(round: usize, num_trees: usize, reset_countdown: Option<usize>) -> (r: String)
    ensures
        r@ == status_text(round as nat, num_trees as nat, reset_countdown),
{
    let mut text = String::new();
    text.append("round ");
    let round_text = to_digits(round as u64, 10, false);
    text.append(round_text.as_str());
    text.append(", ");
    let trees_text = to_digits(num_trees as u64, 10, false);
    text.append(trees_text.as_str());
    text.append(" tree");
    if num_trees > 1 {
        text.append("s");
    }
    if let Some(countdown) = reset_countdown {
        text.append(", resetting in ");
        let countdown_text = to_digits(countdown as u64, 10, false);
        text.append(countdown_text.as_str());
        text.append(" rounds");
    }
    assert(text@ =~= status_text(round as nat, num_trees as nat, reset_countdown));
    text
}

} // verus!
