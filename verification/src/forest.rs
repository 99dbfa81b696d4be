//! The forest view: each tree of the graph drawn level by level below its
//! root, following the confirmed children.
use vstd::prelude::*;

use crate::graph::{
    lemma_trees_in_graph,
    listed_of,
    subtree_of,
    subtrees_below,
    trees_of,
    Graph,
    NodeIndex,
};
use crate::node::Node;
use crate::view::{
    is_sorted_by_size,
    one_of,
    lemma_sorted_lists_come_from,
    sort_by_size,
    tree_node_lists,
    views,
    RootPositions,
};

verus! {

/// The nodes one level below `level`: the confirmed children of each of its
/// nodes, one node's children after the other's.
pub open spec fn next_level(nodes: Seq<Node>, level: Seq<NodeIndex>) -> Seq<NodeIndex>
    decreases level.len(),
{
    if level.len() == 0 {
        Seq::empty()
    } else {
        next_level(nodes, level.drop_last()) + listed_of(nodes, level.last(), true)
    }
}

/// Level `k` below `root`: the root alone, then each level below the one
/// before it.
pub open spec fn level_of(nodes: Seq<Node>, root: NodeIndex, k: nat) -> Seq<NodeIndex>
    decreases k,
{
    if k == 0 {
        seq![root]
    } else {
        next_level(nodes, level_of(nodes, root, (k - 1) as nat))
    }
}

/// `levels` are the levels below `root`, from the root down to the last
/// level that is not empty. A chain of more levels than the graph has nodes
/// must pass some node twice, and such a chain never ends: the listing stops
/// after as many levels as the graph has nodes.
pub open spec fn levels_below(nodes: Seq<Node>, root: NodeIndex, levels: Seq<Seq<NodeIndex>>) -> bool {
    &&& 1 <= levels.len() <= nodes.len()
    &&& forall|k: int| 0 <= k < levels.len() ==> #[trigger] levels[k] == level_of(nodes, root, k as nat)
    &&& forall|k: int| 0 <= k < levels.len() ==> (#[trigger] levels[k]).len() > 0
    &&& levels.len() == nodes.len() || next_level(nodes, levels.last()).len() == 0
}

/// The next level lists nodes of the graph only.
proof fn lemma_next_level_in_graph(graph: Graph, level: Seq<NodeIndex>)
    requires
        graph.wf(),
        forall|i: int| 0 <= i < level.len() ==> #[trigger] level[i] < graph.spec_nodes().len(),
    ensures
        forall|i: int|
            0 <= i < next_level(graph.spec_nodes(), level).len() ==> #[trigger] next_level(
                graph.spec_nodes(),
                level,
            )[i] < graph.spec_nodes().len(),
    decreases level.len(),
{
    let nodes = graph.spec_nodes();
    if level.len() > 0 {
        let rest = level.drop_last();
        assert forall|i: int| 0 <= i < rest.len() implies #[trigger] rest[i] < nodes.len() by {
            assert(rest[i] == level[i]);
        }
        lemma_next_level_in_graph(graph, rest);
        let front = next_level(nodes, rest);
        let x = level.last();
        assert(level[level.len() - 1] == x);
        assert(nodes[x as int].wf_at(x as nat, graph.spec_conf().n as nat));
        let children = listed_of(nodes, x, true);
        let all = next_level(nodes, level);
        assert forall|i: int| 0 <= i < all.len() implies #[trigger] all[i] < nodes.len() by {
            if i < front.len() {
                assert(all[i] == front[i]);
            } else {
                assert(all[i] == children[i - front.len()]);
                assert(children[i - front.len()] == nodes[x as int].spec_parenting().spec_children()[i
                    - front.len()]);
            }
        }
    }
}

/// The level below `level` (see `next_level`).
fn next_level_of(graph: &Graph, level: &Vec<NodeIndex>) -> (r: Vec<NodeIndex>)
    requires
        graph.wf(),
        forall|i: int| 0 <= i < level@.len() ==> #[trigger] level@[i] < graph.spec_nodes().len(),
    ensures
        r@ == next_level(graph.spec_nodes(), level@),
        forall|i: int| 0 <= i < r@.len() ==> #[trigger] r@[i] < graph.spec_nodes().len(),
{
    let ghost nodes = graph.spec_nodes();
    let mut r: Vec<NodeIndex> = Vec::new();
    let mut i: usize = 0;
    while i < level.len()
        invariant
            graph.wf(),
            nodes == graph.spec_nodes(),
            i <= level@.len(),
            forall|j: int| 0 <= j < level@.len() ==> #[trigger] level@[j] < nodes.len(),
            r@ == next_level(nodes, level@.take(i as int)),
        decreases level@.len() - i,
    {
        let x = level[i];
        proof {
            assert(nodes[x as int].wf_at(x as nat, graph.spec_conf().n as nat));
        }
        let mut children = vstd::slice::slice_to_vec(graph.nodes()[x].parenting().confirmed_children());
        r.append(&mut children);
        proof {
            let taken = level@.take(i + 1);
            assert(taken.drop_last() =~= level@.take(i as int));
            assert(taken.last() == x);
        }
        i = i + 1;
    }
    assert(level@.take(i as int) =~= level@);
    proof {
        lemma_next_level_in_graph(*graph, level@);
    }
    r
}

/// The contents of a list of vectors.
pub open spec fn level_views(levels: Seq<Vec<NodeIndex>>) -> Seq<Seq<NodeIndex>> {
    levels.map_values(|v: Vec<NodeIndex>| v@)
}

/// A tree of the forest view, as its levels below the root.
pub struct ForestTree {
    levels: Vec<Vec<NodeIndex>>,
}

impl ForestTree {
    /// A tree has a level at least: its root.
    #[verifier::type_invariant]
    spec fn has_root_level(&self) -> bool {
        self.levels@.len() > 0
    }

    pub closed spec fn spec_levels(&self) -> Seq<Seq<NodeIndex>> {
        level_views(self.levels@)
    }

    /// The levels below `root`, following the confirmed children (see
    /// `levels_below`).
    pub fn new(root: NodeIndex, graph: &Graph) -> (t: Self)
        requires
            graph.wf(),
            root < graph.spec_nodes().len(),
        ensures
            levels_below(graph.spec_nodes(), root, t.spec_levels()),
    {
        let ghost nodes = graph.spec_nodes();
        let n = graph.nodes().len();
        let mut levels: Vec<Vec<NodeIndex>> = Vec::new();
        let mut current: Vec<NodeIndex> = Vec::new();
        current.push(root);
        assert(current@ =~= level_of(nodes, root, 0));
        loop
            invariant_except_break
                graph.wf(),
                nodes == graph.spec_nodes(),
                n == nodes.len(),
                levels@.len() < n,
                forall|k: int|
                    0 <= k < levels@.len() ==> #[trigger] level_views(levels@)[k] == level_of(
                        nodes,
                        root,
                        k as nat,
                    ),
                forall|k: int| 0 <= k < levels@.len() ==> (#[trigger] level_views(levels@)[k]).len() > 0,
                current@ == level_of(nodes, root, levels@.len() as nat),
                current@.len() > 0,
                forall|i: int| 0 <= i < current@.len() ==> #[trigger] current@[i] < n,
            ensures
                levels_below(nodes, root, level_views(levels@)),
            decreases n - levels@.len(),
        {
            let next = next_level_of(graph, &current);
            let ghost before = levels@;
            let ghost depth = levels@.len();
            levels.push(current);
            proof {
                assert forall|k: int| 0 <= k < levels@.len() implies #[trigger] level_views(levels@)[k]
                    == level_of(nodes, root, k as nat) && level_views(levels@)[k].len() > 0 by {
                    if k < before.len() {
                        assert(level_views(levels@)[k] == level_views(before)[k]);
                    }
                }
                assert(level_views(levels@).last() == level_views(levels@)[depth as int]);
                assert(next@ == level_of(nodes, root, (depth + 1) as nat));
            }
            if next.len() == 0 || levels.len() == n {
                break;
            }
            current = next;
        }
        ForestTree { levels }
    }

    /// The levels, the root's first.
    pub fn levels(&self) -> (r: &[Vec<NodeIndex>])
        ensures
            level_views(r@) == self.spec_levels(),
    {
        self.levels.as_slice()
    }

    /// The number of nodes on the widest level.
    pub fn max_width(&self) -> (r: usize)
        ensures
            exists|k: int| 0 <= k < self.spec_levels().len() && r == #[trigger] self.spec_levels()[k].len(),
            forall|k: int| 0 <= k < self.spec_levels().len() ==> #[trigger] self.spec_levels()[k].len() <= r,
    {
        proof {
            use_type_invariant(self);
        }
        let ghost levels = self.spec_levels();
        let mut widest = self.levels[0].len();
        assert(levels[0].len() == widest);
        let mut i: usize = 1;
        while i < self.levels.len()
            invariant
                levels == self.spec_levels(),
                1 <= i <= levels.len(),
                exists|k: int| 0 <= k < i && widest == #[trigger] levels[k].len(),
                forall|k: int| 0 <= k < i ==> #[trigger] levels[k].len() <= widest,
            decreases levels.len() - i,
        {
            let width = self.levels[i].len();
            assert(levels[i as int].len() == width);
            if width > widest {
                widest = width;
            }
            i = i + 1;
        }
        widest
    }
}

/// The order of the forest view's trees: the graph's trees over confirmed
/// children (see `trees_of`), in the order of their roots, or sorted stably
/// by decreasing size.
pub open spec fn forest_order(
    nodes: Seq<Node>,
    root_positions: RootPositions,
    ordered: Seq<Seq<NodeIndex>>,
) -> bool {
    let trees = trees_of(nodes, true, nodes.len() as int);
    if root_positions == RootPositions::Sorted {
        is_sorted_by_size(trees, ordered)
    } else {
        ordered == trees
    }
}

/// Every tree of the graph lists its root first.
proof fn lemma_trees_start_at_root(nodes: Seq<Node>, confirmed_only: bool, k: int)
    ensures
        forall|a: int|
            0 <= a < trees_of(nodes, confirmed_only, k).len() ==> (#[trigger] trees_of(
                nodes,
                confirmed_only,
                k,
            )[a]).len() > 0,
    decreases k,
{
    if k > 0 {
        lemma_trees_start_at_root(nodes, confirmed_only, k - 1);
        let index = (k - 1) as NodeIndex;
        let whole = subtree_of(nodes, index, confirmed_only);
        assert(whole == seq![index] + subtrees_below(
            nodes,
            index,
            confirmed_only,
            listed_of(nodes, index, confirmed_only).len() as int,
        ));
        let front = trees_of(nodes, confirmed_only, k - 1);
        let all = trees_of(nodes, confirmed_only, k);
        assert forall|a: int| 0 <= a < all.len() implies (#[trigger] all[a]).len() > 0 by {
            if a < front.len() {
                assert(all[a] == front[a]);
            } else {
                assert(all[a] == whole);
            }
        }
    }
}

/// Where the forest view draws the nodes: the graph's trees, each level by
/// level.
pub struct ForestLayout {
    total_nodes: usize,
    trees: Vec<ForestTree>,
}

impl ForestLayout {
    pub closed spec fn spec_total_nodes(&self) -> usize {
        self.total_nodes
    }

    pub closed spec fn spec_trees(&self) -> Seq<ForestTree> {
        self.trees@
    }

    /// The levels below the root of each of the graph's trees, the trees in
    /// the order of `forest_order` (see `levels_below`).
    pub fn new(graph: &Graph, root_positions: RootPositions) -> (f: Self)
        requires
            graph.wf(),
        ensures
            f.spec_total_nodes() == graph.spec_nodes().len(),
            exists|ordered: Seq<Seq<NodeIndex>>|
                {
                    &&& #[trigger] forest_order(graph.spec_nodes(), root_positions, ordered)
                    &&& f.spec_trees().len() == ordered.len()
                    &&& forall|k: int|
                        0 <= k < ordered.len() ==> levels_below(
                            graph.spec_nodes(),
                            ordered[k][0],
                            #[trigger] f.spec_trees()[k].spec_levels(),
                        )
                },
    {
        let ghost nodes = graph.spec_nodes();
        let n = graph.nodes().len();
        let ghost trees = trees_of(nodes, true, n as int);
        let mut lists = tree_node_lists(graph, true);
        match root_positions {
            RootPositions::Sorted => sort_by_size(&mut lists),
            RootPositions::Constant => {},
        }
        let ghost ordered = views(lists@);
        proof {
            lemma_trees_in_graph(*graph, true, n as int);
            lemma_trees_start_at_root(nodes, true, n as int);
            if root_positions == RootPositions::Sorted {
                lemma_sorted_lists_come_from(trees, ordered);
            }
            assert forall|k: int| 0 <= k < ordered.len() implies (#[trigger] ordered[k]).len() > 0
                && ordered[k][0] < n by {
                if root_positions == RootPositions::Sorted {
                    assert(one_of(trees, ordered[k]));
                    let j = choose|j: int| 0 <= j < trees.len() && trees[j] == ordered[k];
                    assert(trees[j][0] < n);
                } else {
                    assert(trees[k][0] < n);
                }
            }
        }
        let mut forest: Vec<ForestTree> = Vec::new();
        let mut k: usize = 0;
        while k < lists.len()
            invariant
                graph.wf(),
                nodes == graph.spec_nodes(),
                n == nodes.len(),
                views(lists@) == ordered,
                forall|j: int| 0 <= j < ordered.len() ==> (#[trigger] ordered[j]).len() > 0 && ordered[j][0] < n,
                k <= lists@.len(),
                forest@.len() == k,
                forall|j: int|
                    0 <= j < k ==> levels_below(
                        nodes,
                        ordered[j][0],
                        #[trigger] forest@[j].spec_levels(),
                    ),
            decreases lists@.len() - k,
        {
            assert(views(lists@)[k as int] == lists@[k as int]@);
            let root = lists[k][0];
            let tree = ForestTree::new(root, graph);
            let ghost before = forest@;
            forest.push(tree);
            proof {
                assert forall|j: int| 0 <= j < k + 1 implies levels_below(
                    nodes,
                    ordered[j][0],
                    #[trigger] forest@[j].spec_levels(),
                ) by {
                    if j < k {
                        assert(forest@[j] == before[j]);
                    }
                }
            }
            k = k + 1;
        }
        let f = ForestLayout { total_nodes: n, trees: forest };
        assert(forest_order(nodes, root_positions, ordered));
        f
    }

    /// The number of nodes of the graph.
    pub fn total_nodes(&self) -> (r: usize)
        ensures
            r == self.spec_total_nodes(),
    {
        self.total_nodes
    }

    /// The trees, in the order in which they are drawn.
    pub fn trees(&self) -> (r: &[ForestTree])
        ensures
            r@ == self.spec_trees(),
    {
        self.trees.as_slice()
    }
}

} // verus!
