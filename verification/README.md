# spanning_tree

A simulation of a self-stabilising spanning-tree algorithm. Every node of a
graph offers its tree to a few peers; each node elects as its parent the peer
that offers the largest tree (at the smallest depth), children confirm to
their parents, and roots recolour their trees to learn when a tree has
settled. A node that hears something that does not fit the round counts down
to a reset and starts over as the root of a fresh tree.

## Layout

- `src/` is the verified library:
  - `algorithm/` holds the three parts of a node's state: `parenting`
    (electing a parent, renewing children), `coloring` (recolouring a tree)
    and `timers` (rounds, reset count-downs, convergence);
  - `node.rs` and `graph.rs` run rounds: every node receives its messages,
    moves on in time and sends; `graph.rs` also lists the trees and proves
    that they never share a node;
  - `tree_id.rs`, `tree_info.rs`, `tree_color.rs`, `messages.rs` and
    `numerals.rs` are the values the nodes exchange and their text forms;
  - `random_peer_generator.rs` draws peers without repetition;
  - `view.rs` and `forest.rs` decide what the viewer shows: the order of the
    nodes around the circle, and each tree level by level;
  - `rng.rs` holds the calls into `rand`; with the calls into `itertools`,
    `indexmap` and std's sort in `view.rs`, they are the only code whose
    contracts are trusted rather than proved.
- `app/` is the window (built with `iced`): drawing, animation, clicks and
  the node editor, and the floating-point parts (drawing fresh tree ids, placing
  nodes on screen).
- `tests/` runs the library on concrete graphs.
