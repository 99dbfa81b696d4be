//! Colouring: a root recolours its tree, and learns through confirmations
//! when the whole tree has taken the new colour.
use rand::rngs::ThreadRng;
use vstd::prelude::*;

use crate::messages::{Message, ReceivedMessage};
use crate::tree_color::TreeColor;
use crate::Configuration;

verus! {

/// A node's colour, the colour it had before, and whether its whole subtree
/// is known to have its colour.
#[derive(Debug)]
pub struct ColoringData {
    pub(crate) color: TreeColor,
    pub(crate) prev_color: TreeColor,
    pub(crate) subtree_colored: bool,
    pub(crate) recoloring_rounds: usize,
}

/// Every message is a confirmation that carries the colour `color`.
pub open spec fn all_confirm_color(messages: Seq<ReceivedMessage>, color: TreeColor) -> bool {
    forall|i: int|
        0 <= i < messages.len() ==> #[trigger] messages[i].message == Message::Confirmation(
            Some(color),
        )
}

/// The colour a root moves to after drawing `drawn`: the drawn colour, or the
/// next one if the drawn colour is the current one.
pub open spec fn next_color(current: TreeColor, drawn: TreeColor) -> TreeColor {
    if drawn != current {
        drawn
    } else {
        TreeColor { value: (drawn.value + 1) as usize }
    }
}

/// How taking the colour `color` moves a colouring on: nothing changes when
/// the colour is the current one; otherwise the current colour becomes the
/// previous one and the subtree is no longer known to have the colour.
pub open spec fn recolored(before: ColoringData, after: ColoringData, color: TreeColor) -> bool {
    &&& color == before.spec_color() ==> after == before
    &&& color != before.spec_color() ==> {
        &&& after.spec_color() == color
        &&& after.spec_prev_color() == before.spec_color()
        &&& !after.spec_subtree_colored()
        &&& after.spec_recoloring_rounds() == 0
    }
}

/// After a recolouring, both the new colour and the colour before it are
/// valid colours to hear from the node's tree.
pub proof fn lemma_recolor_keeps_old_color_valid(
    before: ColoringData,
    after: ColoringData,
    color: TreeColor,
)
    requires
        recolored(before, after, color),
    ensures
        after.spec_is_valid_color(color),
        after.spec_is_valid_color(before.spec_color()),
{
}

/// How a confirmation round moves a colouring on: the round is counted and
/// the subtree is known coloured when every message confirmed the colour;
/// a root whose subtree is coloured then moves on to a colour drawn below
/// `max_color` (or the one after it, if the drawn one is the current one).
pub open spec fn confirmations_counted(
    before: ColoringData,
    after: ColoringData,
    messages: Seq<ReceivedMessage>,
    is_root: bool,
    max_color: usize,
) -> bool {
    let colored = all_confirm_color(messages, before.spec_color());
    &&& !(is_root && colored) ==> {
        &&& after.spec_color() == before.spec_color()
        &&& after.spec_prev_color() == before.spec_prev_color()
        &&& after.spec_subtree_colored() == colored
        &&& after.spec_recoloring_rounds() == before.spec_recoloring_rounds() + 1
    }
    &&& is_root && colored ==> {
        &&& exists|drawn: TreeColor|
            drawn.value < max_color && after.spec_color() == next_color(before.spec_color(), drawn)
        &&& after.spec_color() != before.spec_color()
        &&& after.spec_prev_color() == before.spec_color()
        &&& !after.spec_subtree_colored()
        &&& after.spec_recoloring_rounds() == 0
    }
}

/// A confirmation round marks a node's subtree coloured exactly when every
/// message it received confirmed the node's colour (so always, when it
/// received none); a root then moves to another colour, and otherwise keeps
/// its colour.
pub proof fn lemma_coloured_exactly_when_all_confirm(
    before: ColoringData,
    after: ColoringData,
    messages: Seq<ReceivedMessage>,
    is_root: bool,
    max_color: usize,
)
    requires
        confirmations_counted(before, after, messages, is_root, max_color),
    ensures
        !is_root ==> (after.spec_subtree_colored() <==> forall|i: int|
            0 <= i < messages.len() ==> #[trigger] messages[i].message == Message::Confirmation(
                Some(before.spec_color()),
            )),
        is_root ==> ((after.spec_color() != before.spec_color()) <==> forall|i: int|
            0 <= i < messages.len() ==> #[trigger] messages[i].message == Message::Confirmation(
                Some(before.spec_color()),
            )),
        after.spec_recoloring_rounds() == 0 || after.spec_recoloring_rounds()
            == before.spec_recoloring_rounds() + 1,
{
}

impl ColoringData {
    pub closed spec fn spec_color(&self) -> TreeColor {
        self.color
    }

    pub closed spec fn spec_prev_color(&self) -> TreeColor {
        self.prev_color
    }

    pub closed spec fn spec_subtree_colored(&self) -> bool {
        self.subtree_colored
    }

    pub closed spec fn spec_recoloring_rounds(&self) -> usize {
        self.recoloring_rounds
    }

    /// A node coloured `color` that has not recoloured.
    pub fn new(color: TreeColor) -> (c: Self)
        ensures
            c.spec_color() == color,
            c.spec_prev_color() == color,
            !c.spec_subtree_colored(),
            c.spec_recoloring_rounds() == 0,
    {
        ColoringData { color, prev_color: color, subtree_colored: false, recoloring_rounds: 0 }
    }

    /// A colouring with both colours drawn below the colour bound.
    pub fn new_random(conf: &Configuration, rng: &mut ThreadRng) -> (c: Self)
        requires
            conf.spec_max_color() > 0,
        ensures
            c.spec_color().value < conf.spec_max_color(),
            c.spec_prev_color().value < conf.spec_max_color(),
            !c.spec_subtree_colored(),
            c.spec_recoloring_rounds() == 0,
    {
        ColoringData {
            color: TreeColor::new_random(conf, rng),
            prev_color: TreeColor::new_random(conf, rng),
            subtree_colored: false,
            recoloring_rounds: 0,
        }
    }

    /// Replaces the colouring by a random one.
    pub fn reset(&mut self, conf: &Configuration, rng: &mut ThreadRng)
        requires
            conf.spec_max_color() > 0,
        ensures
            final(self).spec_color().value < conf.spec_max_color(),
            final(self).spec_prev_color().value < conf.spec_max_color(),
            !final(self).spec_subtree_colored(),
            final(self).spec_recoloring_rounds() == 0,
    {
        *self = Self::new_random(conf, rng);
    }

    /// The number of confirmation rounds since the last recolouring.
    pub fn recoloring_rounds(&self) -> (r: usize)
        ensures
            r == self.spec_recoloring_rounds(),
    {
        self.recoloring_rounds
    }

    pub fn curr_color(&self) -> (c: TreeColor)
        ensures
            c == self.spec_color(),
    {
        self.color
    }

    /// The colours that a member of this node's tree may legitimately report:
    /// the current one, or the previous one while a recolouring spreads.
    pub open spec fn spec_is_valid_color(&self, color: TreeColor) -> bool {
        color == self.spec_color() || color == self.spec_prev_color()
    }

    pub fn is_valid_color(&self, color: TreeColor) -> (r: bool)
        ensures
            r == self.spec_is_valid_color(color),
    {
        color == self.color || color == self.prev_color
    }

    /// The colour of the subtree, once all of it is known to have it.
    pub fn subtree_color(&self) -> (r: Option<TreeColor>)
        ensures
            r == (if self.spec_subtree_colored() {
                Some(self.spec_color())
            } else {
                None
            }),
    {
        if self.subtree_colored {
            Some(self.color)
        } else {
            None
        }
    }

    /// Takes a new colour, keeping the current one as the previous one; a
    /// no-op when the colour does not change.
    pub fn recolor(&mut self, color: TreeColor)
        ensures
            recolored(*old(self), *final(self), color),
    {
        if color == self.color {
            return;
        }
        self.recoloring_rounds = 0;
        self.prev_color = self.color;
        self.color = color;
        self.subtree_colored = false;
    }

    /// Counts a confirmation round and records whether every message was a
    /// confirmation of this node's colour; a root whose whole tree has its
    /// colour then starts a new colour, drawn at random and different from
    /// the current one.
    pub fn process_confirmations(
        &mut self,
        messages: &[ReceivedMessage],
        is_root: bool,
        conf: &Configuration,
        rng: &mut ThreadRng,
    )
        requires
            old(self).spec_recoloring_rounds() < usize::MAX,
            is_root && all_confirm_color(messages@, old(self).spec_color()) ==> conf.spec_max_color()
                > 0,
        ensures
            confirmations_counted(
                *old(self),
                *final(self),
                messages@,
                is_root,
                conf.spec_max_color(),
            ),
    {
        self.recoloring_rounds = self.recoloring_rounds + 1;
        let mut colored = true;
        let mut i: usize = 0;
        while i < messages.len()
            invariant
                i <= messages@.len(),
                colored == all_confirm_color(messages@.take(i as int), self.color),
            decreases messages@.len() - i,
        {
            let ok = match messages[i].message {
                Message::Confirmation(Some(color)) => color == self.color,
                _ => false,
            };
            colored = colored && ok;
            proof {
                assert(messages@.take(i + 1).drop_last() =~= messages@.take(i as int));
                if !ok {
                    assert(messages@.take(i + 1)[i as int] == messages@[i as int]);
                }
            }
            i = i + 1;
        }
        assert(messages@.take(i as int) =~= messages@);
        self.subtree_colored = colored;
        if is_root && self.subtree_colored {
            let drawn = TreeColor::new_random(conf, rng);
            let new_color = if drawn != self.color {
                drawn
            } else {
                TreeColor::of(drawn.value + 1)
            };
            let ghost before = self.color;
            self.recolor(new_color);
            assert(drawn.value < conf.spec_max_color() && self.color == next_color(before, drawn));
        }
    }
}

} // verus!
