//! The messages that nodes exchange.
use vstd::prelude::*;

use crate::graph::NodeIndex;
use crate::tree_color::TreeColor;
use crate::tree_info::TreeInfo;

verus! {

/// A request offers the receiver to join the sender's tree as its child; a
/// confirmation tells the receiver that the sender is its child, together
/// with the colour of the sender's subtree once that subtree is uniformly
/// coloured.
#[derive(Debug, Clone, Copy, PartialEq, Eq, Structural)]
pub enum Message {
    Request(TreeInfo),
    Confirmation(Option<TreeColor>),
}

/// A message on its way to `destination`.
#[derive(Debug, Clone, Copy, PartialEq, Eq, Structural)]
pub struct SentMessage {
    pub destination: NodeIndex,
    pub message: Message,
}

/// A message that arrived from `source`.
#[derive(Debug, Clone, Copy, PartialEq, Eq, Structural)]
pub struct ReceivedMessage {
    pub source: NodeIndex,
    pub message: Message,
}

} // verus!
