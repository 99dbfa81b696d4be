//! Timers: the alternation of request and confirmation rounds, the count-down
//! to a reset, and the time a tree is given to converge.
use rand::rngs::ThreadRng;
use vstd::prelude::*;

use crate::algorithm::coloring::ColoringData;
use crate::messages::{Message, ReceivedMessage};
use crate::numerals::{digits, to_digits};
use crate::rng;
use crate::tree_id::TreeId;
use crate::tree_info::TreeInfo;
use crate::Configuration;

verus! {

/// The kind of message a node exchanges in a round.
#[derive(Clone, Copy, Debug, PartialEq, Eq, Structural)]
pub enum RoundType {
    ExchangeConfirmations,
    ExchangeRequests,
}

impl RoundType {
    pub open spec fn spec_next(self) -> RoundType {
        match self {
            RoundType::ExchangeConfirmations => RoundType::ExchangeRequests,
            RoundType::ExchangeRequests => RoundType::ExchangeConfirmations,
        }
    }

    /// The other kind of round.
    pub fn next(&self) -> (r: Self)
        ensures
            r == self.spec_next(),
    {
        match self {
            RoundType::ExchangeConfirmations => RoundType::ExchangeRequests,
            RoundType::ExchangeRequests => RoundType::ExchangeConfirmations,
        }
    }
}

/// A node's round type, its count-down to a reset (0 when none runs; a reset
/// is due at 1), and the rounds left until its tree should have converged.
#[derive(Debug, Clone, Copy, PartialEq, Eq, Structural)]
pub struct TimersData {
    pub(crate) round_type: RoundType,
    pub(crate) reset_countdown: usize,
    pub(crate) convergence_timer: usize,
}

/// The timers after one round: the convergence timer and a running
/// count-down (down to 1) each go down by one, and the round type flips.
pub closed spec fn advanced(t: TimersData) -> TimersData {
    TimersData {
        round_type: t.round_type.spec_next(),
        reset_countdown: if t.reset_countdown > 1 {
            (t.reset_countdown - 1) as usize
        } else {
            t.reset_countdown
        },
        convergence_timer: if t.convergence_timer > 0 {
            (t.convergence_timer - 1) as usize
        } else {
            0
        },
    }
}

/// The timers with another reset count-down.
pub closed spec fn with_reset_countdown(t: TimersData, countdown: usize) -> TimersData {
    TimersData { reset_countdown: countdown, ..t }
}

/// Changing the reset count-down leaves the round type and the convergence
/// timer as they are.
pub proof fn lemma_with_reset_countdown(t: TimersData, countdown: usize)
    ensures
        with_reset_countdown(t, countdown).spec_reset_countdown() == countdown,
        with_reset_countdown(t, countdown).spec_round_type() == t.spec_round_type(),
        with_reset_countdown(t, countdown).spec_convergence_timer() == t.spec_convergence_timer(),
{
}

/// The larger of two count-downs.
pub open spec fn max_countdown(a: usize, b: usize) -> usize {
    if a > b {
        a
    } else {
        b
    }
}

/// The smaller of two values.
pub open spec fn min_of(a: usize, b: usize) -> usize {
    if a < b {
        a
    } else {
        b
    }
}

/// The timers after reacting to the messages from index `i` on: a message
/// of the kind that does not belong to the round starts a reset count-down
/// (unless one runs) and stops the processing; so does, at a converged root,
/// a request of the root's own tree with a colour the root does not know; any
/// other request passes its sender's count-down on, the larger one winning.
pub open spec fn timers_after_messages(
    messages: Seq<ReceivedMessage>,
    i: int,
    t: TimersData,
    my_tree_id: TreeId,
    coloring: ColoringData,
    is_root: bool,
    countdown_max: usize,
) -> TimersData
    decreases messages.len() - i,
{
    if i < 0 || i >= messages.len() {
        t
    } else {
        let started = with_reset_countdown(t, countdown_max);
        match messages[i].message {
            Message::Request(info) => {
                if t.spec_round_type() == RoundType::ExchangeConfirmations && t.spec_reset_countdown() == 0 {
                    started
                } else if is_root && t.spec_convergence_timer() == 0 && info.tree_id == my_tree_id
                    && !coloring.spec_is_valid_color(info.color) && t.spec_reset_countdown() == 0 {
                    started
                } else {
                    let merged = with_reset_countdown(
                        t,
                        max_countdown(info.reset_countdown, t.spec_reset_countdown()),
                    );
                    timers_after_messages(
                        messages,
                        i + 1,
                        merged,
                        my_tree_id,
                        coloring,
                        is_root,
                        countdown_max,
                    )
                }
            },
            Message::Confirmation(_) => {
                if t.spec_round_type() == RoundType::ExchangeRequests && t.spec_reset_countdown() == 0 {
                    started
                } else {
                    timers_after_messages(
                        messages,
                        i + 1,
                        t,
                        my_tree_id,
                        coloring,
                        is_root,
                        countdown_max,
                    )
                }
            },
        }
    }
}

/// A request offering another tree never starts a reset, in a request round
/// or while a count-down already runs: the node takes on the larger of the
/// request's count-down and its own, and nothing else changes.
pub proof fn lemma_foreign_request_is_merged(
    source: usize,
    info: TreeInfo,
    t: TimersData,
    my_tree_id: TreeId,
    coloring: ColoringData,
    is_root: bool,
    countdown_max: usize,
)
    requires
        info.tree_id != my_tree_id,
        t.spec_round_type() == RoundType::ExchangeRequests || t.spec_reset_countdown() > 0,
    ensures
        ({
            let after = timers_after_messages(
                seq![ReceivedMessage { source, message: Message::Request(info) }],
                0,
                t,
                my_tree_id,
                coloring,
                is_root,
                countdown_max,
            );
            &&& after.spec_reset_countdown() == if info.reset_countdown > t.spec_reset_countdown() {
                info.reset_countdown
            } else {
                t.spec_reset_countdown()
            }
            &&& after.spec_round_type() == t.spec_round_type()
            &&& after.spec_convergence_timer() == t.spec_convergence_timer()
        }),
{
    let messages = seq![ReceivedMessage { source, message: Message::Request(info) }];
    let merged = with_reset_countdown(t, max_countdown(info.reset_countdown, t.spec_reset_countdown()));
    lemma_with_reset_countdown(t, max_countdown(info.reset_countdown, t.spec_reset_countdown()));
    assert(timers_after_messages(messages, 1, merged, my_tree_id, coloring, is_root, countdown_max)
        == merged);
}

/// Wherever it stands among a round's messages, a request offering another
/// tree, in a request round or while a count-down runs, is merged: the rest
/// of the messages act on the timers with the larger of the two count-downs,
/// as if the request had never started anything.
pub proof fn lemma_foreign_request_is_merged_anywhere(
    messages: Seq<ReceivedMessage>,
    i: int,
    t: TimersData,
    my_tree_id: TreeId,
    coloring: ColoringData,
    is_root: bool,
    countdown_max: usize,
)
    requires
        0 <= i < messages.len(),
        messages[i].message is Request,
        messages[i].message->Request_0.tree_id != my_tree_id,
        t.spec_round_type() == RoundType::ExchangeRequests || t.spec_reset_countdown() > 0,
    ensures
        ({
            let info = messages[i].message->Request_0;
            let countdown = if info.reset_countdown > t.spec_reset_countdown() {
                info.reset_countdown
            } else {
                t.spec_reset_countdown()
            };
            let merged = with_reset_countdown(t, countdown);
            &&& merged.spec_reset_countdown() == countdown
            &&& merged.spec_round_type() == t.spec_round_type()
            &&& merged.spec_convergence_timer() == t.spec_convergence_timer()
            &&& timers_after_messages(messages, i, t, my_tree_id, coloring, is_root, countdown_max)
                == timers_after_messages(
                messages,
                i + 1,
                merged,
                my_tree_id,
                coloring,
                is_root,
                countdown_max,
            )
        }),
{
    let info = messages[i].message->Request_0;
    lemma_with_reset_countdown(t, max_countdown(info.reset_countdown, t.spec_reset_countdown()));
}

/// A converged root that hears its own tree offered in a colour it does not
/// know, in a request round with no count-down running, starts a reset
/// count-down from the maximum.
pub proof fn lemma_unknown_own_colour_starts_reset(
    source: usize,
    info: TreeInfo,
    t: TimersData,
    my_tree_id: TreeId,
    coloring: ColoringData,
    countdown_max: usize,
)
    requires
        info.tree_id == my_tree_id,
        info.color != coloring.spec_color(),
        info.color != coloring.spec_prev_color(),
        t.spec_round_type() == RoundType::ExchangeRequests,
        t.spec_convergence_timer() == 0,
        t.spec_reset_countdown() == 0,
    ensures
        timers_after_messages(
            seq![ReceivedMessage { source, message: Message::Request(info) }],
            0,
            t,
            my_tree_id,
            coloring,
            true,
            countdown_max,
        ).spec_reset_countdown() == countdown_max,
{
    lemma_with_reset_countdown(t, countdown_max);
}

/// A message that does not fit the round starts a reset count-down from the
/// maximum when none runs: a confirmation in a request round, or a request
/// in a confirmation round.
pub proof fn lemma_misplaced_message_starts_reset(
    message: ReceivedMessage,
    t: TimersData,
    my_tree_id: TreeId,
    coloring: ColoringData,
    is_root: bool,
    countdown_max: usize,
)
    requires
        t.spec_reset_countdown() == 0,
        t.spec_round_type() == RoundType::ExchangeRequests ==> message.message is Confirmation,
        t.spec_round_type() == RoundType::ExchangeConfirmations ==> message.message is Request,
    ensures
        timers_after_messages(seq![message], 0, t, my_tree_id, coloring, is_root, countdown_max)
            .spec_reset_countdown() == countdown_max,
{
    lemma_with_reset_countdown(t, countdown_max);
}

/// Reacting to messages leaves the round type and the convergence timer as
/// they are, and never shortens a running reset count-down.
pub proof fn lemma_messages_keep_round(
    messages: Seq<ReceivedMessage>,
    i: int,
    t: TimersData,
    my_tree_id: TreeId,
    coloring: ColoringData,
    is_root: bool,
    countdown_max: usize,
)
    ensures
        ({
            let after = timers_after_messages(
                messages,
                i,
                t,
                my_tree_id,
                coloring,
                is_root,
                countdown_max,
            );
            &&& after.spec_round_type() == t.spec_round_type()
            &&& after.spec_convergence_timer() == t.spec_convergence_timer()
            &&& t.spec_reset_countdown() > 0 ==> after.spec_reset_countdown() >= t.spec_reset_countdown()
        }),
    decreases messages.len() - i,
{
    if 0 <= i < messages.len() {
        match messages[i].message {
            Message::Request(info) => {
                let merged = with_reset_countdown(
                    t,
                    max_countdown(info.reset_countdown, t.reset_countdown),
                );
                lemma_messages_keep_round(
                    messages,
                    i + 1,
                    merged,
                    my_tree_id,
                    coloring,
                    is_root,
                    countdown_max,
                );
            },
            Message::Confirmation(_) => {
                lemma_messages_keep_round(
                    messages,
                    i + 1,
                    t,
                    my_tree_id,
                    coloring,
                    is_root,
                    countdown_max,
                );
            },
        }
    }
}

impl TimersData {
    pub closed spec fn spec_round_type(&self) -> RoundType {
        self.round_type
    }

    pub closed spec fn spec_reset_countdown(&self) -> usize {
        self.reset_countdown
    }

    pub closed spec fn spec_convergence_timer(&self) -> usize {
        self.convergence_timer
    }

    /// Fresh timers: a request round, no count-down, and the full time to converge.
    pub fn new(conf: &Configuration) -> (t: Self)
        ensures
            t == Self::spec_new(conf),
            t.spec_round_type() == RoundType::ExchangeRequests,
            t.spec_reset_countdown() == 0,
            t.spec_convergence_timer() == conf.spec_num_rounds_to_convergence(),
    {
        TimersData {
            round_type: RoundType::ExchangeRequests,
            reset_countdown: 0,
            convergence_timer: conf.num_rounds_to_convergence(),
        }
    }

    /// Timers in a confirmation round with a count-down and a convergence
    /// timer each drawn up to its maximum.
    pub fn new_random(conf: &Configuration, rng: &mut ThreadRng) -> (t: Self)
        ensures
            t.spec_round_type() == RoundType::ExchangeConfirmations,
            t.spec_reset_countdown() <= conf.spec_reset_countdown_max(),
            t.spec_convergence_timer() <= conf.spec_num_rounds_to_convergence(),
    {
        let round_type = if rng::random_ratio(rng, 1, 1) {
            RoundType::ExchangeConfirmations
        } else {
            RoundType::ExchangeRequests
        };
        let reset_countdown = rng::random_usize_up_to(rng, conf.reset_countdown_max());
        let convergence_timer = rng::random_usize_up_to(rng, conf.num_rounds_to_convergence());
        TimersData { round_type, reset_countdown, convergence_timer }
    }

    /// Replaces the timers by fresh ones.
    pub fn reset(&mut self, conf: &Configuration)
        ensures
            *final(self) == Self::spec_new(conf),
            final(self).spec_round_type() == RoundType::ExchangeRequests,
            final(self).spec_reset_countdown() == 0,
            final(self).spec_convergence_timer() == conf.spec_num_rounds_to_convergence(),
    {
        *self = Self::new(conf);
    }

    pub closed spec fn spec_new(conf: &Configuration) -> Self {
        TimersData {
            round_type: RoundType::ExchangeRequests,
            reset_countdown: 0,
            convergence_timer: conf.spec_num_rounds_to_convergence(),
        }
    }

    pub fn is_counting_down_to_reset(&self) -> (r: bool)
        ensures
            r == (self.spec_reset_countdown() > 0),
    {
        self.reset_countdown > 0
    }

    pub fn get_round_type(&self) -> (r: RoundType)
        ensures
            r == self.spec_round_type(),
    {
        self.round_type
    }

    /// A reset is due when the count-down has reached 1.
    pub fn should_reset(&self) -> (r: bool)
        ensures
            r == (self.spec_reset_countdown() == 1),
    {
        self.reset_countdown == 1
    }

    /// Moves on by one round.
    pub fn advance_time(&mut self)
        ensures
            *final(self) == advanced(*old(self)),
            final(self).spec_round_type() == old(self).spec_round_type().spec_next(),
            final(self).spec_reset_countdown() == if old(self).spec_reset_countdown() > 1 {
                (old(self).spec_reset_countdown() - 1) as usize
            } else {
                old(self).spec_reset_countdown()
            },
            final(self).spec_convergence_timer() == if old(self).spec_convergence_timer() > 0 {
                (old(self).spec_convergence_timer() - 1) as usize
            } else {
                0
            },
    {
        if self.convergence_timer > 0 {
            self.convergence_timer = self.convergence_timer - 1;
        }
        if self.reset_countdown > 1 {
            self.reset_countdown = self.reset_countdown - 1;
        }
        self.round_type = self.round_type.next();
    }

    pub fn reset_countdown(&self) -> (r: usize)
        ensures
            r == self.spec_reset_countdown(),
    {
        self.reset_countdown
    }

    /// Caps both timers by their maxima in the configuration.
    pub fn update_for_configuration(&mut self, conf: &Configuration)
        ensures
            final(self).spec_round_type() == old(self).spec_round_type(),
            final(self).spec_reset_countdown() == min_of(
                old(self).spec_reset_countdown(),
                conf.spec_reset_countdown_max(),
            ),
            final(self).spec_convergence_timer() == min_of(
                old(self).spec_convergence_timer(),
                conf.spec_num_rounds_to_convergence(),
            ),
    {
        let max_countdown = conf.reset_countdown_max();
        if self.reset_countdown >= max_countdown {
            self.reset_countdown = max_countdown;
        }
        let max_convergence = conf.num_rounds_to_convergence();
        if self.convergence_timer >= max_convergence {
            self.convergence_timer = max_convergence;
        }
    }

    /// Starts a reset count-down unless one runs; tells whether it did.
    pub fn start_reset(&mut self, conf: &Configuration) -> (started: bool)
        ensures
            started == (old(self).spec_reset_countdown() == 0),
            started ==> final(self).spec_reset_countdown() == conf.spec_reset_countdown_max(),
            final(self).spec_round_type() == old(self).spec_round_type(),
            final(self).spec_convergence_timer() == old(self).spec_convergence_timer(),
            started ==> *final(self) == with_reset_countdown(
                *old(self),
                conf.spec_reset_countdown_max(),
            ),
            !started ==> *final(self) == *old(self),
    {
        if !self.is_counting_down_to_reset() {
            self.reset_countdown = conf.reset_countdown_max();
            true
        } else {
            false
        }
    }

    /// Takes on the larger of the two count-downs.
    fn merge(&mut self, tree_info: &TreeInfo)
        ensures
            *final(self) == with_reset_countdown(
                *old(self),
                max_countdown(tree_info.reset_countdown, old(self).reset_countdown),
            ),
    {
        if tree_info.reset_countdown > self.reset_countdown {
            self.reset_countdown = tree_info.reset_countdown;
        }
    }

    /// The label of the convergence line: `convin` in a confirmation round
    /// while a reset count-down runs, `conv in` otherwise.
    pub open spec fn spec_convergence_label(&self) -> Seq<char> {
        if self.spec_reset_countdown() > 0 && self.spec_round_type() == RoundType::ExchangeConfirmations {
            "convin "@
        } else {
            "conv in "@
        }
    }

    /// What the timers show: the reset count-down while one runs, and the
    /// rounds left to converge while there are any, each on a line (see
    /// `spec_convergence_label`).
    pub open spec fn spec_text(&self) -> Seq<char> {
        (if self.spec_reset_countdown() > 0 {
            "reset in "@ + digits(self.spec_reset_countdown() as nat, 10, false) + "\n"@
        } else {
            Seq::empty()
        }) + (if self.spec_convergence_timer() != 0 {
            self.spec_convergence_label() + digits(self.spec_convergence_timer() as nat, 10, false)
                + "\n"@
        } else {
            Seq::empty()
        })
    }

    /// The timers as text (see `spec_text`).
    pub fn to_string(&self) -> (r: String)
        ensures
            r@ == self.spec_text(),
    {
        let mut text = String::new();
        if self.is_counting_down_to_reset() {
            text.append("reset in ");
            let count = to_digits(self.reset_countdown as u64, 10, false);
            text.append(count.as_str());
            text.append("\n");
        }
        let ghost first = text@;
        if !self.should_have_converged() {
            if self.is_counting_down_to_reset() && self.round_type == RoundType::ExchangeConfirmations {
                text.append("convin ");
            } else {
                text.append("conv in ");
            }
            let count = to_digits(self.convergence_timer as u64, 10, false);
            text.append(count.as_str());
            text.append("\n");
        }
        assert(text@ =~= self.spec_text());
        text
    }

    fn should_have_converged(&self) -> (r: bool)
        ensures
            r == (self.convergence_timer == 0),
    {
        self.convergence_timer == 0
    }
}

/// Reacts to a round's messages: starts a reset count-down when a message
/// does not fit the round, or when a converged root hears of its own tree in
/// a colour it does not know; otherwise adopts the largest count-down heard.
pub fn process_messages(
    messages: &[ReceivedMessage],
    timers: &mut TimersData,
    my_tree_id: &TreeId,
    coloring: &ColoringData,
    is_root: bool,
    conf: &Configuration,
)
    ensures
        *final(timers) == timers_after_messages(
            messages@,
            0,
            *old(timers),
            *my_tree_id,
            *coloring,
            is_root,
            conf.spec_reset_countdown_max(),
        ),
        final(timers).spec_round_type() == old(timers).spec_round_type(),
        final(timers).spec_convergence_timer() == old(timers).spec_convergence_timer(),
        old(timers).spec_reset_countdown() > 0 ==> final(timers).spec_reset_countdown() >= old(
            timers,
        ).spec_reset_countdown(),
{
    proof {
        lemma_messages_keep_round(
            messages@,
            0,
            *timers,
            *my_tree_id,
            *coloring,
            is_root,
            conf.spec_reset_countdown_max(),
        );
    }
    let ghost target = timers_after_messages(
        messages@,
        0,
        *timers,
        *my_tree_id,
        *coloring,
        is_root,
        conf.spec_reset_countdown_max(),
    );
    let mut i: usize = 0;
    while i < messages.len()
        invariant
            i <= messages@.len(),
            target.round_type == old(timers).round_type,
            target.convergence_timer == old(timers).convergence_timer,
            old(timers).reset_countdown > 0 ==> target.reset_countdown >= old(
                timers,
            ).reset_countdown,
            target == timers_after_messages(
                messages@,
                0,
                *old(timers),
                *my_tree_id,
                *coloring,
                is_root,
                conf.spec_reset_countdown_max(),
            ),
            target == timers_after_messages(
                messages@,
                i as int,
                *timers,
                *my_tree_id,
                *coloring,
                is_root,
                conf.spec_reset_countdown_max(),
            ),
        decreases messages@.len() - i,
    {
        let ghost before = *timers;
        proof {
            assert(target == timers_after_messages(
                messages@,
                i as int,
                before,
                *my_tree_id,
                *coloring,
                is_root,
                conf.spec_reset_countdown_max(),
            ));
        }
        match messages[i].message {
            Message::Request(request_tree_info) => {
                if timers.round_type == RoundType::ExchangeConfirmations && timers.start_reset(
                    conf,
                ) {
                    assert(messages@[i as int].message == Message::Request(request_tree_info));
                    assert(target == *timers);
                    return;
                }
                if is_root && timers.should_have_converged() && request_tree_info.tree_id
                    == *my_tree_id && !coloring.is_valid_color(request_tree_info.color)
                    && timers.start_reset(conf) {
                    assert(messages@[i as int].message == Message::Request(request_tree_info));
                    assert(target == *timers);
                    return;
                }
                timers.merge(&request_tree_info);
            },
            Message::Confirmation(_) => {
                if timers.round_type == RoundType::ExchangeRequests && timers.start_reset(conf) {
                    assert(messages@[i as int].message is Confirmation);
                    assert(target == *timers);
                    return;
                }
            },
        }
        i = i + 1;
    }
}

} // verus!
