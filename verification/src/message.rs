//! The messages that agents exchange.

use vstd::prelude::*;
use crate::board::Board;
use crate::position::Position;

verus! {

/// A message between two agents. The first field is always the sender.
#[derive(Debug)]
pub enum Message {
    /// The sender has taken this value.
    ValueUpdate(usize, Position),
    /// The sender found no value: the nogood is its view of the agents up
    /// to and including the receiver.
    Conflict(usize, Board),
    /// The sender has nothing to say this round.
    Heartbeat(usize),
    /// The run stops once the receiver's round counter has passed the
    /// given round.
    Terminate(usize, usize),
}

/// A message as a mathematical value.
pub enum MessageView {
    ValueUpdate(usize, Position),
    Conflict(usize, Seq<Position>),
    Heartbeat(usize),
    Terminate(usize, usize),
}

impl View for Message {
    type V = MessageView;

    open spec fn view(&self) -> MessageView {
        match self {
            Message::ValueUpdate(s, p) => MessageView::ValueUpdate(*s, *p),
            Message::Conflict(s, b) => MessageView::Conflict(*s, b@),
            Message::Heartbeat(s) => MessageView::Heartbeat(*s),
            Message::Terminate(s, r) => MessageView::Terminate(*s, *r),
        }
    }
}

impl MessageView {
    /// The agent that sent the message.
    pub open spec fn sender(self) -> usize {
        match self {
            MessageView::ValueUpdate(s, _) => s,
            MessageView::Conflict(s, _) => s,
            MessageView::Heartbeat(s) => s,
            MessageView::Terminate(s, _) => s,
        }
    }

    /// A message that carries work: a new value or a conflict.
    pub open spec fn is_work(self) -> bool {
        self is ValueUpdate || self is Conflict
    }
}

/// The messages of a sequence, as values.
pub open spec fn messages_view(s: Seq<Message>) -> Seq<MessageView> {
    Seq::new(s.len(), |i: int| s[i]@)
}

impl Message {
    /// The agent that sent the message.
    pub fn sender(&self) -> (s: usize)
        ensures
            s == self@.sender(),
    {
        match self {
            Message::ValueUpdate(s, _) => *s,
            Message::Conflict(s, _) => *s,
            Message::Heartbeat(s) => *s,
            Message::Terminate(s, _) => *s,
        }
    }

    /// A message with the same content.
    pub fn copy(&self) -> (twin: Message)
        ensures
            twin@ == self@,
    {
        match self {
            Message::ValueUpdate(s, p) => Message::ValueUpdate(*s, *p),
            Message::Conflict(s, b) => Message::Conflict(*s, b.copy()),
            Message::Heartbeat(s) => Message::Heartbeat(*s),
            Message::Terminate(s, r) => Message::Terminate(*s, *r),
        }
    }
}

} // verus!
