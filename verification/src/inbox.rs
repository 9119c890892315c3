//! The order in which an agent reads its inbox. Channels hand the
//! messages of one sender over in the order in which they were sent, but
//! say nothing of the order among senders. Ordering the inbox by sender
//! makes what an agent reads, and with it the whole run, independent of
//! the order of arrival.

use vstd::prelude::*;
use crate::message::{messages_view, Message, MessageView};

verus! {

/// The messages of `inbox` that `sender` sent, in their order.
pub open spec fn sent_by(inbox: Seq<MessageView>, sender: usize) -> Seq<MessageView>
    decreases inbox.len(),
{
    if inbox.len() == 0 {
        Seq::empty()
    } else {
        let rest = sent_by(inbox.drop_last(), sender);
        if inbox.last().sender() == sender {
            rest.push(inbox.last())
        } else {
            rest
        }
    }
}

/// The senders of the inbox never fall.
pub open spec fn by_sender(inbox: Seq<MessageView>) -> bool {
    forall|i: int, j: int|
        0 <= i < j < inbox.len() ==> (#[trigger] inbox[i]).sender() <= (#[trigger] inbox[j]).sender()
}

/// The first place from `from` on whose message has a higher sender than
/// `sender`, or the end: where a message of `sender` goes.
pub open spec fn slot_for(inbox: Seq<MessageView>, sender: usize, from: int) -> int
    decreases inbox.len() - from,
{
    if from < 0 || from >= inbox.len() || inbox[from].sender() > sender {
        from
    } else {
        slot_for(inbox, sender, from + 1)
    }
}

/// The inbox ordered by sender, each sender's messages in the order in
/// which they stood.
pub open spec fn ordered(inbox: Seq<MessageView>) -> Seq<MessageView>
    decreases inbox.len(),
{
    if inbox.len() == 0 {
        Seq::empty()
    } else {
        let rest = ordered(inbox.drop_last());
        rest.insert(slot_for(rest, inbox.last().sender(), 0), inbox.last())
    }
}

/// Where a message of `sender` goes: after every message from `from` on
/// whose sender is not higher, and before one whose sender is.
pub proof fn lemma_slot_for(inbox: Seq<MessageView>, sender: usize, from: int)
    requires
        0 <= from <= inbox.len(),
    ensures
        from <= slot_for(inbox, sender, from) <= inbox.len(),
        forall|i: int|
            from <= i < slot_for(inbox, sender, from) ==> (#[trigger] inbox[i]).sender() <= sender,
        slot_for(inbox, sender, from) < inbox.len() ==> inbox[slot_for(
            inbox,
            sender,
            from,
        )].sender() > sender,
    decreases inbox.len() - from,
{
    if from < inbox.len() && inbox[from].sender() <= sender {
        lemma_slot_for(inbox, sender, from + 1);
    }
}

/// The messages of a sender in two inboxes put together are those in the
/// first, then those in the second.
pub proof fn lemma_sent_by_add(a: Seq<MessageView>, b: Seq<MessageView>, sender: usize)
    ensures
        sent_by(a + b, sender) == sent_by(a, sender) + sent_by(b, sender),
    decreases b.len(),
{
    if b.len() == 0 {
        assert(a + b =~= a);
        assert(sent_by(a, sender) + sent_by(b, sender) =~= sent_by(a, sender));
    } else {
        lemma_sent_by_add(a, b.drop_last(), sender);
        assert((a + b).drop_last() =~= a + b.drop_last());
        assert((a + b).last() == b.last());
        if b.last().sender() == sender {
            assert(sent_by(a, sender) + sent_by(b.drop_last(), sender).push(b.last()) =~= (sent_by(
                a,
                sender,
            ) + sent_by(b.drop_last(), sender)).push(b.last()));
        }
    }
}

/// An inbox in which no message names the sender holds none of its
/// messages.
pub proof fn lemma_sent_by_none(inbox: Seq<MessageView>, sender: usize)
    requires
        forall|i: int| 0 <= i < inbox.len() ==> (#[trigger] inbox[i]).sender() != sender,
    ensures
        sent_by(inbox, sender).len() == 0,
    decreases inbox.len(),
{
    if inbox.len() > 0 {
        assert forall|i: int| 0 <= i < inbox.drop_last().len() implies (
        #[trigger] inbox.drop_last()[i]).sender() != sender by {
            assert(inbox.drop_last()[i] == inbox[i]);
        }
        lemma_sent_by_none(inbox.drop_last(), sender);
        assert(inbox[inbox.len() - 1].sender() != sender);
    }
}

/// The ordered inbox is ordered by sender, and each sender has the same
/// messages in it, in the same order, as in the inbox.
pub proof fn lemma_ordered(inbox: Seq<MessageView>)
    ensures
        by_sender(ordered(inbox)),
        ordered(inbox).len() == inbox.len(),
        forall|sender: usize| #[trigger] sent_by(ordered(inbox), sender) == sent_by(inbox, sender),
    decreases inbox.len(),
{
    if inbox.len() > 0 {
        let front = inbox.drop_last();
        let m = inbox.last();
        let rest = ordered(front);
        lemma_ordered(front);
        let p = slot_for(rest, m.sender(), 0);
        lemma_slot_for(rest, m.sender(), 0);
        let out = rest.insert(p, m);
        assert forall|i: int, j: int| 0 <= i < j < out.len() implies (#[trigger] out[i]).sender() <= (
        #[trigger] out[j]).sender() by {
            let before = |k: int| if k < p { k } else { k - 1 };
            if i != p && j != p {
                assert(rest[before(i)].sender() <= rest[before(j)].sender());
            } else if i == p {
                if p < rest.len() {
                    assert(rest[p].sender() <= rest[j - 1].sender() || p == j - 1);
                }
            } else {
                assert(rest[i].sender() <= m.sender());
            }
        }
        assert(out =~= rest.take(p).push(m) + rest.skip(p));
        assert(rest =~= rest.take(p) + rest.skip(p));
        assert(rest.take(p).push(m).drop_last() =~= rest.take(p));
        assert forall|sender: usize| #[trigger] sent_by(out, sender) == sent_by(inbox, sender) by {
            lemma_sent_by_add(rest.take(p).push(m), rest.skip(p), sender);
            lemma_sent_by_add(rest.take(p), rest.skip(p), sender);
            assert(sent_by(rest, sender) == sent_by(front, sender));
            if sender == m.sender() {
                assert forall|i: int| 0 <= i < rest.skip(p).len() implies (
                #[trigger] rest.skip(p)[i]).sender() != sender by {
                    if i > 0 {
                        assert(rest[p].sender() <= rest[p + i].sender());
                    }
                }
                lemma_sent_by_none(rest.skip(p), sender);
                assert(sent_by(rest.take(p), sender) + sent_by(rest.skip(p), sender) =~= sent_by(
                    rest.take(p),
                    sender,
                ));
                assert(sent_by(rest.take(p).push(m), sender) + sent_by(rest.skip(p), sender)
                    =~= sent_by(rest.take(p).push(m), sender));
            }
        }
    }
}

/// The last message of the inbox is the last that its sender has there;
/// without it that sender has one message less and every other sender
/// has what it had.
proof fn lemma_last_sent(inbox: Seq<MessageView>)
    requires
        inbox.len() > 0,
    ensures
        sent_by(inbox, inbox.last().sender()).len() > 0,
        sent_by(inbox, inbox.last().sender()).last() == inbox.last(),
        sent_by(inbox, inbox.last().sender()).drop_last() == sent_by(
            inbox.drop_last(),
            inbox.last().sender(),
        ),
        forall|sender: usize|
            sender != inbox.last().sender() ==> #[trigger] sent_by(inbox, sender) == sent_by(
                inbox.drop_last(),
                sender,
            ),
{
    let s = inbox.last().sender();
    assert(sent_by(inbox.drop_last(), s).push(inbox.last()).drop_last() =~= sent_by(
        inbox.drop_last(),
        s,
    ));
}

/// A sender with a message in the inbox is the sender of one of its
/// messages.
proof fn lemma_sender_present(inbox: Seq<MessageView>, sender: usize)
    requires
        sent_by(inbox, sender).len() > 0,
    ensures
        exists|i: int| 0 <= i < inbox.len() && (#[trigger] inbox[i]).sender() == sender,
{
    if forall|i: int| 0 <= i < inbox.len() ==> (#[trigger] inbox[i]).sender() != sender {
        lemma_sent_by_none(inbox, sender);
    }
}

/// Two inboxes that are ordered by sender and hold the same messages of
/// each sender, in the same order, are the same inbox.
pub proof fn lemma_order_unique(a: Seq<MessageView>, b: Seq<MessageView>)
    requires
        by_sender(a),
        by_sender(b),
        forall|sender: usize| #[trigger] sent_by(a, sender) == sent_by(b, sender),
    ensures
        a == b,
    decreases a.len() + b.len(),
{
    if a.len() == 0 && b.len() == 0 {
        assert(a =~= b);
    } else if a.len() == 0 {
        lemma_last_sent(b);
        assert(sent_by(a, b.last().sender()) == sent_by(b, b.last().sender()));
    } else if b.len() == 0 {
        lemma_last_sent(a);
        assert(sent_by(a, a.last().sender()) == sent_by(b, a.last().sender()));
    } else {
        let sa = a.last().sender();
        let sb = b.last().sender();
        lemma_last_sent(a);
        lemma_last_sent(b);
        assert(sent_by(a, sa) == sent_by(b, sa));
        assert(sent_by(a, sb) == sent_by(b, sb));
        lemma_sender_present(b, sa);
        lemma_sender_present(a, sb);
        let i = choose|i: int| 0 <= i < b.len() && (#[trigger] b[i]).sender() == sa;
        let j = choose|j: int| 0 <= j < a.len() && (#[trigger] a[j]).sender() == sb;
        assert(b[i].sender() <= b[b.len() - 1].sender() || i == b.len() - 1);
        assert(a[j].sender() <= a[a.len() - 1].sender() || j == a.len() - 1);
        assert(sa == sb);
        assert(a.last() == b.last());
        let a0 = a.drop_last();
        let b0 = b.drop_last();
        assert forall|i: int, j: int| 0 <= i < j < a0.len() implies (#[trigger] a0[i]).sender() <= (
        #[trigger] a0[j]).sender() by {
            assert(a[i].sender() <= a[j].sender());
        }
        assert forall|i: int, j: int| 0 <= i < j < b0.len() implies (#[trigger] b0[i]).sender() <= (
        #[trigger] b0[j]).sender() by {
            assert(b[i].sender() <= b[j].sender());
        }
        assert forall|sender: usize| #[trigger] sent_by(a0, sender) == sent_by(b0, sender) by {
            assert(sent_by(a, sender) == sent_by(b, sender));
        }
        lemma_order_unique(a0, b0);
        assert(a =~= a0.push(a.last()));
        assert(b =~= b0.push(b.last()));
    }
}

/// The order of arrival among senders is not observable: two inboxes
/// that hold the same messages of each sender, in the same order, are
/// the same once they are ordered. An inbox that is ordered by sender
/// already stays as it is.
pub proof fn lemma_arrival_order_is_unobservable(a: Seq<MessageView>, b: Seq<MessageView>)
    requires
        forall|sender: usize| #[trigger] sent_by(a, sender) == sent_by(b, sender),
    ensures
        ordered(a) == ordered(b),
        by_sender(a) ==> ordered(a) == a,
{
    lemma_ordered(a);
    lemma_ordered(b);
    assert forall|sender: usize| #[trigger] sent_by(ordered(a), sender) == sent_by(
        ordered(b),
        sender,
    ) by {
        assert(sent_by(a, sender) == sent_by(b, sender));
    }
    lemma_order_unique(ordered(a), ordered(b));
    if by_sender(a) {
        lemma_order_unique(ordered(a), a);
    }
}

/// Orders an inbox by sender and keeps the messages of each sender in
/// the order in which they arrived.
pub fn order_inbox(inbox: &Vec<Message>) -> (sorted: Vec<Message>)
    ensures
        messages_view(sorted@) == ordered(messages_view(inbox@)),
        by_sender(messages_view(sorted@)),
        sorted.len() == inbox.len(),
        forall|sender: usize|
            #[trigger] sent_by(messages_view(sorted@), sender) == sent_by(
                messages_view(inbox@),
                sender,
            ),
{
    let ghost all = messages_view(inbox@);
    let mut sorted: Vec<Message> = Vec::new();
    assert(messages_view(sorted@) =~= ordered(all.take(0)));
    let mut k: usize = 0;
    while k < inbox.len()
        invariant
            k <= inbox.len(),
            all == messages_view(inbox@),
            sorted.len() == k,
            messages_view(sorted@) == ordered(all.take(k as int)),
        decreases inbox.len() - k,
    {
        let sender = inbox[k].sender();
        let ghost rest = messages_view(sorted@);
        let mut p: usize = 0;
        while p < sorted.len() && sorted[p].sender() <= sender
            invariant
                p <= sorted.len(),
                rest == messages_view(sorted@),
                slot_for(rest, sender, 0) == slot_for(rest, sender, p as int),
            decreases sorted.len() - p,
        {
            assert(rest[p as int] == sorted[p as int]@);
            p += 1;
        }
        proof {
            if p < sorted.len() {
                assert(rest[p as int] == sorted[p as int]@);
            }
            assert(all.take(k + 1).drop_last() =~= all.take(k as int));
            assert(all.take(k + 1).last() == inbox[k as int]@);
        }
        let message = inbox[k].copy();
        sorted.insert(p, message);
        assert(messages_view(sorted@) =~= rest.insert(p as int, message@));
        k += 1;
    }
    proof {
        assert(all.take(inbox.len() as int) =~= all);
        lemma_ordered(all);
    }
    sorted
}

} // verus!
