//! What holds of every agent and of every run: the invariant of an agent
//! is kept by each step, a value that a search settles on fits the view,
//! a nogood is stored once, an agent that knows of the end falls silent,
//! and agents whose views are up to date hold a consistent assignment.

use vstd::prelude::*;
use crate::agent::{
    inbox_quiet, lemma_backtrack_outbox, lemma_first_fit, lemma_found_moves_on, lemma_search_wf,
    AgentView, Outcome,
};
use crate::board::Board;
use crate::detector::{lemma_stop_is_kept, Detector};
use crate::error::AbtError;
use crate::inbox::{lemma_arrival_order_is_unobservable, ordered, sent_by};
use crate::message::MessageView;
use crate::position::{consistent, spec_consistent, Position};

verus! {

impl AgentView {
    /// The agent holds a column that conflicts with nothing it believes
    /// of the agents below it.
    pub open spec fn holds_fit(self) -> bool {
        match self.value() {
            Position::Col(col) => self.fits(col),
            Position::Unass => false,
        }
    }
}

/// A search that succeeds leaves the agent on a value that fits its view.
pub proof fn lemma_search_fits(a: AgentView)
    requires
        a.wf(),
    ensures
        a.search().1 ==> a.search().0.holds_fit(),
{
    lemma_first_fit(a, a.col_i);
    if a.search().1 {
        let k = a.first_fit(a.col_i)->0;
        let b = a.search().0;
        assert(b.value() == Position::Col(a.pos_seq[k]));
        assert forall|i: int| 0 <= i < b.id implies spec_consistent(
            i as usize,
            #[trigger] b.pos[i],
            b.id,
            Position::Col(a.pos_seq[k]),
        ) by {
            assert(b.pos[i] == a.pos[i]);
        }
    }
}

/// Blaming a lower agent keeps the invariant of the agent.
pub proof fn lemma_blame_wf(a: AgentView, pred: int)
    requires
        a.wf(),
        0 <= pred < a.id,
    ensures
        a.blame(pred).wf(),
        a.blame(pred).id == a.id,
{
    let b = a.blame(pred);
    assert forall|k: int| 0 <= k < b.mess2send.len() implies (#[trigger] b.mess2send[k]).sender()
        == b.id by {
        if k != pred {
            assert(b.mess2send[k] == a.mess2send[k]);
        }
    }
}

/// The search with backtracking keeps the invariant of the agent, and
/// unless it ends in `Underflow` it leaves the agent on a value that
/// fits its view.
pub proof fn lemma_backtrack(a: AgentView, depth: int)
    requires
        a.wf(),
        0 <= depth <= a.id,
    ensures
        a.backtrack(depth).0.wf(),
        a.frame_kept(a.backtrack(depth).0),
        a.backtrack(depth).1 != Outcome::Underflow ==> a.backtrack(depth).0.holds_fit(),
    decreases a.id - depth,
{
    lemma_search_wf(a);
    lemma_search_fits(a);
    let tried = a.search();
    if !tried.1 && depth < a.id {
        let pred = a.id - (depth + 1);
        lemma_blame_wf(tried.0, pred);
        lemma_backtrack(tried.0.blame(pred), depth + 1);
    }
}

/// The whole search of a round keeps the invariant of the agent, and
/// unless it ends in `Underflow` it leaves the agent on a value that
/// fits its view.
pub proof fn lemma_settle(a: AgentView)
    requires
        a.wf(),
    ensures
        a.settle().0.wf(),
        a.frame_kept(a.settle().0),
        a.settle().1 != Outcome::Underflow ==> a.settle().0.holds_fit(),
    decreases a.pos_seq.len() - a.col_i,
{
    lemma_backtrack(a, 0);
    let searched = a.backtrack(0);
    if searched.1 == Outcome::Found && searched.0.nogood_hit() {
        lemma_found_moves_on(a);
        let moved = searched.0.advance();
        assert(moved.wf()) by {
            assert(moved.mess2send == searched.0.mess2send);
            assert(moved.no_goods == searched.0.no_goods);
            assert(moved.pos_seq == searched.0.pos_seq);
        }
        lemma_settle(moved);
    }
}

/// The think phase keeps the invariant of the agent, and unless it ends
/// in `Underflow` the agent then holds a value that fits its view: an
/// agent's value is consistent with what it believes of the agents below
/// it at the moment it is assigned.
pub proof fn lemma_think(a: AgentView)
    requires
        a.wf(),
    ensures
        a.think().0.wf(),
        a.frame_kept(a.think().0),
        a.think().1 != Outcome::Underflow ==> a.think().0.holds_fit(),
{
    lemma_settle(a);
    let settled = a.settle();
    let told = settled.0.announce_value();
    assert(told.pos == settled.0.pos);
}

/// A nogood is stored once: learning it again changes nothing, and after
/// learning it the store holds it at exactly one place.
pub proof fn lemma_learn_once(a: AgentView, nogood: Seq<Position>)
    requires
        a.wf(),
        nogood.len() == a.id + 1,
    ensures
        a.learn(nogood).wf(),
        a.learn(nogood).learn(nogood) == a.learn(nogood),
        exists|k: int|
            0 <= k < a.learn(nogood).no_goods.len() && #[trigger] a.learn(nogood).no_goods[k]
                == nogood && forall|j: int|
                0 <= j < a.learn(nogood).no_goods.len() && j != k ==> a.learn(nogood).no_goods[j]
                    != nogood,
{
    let b = a.learn(nogood);
    if a.no_goods.contains(nogood) {
        let k = choose|k: int| 0 <= k < a.no_goods.len() && a.no_goods[k] == nogood;
        assert(b.no_goods[k] == nogood);
        assert forall|j: int| 0 <= j < b.no_goods.len() && j != k implies b.no_goods[j]
            != nogood by {
            if j < k {
                assert(a.no_goods[j] != a.no_goods[k]);
            } else {
                assert(a.no_goods[k] != a.no_goods[j]);
            }
        }
    } else {
        let k = a.no_goods.len() as int;
        assert(b.no_goods[k] == nogood);
        assert forall|j: int| 0 <= j < b.no_goods.len() && j != k implies b.no_goods[j]
            != nogood by {
            assert(a.no_goods[j] == b.no_goods[j]);
            assert(a.no_goods.contains(a.no_goods[j]));
        }
        assert(b.no_goods.contains(nogood));
        assert forall|i: int, j: int| 0 <= i < j < b.no_goods.len() implies b.no_goods[i]
            != b.no_goods[j] by {
            if j < k {
                assert(a.no_goods[i] != a.no_goods[j]);
            }
        }
    }
}

/// Reading a message keeps the invariant of the agent, its id, its round
/// counter and the size of its board.
pub proof fn lemma_hear(a: AgentView, m: MessageView)
    requires
        a.wf(),
    ensures
        a.hear(m).wf(),
        a.hear(m).id == a.id,
        a.hear(m).round == a.round,
        a.hear(m).pos.len() == a.pos.len(),
{
    match m {
        MessageView::ValueUpdate(sender, p) => {
            if sender < a.id && a.pos[sender as int] != p {
                let b = a.hear(m);
                assert(b.pos_seq == a.pos_seq);
                assert(b.no_goods == a.no_goods);
                assert forall|k: int| 0 <= k < b.mess2send.len() implies (
                #[trigger] b.mess2send[k]).sender() == b.id by {
                    if k <= a.id {
                        assert(b.mess2send[k] == a.mess2send[k]);
                    }
                }
            }
        },
        MessageView::Conflict(sender, nogood) => {
            if a.id < sender < a.pos.len() && nogood.len() == a.id + 1 {
                lemma_learn_once(a, nogood);
            }
        },
        MessageView::Heartbeat(_) => {},
        MessageView::Terminate(_, _) => {},
    }
}

/// Reading an inbox keeps the invariant of the agent, its id, its round
/// counter and the size of its board.
pub proof fn lemma_drain(a: AgentView, inbox: Seq<MessageView>)
    requires
        a.wf(),
    ensures
        a.drain(inbox).wf(),
        a.drain(inbox).id == a.id,
        a.drain(inbox).round == a.round,
        a.drain(inbox).pos.len() == a.pos.len(),
    decreases inbox.len(),
{
    if inbox.len() > 0 {
        lemma_drain(a, inbox.drop_last());
        lemma_hear(a.drain(inbox.drop_last()), inbox.last());
    }
}

/// The message is a `Terminate` for round `by`.
pub open spec fn ends_run(m: MessageView, by: usize) -> bool {
    m matches MessageView::Terminate(_, at_round) && at_round == by
}

/// The inbox holds a `Terminate` for round `by`.
pub open spec fn announced(inbox: Seq<MessageView>, by: usize) -> bool {
    exists|k: int| 0 <= k < inbox.len() && ends_run(#[trigger] inbox[k], by)
}

/// Reading a message forgets no nogood.
pub proof fn lemma_hear_keeps_store(a: AgentView, m: MessageView, nogood: Seq<Position>)
    requires
        a.no_goods.contains(nogood),
    ensures
        a.hear(m).no_goods.contains(nogood),
{
    let k = choose|k: int| 0 <= k < a.no_goods.len() && a.no_goods[k] == nogood;
    assert(a.hear(m).no_goods[k] == nogood);
}

/// A nogood that is carried by a conflict of the inbox, sent by a higher
/// agent and ending at the receiver's id, stands in the store exactly
/// once after the inbox was read, however often the inbox carries it
/// and whether or not the store held it before.
pub proof fn lemma_drain_learns_once(
    a: AgentView,
    inbox: Seq<MessageView>,
    at: int,
    sender: usize,
    nogood: Seq<Position>,
)
    requires
        a.wf(),
        0 <= at < inbox.len(),
        inbox[at] == MessageView::Conflict(sender, nogood),
        a.id < sender < a.pos.len(),
        nogood.len() == a.id + 1,
    ensures
        a.drain(inbox).wf(),
        exists|k: int|
            0 <= k < a.drain(inbox).no_goods.len() && #[trigger] a.drain(inbox).no_goods[k]
                == nogood && forall|j: int|
                0 <= j < a.drain(inbox).no_goods.len() && j != k ==> a.drain(inbox).no_goods[j]
                    != nogood,
    decreases inbox.len(),
{
    lemma_drain(a, inbox);
    let before = a.drain(inbox.drop_last());
    lemma_drain(a, inbox.drop_last());
    if at < inbox.len() - 1 {
        assert(inbox.drop_last()[at] == inbox[at]);
        lemma_drain_learns_once(a, inbox.drop_last(), at, sender, nogood);
        let k0 = choose|k: int|
            0 <= k < before.no_goods.len() && #[trigger] before.no_goods[k] == nogood;
        assert(before.no_goods.contains(nogood));
        lemma_hear_keeps_store(before, inbox.last(), nogood);
    } else {
        lemma_learn_once(before, nogood);
        assert(before.learn(nogood).no_goods.contains(nogood));
    }
    let after = a.drain(inbox);
    assert(after.no_goods.contains(nogood));
    let k = choose|k: int| 0 <= k < after.no_goods.len() && after.no_goods[k] == nogood;
    assert forall|j: int| 0 <= j < after.no_goods.len() && j != k implies after.no_goods[j]
        != nogood by {
        if j < k {
            assert(after.no_goods[j] != after.no_goods[k]);
        } else {
            assert(after.no_goods[k] != after.no_goods[j]);
        }
    }
}

/// The order in which the messages of different senders arrive does not
/// show in an agent that reads its inbox ordered by sender: two inboxes
/// that hold the same messages of each sender, in the same order, leave
/// the same agent.
pub proof fn lemma_drain_ignores_arrival_order(
    a: AgentView,
    first: Seq<MessageView>,
    second: Seq<MessageView>,
    threshold: usize,
)
    requires
        forall|sender: usize| #[trigger] sent_by(first, sender) == sent_by(second, sender),
    ensures
        a.drain(ordered(first)) == a.drain(ordered(second)),
        a.turn(ordered(first), threshold) == a.turn(ordered(second), threshold),
{
    lemma_arrival_order_is_unobservable(first, second);
}

/// An agent that knows the run to end by round `by` still knows it after
/// reading any inbox, and an agent that reads a `Terminate` for round
/// `by` knows it from then on.
pub proof fn lemma_drain_keeps_stop(a: AgentView, inbox: Seq<MessageView>, by: usize)
    ensures
        a.detector.stops_by(by) ==> a.drain(inbox).detector.stops_by(by),
        announced(inbox, by) ==> a.drain(inbox).detector.stops_by(by),
    decreases inbox.len(),
{
    if inbox.len() > 0 {
        let before = a.drain(inbox.drop_last());
        lemma_drain_keeps_stop(a, inbox.drop_last(), by);
        match inbox.last() {
            MessageView::Terminate(sender, at_round) => {
                lemma_stop_is_kept(before.detector, by, at_round, false, false, 0, 0);
                lemma_stop_is_kept(before.detector, at_round, at_round, false, false, 0, 0);
            },
            _ => {},
        }
        if announced(inbox, by) {
            let k = choose|k: int| 0 <= k < inbox.len() && ends_run(#[trigger] inbox[k], by);
            if k < inbox.len() - 1 {
                assert(ends_run(inbox.drop_last()[k], by));
            }
        }
    }
}

/// Termination safety. An agent that has observed a `Terminate` for
/// round `by`, in this round's inbox or before, still knows of it after
/// the round; and in every round that its counter numbers above `by` it
/// hands over nothing, so no `ValueUpdate` and no `Conflict` leaves it
/// after its local round `by`.
pub proof fn lemma_termination_safety(
    a: AgentView,
    inbox: Seq<MessageView>,
    threshold: usize,
    by: usize,
)
    requires
        a.wf(),
        a.detector.stops_by(by) || announced(inbox, by),
    ensures
        a.turn(inbox, threshold).1 is Ok ==> a.turn(inbox, threshold).0.detector.stops_by(by),
        a.round > by ==> a.turn(inbox, threshold).1 == Ok::<Seq<MessageView>, AbtError>(
            Seq::empty(),
        ),
        a.round >= by && a.round < usize::MAX && a.turn(inbox, threshold).1 is Ok ==> a.turn(
            inbox,
            threshold,
        ).0.detector == Detector::Stopped,
{
    if !a.detector.spec_halted() {
        lemma_drain_keeps_stop(a, inbox, by);
        lemma_drain(a, inbox);
        let heard = a.drain(inbox);
        if !heard.detector.spec_overdue(a.round) {
            lemma_think(heard);
            let quiet = inbox_quiet(inbox);
            let sentinel = a.is_sentinel();
            let counted = heard.detector.spec_on_inbox(sentinel, quiet, a.round, threshold);
            lemma_stop_is_kept(heard.detector, by, 0, sentinel, quiet, a.round, threshold);
            let next = (heard.think().0.round + 1) as usize;
            lemma_stop_is_kept(counted, by, 0, false, false, next, 0);
        }
    }
}

/// A halted agent does nothing: its state stays as it is and its outbox
/// is empty, whatever arrives.
pub proof fn lemma_halted_is_silent(a: AgentView, inbox: Seq<MessageView>, threshold: usize)
    requires
        a.detector.spec_halted(),
    ensures
        a.turn(inbox, threshold) == (a, Ok::<Seq<MessageView>, AbtError>(Seq::empty())),
{
}

/// A round that an agent completes leaves it on a value that fits its
/// view.
pub proof fn lemma_turn_fits(a: AgentView, inbox: Seq<MessageView>, threshold: usize)
    requires
        a.wf(),
        !a.detector.spec_halted(),
        !a.drain(inbox).detector.spec_overdue(a.round),
        a.turn(inbox, threshold).1 is Ok,
    ensures
        a.turn(inbox, threshold).0.holds_fit(),
        a.turn(inbox, threshold).0.wf(),
{
    lemma_drain(a, inbox);
    let heard = a.drain(inbox);
    lemma_think(heard);
    let thought = heard.think().0;
    let after = a.turn(inbox, threshold).0;
    assert(after.pos == thought.pos);
    assert(after.id == thought.id);
    assert(after.pos_seq == thought.pos_seq);
    assert(after.no_goods == thought.no_goods);
    assert(after.col_i == thought.col_i);
}

/// The values that the agents hold, by agent.
pub open spec fn global_assignment(agents: Seq<AgentView>) -> Seq<Position> {
    Seq::new(agents.len(), |i: int| agents[i].value())
}

/// What each agent believes of each agent below it is that agent's
/// value.
pub open spec fn views_fresh(agents: Seq<AgentView>) -> bool {
    forall|i: int, j: int|
        0 <= i < j < agents.len() ==> (#[trigger] agents[j]).pos[i] == (#[trigger] agents[i]).value()
}

/// No two values of the assignment conflict.
pub open spec fn pairwise_consistent(board: Seq<Position>) -> bool {
    forall|i: int, j: int|
        0 <= i < j < board.len() ==> spec_consistent(i as usize, board[i], j as usize, board[j])
}

/// Consistency of the global assignment. When every agent holds a value
/// that fits its own view and the views are up to date, no two agents'
/// values conflict, and the candidate solution, the view of the agent
/// with the highest id, is that global assignment.
pub proof fn lemma_fresh_views_are_consistent(agents: Seq<AgentView>)
    requires
        forall|i: int|
            0 <= i < agents.len() ==> (#[trigger] agents[i]).id == i && agents[i].pos.len()
                == agents.len() && agents[i].holds_fit(),
        views_fresh(agents),
    ensures
        pairwise_consistent(global_assignment(agents)),
        agents.len() > 0 ==> agents[agents.len() - 1].pos == global_assignment(agents),
{
    let board = global_assignment(agents);
    assert forall|i: int, j: int| 0 <= i < j < board.len() implies spec_consistent(
        i as usize,
        board[i],
        j as usize,
        board[j],
    ) by {
        let a = agents[j];
        assert(a.holds_fit());
        assert(a.pos[i] == agents[i].value());
        let col = a.value()->Col_0;
        assert(spec_consistent(i as usize, a.pos[i], a.id, Position::Col(col)));
    }
    if agents.len() > 0 {
        let last = agents[agents.len() - 1];
        assert(last.pos =~= board) by {
            assert forall|i: int| 0 <= i < agents.len() implies last.pos[i] == board[i] by {
                if i < agents.len() - 1 {
                    assert(last.pos[i] == agents[i].value());
                }
            }
        }
    }
}

/// Every cell of the board holds a column.
pub open spec fn fully_assigned(board: Seq<Position>) -> bool {
    forall|i: int| 0 <= i < board.len() ==> #[trigger] board[i] != Position::Unass
}

/// Validates a candidate solution: every agent has a column and no two
/// of them conflict.
pub fn is_solution(board: &Board) -> (ok: bool)
    ensures
        ok == (fully_assigned(board@) && pairwise_consistent(board@)),
{
    let n = board.len();
    let mut i: usize = 0;
    while i < n
        invariant
            i <= n,
            n == board@.len(),
            forall|a: int| 0 <= a < i ==> #[trigger] board@[a] != Position::Unass,
            forall|a: int, b: int|
                0 <= a < i && a < b < n ==> spec_consistent(
                    a as usize,
                    board@[a],
                    b as usize,
                    board@[b],
                ),
        decreases n - i,
    {
        if board.get(i) == Position::Unass {
            assert(board@[i as int] == Position::Unass);
            return false;
        }
        let mut j: usize = i + 1;
        while j < n
            invariant
                i < j <= n,
                n == board@.len(),
                forall|b: int|
                    i < b < j ==> spec_consistent(i, board@[i as int], b as usize, board@[b]),
            decreases n - j,
        {
            if !consistent(i, board.get(i), j, board.get(j)) {
                return false;
            }
            j += 1;
        }
        i += 1;
    }
    true
}

impl AgentView {
    /// Every message that waits in the outbox stands where it belongs: a
    /// conflict in the slot of a lower agent, with a nogood that ends at
    /// that agent's id, and a value in the slot of a higher agent. The
    /// end of the run is queued only as the outbox is handed over.
    pub open spec fn outbox_addressed(self) -> bool {
        forall|k: int|
            0 <= k < self.mess2send.len() ==> match #[trigger] self.mess2send[k] {
                MessageView::Conflict(_, nogood) => k < self.id && nogood.len() == k + 1,
                MessageView::ValueUpdate(_, _) => k > self.id,
                MessageView::Terminate(_, _) => false,
                MessageView::Heartbeat(_) => true,
            }
    }
}

/// The search with backtracking addresses its conflicts correctly: each
/// goes to the agent it blames and carries a nogood that ends at that
/// agent's id.
pub proof fn lemma_backtrack_addressed(a: AgentView, depth: int)
    requires
        a.wf(),
        a.outbox_addressed(),
        0 <= depth <= a.id,
    ensures
        a.backtrack(depth).0.outbox_addressed(),
    decreases a.id - depth,
{
    lemma_search_wf(a);
    let tried = a.search();
    assert(tried.0.mess2send == a.mess2send);
    if !tried.1 && depth < a.id {
        let pred = a.id - (depth + 1);
        let blamed = tried.0.blame(pred);
        lemma_blame_wf(tried.0, pred);
        assert forall|k: int| 0 <= k < blamed.mess2send.len() implies match #[trigger] blamed.mess2send[k] {
            MessageView::Conflict(_, nogood) => k < blamed.id && nogood.len() == k + 1,
            MessageView::ValueUpdate(_, _) => k > blamed.id,
            MessageView::Terminate(_, _) => false,
            MessageView::Heartbeat(_) => true,
        } by {
            if k != pred {
                assert(blamed.mess2send[k] == a.mess2send[k]);
            }
        }
        lemma_backtrack_addressed(blamed, depth + 1);
    }
}

/// The whole search of a round addresses its messages correctly.
pub proof fn lemma_settle_addressed(a: AgentView)
    requires
        a.wf(),
        a.outbox_addressed(),
    ensures
        a.settle().0.outbox_addressed(),
    decreases a.pos_seq.len() - a.col_i,
{
    lemma_backtrack(a, 0);
    lemma_backtrack_addressed(a, 0);
    let searched = a.backtrack(0);
    if searched.1 == Outcome::Found && searched.0.nogood_hit() {
        lemma_found_moves_on(a);
        let moved = searched.0.advance();
        assert(moved.mess2send == searched.0.mess2send);
        assert(moved.wf()) by {
            assert(moved.no_goods == searched.0.no_goods);
            assert(moved.pos_seq == searched.0.pos_seq);
        }
        lemma_settle_addressed(moved);
    }
}

/// Reading an inbox addresses what it queues correctly.
pub proof fn lemma_drain_addressed(a: AgentView, inbox: Seq<MessageView>)
    requires
        a.wf(),
        a.outbox_addressed(),
    ensures
        a.drain(inbox).outbox_addressed(),
    decreases inbox.len(),
{
    if inbox.len() > 0 {
        lemma_drain(a, inbox.drop_last());
        lemma_drain_addressed(a, inbox.drop_last());
        let before = a.drain(inbox.drop_last());
        let after = before.hear(inbox.last());
        assert forall|k: int| 0 <= k < after.mess2send.len() implies match #[trigger] after.mess2send[k] {
            MessageView::Conflict(_, nogood) => k < after.id && nogood.len() == k + 1,
            MessageView::ValueUpdate(_, _) => k > after.id,
            MessageView::Terminate(_, _) => false,
            MessageView::Heartbeat(_) => true,
        } by {
            if after.mess2send != before.mess2send {
                if k <= before.id {
                    assert(after.mess2send[k] == before.mess2send[k]);
                }
            } else {
                assert(after.mess2send[k] == before.mess2send[k]);
            }
        }
    }
}

/// Every message that an agent hands over is its own and stands where it
/// belongs. In particular a conflict reaches the agent that it blames
/// with a nogood that ends at that agent's id, so that the receiver
/// stores it; and the end of the run is announced by the sentinel alone,
/// for the round that follows, at the moment its detector fires. The
/// outbox that the agent keeps is a row of heartbeats again.
pub proof fn lemma_turn_addressed(a: AgentView, inbox: Seq<MessageView>, threshold: usize)
    requires
        a.wf(),
        a.outbox_addressed(),
        a.round < usize::MAX,
        a.turn(inbox, threshold).1 is Ok,
    ensures
        ({
            let handed = a.turn(inbox, threshold).1->Ok_0;
            &&& handed.len() == 0 || handed.len() == a.num_agents()
            &&& forall|k: int|
                0 <= k < handed.len() ==> (#[trigger] handed[k]).sender() == a.id && match handed[k] {
                    MessageView::Conflict(_, nogood) => k < a.id && nogood.len() == k + 1,
                    MessageView::ValueUpdate(_, _) => k > a.id,
                    MessageView::Terminate(_, at_round) => {
                        &&& k != a.id
                        &&& at_round == a.round + 1
                        &&& a.drain(inbox).detector.spec_fires(
                            a.is_sentinel(),
                            inbox_quiet(inbox),
                            threshold,
                        )
                    },
                    MessageView::Heartbeat(_) => true,
                }
        }),
        a.turn(inbox, threshold).0.outbox_addressed(),
        a.turn(inbox, threshold).0.wf(),
{
    if !a.detector.spec_halted() {
        lemma_drain(a, inbox);
        lemma_drain_addressed(a, inbox);
        let heard = a.drain(inbox);
        if !heard.detector.spec_overdue(a.round) {
            lemma_settle(heard);
            lemma_settle_addressed(heard);
            lemma_think(heard);
            let thought = heard.think().0;
            assert(thought.outbox_addressed()) by {
                let settled = heard.settle().0;
                assert forall|k: int| 0 <= k < thought.mess2send.len() implies match #[trigger] thought.mess2send[k] {
                    MessageView::Conflict(_, nogood) => k < thought.id && nogood.len() == k + 1,
                    MessageView::ValueUpdate(_, _) => k > thought.id,
                    MessageView::Terminate(_, _) => false,
                    MessageView::Heartbeat(_) => true,
                } by {
                    if thought.mess2send != settled.mess2send {
                        if k <= settled.id {
                            assert(thought.mess2send[k] == settled.mess2send[k]);
                        }
                    } else {
                        assert(thought.mess2send[k] == settled.mess2send[k]);
                    }
                }
            }
            let handed = a.turn(inbox, threshold).1->Ok_0;
            let fires = heard.detector.spec_fires(a.is_sentinel(), inbox_quiet(inbox), threshold);
            assert forall|k: int| 0 <= k < handed.len() implies (#[trigger] handed[k]).sender()
                == a.id && match handed[k] {
                MessageView::Conflict(_, nogood) => k < a.id && nogood.len() == k + 1,
                MessageView::ValueUpdate(_, _) => k > a.id,
                MessageView::Terminate(_, at_round) => k != a.id && at_round == a.round + 1
                    && fires,
                MessageView::Heartbeat(_) => true,
            } by {
                if fires {
                    if k == a.id {
                        assert(handed[k] == thought.mess2send[k]);
                    }
                } else {
                    assert(handed[k] == thought.mess2send[k]);
                }
            }
            let after = a.turn(inbox, threshold).0;
            assert(after.wf()) by {
                assert(after.pos_seq == thought.pos_seq);
                assert(after.no_goods == thought.no_goods);
                assert(after.pos == thought.pos);
            }
        } else {
            let after = a.turn(inbox, threshold).0;
            assert(after.wf()) by {
                assert(after.pos_seq == heard.pos_seq);
                assert(after.no_goods == heard.no_goods);
                assert(after.mess2send == heard.mess2send);
            }
        }
    }
}

impl AgentView {
    /// Whatever waits for a higher agent is a heartbeat or the value that
    /// the agent holds.
    pub open spec fn outbox_current(self) -> bool {
        forall|k: int|
            self.id < k < self.mess2send.len() ==> (#[trigger] self.mess2send[k]) is Heartbeat
                || self.mess2send[k] == MessageView::ValueUpdate(self.id, self.value())
    }
}

/// A search that ends with `Found` leaves the outbox as it is.
pub proof fn lemma_settle_found(a: AgentView)
    requires
        a.wf(),
    ensures
        a.settle().1 == Outcome::Found ==> a.settle().0.mess2send == a.mess2send,
    decreases a.pos_seq.len() - a.col_i,
{
    lemma_backtrack(a, 0);
    lemma_backtrack_outbox(a, 0);
    let searched = a.backtrack(0);
    if searched.1 == Outcome::Found && searched.0.nogood_hit() {
        lemma_found_moves_on(a);
        let moved = searched.0.advance();
        assert(moved.wf()) by {
            assert(moved.mess2send == searched.0.mess2send);
            assert(moved.no_goods == searched.0.no_goods);
            assert(moved.pos_seq == searched.0.pos_seq);
        }
        lemma_settle_found(moved);
    }
}

/// The higher agents are told every move. After a round that an agent
/// completes, what it handed over for a higher agent is its new value or
/// a heartbeat, and it is the new value for every higher agent if the
/// value has changed over the round. The premise leaves out an inbox in
/// which the agent finds a value of its own.
pub proof fn lemma_turn_tells(a: AgentView, inbox: Seq<MessageView>, threshold: usize)
    requires
        a.wf(),
        a.outbox_current(),
        a.round < usize::MAX,
        forall|k: int| 0 <= k < inbox.len() ==> (#[trigger] inbox[k]).sender() != a.id,
        a.turn(inbox, threshold).1 is Ok,
        a.turn(inbox, threshold).1->Ok_0.len() > 0,
    ensures
        ({
            let after = a.turn(inbox, threshold).0;
            let handed = a.turn(inbox, threshold).1->Ok_0;
            &&& handed.len() == a.num_agents()
            &&& forall|k: int|
                a.id < k < handed.len() ==> (#[trigger] handed[k]) is Heartbeat || handed[k]
                    == MessageView::ValueUpdate(a.id, after.value())
            &&& after.value() != a.value() ==> forall|k: int|
                a.id < k < handed.len() ==> #[trigger] handed[k] == MessageView::ValueUpdate(
                    a.id,
                    after.value(),
                )
            &&& after.outbox_current()
        }),
{
    lemma_drain(a, inbox);
    lemma_drain_tells(a, inbox);
    let heard = a.drain(inbox);
    lemma_settle(heard);
    lemma_settle_found(heard);
    lemma_think(heard);
    let settled = heard.settle();
    let thought = heard.think().0;
    let after = a.turn(inbox, threshold).0;
    let handed = a.turn(inbox, threshold).1->Ok_0;
    assert(after.pos == thought.pos);
    assert(thought.pos == settled.0.pos);
    let fires = heard.detector.spec_fires(a.is_sentinel(), inbox_quiet(inbox), threshold);
    assert forall|k: int| a.id < k < handed.len() implies {
        &&& (#[trigger] handed[k]) is Heartbeat || handed[k] == MessageView::ValueUpdate(
            a.id,
            after.value(),
        )
        &&& after.value() != a.value() ==> handed[k] == MessageView::ValueUpdate(
            a.id,
            after.value(),
        )
    } by {
        // an agent with agents above it is not the sentinel
        assert(!a.is_sentinel());
        assert(!fires);
        assert(handed[k] == thought.mess2send[k]);
        if settled.1 == Outcome::Backtracked || settled.0.value() != heard.value() {
            assert(thought == settled.0.announce_value());
        } else {
            assert(settled.1 == Outcome::Found);
            assert(thought.mess2send[k] == heard.mess2send[k]);
        }
    }
}

/// Reading an inbox that holds no value of the agent's own keeps the
/// outbox current, and the agent's value is as it was unless the new
/// value is announced to every higher agent.
pub proof fn lemma_drain_tells(a: AgentView, inbox: Seq<MessageView>)
    requires
        a.wf(),
        a.outbox_current(),
        forall|k: int| 0 <= k < inbox.len() ==> (#[trigger] inbox[k]).sender() != a.id,
    ensures
        a.drain(inbox).outbox_current(),
        a.drain(inbox).value() != a.value() ==> forall|k: int|
            a.id < k < a.drain(inbox).mess2send.len() ==> #[trigger] a.drain(inbox).mess2send[k]
                == MessageView::ValueUpdate(a.id, a.drain(inbox).value()),
    decreases inbox.len(),
{
    if inbox.len() > 0 {
        let front = inbox.drop_last();
        assert forall|k: int| 0 <= k < front.len() implies (#[trigger] front[k]).sender()
            != a.id by {
            assert(front[k] == inbox[k]);
        }
        lemma_drain(a, front);
        lemma_drain_tells(a, front);
        let before = a.drain(front);
        let m = inbox[inbox.len() - 1];
        assert(m.sender() != a.id);
        let after = before.hear(m);
        assert(after == a.drain(inbox));
        assert forall|k: int| after.id < k < after.mess2send.len() implies {
            &&& (#[trigger] after.mess2send[k]) is Heartbeat || after.mess2send[k]
                == MessageView::ValueUpdate(after.id, after.value())
            &&& after.value() != a.value() ==> after.mess2send[k] == MessageView::ValueUpdate(
                a.id,
                after.value(),
            )
        } by {
            if after.mess2send == before.mess2send {
                assert(after.value() == before.value());
                assert(before.mess2send[k] is Heartbeat || before.mess2send[k]
                    == MessageView::ValueUpdate(before.id, before.value()));
            }
        }
    }
}

} // verus!
