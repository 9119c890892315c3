//! One agent of the N-Queens protocol: its state, the search for a value
//! that fits its view, and backtracking when none does.

use vstd::prelude::*;
use crate::board::{eq_part_ass, spec_eq_part_ass, Board};
use crate::detector::Detector;
use crate::error::AbtError;
use crate::invariants::{lemma_backtrack, lemma_settle, lemma_think};
use crate::message::{messages_view, Message, MessageView};
use crate::position::{consistent, spec_consistent, Position};
use crate::trial::{is_trial_order, spec_trial_order, trial_order};

verus! {

/// The state of one agent. The agent owns the variable `pos[id]`; the
/// other cells of `pos` are what it believes of the other agents.
#[derive(Debug)]
pub struct AgentState {
    pub id: usize,
    /// The local view of the assignment vector.
    pub pos: Board,
    /// The order in which this agent tries the values of the domain.
    pub pos_seq: Vec<usize>,
    /// Index into `pos_seq` of the next value to try.
    pub col_i: usize,
    /// The nogoods received so far, oldest first.
    pub no_goods: Vec<Board>,
    /// The outbox: the message for agent `k` stands at index `k`.
    pub mess2send: Vec<Message>,
    /// The number of rounds this agent has completed.
    pub round: usize,
    pub detector: Detector,
}

/// An agent as a mathematical value.
pub struct AgentView {
    pub id: usize,
    pub pos: Seq<Position>,
    pub pos_seq: Seq<usize>,
    pub col_i: int,
    pub no_goods: Seq<Seq<Position>>,
    pub mess2send: Seq<MessageView>,
    pub round: usize,
    pub detector: Detector,
}

/// The nogoods of a store, as values.
pub open spec fn boards_view(s: Seq<Board>) -> Seq<Seq<Position>> {
    Seq::new(s.len(), |i: int| s[i]@)
}

impl View for AgentState {
    type V = AgentView;

    open spec fn view(&self) -> AgentView {
        AgentView {
            id: self.id,
            pos: self.pos@,
            pos_seq: self.pos_seq@,
            col_i: self.col_i as int,
            no_goods: boards_view(self.no_goods@),
            mess2send: messages_view(self.mess2send@),
            round: self.round,
            detector: self.detector,
        }
    }
}

impl AgentView {
    /// The number of agents, which is also the size of the domain.
    pub open spec fn num_agents(self) -> nat {
        self.pos.len()
    }

    /// The agent's own value.
    pub open spec fn value(self) -> Position {
        self.pos[self.id as int]
    }

    /// The invariant of an agent: its id is one of the board, its trial
    /// order is a permutation of the domain, the cursor is at most one
    /// past the end, the outbox has a slot for every agent and every
    /// message in it is its own, and the store holds each nogood once,
    /// each a prefix that ends at the agent's own id.
    pub open spec fn wf(self) -> bool {
        &&& self.id < self.pos.len()
        &&& is_trial_order(self.pos_seq, self.pos.len())
        &&& 0 <= self.col_i <= self.pos.len()
        &&& self.mess2send.len() == self.pos.len()
        &&& forall|k: int|
            0 <= k < self.mess2send.len() ==> (#[trigger] self.mess2send[k]).sender() == self.id
        &&& forall|k: int|
            0 <= k < self.no_goods.len() ==> (#[trigger] self.no_goods[k]).len() == self.id + 1
        &&& forall|j: int, k: int|
            0 <= j < k < self.no_goods.len() ==> self.no_goods[j] != self.no_goods[k]
    }

    /// What no search touches: who the agent is, its trial order, its
    /// store, its round counter and its detector.
    pub open spec fn frame_kept(self, after: AgentView) -> bool {
        &&& after.id == self.id
        &&& after.pos.len() == self.pos.len()
        &&& after.pos_seq == self.pos_seq
        &&& after.no_goods == self.no_goods
        &&& after.round == self.round
        &&& after.detector == self.detector
    }

    /// The value `col` conflicts with nothing that the agent believes of
    /// the agents below it.
    pub open spec fn fits(self, col: usize) -> bool {
        forall|i: int|
            0 <= i < self.id ==> spec_consistent(
                i as usize,
                #[trigger] self.pos[i],
                self.id,
                Position::Col(col),
            )
    }

    /// The first cursor position from `from` on whose value fits.
    pub open spec fn first_fit(self, from: int) -> Option<int>
        decreases self.pos_seq.len() - from,
    {
        if from < 0 || from >= self.pos_seq.len() {
            None
        } else if self.fits(self.pos_seq[from]) {
            Some(from)
        } else {
            self.first_fit(from + 1)
        }
    }

    /// The agent with its own value set to `p`.
    pub open spec fn with_value(self, p: Position) -> AgentView {
        AgentView { pos: self.pos.update(self.id as int, p), ..self }
    }

    /// The first value of the trial order, the one an agent falls back to.
    pub open spec fn first_value(self) -> Position {
        Position::Col(self.pos_seq[0])
    }

    /// The search for a value. From the cursor on, the first value of the
    /// trial order that fits is taken and the cursor stays on it. If none
    /// fits, the cursor goes back to the start and the agent takes the
    /// first value of its trial order for the time being.
    pub open spec fn search(self) -> (AgentView, bool) {
        match self.first_fit(self.col_i) {
            Some(k) => (
                AgentView { col_i: k, ..self.with_value(Position::Col(self.pos_seq[k])) },
                true,
            ),
            None => (AgentView { col_i: 0, ..self.with_value(self.first_value()) }, false),
        }
    }
}

/// What `first_fit` finds fits and lies in `from..n`, with nothing that
/// fits before it; where it finds nothing, no value of
/// `pos_seq[from..]` fits.
pub proof fn lemma_first_fit(a: AgentView, from: int)
    requires
        0 <= from,
    ensures
        match a.first_fit(from) {
            Some(k) => from <= k < a.pos_seq.len() && a.fits(a.pos_seq[k]) && forall|j: int|
                from <= j < k ==> !a.fits(#[trigger] a.pos_seq[j]),
            None => forall|j: int| from <= j < a.pos_seq.len() ==> !a.fits(#[trigger] a.pos_seq[j]),
        },
    decreases a.pos_seq.len() - from,
{
    if from < a.pos_seq.len() && !a.fits(a.pos_seq[from]) {
        lemma_first_fit(a, from + 1);
    }
}

/// The search keeps the invariant of the agent.
pub proof fn lemma_search_wf(a: AgentView)
    requires
        a.wf(),
    ensures
        a.search().0.wf(),
        a.search().0.num_agents() == a.num_agents(),
        a.search().0.id == a.id,
{
    lemma_first_fit(a, a.col_i);
    let b = a.search().0;
    assert(b.pos_seq == a.pos_seq);
    assert(b.mess2send == a.mess2send);
    assert(b.no_goods == a.no_goods);
    assert(b.pos.len() == a.pos.len());
}

/// Decides whether `col` fits the view of `state`.
fn value_fits(state: &AgentState, col: usize) -> (ok: bool)
    requires
        state@.id < state@.pos.len(),
    ensures
        ok == state@.fits(col),
{
    let mut i: usize = 0;
    while i < state.id
        invariant
            i <= state.id < state@.pos.len(),
            forall|k: int|
                0 <= k < i ==> spec_consistent(
                    k as usize,
                    #[trigger] state@.pos[k],
                    state.id,
                    Position::Col(col),
                ),
        decreases state.id - i,
    {
        if !consistent(i, state.pos.get(i), state.id, Position::Col(col)) {
            assert(!spec_consistent(i, state@.pos[i as int], state.id, Position::Col(col)));
            return false;
        }
        i += 1;
    }
    true
}

/// Tries the values of the trial order from the cursor on and takes the
/// first that fits the view of the lower agents. Returns whether one was
/// found; if not, the cursor is back at the start and the agent holds the
/// first value of its trial order.
pub fn try_to_inc_pos(state: &mut AgentState, num_agents: usize) -> (found: bool)
    requires
        old(state)@.wf(),
        num_agents == old(state)@.num_agents(),
    ensures
        (final(state)@, found) == old(state)@.search(),
        final(state)@.wf(),
        old(state)@.frame_kept(final(state)@),
{
    let ghost a = state@;
    proof {
        lemma_search_wf(a);
    }
    let mut k: usize = state.col_i;
    while k < num_agents
        invariant
            state.col_i <= k <= num_agents,
            *state == *old(state),
            a == state@,
            a.wf(),
            a.search().0.wf(),
            num_agents == a.num_agents(),
            a.first_fit(a.col_i) == a.first_fit(k as int),
        decreases num_agents - k,
    {
        let col = state.pos_seq[k];
        if value_fits(state, col) {
            state.pos.set(state.id, Position::Col(col));
            state.col_i = k;
            return true;
        }
        k += 1;
    }
    let first = state.pos_seq[0];
    state.pos.set(state.id, Position::Col(first));
    state.col_i = 0;
    false
}

/// How an agent's search for a value ended.
#[derive(PartialEq, Eq, Structural, Clone, Copy, Debug)]
pub enum Outcome {
    /// A value fits and nobody was blamed.
    Found,
    /// No value fitted until the agent had blamed lower agents and
    /// forgotten what it believed of them.
    Backtracked,
    /// No value fitted and no lower agent was left to blame.
    Underflow,
}

impl AgentView {
    /// The agent after it has blamed `pred`: the outbox holds a conflict
    /// for `pred` with the view of the agents up to `pred` as its nogood,
    /// the agent is back on its first value, and it has forgotten what it
    /// believed of `pred`.
    pub open spec fn blame(self, pred: int) -> AgentView {
        AgentView {
            mess2send: self.mess2send.update(
                pred,
                MessageView::Conflict(self.id, self.pos.take(pred + 1)),
            ),
            pos: self.pos.update(self.id as int, self.first_value()).update(pred, Position::Unass),
            ..self
        }
    }

    /// The agent after it has told everybody it did not blame that it has
    /// nothing for them: the `depth` slots just below its own keep their
    /// conflicts, every other slot of the outbox holds a heartbeat.
    pub open spec fn hush(self, depth: int) -> AgentView {
        AgentView {
            mess2send: Seq::new(
                self.mess2send.len(),
                |k: int|
                    if self.id - depth <= k < self.id {
                        self.mess2send[k]
                    } else {
                        MessageView::Heartbeat(self.id)
                    },
            ),
            ..self
        }
    }

    /// The search with backtracking, after `depth` agents have been
    /// blamed. While the search fails, the next lower agent is blamed and
    /// the search starts again. A search that succeeds after a blame
    /// leaves a heartbeat for every agent that was not blamed, whatever
    /// waited in its slot. When the agents below are used up, the outcome
    /// is `Underflow`.
    pub open spec fn backtrack(self, depth: int) -> (AgentView, Outcome)
        decreases self.id - depth,
    {
        let tried = self.search();
        if tried.1 {
            if depth > 0 {
                (tried.0.hush(depth), Outcome::Backtracked)
            } else {
                (tried.0, Outcome::Found)
            }
        } else if depth >= self.id {
            (tried.0, Outcome::Underflow)
        } else {
            tried.0.blame(self.id - (depth + 1)).backtrack(depth + 1)
        }
    }

    /// The number of agents blamed when the search with backtracking
    /// that has already blamed `depth` agents comes to its end.
    pub open spec fn blame_depth(self, depth: int) -> int
        decreases self.id - depth,
    {
        let tried = self.search();
        if tried.1 || depth >= self.id {
            depth
        } else {
            tried.0.blame(self.id - (depth + 1)).blame_depth(depth + 1)
        }
    }

    /// What a backtrack that went from `depth` blamed agents to `reached`
    /// has made of the agent `self`, in `after`. Each agent newly blamed
    /// has a conflict in its slot, with the view of the agents up to it
    /// as the nogood, and is forgotten in the view. Every agent that was
    /// never blamed has a heartbeat in its slot. The view of the agents
    /// below the blamed ones, and what was there for the agents blamed
    /// before, is as it was.
    pub open spec fn blamed_between(self, after: AgentView, depth: int, reached: int) -> bool {
        &&& depth <= reached <= self.id
        &&& after.mess2send.len() == self.mess2send.len()
        &&& after.pos.len() == self.pos.len()
        &&& forall|k: int|
            self.id - reached <= k < self.id - depth ==> #[trigger] after.mess2send[k]
                == MessageView::Conflict(self.id, self.pos.take(k + 1)) && after.pos[k]
                == Position::Unass
        &&& forall|k: int|
            self.id - depth <= k < self.id ==> #[trigger] after.mess2send[k] == self.mess2send[k]
                && after.pos[k] == self.pos[k]
        &&& forall|k: int|
            0 <= k < self.mess2send.len() && !(self.id - reached <= k < self.id)
                ==> #[trigger] after.mess2send[k] == MessageView::Heartbeat(self.id)
        &&& forall|k: int| 0 <= k < self.id - reached ==> #[trigger] after.pos[k] == self.pos[k]
    }

    /// Some stored nogood applies to the view as it stands.
    pub open spec fn nogood_hit(self) -> bool {
        exists|k: int|
            0 <= k < self.no_goods.len() && spec_eq_part_ass(#[trigger] self.no_goods[k], self.pos)
    }

    /// The agent after a nogood has ruled out its value: the cursor moves
    /// on by one, and the agent takes the value there if there is one.
    pub open spec fn advance(self) -> AgentView {
        let next = self.col_i + 1;
        AgentView {
            col_i: next,
            pos: if 0 <= next < self.pos_seq.len() {
                self.pos.update(self.id as int, Position::Col(self.pos_seq[next]))
            } else {
                self.pos
            },
            ..self
        }
    }

    /// The whole search of one round: search with backtracking, then the
    /// nogood check. While the value found without backtracking is ruled
    /// out by a stored nogood, the cursor moves on and the search starts
    /// again.
    pub open spec fn settle(self) -> (AgentView, Outcome)
        decreases self.pos_seq.len() - self.col_i,
    {
        let searched = self.backtrack(0);
        if searched.1 == Outcome::Found && searched.0.nogood_hit() {
            proof {
                lemma_found_moves_on(self);
            }
            searched.0.advance().settle()
        } else {
            searched
        }
    }
}

/// A search that ends with `Found` leaves the cursor on an index of the
/// trial order that is not before the old cursor.
pub proof fn lemma_found_moves_on(a: AgentView)
    ensures
        a.backtrack(0).1 == Outcome::Found ==> {
            &&& a.backtrack(0).0 == a.search().0
            &&& a.search().1
            &&& a.col_i <= a.backtrack(0).0.col_i < a.pos_seq.len()
            &&& 0 <= a.backtrack(0).0.col_i
            &&& a.backtrack(0).0.pos_seq == a.pos_seq
        },
{
    if a.col_i >= 0 {
        lemma_first_fit(a, a.col_i);
    }
    if !a.search().1 && 0 < a.id {
        lemma_backtrack_deep(a.search().0.blame(a.id - 1), 1);
    }
}

/// What a backtrack leaves behind: a conflict for each agent it blamed,
/// from the one just below the agent downwards without a gap, and a
/// heartbeat for every other agent. A search that succeeds at once
/// leaves the outbox as it is.
pub proof fn lemma_backtrack_outbox(a: AgentView, depth: int)
    requires
        a.wf(),
        0 <= depth <= a.id,
    ensures
        a.backtrack(depth).1 == Outcome::Backtracked ==> a.blamed_between(
            a.backtrack(depth).0,
            depth,
            a.blame_depth(depth),
        ) && 1 <= a.blame_depth(depth),
        a.backtrack(depth).1 == Outcome::Found ==> a.backtrack(depth).0.mess2send == a.mess2send,
    decreases a.id - depth,
{
    lemma_search_wf(a);
    let tried = a.search();
    assert(tried.0.mess2send == a.mess2send);
    if tried.1 {
        if depth > 0 {
            let b = tried.0.hush(depth);
            assert forall|k: int| a.id - depth <= k < a.id implies #[trigger] b.mess2send[k]
                == a.mess2send[k] && b.pos[k] == a.pos[k] by {
                assert(tried.0.pos[k] == a.pos[k]);
            }
            assert forall|k: int| 0 <= k < a.id - depth implies #[trigger] b.pos[k] == a.pos[k] by {
                assert(tried.0.pos[k] == a.pos[k]);
            }
        }
    } else if depth < a.id {
        let pred = a.id - (depth + 1);
        let blamed = tried.0.blame(pred);
        assert(blamed.wf()) by {
            assert forall|k: int| 0 <= k < blamed.mess2send.len() implies (
            #[trigger] blamed.mess2send[k]).sender() == blamed.id by {
                if k != pred {
                    assert(blamed.mess2send[k] == a.mess2send[k]);
                }
            }
            assert(blamed.pos_seq == a.pos_seq);
            assert(blamed.no_goods == a.no_goods);
        }
        lemma_backtrack_outbox(blamed, depth + 1);
        lemma_backtrack_deep(blamed, depth + 1);
        let b = a.backtrack(depth).0;
        let reached = a.blame_depth(depth);
        if a.backtrack(depth).1 == Outcome::Backtracked {
            assert forall|k: int| a.id - reached <= k < a.id - depth implies #[trigger] b.mess2send[k]
                == MessageView::Conflict(a.id, a.pos.take(k + 1)) && b.pos[k]
                == Position::Unass by {
                if k < pred {
                    assert(blamed.pos.take(k + 1) =~= a.pos.take(k + 1));
                } else {
                    assert(tried.0.pos.take(pred + 1) =~= a.pos.take(pred + 1));
                }
            }
            assert forall|k: int| a.id - depth <= k < a.id implies #[trigger] b.mess2send[k]
                == a.mess2send[k] && b.pos[k] == a.pos[k] by {
                assert(blamed.mess2send[k] == a.mess2send[k]);
                assert(blamed.pos[k] == a.pos[k]);
            }
            assert forall|k: int| 0 <= k < a.id - reached implies #[trigger] b.pos[k]
                == a.pos[k] by {
                assert(blamed.pos[k] == a.pos[k]);
            }
        }
    }
}

/// Once an agent has been blamed the outcome is no longer `Found`.
pub proof fn lemma_backtrack_deep(a: AgentView, depth: int)
    requires
        depth > 0,
    ensures
        a.backtrack(depth).1 != Outcome::Found,
    decreases a.id - depth,
{
    if !a.search().1 && depth < a.id {
        lemma_backtrack_deep(a.search().0.blame(a.id - (depth + 1)), depth + 1);
    }
}

/// Puts a heartbeat in every slot of the outbox but the `depth` slots
/// just below the agent's own.
fn hush(state: &mut AgentState, depth: usize)
    requires
        old(state)@.wf(),
        depth <= old(state).id,
    ensures
        final(state)@ == old(state)@.hush(depth as int),
        final(state)@.wf(),
        old(state)@.frame_kept(final(state)@),
{
    let n = state.mess2send.len();
    let lowest = state.id - depth;
    let mut k: usize = 0;
    while k < n
        invariant
            k <= n,
            n == old(state)@.mess2send.len(),
            old(state)@.wf(),
            lowest == old(state).id - depth,
            state@ == (AgentView { mess2send: state@.mess2send, ..old(state)@ }),
            state@.mess2send.len() == n,
            forall|j: int|
                0 <= j < n ==> #[trigger] state@.mess2send[j] == if j < k && !(lowest <= j
                    < state.id) {
                    MessageView::Heartbeat(state.id)
                } else {
                    old(state)@.mess2send[j]
                },
        decreases n - k,
    {
        if !(lowest <= k && k < state.id) {
            let ghost outbox = state.mess2send@;
            state.mess2send[k] = Message::Heartbeat(state.id);
            assert(messages_view(state.mess2send@) =~= messages_view(outbox).update(
                k as int,
                MessageView::Heartbeat(state.id),
            ));
        }
        k += 1;
    }
    assert(state@.mess2send =~= old(state)@.hush(depth as int).mess2send);
}

/// Searches for a value and backtracks while none fits: each failure
/// blames the next lower agent with a conflict in the outbox, puts the
/// agent back on its first value and erases what it believed of the
/// blamed agent. After a backtrack every agent that was not blamed finds
/// a heartbeat in its slot. `Underflow` says that the search failed with
/// every lower agent already blamed.
pub fn update_pos(state: &mut AgentState, num_agents: usize) -> (outcome: Outcome)
    requires
        old(state)@.wf(),
        num_agents == old(state)@.num_agents(),
    ensures
        (final(state)@, outcome) == old(state)@.backtrack(0),
        final(state)@.wf(),
        old(state)@.frame_kept(final(state)@),
        outcome == Outcome::Backtracked ==> 1 <= old(state)@.blame_depth(0) && old(
            state,
        )@.blamed_between(final(state)@, 0, old(state)@.blame_depth(0)),
        outcome == Outcome::Found ==> final(state)@.mess2send == old(state)@.mess2send,
        outcome != Outcome::Underflow ==> final(state)@.holds_fit(),
{
    proof {
        lemma_backtrack_outbox(state@, 0);
        lemma_backtrack(state@, 0);
    }
    let mut depth: usize = 0;
    loop
        invariant
            state@.wf(),
            num_agents == state@.num_agents(),
            depth <= state.id,
            old(state)@.frame_kept(state@),
            state@.backtrack(depth as int) == old(state)@.backtrack(0),
            old(state)@.backtrack(0).1 == Outcome::Backtracked ==> 1 <= old(state)@.blame_depth(0)
                && old(state)@.blamed_between(
                old(state)@.backtrack(0).0,
                0,
                old(state)@.blame_depth(0),
            ),
            old(state)@.backtrack(0).1 == Outcome::Found ==> old(state)@.backtrack(0).0.mess2send
                == old(state)@.mess2send,
            old(state)@.backtrack(0).1 != Outcome::Underflow ==> old(state)@.backtrack(
                0,
            ).0.holds_fit(),
        decreases state.id - depth,
    {
        let ghost before = state@;
        if try_to_inc_pos(state, num_agents) {
            if depth > 0 {
                hush(state, depth);
                return Outcome::Backtracked;
            }
            return Outcome::Found;
        }
        if depth >= state.id {
            return Outcome::Underflow;
        }
        depth += 1;
        let pred = state.id - depth;
        let nogood = state.pos.prefix(pred + 1);
        let ghost outbox = state.mess2send@;
        let ghost tried = state@;
        state.mess2send[pred] = Message::Conflict(state.id, nogood);
        let first = state.pos_seq[0];
        state.pos.set(state.id, Position::Col(first));
        state.pos.set(pred, Position::Unass);
        proof {
            assert(messages_view(state.mess2send@) =~= messages_view(outbox).update(
                pred as int,
                MessageView::Conflict(state.id, tried.pos.take(pred + 1)),
            ));
            assert(state@ == tried.blame(pred as int));
            assert(tried == before.search().0);
        }
    }
}

/// Decides whether a stored nogood applies to the view. The store is
/// read from the nogood received last to the one received first.
fn nogood_applies(state: &AgentState) -> (hit: bool)
    ensures
        hit == state@.nogood_hit(),
{
    let mut k: usize = state.no_goods.len();
    while k > 0
        invariant
            k <= state.no_goods.len(),
            forall|j: int|
                k <= j < state.no_goods.len() ==> !spec_eq_part_ass(
                    #[trigger] state@.no_goods[j],
                    state@.pos,
                ),
        decreases k,
    {
        k -= 1;
        if eq_part_ass(&state.no_goods[k], &state.pos) {
            assert(spec_eq_part_ass(state@.no_goods[k as int], state@.pos));
            return true;
        }
    }
    false
}

/// The whole search of one round: a value that fits the view is looked
/// for, with backtracking; a value found without backtracking is then
/// held against the stored nogoods, and while one of them rules it out
/// the cursor moves on and the search starts again.
pub fn run_agent_rec(state: &mut AgentState, num_agents: usize) -> (outcome: Outcome)
    requires
        old(state)@.wf(),
        num_agents == old(state)@.num_agents(),
    ensures
        (final(state)@, outcome) == old(state)@.settle(),
        final(state)@.wf(),
        old(state)@.frame_kept(final(state)@),
        outcome != Outcome::Underflow ==> final(state)@.holds_fit(),
        outcome == Outcome::Found ==> !final(state)@.nogood_hit(),
{
    proof {
        lemma_settle(state@);
    }
    loop
        invariant
            state@.wf(),
            num_agents == state@.num_agents(),
            old(state)@.frame_kept(state@),
            old(state)@.settle().1 != Outcome::Underflow ==> old(state)@.settle().0.holds_fit(),
            state@.settle() == old(state)@.settle(),
        decreases num_agents - state.col_i,
    {
        let ghost before = state@;
        let outcome = update_pos(state, num_agents);
        match outcome {
            Outcome::Found => {},
            _ => {
                return outcome;
            },
        }
        if !nogood_applies(state) {
            return Outcome::Found;
        }
        proof {
            lemma_found_moves_on(before);
        }
        let ghost found = state@;
        state.col_i = state.col_i + 1;
        if state.col_i < num_agents {
            let col = state.pos_seq[state.col_i];
            state.pos.set(state.id, Position::Col(col));
        }
        assert(state@ == found.advance());
    }
}

impl AgentView {
    /// The agent with a `ValueUpdate` that carries its own value queued
    /// for every agent above it.
    pub open spec fn announce_value(self) -> AgentView {
        AgentView {
            mess2send: Seq::new(
                self.mess2send.len(),
                |k: int|
                    if k > self.id {
                        MessageView::ValueUpdate(self.id, self.value())
                    } else {
                        self.mess2send[k]
                    },
            ),
            ..self
        }
    }

    /// The think phase of a round: the search, and then the announcement
    /// of the agent's value to the agents above, if the search has moved
    /// the agent to another value than it held when the search began, or
    /// if it backtracked and so replaced whatever waited for them by
    /// heartbeats. After an underflow nothing is announced.
    pub open spec fn think(self) -> (AgentView, Outcome) {
        let settled = self.settle();
        if settled.1 == Outcome::Backtracked || (settled.1 == Outcome::Found
            && settled.0.value() != self.value()) {
            (settled.0.announce_value(), settled.1)
        } else {
            settled
        }
    }

    /// The agent after it has learned `nogood`. A nogood that the store
    /// already holds is not stored again.
    pub open spec fn learn(self, nogood: Seq<Position>) -> AgentView {
        if self.no_goods.contains(nogood) {
            self
        } else {
            AgentView { no_goods: self.no_goods.push(nogood), ..self }
        }
    }

    /// The agent after it has read one message.
    ///
    /// A `ValueUpdate` of an agent of the board goes into the view,
    /// whoever sent it. If its value is new there, the agent's own
    /// assignment may no longer hold: before the sender's slot is
    /// overwritten, the cursor goes back to the start, and the agent takes
    /// the first value of its trial order and queues that for the agents
    /// above. A `Conflict` counts when it comes from a higher agent and
    /// its nogood ends at the agent's own id: the nogood is learned. A
    /// `Terminate` goes to the detector. Anything else leaves the agent as
    /// it is.
    pub open spec fn hear(self, m: MessageView) -> AgentView {
        match m {
            MessageView::ValueUpdate(sender, p) => if sender < self.pos.len()
                && self.pos[sender as int] != p {
                let reset = AgentView {
                    col_i: 0,
                    ..self.with_value(self.first_value())
                }.announce_value();
                AgentView { pos: reset.pos.update(sender as int, p), ..reset }
            } else {
                self
            },
            MessageView::Conflict(sender, nogood) => if self.id < sender < self.pos.len()
                && nogood.len() == self.id + 1 {
                self.learn(nogood)
            } else {
                self
            },
            MessageView::Heartbeat(_) => self,
            MessageView::Terminate(_, at_round) => AgentView {
                detector: self.detector.spec_on_terminate(at_round),
                ..self
            },
        }
    }

    /// The agent after it has read the messages of `inbox` in order.
    pub open spec fn drain(self, inbox: Seq<MessageView>) -> AgentView
        decreases inbox.len(),
    {
        if inbox.len() == 0 {
            self
        } else {
            self.drain(inbox.drop_last()).hear(inbox.last())
        }
    }
}

/// An inbox with nothing but heartbeats and announcements of the end.
pub open spec fn inbox_quiet(inbox: Seq<MessageView>) -> bool {
    forall|k: int| 0 <= k < inbox.len() ==> !(#[trigger] inbox[k]).is_work()
}

/// Queues the agent's value for every agent above it.
pub fn send_oks(state: &mut AgentState, num_agents: usize)
    requires
        old(state)@.wf(),
        num_agents == old(state)@.num_agents(),
    ensures
        final(state)@ == old(state)@.announce_value(),
        final(state)@.wf(),
        old(state)@.frame_kept(final(state)@),
{
    let value = state.pos.get(state.id);
    let mut succ: usize = state.id + 1;
    while succ < num_agents
        invariant
            state.id < succ <= num_agents,
            num_agents == old(state)@.num_agents(),
            old(state)@.wf(),
            value == old(state)@.value(),
            state@ == (AgentView { mess2send: state@.mess2send, ..old(state)@ }),
            state@.mess2send.len() == num_agents,
            forall|k: int|
                0 <= k < num_agents ==> #[trigger] state@.mess2send[k] == if state.id < k < succ {
                    MessageView::ValueUpdate(state.id, value)
                } else {
                    old(state)@.mess2send[k]
                },
        decreases num_agents - succ,
    {
        let ghost outbox = state.mess2send@;
        state.mess2send[succ] = Message::ValueUpdate(state.id, value);
        assert(messages_view(state.mess2send@) =~= messages_view(outbox).update(
            succ as int,
            MessageView::ValueUpdate(state.id, value),
        ));
        succ += 1;
    }
    assert(state@.mess2send =~= old(state)@.announce_value().mess2send);
}

/// The think phase of a round. The agent searches for a value. Where the
/// search moved it to another value than it held before, or backtracked,
/// the value is queued for all agents above; after an underflow nothing
/// is queued.
pub fn run_agent(state: &mut AgentState, num_agents: usize) -> (outcome: Outcome)
    requires
        old(state)@.wf(),
        num_agents == old(state)@.num_agents(),
    ensures
        (final(state)@, outcome) == old(state)@.think(),
        final(state)@.wf(),
        old(state)@.frame_kept(final(state)@),
        outcome != Outcome::Underflow ==> final(state)@.holds_fit(),
{
    proof {
        lemma_think(state@);
    }
    let old_state_col = state.pos.get(state.id);
    let outcome = run_agent_rec(state, num_agents);
    match outcome {
        Outcome::Underflow => {
            return outcome;
        },
        _ => {},
    }
    let moved = old_state_col != state.pos.get(state.id);
    let announce = match outcome {
        Outcome::Backtracked => true,
        _ => moved,
    };
    if announce {
        send_oks(state, num_agents);
    }
    outcome
}

/// An outbox of `n` heartbeats from agent `id`.
pub open spec fn heartbeats(id: usize, n: nat) -> Seq<MessageView> {
    Seq::new(n, |k: int| MessageView::Heartbeat(id))
}

impl AgentView {
    /// The sentinel is the agent with the highest id.
    pub open spec fn is_sentinel(self) -> bool {
        self.id + 1 == self.pos.len()
    }

    /// The agent with a `Terminate` for round `at_round` queued for every
    /// other agent.
    pub open spec fn broadcast_end(self, at_round: usize) -> AgentView {
        AgentView {
            mess2send: Seq::new(
                self.mess2send.len(),
                |k: int|
                    if k != self.id {
                        MessageView::Terminate(self.id, at_round)
                    } else {
                        self.mess2send[k]
                    },
            ),
            ..self
        }
    }

    /// The agent after it has handed over its outbox: the outbox holds
    /// heartbeats again, the round counter has moved on, and the agent
    /// halts if the counter has passed the announced end.
    pub open spec fn close_round(self) -> AgentView {
        let next = (self.round + 1) as usize;
        AgentView {
            mess2send: heartbeats(self.id, self.mess2send.len()),
            round: next,
            detector: self.detector.spec_on_round_end(next),
            ..self
        }
    }

    /// One round of an agent: the state after it and the outbox it hands
    /// over, or the error that ends the run.
    ///
    /// A halted agent does nothing and hands over nothing. Any other
    /// reads its inbox. If it learns there that the run ended before this
    /// round it halts at once and hands over nothing. Else it thinks; an
    /// underflow ends the run. The sentinel then counts the round as
    /// quiet or not and, when the count passes `threshold`, queues the
    /// announcement of the end for everybody. The outbox is handed over
    /// and the round is closed.
    pub open spec fn turn(self, inbox: Seq<MessageView>, threshold: usize) -> (
        AgentView,
        Result<Seq<MessageView>, AbtError>,
    ) {
        if self.detector.spec_halted() {
            (self, Ok(Seq::empty()))
        } else {
            let heard = self.drain(inbox);
            if heard.detector.spec_overdue(self.round) {
                (AgentView { detector: Detector::Stopped, ..heard }, Ok(Seq::empty()))
            } else {
                let thought = heard.think();
                if thought.1 == Outcome::Underflow {
                    (thought.0, Err(AbtError::BacktrackUnderflow(self.id)))
                } else {
                    let quiet = inbox_quiet(inbox);
                    let sentinel = self.is_sentinel();
                    let counted = AgentView {
                        detector: heard.detector.spec_on_inbox(
                            sentinel,
                            quiet,
                            self.round,
                            threshold,
                        ),
                        ..thought.0
                    };
                    let ready = if heard.detector.spec_fires(sentinel, quiet, threshold) {
                        counted.broadcast_end((self.round + 1) as usize)
                    } else {
                        counted
                    };
                    (ready.close_round(), Ok(ready.mess2send))
                }
            }
        }
    }
}

/// Learning a nogood keeps the invariant of the agent.
fn learn(state: &mut AgentState, nogood: Board)
    requires
        old(state)@.wf(),
        nogood@.len() == old(state).id + 1,
    ensures
        final(state)@ == old(state)@.learn(nogood@),
        final(state)@.wf(),
{
    let mut k: usize = 0;
    while k < state.no_goods.len()
        invariant
            k <= state.no_goods.len(),
            *state == *old(state),
            old(state)@.wf(),
            nogood@.len() == old(state).id + 1,
            forall|j: int| 0 <= j < k ==> state@.no_goods[j] != nogood@,
        decreases state.no_goods.len() - k,
    {
        if state.no_goods[k].same(&nogood) {
            assert(state@.no_goods[k as int] == nogood@);
            return;
        }
        k += 1;
    }
    let ghost store = state.no_goods@;
    state.no_goods.push(nogood);
    assert(boards_view(state.no_goods@) =~= boards_view(store).push(nogood@));
}

/// Reads the inbox, message by message. Returns whether the inbox was
/// quiet: it held no `ValueUpdate` and no `Conflict`.
pub fn receive_messages(num_agents: usize, state: &mut AgentState, inbox: &Vec<Message>) -> (quiet:
    bool)
    requires
        old(state)@.wf(),
        num_agents == old(state)@.num_agents(),
    ensures
        final(state)@ == old(state)@.drain(messages_view(inbox@)),
        quiet == inbox_quiet(messages_view(inbox@)),
        final(state)@.wf(),
        final(state)@.num_agents() == num_agents,
        final(state)@.id == old(state)@.id,
        final(state)@.round == old(state)@.round,
{
    let ghost all = messages_view(inbox@);
    let mut quiet = true;
    let mut k: usize = 0;
    while k < inbox.len()
        invariant
            k <= inbox.len(),
            all == messages_view(inbox@),
            state@.wf(),
            num_agents == state@.num_agents(),
            state@.id == old(state)@.id,
            state@.round == old(state)@.round,
            state@ == old(state)@.drain(all.take(k as int)),
            quiet == inbox_quiet(all.take(k as int)),
        decreases inbox.len() - k,
    {
        let ghost before = state@;
        proof {
            assert(all.take(k + 1).drop_last() =~= all.take(k as int));
            assert(all.take(k + 1).last() == inbox[k as int]@);
        }
        match &inbox[k] {
            Message::ValueUpdate(sender, p) => {
                assert(all.take(k + 1)[k as int].is_work());
                quiet = false;
                if *sender < num_agents && state.pos.get(*sender) != *p {
                    state.col_i = 0;
                    let first = state.pos_seq[0];
                    state.pos.set(state.id, Position::Col(first));
                    send_oks(state, num_agents);
                    state.pos.set(*sender, *p);
                }
            },
            Message::Conflict(sender, nogood) => {
                assert(all.take(k + 1)[k as int].is_work());
                quiet = false;
                if state.id < *sender && *sender < num_agents && nogood.len() == state.id + 1 {
                    learn(state, nogood.copy());
                }
            },
            Message::Heartbeat(_) => {},
            Message::Terminate(_, at_round) => {
                state.detector = state.detector.on_terminate(*at_round);
            },
        }
        proof {
            assert(state@ == before.hear(inbox[k as int]@));
            if quiet {
                assert forall|j: int| 0 <= j < k + 1 implies !(#[trigger] all.take(
                    k + 1,
                )[j]).is_work() by {
                    if j < k {
                        assert(all.take(k as int)[j] == all.take(k + 1)[j]);
                    }
                }
            }
        }
        k += 1;
    }
    assert(all.take(inbox.len() as int) =~= all);
    quiet
}

/// Hands over the outbox and leaves a heartbeat in every slot.
pub fn send_messages(state: &mut AgentState) -> (outbox: Vec<Message>)
    requires
        old(state)@.wf(),
    ensures
        messages_view(outbox@) == old(state)@.mess2send,
        final(state)@ == (AgentView {
            mess2send: heartbeats(old(state)@.id, old(state)@.mess2send.len()),
            ..old(state)@
        }),
        final(state)@.wf(),
{
    let n = state.mess2send.len();
    let mut fresh: Vec<Message> = Vec::new();
    let mut k: usize = 0;
    while k < n
        invariant
            k <= n,
            fresh.len() == k,
            *state == *old(state),
            messages_view(fresh@) == heartbeats(state.id, k as nat),
        decreases n - k,
    {
        let ghost prev = fresh@;
        fresh.push(Message::Heartbeat(state.id));
        assert(messages_view(fresh@) =~= messages_view(prev).push(
            MessageView::Heartbeat(state.id),
        ));
        assert(messages_view(fresh@) =~= heartbeats(state.id, (k + 1) as nat));
        k += 1;
    }
    std::mem::swap(&mut state.mess2send, &mut fresh);
    fresh
}

/// Queues a `Terminate` for round `at_round` for every other agent.
fn broadcast_end(state: &mut AgentState, at_round: usize)
    requires
        old(state)@.wf(),
    ensures
        final(state)@ == old(state)@.broadcast_end(at_round),
        final(state)@.wf(),
{
    let n = state.mess2send.len();
    let mut k: usize = 0;
    while k < n
        invariant
            k <= n,
            n == old(state)@.mess2send.len(),
            old(state)@.wf(),
            state@ == (AgentView { mess2send: state@.mess2send, ..old(state)@ }),
            state@.mess2send.len() == n,
            forall|j: int|
                0 <= j < n ==> #[trigger] state@.mess2send[j] == if j < k && j != state.id {
                    MessageView::Terminate(state.id, at_round)
                } else {
                    old(state)@.mess2send[j]
                },
        decreases n - k,
    {
        if k != state.id {
            let ghost outbox = state.mess2send@;
            state.mess2send[k] = Message::Terminate(state.id, at_round);
            assert(messages_view(state.mess2send@) =~= messages_view(outbox).update(
                k as int,
                MessageView::Terminate(state.id, at_round),
            ));
        }
        k += 1;
    }
    assert(state@.mess2send =~= old(state)@.broadcast_end(at_round).mess2send);
}

/// One round of an agent: it reads `inbox`, thinks, and hands over its
/// outbox, in which the message for agent `k` stands at index `k`. A
/// halted agent hands over an empty outbox, and so does one that learns
/// from `inbox` that the run has ended before this round. The error is
/// `BacktrackUnderflow` with the agent's id.
pub fn agent_round(state: &mut AgentState, inbox: &Vec<Message>, threshold: usize) -> (handed:
    Result<Vec<Message>, AbtError>)
    requires
        old(state)@.wf(),
        old(state)@.round < usize::MAX,
    ensures
        final(state)@ == old(state)@.turn(messages_view(inbox@), threshold).0,
        match handed {
            Ok(outbox) => old(state)@.turn(messages_view(inbox@), threshold).1 == Ok::<
                Seq<MessageView>,
                AbtError,
            >(messages_view(outbox@)),
            Err(e) => old(state)@.turn(messages_view(inbox@), threshold).1 == Err::<
                Seq<MessageView>,
                AbtError,
            >(e),
        },
        final(state)@.wf(),
        final(state)@.id == old(state)@.id,
        final(state)@.num_agents() == old(state)@.num_agents(),
        final(state)@.round <= old(state)@.round + 1,
{
    if state.detector.halted() {
        let nothing: Vec<Message> = Vec::new();
        assert(messages_view(nothing@) =~= Seq::<MessageView>::empty());
        return Ok(nothing);
    }
    let num_agents = state.pos.len();
    let id = state.id;
    let round = state.round;
    let sentinel = id + 1 == num_agents;
    let quiet = receive_messages(num_agents, state, inbox);
    if state.detector.overdue(round) {
        state.detector = Detector::Stopped;
        let nothing: Vec<Message> = Vec::new();
        assert(messages_view(nothing@) =~= Seq::<MessageView>::empty());
        return Ok(nothing);
    }
    let heard = state.detector;
    match run_agent(state, num_agents) {
        Outcome::Underflow => {
            return Err(AbtError::BacktrackUnderflow(id));
        },
        _ => {},
    }
    let (counted, fires) = heard.on_inbox(sentinel, quiet, round, threshold);
    state.detector = counted;
    if fires {
        broadcast_end(state, round + 1);
    }
    let outbox = send_messages(state);
    state.round = round + 1;
    state.detector = state.detector.on_round_end(state.round);
    Ok(outbox)
}

/// Agent `id` of `n` as it starts a run: everybody, the agent itself
/// included, is taken to stand on column 0, nothing has been learned, and
/// the outbox holds heartbeats.
pub open spec fn initial_agent(id: usize, n: nat, seed: Option<u64>) -> AgentView {
    AgentView {
        id,
        pos: Seq::new(n, |k: int| Position::Col(0)),
        pos_seq: spec_trial_order(n, seed, id),
        col_i: 0,
        no_goods: Seq::empty(),
        mess2send: heartbeats(id, n),
        round: 0,
        detector: Detector::Active,
    }
}

/// Makes the agents of a run, by rising id. With a seed each agent gets a
/// shuffled trial order; without one all try the columns in rising order.
pub fn make_agents(num_agents: usize, seed: Option<u64>) -> (agents: Vec<AgentState>)
    ensures
        agents.len() == num_agents,
        forall|i: int|
            0 <= i < num_agents ==> (#[trigger] agents[i])@ == initial_agent(
                i as usize,
                num_agents as nat,
                seed,
            ),
        forall|i: int| 0 <= i < num_agents ==> (#[trigger] agents[i])@.wf(),
{
    let mut agents: Vec<AgentState> = Vec::new();
    let mut i: usize = 0;
    while i < num_agents
        invariant
            i <= num_agents,
            agents.len() == i,
            forall|k: int|
                0 <= k < i ==> (#[trigger] agents[k])@ == initial_agent(
                    k as usize,
                    num_agents as nat,
                    seed,
                ),
            forall|k: int| 0 <= k < i ==> (#[trigger] agents[k])@.wf(),
        decreases num_agents - i,
    {
        let mut agent = AgentState {
            id: i,
            pos: Board::new(num_agents, Position::Col(0)),
            pos_seq: trial_order(num_agents, seed, i),
            col_i: 0,
            no_goods: Vec::new(),
            mess2send: Vec::new(),
            round: 0,
            detector: Detector::Active,
        };
        let mut k: usize = 0;
        while k < num_agents
            invariant
                k <= num_agents,
                agent.mess2send.len() == k,
                messages_view(agent.mess2send@) == heartbeats(i, k as nat),
                agent.id == i,
                agent.pos@ == Seq::new(num_agents as nat, |k: int| Position::Col(0)),
                agent.pos_seq@ == spec_trial_order(num_agents as nat, seed, i),
                is_trial_order(agent.pos_seq@, num_agents as nat),
                agent.col_i == 0,
                agent.no_goods@.len() == 0,
                agent.round == 0,
                agent.detector == Detector::Active,
            decreases num_agents - k,
        {
            let ghost prev = agent.mess2send@;
            agent.mess2send.push(Message::Heartbeat(i));
            assert(messages_view(agent.mess2send@) =~= messages_view(prev).push(
                MessageView::Heartbeat(i),
            ));
            assert(messages_view(agent.mess2send@) =~= heartbeats(i, (k + 1) as nat));
            k += 1;
        }
        assert(boards_view(agent.no_goods@) =~= Seq::<Seq<Position>>::empty());
        assert(agent@ == initial_agent(i, num_agents as nat, seed));
        agents.push(agent);
        i += 1;
    }
    agents
}

} // verus!
