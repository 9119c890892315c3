//! The round scheduler: it lets every agent take its turn, worker by
//! worker, carries the outboxes to the inboxes once all have had their
//! turn, and repeats this until every agent has halted.

use vstd::prelude::*;
use crate::agent::{agent_round, initial_agent, make_agents, AgentState, AgentView};
use crate::board::Board;
use crate::error::AbtError;
use crate::lockstep::{lemma_initial_running, lemma_run_never_closed};
use crate::message::{messages_view, Message, MessageView};
use crate::partition::{is_partition, lemma_partition_bounds, partition};
use crate::position::Position;

verus! {

/// The agents of a run and, for each, the messages that wait for it.
#[derive(Debug)]
pub struct Network {
    pub agents: Vec<AgentState>,
    pub inboxes: Vec<Vec<Message>>,
}

/// A network as a mathematical value.
pub struct NetView {
    pub agents: Seq<AgentView>,
    pub inboxes: Seq<Seq<MessageView>>,
}

/// The agents of a sequence, as values.
pub open spec fn agents_view(s: Seq<AgentState>) -> Seq<AgentView> {
    Seq::new(s.len(), |i: int| s[i]@)
}

/// The inboxes (or outboxes) of a sequence, as values.
pub open spec fn boxes_view(s: Seq<Vec<Message>>) -> Seq<Seq<MessageView>> {
    Seq::new(s.len(), |i: int| messages_view(s[i]@))
}

impl View for Network {
    type V = NetView;

    open spec fn view(&self) -> NetView {
        NetView { agents: agents_view(self.agents@), inboxes: boxes_view(self.inboxes@) }
    }
}

/// The messages for agent `to` in the outboxes of the senders `0..upto`,
/// by rising sender. An agent sends nothing to itself, and an empty
/// outbox holds nothing for anybody.
pub open spec fn carried(outs: Seq<Seq<MessageView>>, to: int, upto: int) -> Seq<MessageView>
    decreases upto,
{
    if upto <= 0 {
        Seq::empty()
    } else {
        let rest = carried(outs, to, upto - 1);
        let from = upto - 1;
        if from != to && to < outs[from].len() {
            rest.push(outs[from][to])
        } else {
            rest
        }
    }
}

/// Among full outboxes each message is carried once: what the senders
/// `0..upto` hold for agent `to` arrives in the order of the senders,
/// without the agent's own slot.
pub proof fn lemma_carried(outs: Seq<Seq<MessageView>>, to: int, upto: int)
    requires
        0 <= to < outs.len(),
        0 <= upto <= outs.len(),
        forall|s: int| 0 <= s < outs.len() ==> (#[trigger] outs[s]).len() == outs.len(),
    ensures
        carried(outs, to, upto).len() == if upto <= to {
            upto
        } else {
            upto - 1
        },
        forall|s: int| 0 <= s < upto && s < to ==> carried(outs, to, upto)[s] == outs[s][to],
        forall|s: int| to < s < upto ==> carried(outs, to, upto)[s - 1] == outs[s][to],
    decreases upto,
{
    if upto > 0 {
        lemma_carried(outs, to, upto - 1);
        assert(outs[upto - 1].len() == outs.len());
    }
}

/// In a round in which every agent hands over a full outbox, every agent
/// receives one message from each other agent, by rising sender.
pub proof fn lemma_delivery_complete(outs: Seq<Seq<MessageView>>, to: int)
    requires
        0 <= to < outs.len(),
        forall|s: int| 0 <= s < outs.len() ==> (#[trigger] outs[s]).len() == outs.len(),
    ensures
        delivered(outs)[to].len() == outs.len() - 1,
        forall|s: int| 0 <= s < to ==> delivered(outs)[to][s] == outs[s][to],
        forall|s: int| to < s < outs.len() ==> delivered(outs)[to][s - 1] == outs[s][to],
{
    lemma_carried(outs, to, outs.len() as int);
}

/// The inboxes that a round's outboxes make.
pub open spec fn delivered(outs: Seq<Seq<MessageView>>) -> Seq<Seq<MessageView>> {
    Seq::new(outs.len(), |to: int| carried(outs, to, outs.len() as int))
}

impl NetView {
    /// Agent `i` is the agent at index `i`, all agree on their number and
    /// each has an inbox.
    pub open spec fn wf(self) -> bool {
        &&& self.inboxes.len() == self.agents.len()
        &&& forall|i: int|
            0 <= i < self.agents.len() ==> {
                &&& (#[trigger] self.agents[i]).wf()
                &&& self.agents[i].id == i
                &&& self.agents[i].num_agents() == self.agents.len()
            }
    }

    /// Every round counter is below `bound`.
    pub open spec fn rounds_below(self, bound: int) -> bool {
        forall|i: int| 0 <= i < self.agents.len() ==> (#[trigger] self.agents[i]).round < bound
    }

    /// The turn of agent `i` on the inbox that waits for it.
    pub open spec fn turn_of(self, i: int, threshold: usize) -> (
        AgentView,
        Result<Seq<MessageView>, AbtError>,
    ) {
        self.agents[i].turn(self.inboxes[i], threshold)
    }

    /// The error of the first agent from `from` on whose turn fails.
    pub open spec fn first_failure(self, threshold: usize, from: int) -> Option<AbtError>
        decreases self.agents.len() - from,
    {
        if from < 0 || from >= self.agents.len() {
            None
        } else {
            match self.turn_of(from, threshold).1 {
                Err(e) => Some(e),
                Ok(_) => self.first_failure(threshold, from + 1),
            }
        }
    }

    /// The agents after each has had its turn.
    pub open spec fn thought(self, threshold: usize) -> Seq<AgentView> {
        Seq::new(self.agents.len(), |i: int| self.turn_of(i, threshold).0)
    }

    /// The outboxes that the agents hand over.
    pub open spec fn handed(self, threshold: usize) -> Seq<Seq<MessageView>> {
        Seq::new(
            self.agents.len(),
            |i: int|
                match self.turn_of(i, threshold).1 {
                    Ok(outbox) => outbox,
                    Err(_) => Seq::empty(),
                },
        )
    }

    /// The first agent from `from` on that has halted.
    pub open spec fn first_halted(self, from: int) -> Option<int>
        decreases self.agents.len() - from,
    {
        if from < 0 || from >= self.agents.len() {
            None
        } else if self.agents[from].detector.spec_halted() {
            Some(from)
        } else {
            self.first_halted(from + 1)
        }
    }

    /// Some agent hands over messages this round.
    pub open spec fn someone_sends(self, threshold: usize) -> bool {
        exists|s: int|
            0 <= s < self.agents.len() && (#[trigger] self.handed(threshold)[s]).len() > 0
    }

    /// One round. Every agent has its turn on its inbox; the first turn
    /// that fails ends the run with its error. A message handed over
    /// while some agent had already halted finds a closed channel, which
    /// ends the run as well. Else the outboxes become the next inboxes.
    pub open spec fn round(self, threshold: usize) -> Result<NetView, AbtError> {
        match self.first_failure(threshold, 0) {
            Some(e) => Err(e),
            None => if self.someone_sends(threshold) && self.first_halted(0) is Some {
                Err(AbtError::ChannelClosed(self.first_halted(0)->0 as usize))
            } else {
                Ok(
                    NetView {
                        agents: self.thought(threshold),
                        inboxes: delivered(self.handed(threshold)),
                    },
                )
            },
        }
    }

    /// Every agent has halted.
    pub open spec fn all_halted(self) -> bool {
        forall|i: int|
            0 <= i < self.agents.len() ==> (#[trigger] self.agents[i]).detector.spec_halted()
    }

    /// The candidate solution: the view of the agent with the highest id.
    pub open spec fn candidate(self) -> Seq<Position> {
        if self.agents.len() == 0 {
            Seq::empty()
        } else {
            self.agents[self.agents.len() - 1].pos
        }
    }

    /// A run of at most `rounds` rounds: the candidate once every agent
    /// has halted, the error of the round that failed, or `RoundLimit`
    /// when the rounds run out first.
    pub open spec fn run(self, threshold: usize, rounds: nat) -> Result<Seq<Position>, AbtError>
        decreases rounds,
    {
        if self.all_halted() {
            Ok(self.candidate())
        } else if rounds == 0 {
            Err(AbtError::RoundLimit)
        } else {
            match self.round(threshold) {
                Err(e) => Err(e),
                Ok(next) => next.run(threshold, (rounds - 1) as nat),
            }
        }
    }
}

/// The network at the start of a run: fresh agents and empty inboxes.
pub open spec fn initial_net(n: nat, seed: Option<u64>) -> NetView {
    NetView {
        agents: Seq::new(n, |i: int| initial_agent(i as usize, n, seed)),
        inboxes: Seq::new(n, |i: int| Seq::empty()),
    }
}

/// Makes one empty inbox for each of `num_agents` agents.
pub fn make_channels(num_agents: usize) -> (inboxes: Vec<Vec<Message>>)
    ensures
        boxes_view(inboxes@) == Seq::new(num_agents as nat, |i: int| Seq::<MessageView>::empty()),
{
    let mut inboxes: Vec<Vec<Message>> = Vec::new();
    let mut i: usize = 0;
    while i < num_agents
        invariant
            i <= num_agents,
            inboxes.len() == i,
            forall|k: int| 0 <= k < i ==> (#[trigger] inboxes[k])@.len() == 0,
        decreases num_agents - i,
    {
        inboxes.push(Vec::new());
        i += 1;
    }
    assert(boxes_view(inboxes@) =~= Seq::new(
        num_agents as nat,
        |i: int| Seq::<MessageView>::empty(),
    )) by {
        assert forall|k: int| 0 <= k < num_agents implies #[trigger] boxes_view(inboxes@)[k]
            == Seq::<MessageView>::empty() by {
            assert(inboxes[k]@.len() == 0);
            assert(messages_view(inboxes[k]@) =~= Seq::<MessageView>::empty());
        }
    }
    inboxes
}

/// Makes the network for a run of `num_agents` agents.
pub fn make_network(num_agents: usize, seed: Option<u64>) -> (net: Network)
    ensures
        net@ == initial_net(num_agents as nat, seed),
        net@.wf(),
        net@.rounds_below(1),
{
    let net = Network { agents: make_agents(num_agents, seed), inboxes: make_channels(num_agents) };
    assert(net@.agents =~= initial_net(num_agents as nat, seed).agents);
    net
}

/// The think phase of a round: every agent has its turn on its inbox,
/// worker by worker and, within a worker, by rising id. Returns the
/// outboxes, by agent. The first turn that fails ends the phase with its
/// error.
pub fn think_phase(net: &mut Network, parts: &Vec<(usize, usize)>, threshold: usize) -> (handed:
    Result<Vec<Vec<Message>>, AbtError>)
    requires
        old(net)@.wf(),
        old(net)@.rounds_below(usize::MAX as int),
        is_partition(parts@, old(net)@.agents.len() as int),
    ensures
        match handed {
            Ok(outs) => {
                &&& old(net)@.first_failure(threshold, 0) is None
                &&& final(net)@.agents == old(net)@.thought(threshold)
                &&& final(net)@.inboxes == old(net)@.inboxes
                &&& boxes_view(outs@) == old(net)@.handed(threshold)
                &&& final(net)@.wf()
                &&& forall|i: int|
                    0 <= i < final(net)@.agents.len() ==> (#[trigger] final(net)@.agents[i]).round
                        <= old(net)@.agents[i].round + 1
            },
            Err(e) => old(net)@.first_failure(threshold, 0) == Some(e),
        },
{
    let ghost start = net@;
    let n = net.agents.len();
    let mut outs: Vec<Vec<Message>> = Vec::new();
    let mut w: usize = 0;
    let mut done: usize = 0;
    while w < parts.len()
        invariant
            w <= parts.len(),
            is_partition(parts@, n as int),
            start == old(net)@,
            start.wf(),
            start.rounds_below(usize::MAX as int),
            n == start.agents.len(),
            net.agents.len() == n,
            net.inboxes == old(net).inboxes,
            net.inboxes.len() == n,
            done == if w < parts.len() {
                parts[w as int].0
            } else {
                n
            },
            done <= n,
            outs.len() == done,
            start.first_failure(threshold, 0) == start.first_failure(threshold, done as int),
            forall|k: int| 0 <= k < done ==> (#[trigger] net.agents[k])@ == start.turn_of(k, threshold).0,
            forall|k: int|
                0 <= k < done ==> start.turn_of(k, threshold).1 == Ok::<Seq<MessageView>, AbtError>(
                    messages_view((#[trigger] outs[k])@),
                ),
            forall|k: int| done <= k < n ==> (#[trigger] net.agents[k])@ == start.agents[k],
            forall|k: int|
                0 <= k < n ==> {
                    &&& (#[trigger] net.agents[k])@.wf()
                    &&& net.agents[k]@.id == k
                    &&& net.agents[k]@.num_agents() == n
                    &&& net.agents[k]@.round <= start.agents[k].round + 1
                },
        decreases parts.len() - w,
    {
        let end = parts[w].1;
        assert(end <= n) by {
            if w + 1 < parts.len() {
                assert(parts[w as int].1 == parts[w + 1].0);
                assert(parts[w + 1].0 <= parts[w + 1].1);
                lemma_partition_bounds(parts@, n as int, w + 1);
            }
        }
        while done < end
            invariant
                w < parts.len(),
                end == parts[w as int].1,
                done <= end <= n,
                start == old(net)@,
                start.wf(),
                start.rounds_below(usize::MAX as int),
                n == start.agents.len(),
                net.agents.len() == n,
                net.inboxes == old(net).inboxes,
                net.inboxes.len() == n,
                outs.len() == done,
                start.first_failure(threshold, 0) == start.first_failure(threshold, done as int),
                forall|k: int|
                    0 <= k < done ==> (#[trigger] net.agents[k])@ == start.turn_of(k, threshold).0,
                forall|k: int|
                    0 <= k < done ==> start.turn_of(k, threshold).1 == Ok::<
                        Seq<MessageView>,
                        AbtError,
                    >(messages_view((#[trigger] outs[k])@)),
                forall|k: int| done <= k < n ==> (#[trigger] net.agents[k])@ == start.agents[k],
                forall|k: int|
                    0 <= k < n ==> {
                        &&& (#[trigger] net.agents[k])@.wf()
                        &&& net.agents[k]@.id == k
                        &&& net.agents[k]@.num_agents() == n
                        &&& net.agents[k]@.round <= start.agents[k].round + 1
                    },
            decreases end - done,
        {
            assert(net.agents[done as int]@ == start.agents[done as int]);
            assert(messages_view(net.inboxes[done as int]@) == start.inboxes[done as int]);
            match agent_round(&mut net.agents[done], &net.inboxes[done], threshold) {
                Ok(outbox) => {
                    outs.push(outbox);
                },
                Err(e) => {
                    return Err(e);
                },
            }
            done += 1;
        }
        w += 1;
    }
    proof {
        lemma_no_failure_at_end(start, threshold, n as int);
        assert(net@.agents =~= start.thought(threshold));
        assert(net@.inboxes =~= start.inboxes);
        assert(boxes_view(outs@) =~= start.handed(threshold));
    }
    Ok(outs)
}

/// No turn fails beyond the last agent.
proof fn lemma_no_failure_at_end(net: NetView, threshold: usize, from: int)
    requires
        from >= net.agents.len(),
    ensures
        net.first_failure(threshold, from) is None,
{
}

/// Carries the outboxes of a round to the inboxes of the next: the inbox
/// of an agent gets what each other agent handed over for it, by rising
/// sender.
pub fn deliver(outs: &Vec<Vec<Message>>) -> (inboxes: Vec<Vec<Message>>)
    ensures
        boxes_view(inboxes@) == delivered(boxes_view(outs@)),
{
    let n = outs.len();
    let ghost all = boxes_view(outs@);
    let mut inboxes: Vec<Vec<Message>> = Vec::new();
    let mut to: usize = 0;
    while to < n
        invariant
            to <= n,
            n == outs.len(),
            all == boxes_view(outs@),
            inboxes.len() == to,
            forall|k: int|
                0 <= k < to ==> messages_view((#[trigger] inboxes[k])@) == carried(all, k, n as int),
        decreases n - to,
    {
        let mut inbox: Vec<Message> = Vec::new();
        assert(messages_view(inbox@) =~= carried(all, to as int, 0));
        let mut from: usize = 0;
        while from < n
            invariant
                from <= n,
                to < n,
                n == outs.len(),
                all == boxes_view(outs@),
                messages_view(inbox@) == carried(all, to as int, from as int),
            decreases n - from,
        {
            if from != to && to < outs[from].len() {
                let ghost prev = inbox@;
                let message = outs[from][to].copy();
                inbox.push(message);
                assert(messages_view(inbox@) =~= messages_view(prev).push(message@));
                assert(all[from as int][to as int] == outs[from as int][to as int]@);
            }
            assert(all[from as int].len() == outs[from as int].len());
            from += 1;
        }
        inboxes.push(inbox);
        to += 1;
    }
    assert(boxes_view(inboxes@) =~= delivered(all));
    inboxes
}

/// The lowest id of an agent that has halted.
fn find_halted(net: &Network) -> (found: Option<usize>)
    ensures
        match found {
            Some(i) => net@.first_halted(0) == Some(i as int),
            None => net@.first_halted(0) is None,
        },
{
    let mut i: usize = 0;
    while i < net.agents.len()
        invariant
            i <= net.agents.len(),
            net@.first_halted(0) == net@.first_halted(i as int),
        decreases net.agents.len() - i,
    {
        assert(net@.agents[i as int] == net.agents[i as int]@);
        if net.agents[i].detector.halted() {
            return Some(i);
        }
        i += 1;
    }
    None
}

/// Whether some outbox holds a message.
fn any_sent(outs: &Vec<Vec<Message>>) -> (sent: bool)
    ensures
        sent == exists|s: int| 0 <= s < outs.len() && (#[trigger] boxes_view(outs@)[s]).len() > 0,
{
    let mut s: usize = 0;
    while s < outs.len()
        invariant
            s <= outs.len(),
            forall|k: int| 0 <= k < s ==> (#[trigger] boxes_view(outs@)[k]).len() == 0,
        decreases outs.len() - s,
    {
        if outs[s].len() > 0 {
            assert(boxes_view(outs@)[s as int].len() > 0);
            return true;
        }
        assert(boxes_view(outs@)[s as int].len() == 0);
        s += 1;
    }
    false
}

/// One round of the whole network: the think phase over the workers'
/// ranges `parts`, then the delivery. The outcome does not depend on how
/// the agents are split among the workers.
pub fn run_round(net: &mut Network, parts: &Vec<(usize, usize)>, threshold: usize) -> (done: Result<
    (),
    AbtError,
>)
    requires
        old(net)@.wf(),
        old(net)@.rounds_below(usize::MAX as int),
        is_partition(parts@, old(net)@.agents.len() as int),
    ensures
        match done {
            Ok(_) => {
                &&& old(net)@.round(threshold) == Ok::<NetView, AbtError>(final(net)@)
                &&& final(net)@.wf()
                &&& forall|i: int|
                    0 <= i < final(net)@.agents.len() ==> (#[trigger] final(net)@.agents[i]).round
                        <= old(net)@.agents[i].round + 1
            },
            Err(e) => old(net)@.round(threshold) == Err::<NetView, AbtError>(e),
        },
{
    let halted = find_halted(net);
    let outs = match think_phase(net, parts, threshold) {
        Ok(outs) => outs,
        Err(e) => {
            return Err(e);
        },
    };
    let sent = any_sent(&outs);
    assert(sent == old(net)@.someone_sends(threshold)) by {
        assert(outs.len() == old(net)@.agents.len()) by {
            assert(boxes_view(outs@).len() == old(net)@.handed(threshold).len());
        }
    }
    match halted {
        Some(closed) => {
            if sent {
                return Err(AbtError::ChannelClosed(closed));
            }
        },
        None => {},
    }
    net.inboxes = deliver(&outs);
    assert(net@.inboxes.len() == net@.agents.len());
    Ok(())
}

/// Whether every agent has halted.
pub fn all_halted(net: &Network) -> (halted: bool)
    ensures
        halted == net@.all_halted(),
{
    let mut i: usize = 0;
    while i < net.agents.len()
        invariant
            i <= net.agents.len(),
            forall|k: int| 0 <= k < i ==> (#[trigger] net@.agents[k]).detector.spec_halted(),
        decreases net.agents.len() - i,
    {
        if !net.agents[i].detector.halted() {
            assert(!net@.agents[i as int].detector.spec_halted());
            return false;
        }
        assert(net@.agents[i as int].detector.spec_halted());
        i += 1;
    }
    true
}

/// The candidate solution of a network: a copy of the view of the agent
/// with the highest id.
pub fn candidate(net: &Network) -> (board: Board)
    ensures
        board@ == net@.candidate(),
{
    let n = net.agents.len();
    if n == 0 {
        Board::new(0, Position::Unass)
    } else {
        assert(net@.agents[n - 1] == net.agents[n - 1]@);
        net.agents[n - 1].pos.copy()
    }
}

/// Runs `num_agents` agents on `num_threads` workers until all have
/// halted, for at most `max_rounds` rounds, and returns the view of the
/// agent with the highest id as the candidate solution.
///
/// The result is a function of the number of agents, the seed, the
/// threshold and the round limit alone: the same arguments give the same
/// result, whatever the number of workers. The agents halt together, so
/// the only errors are an underflow and the rounds running out.
pub fn solve(
    num_agents: usize,
    num_threads: usize,
    seed: Option<u64>,
    threshold: usize,
    max_rounds: usize,
) -> (result: Result<Board, AbtError>)
    requires
        num_threads >= 1,
    ensures
        match result {
            Ok(board) => board@.len() == num_agents && initial_net(num_agents as nat, seed).run(
                threshold,
                max_rounds as nat,
            ) == Ok::<Seq<Position>, AbtError>(board@),
            Err(e) => (e is BacktrackUnderflow || e == AbtError::RoundLimit) && initial_net(
                num_agents as nat,
                seed,
            ).run(threshold, max_rounds as nat) == Err::<Seq<Position>, AbtError>(e),
        },
{
    proof {
        lemma_initial_running(num_agents as nat, seed);
        lemma_run_never_closed(
            initial_net(num_agents as nat, seed),
            threshold,
            max_rounds as nat,
            0,
        );
    }
    let parts = partition(num_agents, num_threads);
    let mut net = make_network(num_agents, seed);
    let ghost goal = net@.run(threshold, max_rounds as nat);
    let mut left: usize = max_rounds;
    loop
        invariant
            left <= max_rounds,
            net@.wf(),
            net@.agents.len() == num_agents,
            net@.rounds_below(max_rounds - left + 1),
            is_partition(parts@, num_agents as int),
            net@.run(threshold, left as nat) == goal,
            goal == initial_net(num_agents as nat, seed).run(threshold, max_rounds as nat),
            goal matches Err(e) ==> e is BacktrackUnderflow || e == AbtError::RoundLimit,
        decreases left,
    {
        let ghost before = net@;
        if all_halted(&net) {
            assert(num_agents > 0 ==> net@.agents[num_agents - 1].num_agents() == num_agents);
            return Ok(candidate(&net));
        }
        if left == 0 {
            return Err(AbtError::RoundLimit);
        }
        assert(before.run(threshold, left as nat) == match before.round(threshold) {
            Err(e) => Err(e),
            Ok(next) => next.run(threshold, (left - 1) as nat),
        });
        match run_round(&mut net, &parts, threshold) {
            Ok(_) => {},
            Err(e) => {
                return Err(e);
            },
        }
        left -= 1;
    }
}

} // verus!
