//! Lockstep. In a run that the scheduler drives from the start, all
//! agents count the same rounds, the end of the run is announced by the
//! sentinel alone, and all agents halt after the same round, so that no
//! message ever finds a closed channel.

use vstd::prelude::*;
use crate::agent::{heartbeats, initial_agent, inbox_quiet, AgentView};
use crate::detector::Detector;
use crate::error::AbtError;
use crate::invariants::{
    announced, ends_run, lemma_drain, lemma_think, lemma_turn_addressed,
};
use crate::message::MessageView;
use crate::scheduler::{delivered, initial_net, lemma_delivery_complete, NetView};
use crate::trial::lemma_trial_order_is_order;

verus! {

/// The detector has not heard of the end of the run.
pub open spec fn counting(d: Detector) -> bool {
    d is Active || d is Quiescent
}

/// No message of the inbox announces the end of the run.
pub open spec fn silent_on_end(inbox: Seq<MessageView>) -> bool {
    forall|k: int| 0 <= k < inbox.len() ==> !((#[trigger] inbox[k]) is Terminate)
}

/// The inbox announces the end of the run for round `rho`, and for no
/// other round.
pub open spec fn announces_only(inbox: Seq<MessageView>, rho: usize) -> bool {
    &&& announced(inbox, rho)
    &&& forall|k: int|
        0 <= k < inbox.len() && (#[trigger] inbox[k]) is Terminate ==> ends_run(inbox[k], rho)
}

impl NetView {
    /// All agents are about to begin round `rho`, with nothing but
    /// properly addressed messages waiting in their outboxes.
    pub open spec fn in_step(self, rho: usize) -> bool {
        &&& self.wf()
        &&& forall|i: int|
            0 <= i < self.agents.len() ==> (#[trigger] self.agents[i]).round == rho
                && self.agents[i].outbox_addressed()
    }

    /// The run goes on: nobody has heard of its end.
    pub open spec fn running(self, rho: usize) -> bool {
        &&& self.in_step(rho)
        &&& forall|i: int|
            0 <= i < self.agents.len() ==> counting((#[trigger] self.agents[i]).detector)
                && silent_on_end(self.inboxes[i])
    }

    /// The sentinel has set the end of the run to round `rho`, and the
    /// announcement waits in the inbox of every other agent.
    pub open spec fn ending(self, rho: usize) -> bool {
        &&& self.in_step(rho)
        &&& self.agents.len() > 0
        &&& forall|i: int|
            0 <= i < self.agents.len() ==> if i == self.agents.len() - 1 {
                (#[trigger] self.agents[i]).detector == Detector::Terminating(rho) && silent_on_end(
                    self.inboxes[i],
                )
            } else {
                counting(self.agents[i].detector) && announces_only(self.inboxes[i], rho)
            }
    }
}

/// An inbox that holds no announcement leaves the detector as it is.
pub proof fn lemma_drain_silent(a: AgentView, inbox: Seq<MessageView>)
    requires
        silent_on_end(inbox),
    ensures
        a.drain(inbox).detector == a.detector,
    decreases inbox.len(),
{
    if inbox.len() > 0 {
        assert forall|k: int| 0 <= k < inbox.drop_last().len() implies !((
        #[trigger] inbox.drop_last()[k]) is Terminate) by {
            assert(inbox.drop_last()[k] == inbox[k]);
        }
        lemma_drain_silent(a, inbox.drop_last());
        assert(!(inbox[inbox.len() - 1] is Terminate));
    }
}

/// An inbox whose announcements all name round `rho` sets the end of the
/// run to that round as soon as it holds one.
pub proof fn lemma_drain_announces(a: AgentView, inbox: Seq<MessageView>, rho: usize)
    requires
        counting(a.detector) || a.detector == Detector::Terminating(rho),
        forall|k: int|
            0 <= k < inbox.len() && (#[trigger] inbox[k]) is Terminate ==> ends_run(inbox[k], rho),
    ensures
        a.drain(inbox).detector == a.detector || a.drain(inbox).detector == Detector::Terminating(
            rho,
        ),
        announced(inbox, rho) ==> a.drain(inbox).detector == Detector::Terminating(rho),
    decreases inbox.len(),
{
    if inbox.len() > 0 {
        let front = inbox.drop_last();
        assert forall|k: int| 0 <= k < front.len() && (#[trigger] front[k]) is Terminate implies ends_run(
            front[k],
            rho,
        ) by {
            assert(front[k] == inbox[k]);
        }
        lemma_drain_announces(a, front, rho);
        let last = inbox[inbox.len() - 1];
        if last is Terminate {
            assert(ends_run(last, rho));
        } else if announced(inbox, rho) {
            let k = choose|k: int| 0 <= k < inbox.len() && ends_run(#[trigger] inbox[k], rho);
            assert(ends_run(front[k], rho));
        }
    }
}

/// A round of an agent that has not heard of the end. The agent goes on
/// to the next round; if it is the sentinel and its detector fires, it
/// sets the end to the next round and hands over the announcement for
/// every other agent; else it hands over no announcement at all.
pub proof fn lemma_turn_running(a: AgentView, inbox: Seq<MessageView>, threshold: usize)
    requires
        a.wf(),
        a.outbox_addressed(),
        a.round < usize::MAX,
        counting(a.detector),
        silent_on_end(inbox),
        a.turn(inbox, threshold).1 is Ok,
    ensures
        ({
            let after = a.turn(inbox, threshold).0;
            let handed = a.turn(inbox, threshold).1->Ok_0;
            let fires = a.detector.spec_fires(a.is_sentinel(), inbox_quiet(inbox), threshold);
            &&& after.wf()
            &&& after.id == a.id
            &&& after.num_agents() == a.num_agents()
            &&& after.round == a.round + 1
            &&& after.outbox_addressed()
            &&& handed.len() == a.num_agents()
            &&& if fires {
                &&& a.is_sentinel()
                &&& after.detector == Detector::Terminating(after.round)
                &&& forall|k: int|
                    0 <= k < handed.len() && k != a.id ==> ends_run(
                        #[trigger] handed[k],
                        after.round,
                    )
            } else {
                &&& counting(after.detector)
                &&& silent_on_end(handed)
            }
        }),
{
    lemma_drain_silent(a, inbox);
    lemma_drain(a, inbox);
    let heard = a.drain(inbox);
    lemma_think(heard);
    lemma_turn_addressed(a, inbox, threshold);
    let after = a.turn(inbox, threshold).0;
    let handed = a.turn(inbox, threshold).1->Ok_0;
    let thought = heard.think().0;
    assert(handed.len() == thought.mess2send.len());
    assert(after.pos == thought.pos);
}

/// The last round of an agent: one that knows the run to end with this
/// round, or learns it from its inbox, halts when the round is over.
pub proof fn lemma_turn_ending(a: AgentView, inbox: Seq<MessageView>, threshold: usize)
    requires
        a.wf(),
        a.outbox_addressed(),
        a.round < usize::MAX,
        (counting(a.detector) && announces_only(inbox, a.round)) || (a.detector
            == Detector::Terminating(a.round) && silent_on_end(inbox)),
        a.turn(inbox, threshold).1 is Ok,
    ensures
        a.turn(inbox, threshold).0.detector == Detector::Stopped,
        a.turn(inbox, threshold).0.wf(),
        a.turn(inbox, threshold).0.id == a.id,
        a.turn(inbox, threshold).0.num_agents() == a.num_agents(),
{
    if silent_on_end(inbox) && a.detector == Detector::Terminating(a.round) {
        lemma_drain_silent(a, inbox);
    } else {
        lemma_drain_announces(a, inbox, a.round);
    }
    lemma_drain(a, inbox);
    let heard = a.drain(inbox);
    assert(heard.detector == Detector::Terminating(a.round));
    lemma_think(heard);
    lemma_turn_addressed(a, inbox, threshold);
    let after = a.turn(inbox, threshold).0;
    let thought = heard.think().0;
    assert(after.pos == thought.pos);
}

/// The only error of a think phase is an underflow, and where no turn
/// fails every turn hands over an outbox.
pub proof fn lemma_failures(net: NetView, threshold: usize, from: int)
    requires
        0 <= from,
    ensures
        match net.first_failure(threshold, from) {
            Some(e) => e is BacktrackUnderflow,
            None => forall|i: int|
                from <= i < net.agents.len() ==> (#[trigger] net.turn_of(i, threshold)).1 is Ok,
        },
    decreases net.agents.len() - from,
{
    if from < net.agents.len() {
        lemma_failures(net, threshold, from + 1);
    }
}

/// Where nobody has halted, no halted agent is found.
pub proof fn lemma_none_halted(net: NetView, from: int)
    requires
        0 <= from,
        forall|i: int|
            0 <= i < net.agents.len() ==> !(#[trigger] net.agents[i]).detector.spec_halted(),
    ensures
        net.first_halted(from) is None,
    decreases net.agents.len() - from,
{
    if from < net.agents.len() {
        lemma_none_halted(net, from + 1);
    }
}

/// A round of a run that goes on ends in an underflow, or leaves the run
/// going on, or leaves it ending with the next round.
pub proof fn lemma_round_running(net: NetView, threshold: usize, rho: usize)
    requires
        net.running(rho),
        rho < usize::MAX,
    ensures
        match net.round(threshold) {
            Err(e) => e is BacktrackUnderflow,
            Ok(next) => next.running((rho + 1) as usize) || next.ending((rho + 1) as usize),
        },
{
    lemma_failures(net, threshold, 0);
    if net.first_failure(threshold, 0) is None {
        lemma_none_halted(net, 0);
        let n = net.agents.len() as int;
        let next = net.round(threshold)->Ok_0;
        let outs = net.handed(threshold);
        let then = (rho + 1) as usize;
        assert forall|i: int| 0 <= i < n implies {
            &&& (#[trigger] next.agents[i]).wf()
            &&& next.agents[i].id == i
            &&& next.agents[i].num_agents() == n
            &&& next.agents[i].round == then
            &&& next.agents[i].outbox_addressed()
            &&& outs[i].len() == n
        } by {
            assert(net.turn_of(i, threshold).1 is Ok);
            lemma_turn_running(net.agents[i], net.inboxes[i], threshold);
        }
        assert(next.in_step(then));
        assert forall|s: int| 0 <= s < outs.len() implies (#[trigger] outs[s]).len()
            == outs.len() by {
            assert(next.agents[s].wf());
        }
        let fired = n > 0 && net.agents[n - 1].detector.spec_fires(
            true,
            inbox_quiet(net.inboxes[n - 1]),
            threshold,
        );
        assert forall|i: int, k: int| 0 <= i < n && 0 <= k < n && (i != n - 1 || !fired) implies !((
        #[trigger] outs[i][k]) is Terminate) by {
            assert(net.turn_of(i, threshold).1 is Ok);
            lemma_turn_running(net.agents[i], net.inboxes[i], threshold);
            let a = net.agents[i];
            if a.detector.spec_fires(a.is_sentinel(), inbox_quiet(net.inboxes[i]), threshold) {
                assert(a.is_sentinel());
                assert(i == n - 1);
            }
        }
        assert forall|i: int| 0 <= i < n implies {
            if fired {
                if i == n - 1 {
                    (#[trigger] next.agents[i]).detector == Detector::Terminating(then)
                        && silent_on_end(next.inboxes[i])
                } else {
                    counting(next.agents[i].detector) && announces_only(next.inboxes[i], then)
                }
            } else {
                counting(next.agents[i].detector) && silent_on_end(next.inboxes[i])
            }
        } by {
            assert(net.turn_of(i, threshold).1 is Ok);
            lemma_turn_running(net.agents[i], net.inboxes[i], threshold);
            lemma_delivery_complete(outs, i);
            let inbox = next.inboxes[i];
            assert(inbox == delivered(outs)[i]);
            let a = net.agents[i];
            if a.detector.spec_fires(a.is_sentinel(), inbox_quiet(net.inboxes[i]), threshold) {
                assert(a.is_sentinel());
            }
            if fired && i != n - 1 {
                // the last sender is the sentinel
                assert(net.turn_of(n - 1, threshold).1 is Ok);
                lemma_turn_running(net.agents[n - 1], net.inboxes[n - 1], threshold);
                assert(inbox[n - 2] == outs[n - 1][i]);
                assert(ends_run(outs[n - 1][i], then));
                assert(ends_run(inbox[n - 2], then));
                assert forall|k: int| 0 <= k < inbox.len() && (#[trigger] inbox[k]) is Terminate implies ends_run(
                    inbox[k],
                    then,
                ) by {
                    if k < i {
                        assert(inbox[k] == outs[k][i]);
                    } else {
                        assert(inbox[k] == outs[k + 1][i]);
                    }
                }
            } else {
                assert forall|k: int| 0 <= k < inbox.len() implies !((#[trigger] inbox[k]) is Terminate) by {
                    if k < i {
                        assert(inbox[k] == outs[k][i]);
                    } else {
                        assert(inbox[k] == outs[k + 1][i]);
                    }
                }
            }
        }
    }
}

/// The round that ends a run ends in an underflow or leaves every agent
/// halted.
pub proof fn lemma_round_ending(net: NetView, threshold: usize, rho: usize)
    requires
        net.ending(rho),
        rho < usize::MAX,
    ensures
        match net.round(threshold) {
            Err(e) => e is BacktrackUnderflow,
            Ok(next) => next.all_halted(),
        },
{
    lemma_failures(net, threshold, 0);
    if net.first_failure(threshold, 0) is None {
        lemma_none_halted(net, 0);
        let next = net.round(threshold)->Ok_0;
        assert forall|i: int| 0 <= i < next.agents.len() implies (
        #[trigger] next.agents[i]).detector.spec_halted() by {
            assert(net.turn_of(i, threshold).1 is Ok);
            assert(net.agents[i].round == rho);
            lemma_turn_ending(net.agents[i], net.inboxes[i], threshold);
        }
    }
}

/// A run in lockstep never fails on a closed channel: it ends with the
/// candidate of the agents, which have all halted, with an underflow, or
/// with the rounds running out.
pub proof fn lemma_run_never_closed(net: NetView, threshold: usize, rounds: nat, rho: usize)
    requires
        net.running(rho) || net.ending(rho) || net.all_halted(),
        rho + rounds <= usize::MAX,
    ensures
        match net.run(threshold, rounds) {
            Ok(_) => true,
            Err(e) => e is BacktrackUnderflow || e == AbtError::RoundLimit,
        },
    decreases rounds,
{
    if !net.all_halted() && rounds > 0 {
        if net.running(rho) {
            lemma_round_running(net, threshold, rho);
        } else {
            lemma_round_ending(net, threshold, rho);
        }
        if net.round(threshold) is Ok {
            lemma_run_never_closed(
                net.round(threshold)->Ok_0,
                threshold,
                (rounds - 1) as nat,
                (rho + 1) as usize,
            );
        }
    }
}

/// A run starts in lockstep.
pub proof fn lemma_initial_running(n: nat, seed: Option<u64>)
    requires
        n <= usize::MAX,
    ensures
        initial_net(n, seed).running(0),
{
    let net = initial_net(n, seed);
    assert forall|i: int| 0 <= i < n implies {
        &&& (#[trigger] net.agents[i]).wf()
        &&& net.agents[i].id == i
        &&& net.agents[i].num_agents() == n
        &&& net.agents[i].round == 0
        &&& net.agents[i].outbox_addressed()
        &&& counting(net.agents[i].detector)
        &&& silent_on_end(net.inboxes[i])
    } by {
        lemma_trial_order_is_order(n, seed, i as usize);
        assert(net.agents[i] == initial_agent(i as usize, n, seed));
        assert(net.agents[i].mess2send == heartbeats(i as usize, n));
    }
}

} // verus!
