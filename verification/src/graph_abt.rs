//! Asynchronous backtracking on a shared graph, run by a single worker:
//! each node in turn settles on a colour, tells its higher neighbours, or
//! blames the highest node of its view when no colour is left.

use vstd::prelude::*;
use crate::graph::{
    get_last_and_next_color, graph_view, spec_next_color, Node, NodeState, NodeView, State,
};
use crate::graph_laws::{
    forward_proper, lemma_quiet_round_is_proper, lemma_quiet_run_is_proper, named_by_index,
};
use crate::seven_coloring::Color;

verus! {

/// Every neighbour and every name in a view is a node of the graph.
pub open spec fn abt_ready(g: Seq<NodeView>) -> bool {
    &&& forall|i: int, k: int|
        0 <= i < g.len() && 0 <= k < g[i].neighbors.len() ==> (#[trigger] g[i].neighbors[k])
            < g.len()
    &&& forall|i: int, k: int|
        0 <= i < g.len() && 0 <= k < g[i].agent_view.len() ==> (#[trigger] g[i].agent_view[k]).0
            < g.len()
}

/// Index of the first entry of `view[from..]` that speaks of `name`.
pub open spec fn view_slot(view: Seq<NodeState>, name: usize, from: int) -> Option<int>
    decreases view.len() - from,
{
    if from < 0 || from >= view.len() {
        None
    } else if view[from].0 == name {
        Some(from)
    } else {
        view_slot(view, name, from + 1)
    }
}

/// The view after learning that `name` has colour `c`: the first entry for
/// `name` is overwritten, or a new entry is appended.
pub open spec fn spec_set_view(view: Seq<NodeState>, name: usize, c: Color) -> Seq<NodeState> {
    match view_slot(view, name, 0) {
        Some(k) => view.update(k, (name, c)),
        None => view.push((name, c)),
    }
}

/// A node after it was told that `name` has colour `c`.
pub open spec fn told(n: NodeView, name: usize, c: Color) -> NodeView {
    NodeView { agent_view: spec_set_view(n.agent_view, name, c), modified: true, ..n }
}

/// The graph after node `i` has told the first `k` of its neighbours that
/// it has colour `c`. Only neighbours with a higher name listen.
pub open spec fn spec_announce(g: Seq<NodeView>, i: int, c: Color, k: int) -> Seq<NodeView>
    decreases k,
{
    if k <= 0 {
        g
    } else {
        let prev = spec_announce(g, i, c, k - 1);
        let nb = g[i].neighbors[k - 1] as int;
        if prev[nb].name > i {
            prev.update(nb, told(prev[nb], i as usize, c))
        } else {
            prev
        }
    }
}

/// The entry that a node without a colour blames, among the first `k`
/// entries of its view: the one with the highest name, the last of them
/// where several share it.
pub open spec fn blamed_slot(view: Seq<NodeState>, k: int) -> int
    decreases k,
{
    if k <= 1 {
        0
    } else {
        let p = blamed_slot(view, k - 1);
        if view[k - 1].0 >= view[p].0 {
            k - 1
        } else {
            p
        }
    }
}

/// The graph after node `i` has blamed the highest node of its view: that
/// node gets the colour it was believed to have as a nogood, and `i`
/// forgets what it believed of it.
pub open spec fn spec_blame(g: Seq<NodeView>, i: int) -> Seq<NodeView> {
    let view = g[i].agent_view;
    let s = blamed_slot(view, view.len() as int);
    let t = view[s].0 as int;
    let c = view[s].1;
    let g1 = g.update(t, NodeView { no_good: g[t].no_good.push(c), modified: true, ..g[t] });
    g1.update(i, NodeView { agent_view: g1[i].agent_view.remove(s), modified: true, ..g1[i] })
}

/// One node's turn. With a colour `c` to take, the node takes it and, if
/// it is new or unchanged, announces it. Without one it backtracks, or
/// gives up when its view is empty.
pub open spec fn spec_step(g: Seq<NodeView>, i: int) -> (Seq<NodeView>, State) {
    let last = g[i].color;
    match spec_next_color(g[i]) {
        Some(c) => {
            let g1 = g.update(i, NodeView { color: Some(c), modified: true, ..g[i] });
            if last is None {
                (spec_announce(g1, i, c, g1[i].neighbors.len() as int), State::HasChange)
            } else if last == Some(c) {
                (spec_announce(g1, i, c, g1[i].neighbors.len() as int), State::NoChange)
            } else {
                (g1, State::HasChange)
            }
        },
        None => {
            let g1 = g.update(i, NodeView { modified: true, ..g[i] });
            if g1[i].agent_view.len() < 1 {
                (g1, State::NoSol)
            } else {
                (spec_blame(g1, i), State::HasChange)
            }
        },
    }
}

/// The turns of the first `k` nodes, in order. The pass stops at the
/// first node that gives up.
pub open spec fn spec_round(g: Seq<NodeView>, k: int) -> (Seq<NodeView>, State)
    decreases k,
{
    if k <= 0 {
        (g, State::NoChange)
    } else {
        let before = spec_round(g, k - 1);
        if before.1 == State::NoSol {
            before
        } else {
            let after = spec_step(before.0, k - 1);
            if after.1 == State::NoChange {
                (after.0, before.1)
            } else {
                after
            }
        }
    }
}

/// Up to `rounds` passes over all nodes, until one passes without a
/// change or a node gives up. `HasChange` says that the passes ran out.
pub open spec fn spec_run(g: Seq<NodeView>, rounds: nat) -> (Seq<NodeView>, State)
    decreases rounds,
{
    if rounds == 0 {
        (g, State::HasChange)
    } else {
        let pass = spec_round(g, g.len() as int);
        if pass.1 == State::HasChange {
            spec_run(pass.0, (rounds - 1) as nat)
        } else {
            pass
        }
    }
}

/// Changing one node of a graph changes the same entry of its view.
proof fn lemma_view_update(before: Seq<Node>, after: Seq<Node>, j: int)
    requires
        0 <= j < before.len(),
        after.len() == before.len(),
        forall|m: int| 0 <= m < before.len() && m != j ==> after[m] == before[m],
    ensures
        graph_view(after) == graph_view(before).update(j, after[j]@),
{
    assert(graph_view(after) =~= graph_view(before).update(j, after[j]@));
}

/// Records in `node` that `name` has colour `color`.
fn record_view(node: &mut Node, name: usize, color: Color)
    ensures
        final(node)@ == told(old(node)@, name, color),
{
    let ghost view = node.agent_view@;
    let mut k: usize = 0;
    while k < node.agent_view.len()
        invariant
            k <= node.agent_view.len(),
            *node == *old(node),
            view == node.agent_view@,
            view_slot(view, name, 0) == view_slot(view, name, k as int),
        decreases node.agent_view.len() - k,
    {
        if node.agent_view[k].0 == name {
            node.agent_view[k] = (name, color);
            node.modified = true;
            assert(node.agent_view@ =~= view.update(k as int, (name, color)));
            return;
        }
        k += 1;
    }
    node.agent_view.push((name, color));
    node.modified = true;
}

/// Node `i` tells each neighbour with a higher name that it has colour
/// `color`.
fn announce(graph: &mut Vec<Node>, i: usize, color: Color)
    requires
        i < old(graph).len(),
        abt_ready(graph_view(old(graph)@)),
    ensures
        graph_view(final(graph)@) == spec_announce(
            graph_view(old(graph)@),
            i as int,
            color,
            old(graph)[i as int].neighbors.len() as int,
        ),
        final(graph).len() == old(graph).len(),
        abt_ready(graph_view(final(graph)@)),
{
    let ghost g0 = graph_view(graph@);
    let count = graph[i].neighbors.len();
    let mut k: usize = 0;
    while k < count
        invariant
            k <= count,
            i < graph.len(),
            g0.len() == graph.len(),
            count == g0[i as int].neighbors.len(),
            graph[i as int].neighbors@ == g0[i as int].neighbors,
            graph_view(graph@) == spec_announce(g0, i as int, color, k as int),
            abt_ready(g0),
            abt_ready(graph_view(graph@)),
        decreases count - k,
    {
        let nb = graph[i].neighbors[k];
        assert(nb == g0[i as int].neighbors[k as int]);
        assert(nb < graph.len());
        if graph[nb].name > i {
            let ghost before = graph@;
            record_view(&mut graph[nb], i, color);
            proof {
                lemma_view_update(before, graph@, nb as int);
                let gv = graph_view(before);
                let gw = graph_view(graph@);
                assert(gw[nb as int] == told(gv[nb as int], i, color));
                assert(abt_ready(gw)) by {
                    lemma_set_view_names(gv[nb as int].agent_view, i, color);
                    assert forall|a: int, m: int|
                        0 <= a < gw.len() && 0 <= m < gw[a].agent_view.len() implies (
                    #[trigger] gw[a].agent_view[m]).0 < gw.len() by {
                        if a != nb {
                            assert(gw[a] == gv[a]);
                        }
                    }
                    assert forall|a: int, m: int|
                        0 <= a < gw.len() && 0 <= m < gw[a].neighbors.len() implies (
                    #[trigger] gw[a].neighbors[m]) < gw.len() by {
                        assert(gw[a].neighbors == gv[a].neighbors);
                    }
                }
            }
        }
        k += 1;
    }
}

/// Every entry of a view after `spec_set_view` is an old entry or the new
/// one, and the view does not shrink.
pub proof fn lemma_set_view_names(view: Seq<NodeState>, name: usize, c: Color)
    ensures
        spec_set_view(view, name, c).len() >= view.len(),
        forall|m: int|
            0 <= m < spec_set_view(view, name, c).len() ==> #[trigger] spec_set_view(
                view,
                name,
                c,
            )[m] == (name, c) || (m < view.len() && spec_set_view(view, name, c)[m] == view[m]),
{
    lemma_view_slot(view, name, 0);
}

/// What `view_slot` finds is an index of an entry for `name`, the first
/// from `from` on; where it finds nothing there is no such entry.
pub proof fn lemma_view_slot(view: Seq<NodeState>, name: usize, from: int)
    requires
        0 <= from,
    ensures
        match view_slot(view, name, from) {
            Some(k) => from <= k < view.len() && view[k].0 == name && forall|j: int|
                from <= j < k ==> (#[trigger] view[j]).0 != name,
            None => forall|j: int| from <= j < view.len() ==> (#[trigger] view[j]).0 != name,
        },
    decreases view.len() - from,
{
    if from < view.len() && view[from].0 != name {
        lemma_view_slot(view, name, from + 1);
    }
}

/// The blamed entry is one of the first `k`: none of them has a higher
/// name, and every later one of them has a lower name.
pub proof fn lemma_blamed_slot_range(view: Seq<NodeState>, k: int)
    requires
        1 <= k,
    ensures
        0 <= blamed_slot(view, k) < k,
        forall|j: int| 0 <= j < k ==> (#[trigger] view[j]).0 <= view[blamed_slot(view, k)].0,
        forall|j: int|
            blamed_slot(view, k) < j < k ==> (#[trigger] view[j]).0 < view[blamed_slot(view, k)].0,
    decreases k,
{
    if k > 1 {
        lemma_blamed_slot_range(view, k - 1);
    }
}

/// Node `i`, left without a colour, blames the highest node of its view.
fn blame(graph: &mut Vec<Node>, i: usize)
    requires
        i < old(graph).len(),
        old(graph)[i as int].agent_view.len() >= 1,
        abt_ready(graph_view(old(graph)@)),
    ensures
        graph_view(final(graph)@) == spec_blame(graph_view(old(graph)@), i as int),
        final(graph).len() == old(graph).len(),
        abt_ready(graph_view(final(graph)@)),
{
    let ghost g0 = graph_view(graph@);
    let ghost view = graph[i as int].agent_view@;
    assert(view == g0[i as int].agent_view);
    let count = graph[i].agent_view.len();
    let mut slot: usize = 0;
    let mut k: usize = 1;
    while k < count
        invariant
            1 <= k <= count,
            i < graph.len(),
            count == view.len(),
            view == graph[i as int].agent_view@,
            slot == blamed_slot(view, k as int),
            slot < k,
        decreases count - k,
    {
        if graph[i].agent_view[k].0 >= graph[i].agent_view[slot].0 {
            slot = k;
        }
        k += 1;
    }
    let (target, color) = graph[i].agent_view[slot];
    assert(g0[i as int].agent_view[slot as int] == (target, color));
    assert(target < graph.len());
    let ghost before = graph@;
    graph[target].no_good.push(color);
    graph[target].modified = true;
    let ghost middle = graph@;
    proof {
        lemma_view_update(before, middle, target as int);
    }
    graph[i].modified = true;
    graph[i].agent_view.remove(slot);
    proof {
        lemma_view_update(middle, graph@, i as int);
        let g1 = graph_view(middle);
        let g2 = graph_view(graph@);
        assert(g2 == spec_blame(g0, i as int));
        assert forall|a: int, m: int|
            0 <= a < g2.len() && 0 <= m < g2[a].agent_view.len() implies (
        #[trigger] g2[a].agent_view[m]).0 < g2.len() by {
            if a == i {
                if m < slot {
                    assert(g2[a].agent_view[m] == g1[a].agent_view[m]);
                } else {
                    assert(g2[a].agent_view[m] == g1[a].agent_view[m + 1]);
                }
            } else {
                assert(g2[a].agent_view == g0[a].agent_view);
            }
            assert(g1[a].agent_view == g0[a].agent_view);
        }
        assert forall|a: int, m: int|
            0 <= a < g2.len() && 0 <= m < g2[a].neighbors.len() implies (
        #[trigger] g2[a].neighbors[m]) < g2.len() by {
            assert(g2[a].neighbors == g0[a].neighbors);
        }
    }
}

/// The turn of node `node_index`: it takes the colour that its view and
/// its nogoods leave it and tells its higher neighbours, or it blames the
/// highest node of its view. `NoSol` says that it had no colour and nobody
/// to blame.
pub fn abt_step(graph: &mut Vec<Node>, node_index: usize) -> (state: State)
    requires
        node_index < old(graph).len(),
        abt_ready(graph_view(old(graph)@)),
    ensures
        (graph_view(final(graph)@), state) == spec_step(
            graph_view(old(graph)@),
            node_index as int,
        ),
        final(graph).len() == old(graph).len(),
        abt_ready(graph_view(final(graph)@)),
{
    let ghost g0 = graph_view(graph@);
    let ghost before = graph@;
    let (last_color, next_color) = get_last_and_next_color(graph, node_index);
    match next_color {
        Some(color) => {
            graph[node_index].assign_color(color);
            graph[node_index].modified = true;
            proof {
                lemma_view_update(before, graph@, node_index as int);
                lemma_ready_kept(g0, graph_view(graph@));
            }
            match last_color {
                None => {
                    announce(graph, node_index, color);
                    State::HasChange
                },
                Some(last) => {
                    if last == color {
                        announce(graph, node_index, color);
                        State::NoChange
                    } else {
                        State::HasChange
                    }
                },
            }
        },
        None => {
            graph[node_index].modified = true;
            proof {
                lemma_view_update(before, graph@, node_index as int);
                lemma_ready_kept(g0, graph_view(graph@));
            }
            if graph[node_index].agent_view.len() < 1 {
                State::NoSol
            } else {
                blame(graph, node_index);
                State::HasChange
            }
        },
    }
}

/// A graph stays ready while neighbours and views stay as they are.
proof fn lemma_ready_kept(g: Seq<NodeView>, h: Seq<NodeView>)
    requires
        abt_ready(g),
        g.len() == h.len(),
        forall|a: int|
            0 <= a < g.len() ==> (#[trigger] h[a]).neighbors == g[a].neighbors && h[a].agent_view
                == g[a].agent_view,
    ensures
        abt_ready(h),
{
    assert forall|a: int, m: int|
        0 <= a < h.len() && 0 <= m < h[a].agent_view.len() implies (#[trigger] h[a].agent_view[m]).0
        < h.len() by {
        assert(h[a].agent_view == g[a].agent_view);
    }
    assert forall|a: int, m: int| 0 <= a < h.len() && 0 <= m < h[a].neighbors.len() implies (
    #[trigger] h[a].neighbors[m]) < h.len() by {
        assert(h[a].neighbors == g[a].neighbors);
    }
}

/// One pass: the turn of each node, by rising index, up to the first
/// that gives up. In a graph whose nodes are named by their indices, a
/// pass without a change certifies the colouring along every edge that
/// leads upwards.
pub fn abt_round(graph: &mut Vec<Node>) -> (state: State)
    requires
        abt_ready(graph_view(old(graph)@)),
    ensures
        (graph_view(final(graph)@), state) == spec_round(
            graph_view(old(graph)@),
            old(graph).len() as int,
        ),
        final(graph).len() == old(graph).len(),
        abt_ready(graph_view(final(graph)@)),
        named_by_index(graph_view(old(graph)@)) && state == State::NoChange ==> forward_proper(
            graph_view(final(graph)@),
        ),
{
    let ghost g0 = graph_view(graph@);
    proof {
        if named_by_index(g0) && spec_round(g0, g0.len() as int).1 == State::NoChange {
            lemma_quiet_round_is_proper(g0);
        }
    }
    let n = graph.len();
    let mut state = State::NoChange;
    let mut i: usize = 0;
    while i < n
        invariant
            i <= n,
            n == graph.len(),
            n == g0.len(),
            g0 == graph_view(old(graph)@),
            n == old(graph).len(),
            state != State::NoSol,
            named_by_index(g0) && spec_round(g0, n as int).1 == State::NoChange ==> forward_proper(
                spec_round(g0, n as int).0,
            ),
            (graph_view(graph@), state) == spec_round(g0, i as int),
            abt_ready(graph_view(graph@)),
        decreases n - i,
    {
        let step = abt_step(graph, i);
        match step {
            State::NoSol => {
                proof {
                    lemma_round_stops(g0, i as int + 1, n as int);
                }
                return State::NoSol;
            },
            State::HasChange => {
                state = State::HasChange;
            },
            State::NoChange => {},
        }
        i += 1;
    }
    state
}

/// A pass that a node has given up in does nothing after that.
pub proof fn lemma_round_stops(g: Seq<NodeView>, k: int, n: int)
    requires
        k <= n,
        spec_round(g, k).1 == State::NoSol,
    ensures
        spec_round(g, n) == spec_round(g, k),
    decreases n - k,
{
    if k < n {
        lemma_round_stops(g, k, n - 1);
    }
}

/// Runs passes until one leaves every colour as it was (`NoChange`) or a
/// node gives up (`NoSol`), but at most `max_rounds` of them: `HasChange`
/// says that the colours were still moving when the passes ran out.
pub fn abt_bounded(graph: &mut Vec<Node>, max_rounds: usize) -> (state: State)
    requires
        abt_ready(graph_view(old(graph)@)),
    ensures
        (graph_view(final(graph)@), state) == spec_run(
            graph_view(old(graph)@),
            max_rounds as nat,
        ),
        final(graph).len() == old(graph).len(),
        abt_ready(graph_view(final(graph)@)),
        named_by_index(graph_view(old(graph)@)) && state == State::NoChange ==> forward_proper(
            graph_view(final(graph)@),
        ),
{
    let ghost g0 = graph_view(graph@);
    proof {
        if named_by_index(g0) && spec_run(g0, max_rounds as nat).1 == State::NoChange {
            lemma_quiet_run_is_proper(g0, max_rounds as nat);
        }
    }
    let mut left = max_rounds;
    while left > 0
        invariant
            graph.len() == g0.len(),
            g0 == graph_view(old(graph)@),
            g0.len() == old(graph).len(),
            abt_ready(graph_view(graph@)),
            named_by_index(g0) && spec_run(g0, max_rounds as nat).1 == State::NoChange
                ==> forward_proper(spec_run(g0, max_rounds as nat).0),
            spec_run(g0, max_rounds as nat) == spec_run(graph_view(graph@), left as nat),
        decreases left,
    {
        let pass = abt_round(graph);
        match pass {
            State::HasChange => {},
            _ => {
                return pass;
            },
        }
        left -= 1;
    }
    State::HasChange
}

/// Single-worker asynchronous backtracking: passes over the nodes until
/// one leaves every colour as it was. The answer is `true` exactly when a
/// pass ended that way; in a graph whose nodes are named by their
/// indices, every edge that leads upwards then joins two different
/// colours.
pub fn abt_sequential(graph: &mut Vec<Node>) -> (solved: bool)
    requires
        abt_ready(graph_view(old(graph)@)),
    ensures
        graph_view(final(graph)@) == spec_run(graph_view(old(graph)@), usize::MAX as nat).0,
        solved == (spec_run(graph_view(old(graph)@), usize::MAX as nat).1 == State::NoChange),
        final(graph).len() == old(graph).len(),
        abt_ready(graph_view(final(graph)@)),
        named_by_index(graph_view(old(graph)@)) && solved ==> forward_proper(
            graph_view(final(graph)@),
        ),
{
    match abt_bounded(graph, usize::MAX) {
        State::NoChange => true,
        _ => false,
    }
}

} // verus!
