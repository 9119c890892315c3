//! What a quiet pass of asynchronous backtracking on a graph certifies:
//! when no node changed its colour, every edge that leads from a node to
//! a higher one joins two different colours.

use vstd::prelude::*;
use crate::graph::{
    edges_consistent, lemma_update_color_free, spec_next_color, NodeState, NodeView, State,
};
use crate::graph_abt::{
    abt_ready, blamed_slot, lemma_blamed_slot_range, lemma_set_view_names, lemma_view_slot,
    spec_announce, spec_blame, spec_round, spec_run, spec_set_view, spec_step, told, view_slot,
};
use crate::graph_search::symmetric;
use crate::seven_coloring::Color;

verus! {

/// Each node is named by its index.
pub open spec fn named_by_index(g: Seq<NodeView>) -> bool {
    forall|i: int| 0 <= i < g.len() ==> (#[trigger] g[i]).name == i
}

/// Two graphs with the same nodes and the same edges.
pub open spec fn same_shape(g: Seq<NodeView>, h: Seq<NodeView>) -> bool {
    &&& g.len() == h.len()
    &&& forall|j: int|
        0 <= j < g.len() ==> (#[trigger] h[j]).name == g[j].name && h[j].neighbors
            == g[j].neighbors
}

/// The view holds the belief that `name` has colour `c`.
pub open spec fn view_has(view: Seq<NodeState>, name: usize, c: Color) -> bool {
    exists|m: int| 0 <= m < view.len() && #[trigger] view[m] == (name, c)
}

/// Every edge from a node to a higher one joins two colours, and they
/// differ.
pub open spec fn forward_proper(g: Seq<NodeView>) -> bool {
    forall|i: int, k: int|
        0 <= i < g.len() && 0 <= k < g[i].neighbors.len() && i < g[i].neighbors[k] < g.len() ==> {
            &&& g[i].color is Some
            &&& g[#[trigger] g[i].neighbors[k] as int].color is Some
            &&& g[i].color != g[g[i].neighbors[k] as int].color
        }
}

/// What holds in the middle of a pass that has seen no change, when the
/// first `cur` nodes have had their turn: each of them has a colour, two
/// of them that an edge joins upwards differ, and each higher node that
/// such an edge leads to has been told the colour at the lower end.
pub open spec fn quiet_upto(g: Seq<NodeView>, cur: int) -> bool {
    &&& forall|i: int| 0 <= i < cur ==> (#[trigger] g[i]).color is Some
    &&& forall|i: int, k: int|
        0 <= i < cur && 0 <= k < g[i].neighbors.len() && i < g[i].neighbors[k] < cur
            ==> g[i].color != g[#[trigger] g[i].neighbors[k] as int].color
    &&& forall|i: int, k: int|
        0 <= i < cur && 0 <= k < g[i].neighbors.len() && cur <= g[i].neighbors[k] < g.len() ==> {
            &&& g[#[trigger] g[i].neighbors[k] as int].modified
            &&& view_has(g[g[i].neighbors[k] as int].agent_view, i as usize, g[i].color->0)
        }
}

/// After `spec_set_view` the view holds the new belief, and it still
/// holds every belief that it held of another node or of that colour.
pub proof fn lemma_set_view_has(view: Seq<NodeState>, name: usize, c: Color)
    ensures
        view_has(spec_set_view(view, name, c), name, c),
        forall|other: usize, d: Color|
            #[trigger] view_has(view, other, d) && (other != name || d == c) ==> view_has(
                spec_set_view(view, name, c),
                other,
                d,
            ),
{
    let set = spec_set_view(view, name, c);
    lemma_view_slot(view, name, 0);
    match view_slot(view, name, 0) {
        Some(k) => {
            assert(set[k] == (name, c));
        },
        None => {
            assert(set[view.len() as int] == (name, c));
        },
    }
    assert forall|other: usize, d: Color|
        #[trigger] view_has(view, other, d) && (other != name || d == c) implies view_has(
        set,
        other,
        d,
    ) by {
        let m = choose|m: int| 0 <= m < view.len() && #[trigger] view[m] == (other, d);
        match view_slot(view, name, 0) {
            Some(k) => {
                if m == k {
                    assert(set[k] == (other, d));
                } else {
                    assert(set[m] == (other, d));
                }
            },
            None => {
                assert(set[m] == (other, d));
            },
        }
    }
}

/// What an announcement does: it touches nothing but the views and the
/// `modified` marks of nodes above the announcer, every listener among
/// the first `k` neighbours then holds the announced belief, and no other
/// belief is lost.
pub proof fn lemma_announce(g: Seq<NodeView>, i: int, c: Color, k: int)
    requires
        abt_ready(g),
        named_by_index(g),
        0 <= i < g.len(),
        0 <= k <= g[i].neighbors.len(),
    ensures
        same_shape(g, spec_announce(g, i, c, k)),
        abt_ready(spec_announce(g, i, c, k)),
        forall|j: int|
            0 <= j < g.len() ==> {
                &&& (#[trigger] spec_announce(g, i, c, k)[j]).color == g[j].color
                &&& spec_announce(g, i, c, k)[j].no_good == g[j].no_good
                &&& spec_announce(g, i, c, k)[j].remaining == g[j].remaining
                &&& (g[j].modified ==> spec_announce(g, i, c, k)[j].modified)
                &&& (j <= i ==> spec_announce(g, i, c, k)[j] == g[j])
            },
        forall|j: int, other: usize, d: Color|
            0 <= j < g.len() && #[trigger] view_has(g[j].agent_view, other, d) && (other != i || d
                == c) ==> view_has(spec_announce(g, i, c, k)[j].agent_view, other, d),
        forall|m: int|
            0 <= m < k && (#[trigger] g[i].neighbors[m]) > i ==> {
                &&& spec_announce(g, i, c, k)[g[i].neighbors[m] as int].modified
                &&& view_has(spec_announce(g, i, c, k)[g[i].neighbors[m] as int].agent_view, i as usize, c)
            },
    decreases k,
{
    if k > 0 {
        lemma_announce(g, i, c, k - 1);
        let prev = spec_announce(g, i, c, k - 1);
        let r = spec_announce(g, i, c, k);
        let nb = g[i].neighbors[k - 1] as int;
        assert(0 <= nb < g.len());
        assert(prev[nb].name == g[nb].name);
        if prev[nb].name > i {
            assert(r == prev.update(nb, told(prev[nb], i as usize, c)));
            lemma_set_view_has(prev[nb].agent_view, i as usize, c);
            lemma_set_view_names(prev[nb].agent_view, i as usize, c);
            assert(abt_ready(r)) by {
                assert forall|a: int, m: int|
                    0 <= a < r.len() && 0 <= m < r[a].agent_view.len() implies (
                #[trigger] r[a].agent_view[m]).0 < r.len() by {
                    if a == nb {
                        let set = spec_set_view(prev[nb].agent_view, i as usize, c);
                        if set[m] != (i as usize, c) {
                            assert(set[m] == prev[nb].agent_view[m]);
                        }
                    } else {
                        assert(r[a] == prev[a]);
                    }
                }
                assert forall|a: int, m: int|
                    0 <= a < r.len() && 0 <= m < r[a].neighbors.len() implies (
                #[trigger] r[a].neighbors[m]) < r.len() by {
                    assert(r[a].neighbors == prev[a].neighbors);
                }
            }
            assert forall|j: int, other: usize, d: Color|
                0 <= j < g.len() && #[trigger] view_has(g[j].agent_view, other, d) && (other != i
                    || d == c) implies view_has(r[j].agent_view, other, d) by {
                assert(view_has(prev[j].agent_view, other, d));
                if j != nb {
                    assert(r[j] == prev[j]);
                }
            }
            assert forall|m: int| 0 <= m < k && (#[trigger] g[i].neighbors[m]) > i implies r[g[i].neighbors[m] as int].modified
                && view_has(r[g[i].neighbors[m] as int].agent_view, i as usize, c) by {
                let t = g[i].neighbors[m] as int;
                if t != nb {
                    assert(r[t] == prev[t]);
                } else if m < k - 1 {
                    assert(view_has(prev[t].agent_view, i as usize, c));
                }
            }
            assert forall|j: int| 0 <= j < g.len() implies {
                &&& (#[trigger] r[j]).color == g[j].color
                &&& r[j].no_good == g[j].no_good
                &&& r[j].remaining == g[j].remaining
                &&& (g[j].modified ==> r[j].modified)
                &&& (j <= i ==> r[j] == g[j])
                &&& r[j].name == g[j].name
                &&& r[j].neighbors == g[j].neighbors
            } by {
                if j != nb {
                    assert(r[j] == prev[j]);
                }
            }
        } else {
            assert(r == prev);
            assert forall|m: int| 0 <= m < k && (#[trigger] g[i].neighbors[m]) > i implies r[g[i].neighbors[m] as int].modified
                && view_has(r[g[i].neighbors[m] as int].agent_view, i as usize, c) by {
                if m == k - 1 {
                    assert(g[nb].name == nb);
                }
            }
        }
    }
}

/// A node's turn leaves the nodes and the edges as they are, and the
/// graph ready for the next turn.
pub proof fn lemma_step_shape(g: Seq<NodeView>, i: int)
    requires
        abt_ready(g),
        named_by_index(g),
        0 <= i < g.len(),
    ensures
        same_shape(g, spec_step(g, i).0),
        abt_ready(spec_step(g, i).0),
        named_by_index(spec_step(g, i).0),
{
    let h = spec_step(g, i).0;
    match spec_next_color(g[i]) {
        Some(c) => {
            let g1 = g.update(i, NodeView { color: Some(c), modified: true, ..g[i] });
            lemma_marked_ready(g, g1, i);
            lemma_announce(g1, i, c, g1[i].neighbors.len() as int);
            assert forall|j: int| 0 <= j < g.len() implies (#[trigger] h[j]).name == g[j].name
                && h[j].neighbors == g[j].neighbors by {
                assert(g1[j].name == g[j].name);
            }
        },
        None => {
            let g1 = g.update(i, NodeView { modified: true, ..g[i] });
            lemma_marked_ready(g, g1, i);
            if g1[i].agent_view.len() >= 1 {
                let view = g1[i].agent_view;
                lemma_blamed_slot_range(view, view.len() as int);
                let s = blamed_slot(view, view.len() as int);
                let t = view[s].0 as int;
                assert(0 <= t < g.len());
                let b = spec_blame(g1, i);
                assert forall|a: int, m: int|
                    0 <= a < b.len() && 0 <= m < b[a].agent_view.len() implies (
                #[trigger] b[a].agent_view[m]).0 < b.len() by {
                    if a == i {
                        if m < s {
                            assert(b[a].agent_view[m] == g1[a].agent_view[m]);
                        } else {
                            assert(b[a].agent_view[m] == g1[a].agent_view[m + 1]);
                        }
                    } else {
                        assert(b[a].agent_view == g1[a].agent_view);
                    }
                }
                assert forall|a: int, m: int|
                    0 <= a < b.len() && 0 <= m < b[a].neighbors.len() implies (
                #[trigger] b[a].neighbors[m]) < b.len() by {
                    assert(b[a].neighbors == g1[a].neighbors);
                }
                assert forall|j: int| 0 <= j < g.len() implies (#[trigger] b[j]).name == g[j].name
                    && b[j].neighbors == g[j].neighbors by {
                    assert(g1[j].name == g[j].name);
                }
            }
        },
    }
}

/// Marking a node, or giving it a colour, leaves the graph ready.
proof fn lemma_marked_ready(g: Seq<NodeView>, g1: Seq<NodeView>, i: int)
    requires
        abt_ready(g),
        named_by_index(g),
        0 <= i < g.len(),
        g1.len() == g.len(),
        forall|j: int| 0 <= j < g.len() && j != i ==> g1[j] == g[j],
        g1[i].name == g[i].name,
        g1[i].neighbors == g[i].neighbors,
        g1[i].agent_view == g[i].agent_view,
    ensures
        abt_ready(g1),
        named_by_index(g1),
{
    assert forall|a: int, m: int|
        0 <= a < g1.len() && 0 <= m < g1[a].agent_view.len() implies (
    #[trigger] g1[a].agent_view[m]).0 < g1.len() by {
        assert(g1[a].agent_view == g[a].agent_view);
    }
    assert forall|a: int, m: int| 0 <= a < g1.len() && 0 <= m < g1[a].neighbors.len() implies (
    #[trigger] g1[a].neighbors[m]) < g1.len() by {
        assert(g1[a].neighbors == g[a].neighbors);
    }
    assert forall|j: int| 0 <= j < g1.len() implies (#[trigger] g1[j]).name == j by {
        assert(g[j].name == j);
    }
}

/// A quiet turn extends a quiet pass by one node.
pub proof fn lemma_step_quiet(g: Seq<NodeView>, i: int)
    requires
        abt_ready(g),
        named_by_index(g),
        0 <= i < g.len(),
        quiet_upto(g, i),
        spec_step(g, i).1 == State::NoChange,
    ensures
        quiet_upto(spec_step(g, i).0, i + 1),
{
    let c = spec_next_color(g[i])->0;
    assert(g[i].color == Some(c));
    let g1 = g.update(i, NodeView { color: Some(c), modified: true, ..g[i] });
    let count = g1[i].neighbors.len() as int;
    let h = spec_announce(g1, i, c, count);
    assert(h == spec_step(g, i).0);
    lemma_marked_ready(g, g1, i);
    lemma_announce(g1, i, c, count);
    lemma_update_color_free(g[i]);

    assert forall|a: int| 0 <= a < i + 1 implies (#[trigger] h[a]).color is Some by {
        assert(h[a].color == g1[a].color);
        if a < i {
            assert(g[a].color is Some);
        }
    }
    assert forall|a: int, k: int|
        0 <= a < i + 1 && 0 <= k < h[a].neighbors.len() && a < h[a].neighbors[k] < i
            + 1 implies h[a].color != h[#[trigger] h[a].neighbors[k] as int].color by {
        let j = h[a].neighbors[k] as int;
        assert(h[a].neighbors == g[a].neighbors);
        assert(h[a].color == g1[a].color);
        assert(h[j].color == g1[j].color);
        if j < i {
            assert(g[a].color != g[g[a].neighbors[k] as int].color);
        } else {
            // the edge leads to the node whose turn it was
            assert(g[g[a].neighbors[k] as int].modified);
            assert(view_has(g[i].agent_view, a as usize, g[a].color->0));
            let m = choose|m: int|
                0 <= m < g[i].agent_view.len() && #[trigger] g[i].agent_view[m] == (
                    a as usize,
                    g[a].color->0,
                );
            assert(g[i].agent_view[m].1 != c);
        }
    }
    assert forall|a: int, k: int|
        0 <= a < i + 1 && 0 <= k < h[a].neighbors.len() && i + 1 <= h[a].neighbors[k]
            < h.len() implies h[#[trigger] h[a].neighbors[k] as int].modified && view_has(
        h[h[a].neighbors[k] as int].agent_view,
        a as usize,
        h[a].color->0,
    ) by {
        let j = h[a].neighbors[k] as int;
        assert(h[a].neighbors == g[a].neighbors);
        assert(h[a].color == g1[a].color);
        if a < i {
            assert(g[g[a].neighbors[k] as int].modified);
            assert(view_has(g[j].agent_view, a as usize, g[a].color->0));
            assert(g1[j] == g[j]);
            assert(view_has(g1[j].agent_view, a as usize, g[a].color->0));
        } else {
            assert(g1[i].neighbors[k] > i);
        }
    }
}

/// A pass leaves the nodes and the edges as they are; one that has seen
/// no change is quiet up to the node it has reached.
pub proof fn lemma_round_quiet(g: Seq<NodeView>, k: int)
    requires
        abt_ready(g),
        named_by_index(g),
        0 <= k <= g.len(),
    ensures
        same_shape(g, spec_round(g, k).0),
        abt_ready(spec_round(g, k).0),
        named_by_index(spec_round(g, k).0),
        spec_round(g, k).1 == State::NoChange ==> quiet_upto(spec_round(g, k).0, k),
    decreases k,
{
    if k > 0 {
        lemma_round_quiet(g, k - 1);
        let before = spec_round(g, k - 1);
        if before.1 != State::NoSol {
            lemma_step_shape(before.0, k - 1);
            let after = spec_step(before.0, k - 1);
            assert forall|j: int| 0 <= j < g.len() implies (#[trigger] after.0[j]).name
                == g[j].name && after.0[j].neighbors == g[j].neighbors by {
                assert(before.0[j].name == g[j].name);
            }
            if after.1 == State::NoChange && before.1 == State::NoChange {
                lemma_step_quiet(before.0, k - 1);
            }
        }
    }
}

/// A pass over all nodes that sees no change certifies the colouring:
/// every edge from a node to a higher one joins two different colours.
pub proof fn lemma_quiet_round_is_proper(g: Seq<NodeView>)
    requires
        abt_ready(g),
        named_by_index(g),
        spec_round(g, g.len() as int).1 == State::NoChange,
    ensures
        forward_proper(spec_round(g, g.len() as int).0),
{
    lemma_round_quiet(g, g.len() as int);
    let h = spec_round(g, g.len() as int).0;
    assert forall|i: int, k: int|
        0 <= i < h.len() && 0 <= k < h[i].neighbors.len() && i < h[i].neighbors[k]
            < h.len() implies h[i].color is Some && h[#[trigger] h[i].neighbors[k] as int].color is Some
        && h[i].color != h[h[i].neighbors[k] as int].color by {
        let j = h[i].neighbors[k] as int;
        assert(h[j].color is Some);
        assert(h[i].color is Some);
    }
}

/// A run that ends with `NoChange` ends with a certified colouring.
pub proof fn lemma_quiet_run_is_proper(g: Seq<NodeView>, rounds: nat)
    requires
        abt_ready(g),
        named_by_index(g),
        spec_run(g, rounds).1 == State::NoChange,
    ensures
        forward_proper(spec_run(g, rounds).0),
        same_shape(g, spec_run(g, rounds).0),
    decreases rounds,
{
    if rounds > 0 {
        let pass = spec_round(g, g.len() as int);
        lemma_round_quiet(g, g.len() as int);
        if pass.1 == State::HasChange {
            lemma_quiet_run_is_proper(pass.0, (rounds - 1) as nat);
            let h = spec_run(g, rounds).0;
            assert forall|j: int| 0 <= j < g.len() implies (#[trigger] h[j]).name == g[j].name
                && h[j].neighbors == g[j].neighbors by {
                assert(pass.0[j].name == g[j].name);
            }
        } else {
            lemma_quiet_round_is_proper(g);
        }
    }
}

/// In a graph whose edges are listed at both ends and never lead from a
/// node to itself, a colouring that is proper along the edges that lead
/// upwards is proper along every edge.
pub proof fn lemma_forward_is_enough(g: Seq<NodeView>)
    requires
        g.len() <= usize::MAX,
        forward_proper(g),
        symmetric(g),
        forall|i: int, k: int|
            0 <= i < g.len() && 0 <= k < g[i].neighbors.len() ==> #[trigger] g[i].neighbors[k]
                != i,
    ensures
        edges_consistent(g, g.len() as int),
{
    assert forall|i: int, k: int|
        0 <= i < g.len() && 0 <= k < g[i].neighbors.len() && g[i].neighbors[k] < g.len() implies g[
    #[trigger] g[i].neighbors[k] as int].color != g[i].color by {
        let nb = g[i].neighbors[k] as int;
        if nb < i {
            assert(g[nb].neighbors.contains(i as usize));
            let m = choose|m: int|
                0 <= m < g[nb].neighbors.len() && g[nb].neighbors[m] == i as usize;
            assert(nb < g[nb].neighbors[m] < g.len());
            assert(g[nb].color != g[g[nb].neighbors[m] as int].color);
        }
    }
}

} // verus!
