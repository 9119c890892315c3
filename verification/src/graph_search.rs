//! Exhaustive search for a colouring by a single worker: depth first over
//! the nodes, by rising index, with backtracking.

use vstd::prelude::*;
use crate::graph::{
    assign_valid, edges_consistent, graph_view, new_assign_valid, Node, NodeView,
};
use crate::seven_coloring::Color;

verus! {

/// Each of the first `k` nodes has a colour, and it differs from the
/// colour of each of its neighbours of lower index.
pub open spec fn colored_downward(g: Seq<NodeView>, k: int) -> bool {
    forall|i: int| 0 <= i < k ==> (#[trigger] g[i]).color is Some && assign_valid(g, g[i], i)
}

/// Two graphs that differ at most in the colours and the colours left to
/// try.
pub open spec fn same_structure(g: Seq<NodeView>, h: Seq<NodeView>) -> bool {
    &&& g.len() == h.len()
    &&& forall|i: int|
        0 <= i < g.len() ==> (#[trigger] h[i]) == (NodeView {
            color: h[i].color,
            remaining: h[i].remaining,
            ..g[i]
        })
}

/// Every edge appears in the adjacency lists of both its ends.
pub open spec fn symmetric(g: Seq<NodeView>) -> bool {
    forall|i: int, k: int|
        0 <= i < g.len() && 0 <= k < g[i].neighbors.len() && g[i].neighbors[k] < g.len()
            ==> g[#[trigger] g[i].neighbors[k] as int].neighbors.contains(i as usize)
}

/// In a graph whose edges are listed at both ends, a colouring that is
/// valid downwards is valid along every edge between two distinct nodes.
pub proof fn lemma_downward_is_enough(g: Seq<NodeView>)
    requires
        symmetric(g),
        colored_downward(g, g.len() as int),
        forall|i: int, k: int|
            0 <= i < g.len() && 0 <= k < g[i].neighbors.len() ==> #[trigger] g[i].neighbors[k]
                != i,
    ensures
        edges_consistent(g, g.len() as int),
{
    assert forall|i: int, k: int|
        0 <= i < g.len() && 0 <= k < g[i].neighbors.len() && g[i].neighbors[k] < g.len() implies g[
    #[trigger] g[i].neighbors[k] as int].color != g[i].color by {
        let nb = g[i].neighbors[k] as int;
        if nb < i {
            assert(assign_valid(g, g[i], i));
        } else {
            assert(g[nb].neighbors.contains(i as usize));
            let m = choose|m: int| 0 <= m < g[nb].neighbors.len() && g[nb].neighbors[m] == i;
            assert(assign_valid(g, g[nb], nb));
            assert(g[g[nb].neighbors[m] as int].color != g[nb].color);
        }
    }
}

/// Every node still has every colour to try.
pub open spec fn palettes_full(g: Seq<NodeView>, from: int) -> bool {
    forall|i: int, c: Color| from <= i < g.len() ==> #[trigger] g[i].remaining.contains(c)
}

/// The assignment `a` gives every node a colour that differs from the
/// colours of its neighbours of lower index.
pub open spec fn proper_for(g: Seq<NodeView>, a: Seq<Color>) -> bool {
    &&& a.len() == g.len()
    &&& forall|i: int, k: int|
        0 <= i < g.len() && 0 <= k < g[i].neighbors.len() && g[i].neighbors[k] < i ==> a[
        #[trigger] g[i].neighbors[k] as int] != a[i]
}

/// The first `j` nodes have the colours that `a` gives them.
pub open spec fn agrees(g: Seq<NodeView>, a: Seq<Color>, j: int) -> bool {
    forall|i: int| 0 <= i < j ==> (#[trigger] g[i]).color == Some(a[i])
}

/// The search at node `index` can still reach the assignment `a`: up to
/// some node at or below `index` the colours are those of `a`, and that
/// node has the colour of `a` still to try, or, where `chosen` says that
/// node `index` has just taken a colour, has taken that of `a`.
pub open spec fn alive(g: Seq<NodeView>, a: Seq<Color>, index: int, chosen: bool) -> bool {
    exists|j: int|
        0 <= j <= index && j < g.len() && #[trigger] agrees(g, a, j) && (g[j].remaining.contains(
            a[j],
        ) || (chosen && j == index && g[j].color == Some(a[j])))
}

/// The search has not passed over any proper assignment.
pub open spec fn none_lost(g0: Seq<NodeView>, g: Seq<NodeView>, index: int, chosen: bool) -> bool {
    forall|a: Seq<Color>| #[trigger] proper_for(g0, a) ==> alive(g, a, index, chosen)
}

/// The palette holds every colour.
pub proof fn lemma_palette_full()
    ensures
        forall|c: Color| #[trigger] Color::palette().contains(c),
{
    let p = Color::palette();
    assert forall|c: Color| #[trigger] p.contains(c) by {
        match c {
            Color::Red => assert(p[0] == c),
            Color::Blue => assert(p[1] == c),
            Color::Green => assert(p[2] == c),
            Color::Yellow => assert(p[3] == c),
            Color::Black => assert(p[4] == c),
            Color::White => assert(p[5] == c),
            Color::Pink => assert(p[6] == c),
        }
    }
}

/// Changes at node `index` and above leave alone whether an assignment
/// can be reached through a node below `index`.
proof fn lemma_alive_below(
    g: Seq<NodeView>,
    h: Seq<NodeView>,
    a: Seq<Color>,
    index: int,
    j: int,
)
    requires
        g.len() == h.len(),
        0 <= j <= index < g.len(),
        forall|i: int| 0 <= i < index ==> #[trigger] h[i] == g[i],
        agrees(g, a, j),
    ensures
        agrees(h, a, j),
{
    assert forall|i: int| 0 <= i < j implies (#[trigger] h[i]).color == Some(a[i]) by {
        assert(g[i].color == Some(a[i]));
    }
}

/// An upper bound on the colours that node `i` can ever have left: what
/// it starts with, or the whole palette.
pub open spec fn cap(g: Seq<NodeView>, i: int) -> nat {
    if g[i].remaining.len() > Color::palette().len() {
        g[i].remaining.len()
    } else {
        Color::palette().len()
    }
}

/// An upper bound on the steps that the search can spend on the nodes
/// from `i` on before it falls back below `i`.
pub open spec fn subtree(g: Seq<NodeView>, i: int) -> nat
    decreases g.len() - i,
{
    if i < 0 || i >= g.len() {
        0
    } else {
        cap(g, i) * (1 + subtree(g, i + 1)) + 1
    }
}

/// An upper bound on the steps still to come when the nodes below `k`
/// have the colours to try that `h` gives them: each such colour may cost
/// a step and a whole subtree, and running out of them costs a step.
pub open spec fn pending(g: Seq<NodeView>, h: Seq<NodeView>, k: int) -> nat
    decreases k,
{
    if k <= 0 {
        0
    } else {
        pending(g, h, k - 1) + h[k - 1].remaining.len() * (1 + subtree(g, k)) + 1
    }
}

/// `pending` looks only at the nodes below `k`.
proof fn lemma_pending_frame(g: Seq<NodeView>, h1: Seq<NodeView>, h2: Seq<NodeView>, k: int)
    requires
        forall|i: int| 0 <= i < k ==> (#[trigger] h1[i]).remaining.len() == h2[i].remaining.len(),
    ensures
        pending(g, h1, k) == pending(g, h2, k),
    decreases k,
{
    if k > 0 {
        lemma_pending_frame(g, h1, h2, k - 1);
    }
}

/// A step forward costs at least one unit of what is pending.
proof fn lemma_forward(g: Seq<NodeView>, h1: Seq<NodeView>, h2: Seq<NodeView>, index: int)
    requires
        0 <= index < g.len(),
        h1.len() == g.len(),
        h2.len() == g.len(),
        forall|i: int| 0 <= i < index ==> (#[trigger] h1[i]).remaining.len() == h2[i].remaining.len(),
        h2[index].remaining.len() < h1[index].remaining.len(),
        index + 1 < g.len() ==> h2[index + 1].remaining.len() <= cap(g, index + 1),
    ensures
        pending(g, h2, if index + 2 <= g.len() {
            index + 2
        } else {
            index + 1
        }) < pending(g, h1, index + 1),
{
    lemma_pending_frame(g, h1, h2, index);
    let unit = 1 + subtree(g, index + 1);
    let r1 = h1[index].remaining.len();
    let r2 = h2[index].remaining.len();
    assert(r2 * unit + unit <= r1 * unit) by (nonlinear_arith)
        requires
            r2 < r1,
            unit >= 0,
    ;
    if index + 1 < g.len() {
        let r = h2[index + 1].remaining.len();
        let inner = 1 + subtree(g, index + 2);
        assert(r * inner <= cap(g, index + 1) * inner) by (nonlinear_arith)
            requires
                r <= cap(g, index + 1),
                inner >= 0,
        ;
        assert(subtree(g, index + 1) == cap(g, index + 1) * inner + 1);
        assert(pending(g, h2, index + 2) == pending(g, h2, index + 1) + r * inner + 1);
    }
}

/// Searches for a colouring, node by node: each node takes the last
/// colour of those it has left that differs from the colours of its lower
/// neighbours; a node without such a colour gets the whole palette back
/// and the search returns to the node before it.
///
/// `true` says that every node has a colour that differs from those of
/// its lower neighbours. `false` says that node 0 has run out of colours;
/// where every node had every colour to try, no assignment of colours
/// to the nodes is proper then.
pub fn exhaustive_search(graph: &mut Vec<Node>) -> (found: bool)
    ensures
        same_structure(graph_view(old(graph)@), graph_view(final(graph)@)),
        found ==> colored_downward(graph_view(final(graph)@), final(graph).len() as int),
        !found ==> final(graph).len() > 0 && final(graph)[0].remaining.len() == 0,
        !found && palettes_full(graph_view(old(graph)@), 0) ==> forall|a: Seq<Color>|
            !#[trigger] proper_for(graph_view(old(graph)@), a),
{
    let ghost g0 = graph_view(graph@);
    let ghost full = palettes_full(g0, 0);
    let n = graph.len();
    let mut index: usize = 0;
    proof {
        if full && n > 0 {
            assert forall|a: Seq<Color>| #[trigger] proper_for(g0, a) implies alive(
                g0,
                a,
                0,
                false,
            ) by {
                assert(agrees(g0, a, 0));
                assert(g0[0].remaining.contains(a[0]));
            }
        }
    }
    while index < n
        invariant
            index <= n,
            n == graph.len(),
            g0 == graph_view(old(graph)@),
            full == palettes_full(g0, 0),
            same_structure(g0, graph_view(graph@)),
            colored_downward(graph_view(graph@), index as int),
            forall|i: int| 0 <= i < n ==> (#[trigger] graph[i]).remaining.len() <= cap(g0, i),
            full ==> palettes_full(graph_view(graph@), index + 1),
            full && index < n ==> none_lost(g0, graph_view(graph@), index as int, false),
        decreases
                pending(
                    g0,
                    graph_view(graph@),
                    if index + 1 <= n {
                        index + 1
                    } else {
                        index as int
                    },
                ),
    {
        let ghost at_start = graph_view(graph@);
        assert forall|i: int| 0 <= i < n implies (#[trigger] at_start[i]).remaining.len() <= cap(
            g0,
            i,
        ) by {
            assert(graph[i].remaining.len() <= cap(g0, i));
        }
        let mut has_match = false;
        while graph[index].remaining.len() > 0
            invariant_except_break
                !has_match,
                full ==> none_lost(g0, graph_view(graph@), index as int, false),
            invariant
                index < n,
                n == graph.len(),
                g0.len() == n,
                at_start.len() == n,
                same_structure(g0, graph_view(graph@)),
                colored_downward(graph_view(graph@), index as int),
                graph[index as int].remaining.len() <= at_start[index as int].remaining.len(),
                forall|i: int|
                    0 <= i < n && i != index ==> (#[trigger] graph_view(graph@)[i]) == at_start[i],
            ensures
                index < n,
                n == graph.len(),
                full ==> none_lost(g0, graph_view(graph@), index as int, has_match),
                same_structure(g0, graph_view(graph@)),
                colored_downward(graph_view(graph@), index as int),
                graph[index as int].remaining.len() <= at_start[index as int].remaining.len(),
                forall|i: int|
                    0 <= i < n && i != index ==> (#[trigger] graph_view(graph@)[i]) == at_start[i],
                has_match ==> graph[index as int].remaining.len()
                    < at_start[index as int].remaining.len() && colored_downward(
                    graph_view(graph@),
                    index + 1,
                ),
                !has_match ==> graph[index as int].remaining.len() == 0,
            decreases graph[index as int].remaining.len(),
        {
            let ghost before = graph_view(graph@);
            let select = match graph[index].remaining.pop() {
                Some(color) => color,
                None => {
                    break;
                },
            };
            graph[index].assign_color(select);
            proof {
                let after = graph_view(graph@);
                assert forall|i: int| 0 <= i < n && i != index implies #[trigger] after[i]
                    == before[i] by {
                    assert(graph[i] == graph[i]);
                }
                assert(same_structure(g0, after)) by {
                    assert forall|i: int| 0 <= i < n implies (#[trigger] after[i]) == (NodeView {
                        color: after[i].color,
                        remaining: after[i].remaining,
                        ..g0[i]
                    }) by {
                        assert(before[i] == (NodeView {
                            color: before[i].color,
                            remaining: before[i].remaining,
                            ..g0[i]
                        }));
                    }
                }
                assert forall|i: int| 0 <= i < index implies (#[trigger] after[i]).color is Some
                    && assign_valid(after, after[i], i) by {
                    assert(after[i] == before[i]);
                    assert(assign_valid(before, before[i], i));
                    assert forall|k: int|
                        0 <= k < after[i].neighbors.len() && after[i].neighbors[k]
                            < i implies after[#[trigger] after[i].neighbors[k] as int].color
                        != after[i].color by {
                        assert(before[before[i].neighbors[k] as int].color != before[i].color);
                    }
                }
            }
            proof {
                let after = graph_view(graph@);
                if full {
                    assert forall|a: Seq<Color>| #[trigger] proper_for(g0, a) implies alive(
                        after,
                        a,
                        index as int,
                        true,
                    ) by {
                        assert(alive(before, a, index as int, false));
                        let j = choose|j: int|
                            0 <= j <= index && j < before.len() && #[trigger] agrees(before, a, j)
                                && before[j].remaining.contains(a[j]);
                        lemma_alive_below(before, after, a, index as int, j);
                        if j < index {
                            assert(after[j] == before[j]);
                        } else if a[j] != select {
                            let m = choose|m: int|
                                0 <= m < before[j].remaining.len() && before[j].remaining[m]
                                    == a[j];
                            assert(after[j].remaining[m] == a[j]);
                        }
                    }
                }
            }
            if new_assign_valid(graph, &graph[index], index) {
                has_match = true;
                break;
            }
            proof {
                let after = graph_view(graph@);
                if full {
                    assert forall|a: Seq<Color>| #[trigger] proper_for(g0, a) implies alive(
                        after,
                        a,
                        index as int,
                        false,
                    ) by {
                        assert(alive(after, a, index as int, true));
                        let j = choose|j: int|
                            0 <= j <= index && j < after.len() && #[trigger] agrees(after, a, j)
                                && (after[j].remaining.contains(a[j]) || (j == index
                                && after[j].color == Some(a[j])));
                        if !after[j].remaining.contains(a[j]) {
                            // the colour just tried is the one that `a` gives
                            assert forall|k: int|
                                0 <= k < after[j].neighbors.len() && after[j].neighbors[k]
                                    < index implies after[#[trigger] after[j].neighbors[k] as int].color
                                != after[j].color by {
                                let nb = after[j].neighbors[k] as int;
                                assert(after[nb].color == Some(a[nb]));
                                assert(g0[j].neighbors == after[j].neighbors);
                                assert(a[g0[j].neighbors[k] as int] != a[j]);
                            }
                            assert(assign_valid(after, after[j], index as int));
                        }
                    }
                }
            }
        }
        if has_match == false {
            if index > 0 {
                let ghost before = graph_view(graph@);
                graph[index].remaining = Color::vector_of_colors();
                proof {
                    let after = graph_view(graph@);
                    assert forall|i: int| 0 <= i < n && i != index implies #[trigger] after[i]
                        == before[i] by {
                        assert(graph[i] == graph[i]);
                    }
                    assert(same_structure(g0, after)) by {
                        assert forall|i: int| 0 <= i < n implies (#[trigger] after[i]) == (NodeView {
                            color: after[i].color,
                            remaining: after[i].remaining,
                            ..g0[i]
                        }) by {
                            assert(before[i] == (NodeView {
                                color: before[i].color,
                                remaining: before[i].remaining,
                                ..g0[i]
                            }));
                        }
                    }
                    assert forall|i: int| 0 <= i < index implies (#[trigger] at_start[i]).remaining.len()
                        == after[i].remaining.len() by {
                        assert(after[i] == before[i]);
                        assert(before[i] == at_start[i]);
                    }
                    assert forall|i: int| 0 <= i < index - 1 implies (#[trigger] after[i]).color is Some
                        && assign_valid(after, after[i], i) by {
                        assert(after[i] == before[i]);
                        assert(assign_valid(before, before[i], i));
                        assert forall|k: int|
                            0 <= k < after[i].neighbors.len() && after[i].neighbors[k]
                                < i implies after[#[trigger] after[i].neighbors[k] as int].color
                            != after[i].color by {
                            assert(before[before[i].neighbors[k] as int].color != before[i].color);
                        }
                    }
                    lemma_pending_frame(g0, at_start, after, index as int);
                    assert forall|i: int| 0 <= i < n implies (#[trigger] graph[i]).remaining.len()
                        <= cap(g0, i) by {
                        if i != index {
                            assert(after[i] == before[i]);
                            assert(before[i] == at_start[i]);
                        }
                    }
                    if full {
                        lemma_palette_full();
                        assert forall|i: int, c: Color| index <= i < n implies #[trigger] after[i].remaining.contains(
                            c,
                        ) by {
                            if i != index {
                                assert(after[i] == before[i]);
                                assert(before[i].remaining.contains(c));
                            } else {
                                assert(Color::palette().contains(c));
                            }
                        }
                        assert forall|a: Seq<Color>| #[trigger] proper_for(g0, a) implies alive(
                            after,
                            a,
                            index - 1,
                            false,
                        ) by {
                            assert(alive(before, a, index as int, false));
                            let j = choose|j: int|
                                0 <= j <= index && j < before.len() && #[trigger] agrees(
                                    before,
                                    a,
                                    j,
                                ) && before[j].remaining.contains(a[j]);
                            assert(j < index);
                            lemma_alive_below(before, after, a, index as int, j);
                            assert(after[j] == before[j]);
                        }
                    }
                }
                index = index - 1;
            } else {
                proof {
                    let last = graph_view(graph@);
                    if full {
                        assert forall|a: Seq<Color>| !#[trigger] proper_for(g0, a) by {
                            if proper_for(g0, a) {
                                assert(alive(last, a, 0, false));
                            }
                        }
                    }
                }
                return false;
            }
        } else {
            proof {
                let after = graph_view(graph@);
                assert forall|i: int| 0 <= i < index implies (#[trigger] at_start[i]).remaining.len()
                    == after[i].remaining.len() by {
                    assert(after[i] == at_start[i]);
                }
                if index + 1 < n {
                    assert(after[index + 1] == at_start[index + 1]);
                    assert(graph[index + 1].remaining.len() <= cap(g0, index + 1));
                }
                lemma_forward(g0, at_start, after, index as int);
                assert forall|i: int| 0 <= i < n implies (#[trigger] graph[i]).remaining.len()
                    <= cap(g0, i) by {
                    if i != index {
                        assert(after[i] == at_start[i]);
                    }
                }
                if full {
                    assert forall|i: int, c: Color| index + 1 <= i < n implies #[trigger] after[i].remaining.contains(
                        c,
                    ) by {
                        assert(after[i] == at_start[i]);
                        assert(at_start[i].remaining.contains(c));
                    }
                    if index + 1 < n {
                        assert forall|a: Seq<Color>| #[trigger] proper_for(g0, a) implies alive(
                            after,
                            a,
                            index + 1,
                            false,
                        ) by {
                            assert(alive(after, a, index as int, true));
                            let j = choose|j: int|
                                0 <= j <= index && j < after.len() && #[trigger] agrees(
                                    after,
                                    a,
                                    j,
                                ) && (after[j].remaining.contains(a[j]) || (j == index
                                    && after[j].color == Some(a[j])));
                            if !after[j].remaining.contains(a[j]) {
                                assert(agrees(after, a, index + 1));
                                assert(after[index + 1].remaining.contains(a[index + 1]));
                            }
                        }
                    }
                }
            }
            index = index + 1;
        }
    }
    true
}

} // verus!
