//! Graph colouring on a shared graph: nodes with their views and nogoods,
//! the consistency checks, and the search for a free colour.

use vstd::prelude::*;
use crate::seven_coloring::Color;

verus! {

/// How one pass over the nodes ended.
#[derive(PartialEq, Eq, Structural, Clone, Copy, Debug)]
pub enum State {
    /// A node found no colour and has nobody left to blame.
    NoSol,
    /// Every node kept its colour.
    NoChange,
    /// Some node changed its colour or had to backtrack.
    HasChange,
}

/// What a node believes of a lower neighbour: its name and its colour.
pub type NodeState = (usize, Color);

/// One vertex of the graph, with the solver's bookkeeping for it.
pub struct Node {
    pub name: usize,
    pub color: Option<Color>,
    pub neighbors: Vec<usize>,
    /// Colours still to be tried, in the order in which they are offered.
    pub remaining: Vec<Color>,
    /// Colours that the node believes its lower neighbours hold.
    pub agent_view: Vec<NodeState>,
    /// Colours that higher nodes have ruled out for this node.
    pub no_good: Vec<Color>,
    /// Set once another node has touched this node's state.
    pub modified: bool,
}

/// A node as a mathematical value.
pub struct NodeView {
    pub name: usize,
    pub color: Option<Color>,
    pub neighbors: Seq<usize>,
    pub remaining: Seq<Color>,
    pub agent_view: Seq<NodeState>,
    pub no_good: Seq<Color>,
    pub modified: bool,
}

impl View for Node {
    type V = NodeView;

    open spec fn view(&self) -> NodeView {
        NodeView {
            name: self.name,
            color: self.color,
            neighbors: self.neighbors@,
            remaining: self.remaining@,
            agent_view: self.agent_view@,
            no_good: self.no_good@,
            modified: self.modified,
        }
    }
}

/// A graph as the sequence of its nodes' values.
pub open spec fn graph_view(g: Seq<Node>) -> Seq<NodeView> {
    Seq::new(g.len(), |i: int| g[i]@)
}

/// A node that was just created: no colour, no neighbours, the whole
/// palette to try, and nothing learned yet.
pub open spec fn fresh_node(name: usize) -> NodeView {
    NodeView {
        name,
        color: None,
        neighbors: Seq::empty(),
        remaining: Color::palette(),
        agent_view: Seq::empty(),
        no_good: Seq::empty(),
        modified: false,
    }
}

impl Node {
    pub fn new(name: usize) -> (node: Node)
        ensures
            node@ == fresh_node(name),
    {
        Node {
            name,
            color: None,
            neighbors: Vec::new(),
            remaining: Color::vector_of_colors(),
            agent_view: Vec::new(),
            no_good: Vec::new(),
            modified: false,
        }
    }

    /// Appends `neighbor` to the adjacency list.
    pub fn add_neighbor(&mut self, neighbor: usize)
        ensures
            final(self)@ == (NodeView { neighbors: old(self)@.neighbors.push(neighbor), ..old(self)@ }),
    {
        self.neighbors.push(neighbor);
    }

    /// Gives the node the colour `color`.
    pub fn assign_color(&mut self, color: Color)
        ensures
            final(self)@ == (NodeView { color: Some(color), ..old(self)@ }),
    {
        self.color = Some(color);
    }
}

/// Equality of two optional colours.
fn same_color(a: Option<Color>, b: Option<Color>) -> (eq: bool)
    ensures
        eq == (a == b),
{
    match (a, b) {
        (None, None) => true,
        (Some(x), Some(y)) => x == y,
        _ => false,
    }
}

/// No edge that lies within the first `bound` nodes joins two nodes of
/// equal colour, and none joins two uncoloured nodes. Edges that lead out
/// of that range are ignored.
pub open spec fn edges_consistent(g: Seq<NodeView>, bound: int) -> bool {
    forall|i: int, k: int|
        0 <= i < bound && 0 <= k < g[i].neighbors.len() && g[i].neighbors[k] < bound
            ==> g[#[trigger] g[i].neighbors[k] as int].color != g[i].color
}

/// The colour of `cur` differs from that of each of its neighbours among
/// the first `bound` nodes of `g`.
pub open spec fn assign_valid(g: Seq<NodeView>, cur: NodeView, bound: int) -> bool {
    forall|k: int|
        0 <= k < cur.neighbors.len() && cur.neighbors[k] < bound
            ==> g[#[trigger] cur.neighbors[k] as int].color != cur.color
}

/// Checks the colouring of the whole graph.
pub fn all_consistent(graph: &Vec<Node>) -> (ok: bool)
    ensures
        ok == edges_consistent(graph_view(graph@), graph.len() as int),
{
    let n = graph.len();
    let mut i: usize = 0;
    while i < n
        invariant
            n == graph.len(),
            i <= n,
            forall|a: int, k: int|
                0 <= a < i && 0 <= k < graph[a].neighbors.len() && graph[a].neighbors[k] < n
                    ==> graph[#[trigger] graph[a].neighbors[k] as int].color != graph[a].color,
        decreases n - i,
    {
        let node = &graph[i];
        let mut k: usize = 0;
        while k < node.neighbors.len()
            invariant
                n == graph.len(),
                i < n,
                node == graph[i as int],
                k <= node.neighbors.len(),
                forall|j: int|
                    0 <= j < k && node.neighbors[j] < n
                        ==> graph[#[trigger] node.neighbors[j] as int].color != node.color,
            decreases node.neighbors.len() - k,
        {
            let nb = node.neighbors[k];
            if nb < n {
                if same_color(graph[nb].color, node.color) {
                    assert(graph_view(graph@)[i as int].neighbors[k as int] == nb);
                    assert(!edges_consistent(graph_view(graph@), n as int));
                    return false;
                }
            }
            k += 1;
        }
        i += 1;
    }
    assert(edges_consistent(graph_view(graph@), n as int)) by {
        assert forall|a: int, k: int|
            0 <= a < n && 0 <= k < graph_view(graph@)[a].neighbors.len() && graph_view(
                graph@,
            )[a].neighbors[k] < n implies graph_view(graph@)[#[trigger] graph_view(
            graph@,
        )[a].neighbors[k] as int].color != graph_view(graph@)[a].color by {
            assert(graph[graph[a].neighbors[k] as int].color != graph[a].color);
        }
    }
    true
}

/// Checks the colour of `cur` against its neighbours among the first
/// `bound` nodes.
pub fn new_assign_valid(graph: &Vec<Node>, cur: &Node, bound: usize) -> (ok: bool)
    requires
        bound <= graph.len(),
    ensures
        ok == assign_valid(graph_view(graph@), cur@, bound as int),
{
    let mut k: usize = 0;
    while k < cur.neighbors.len()
        invariant
            bound <= graph.len(),
            k <= cur.neighbors.len(),
            forall|j: int|
                0 <= j < k && cur.neighbors[j] < bound
                    ==> graph[#[trigger] cur.neighbors[j] as int].color != cur.color,
        decreases cur.neighbors.len() - k,
    {
        let nb = cur.neighbors[k];
        if nb < bound {
            if same_color(graph[nb].color, cur.color) {
                assert(cur@.neighbors[k as int] == nb);
                assert(graph_view(graph@)[nb as int].color == cur@.color);
                return false;
            }
        }
        k += 1;
    }
    assert(assign_valid(graph_view(graph@), cur@, bound as int)) by {
        assert forall|j: int|
            0 <= j < cur@.neighbors.len() && cur@.neighbors[j] < bound implies graph_view(
            graph@,
        )[#[trigger] cur@.neighbors[j] as int].color != cur@.color by {
            assert(graph[cur.neighbors[j] as int].color != cur.color);
        }
    }
    true
}

/// No nogood and no entry of the view excludes the colour `c` for `n`.
pub open spec fn color_free(n: NodeView, c: Color) -> bool {
    &&& !n.no_good.contains(c)
    &&& forall|k: int| 0 <= k < n.agent_view.len() ==> (#[trigger] n.agent_view[k]).1 != c
}

/// The first colour `n` may still take among `n.remaining[from..]`.
pub open spec fn first_free(n: NodeView, from: int) -> Option<Color>
    decreases n.remaining.len() - from,
{
    if from < 0 || from >= n.remaining.len() {
        None
    } else if color_free(n, n.remaining[from]) {
        Some(n.remaining[from])
    } else {
        first_free(n, from + 1)
    }
}

/// The colour a node settles on: its own while that is free, else the
/// first free colour of `remaining`, else none.
pub open spec fn spec_update_color(n: NodeView) -> Option<Color> {
    if n.color is Some && color_free(n, n.color->0) {
        n.color
    } else {
        first_free(n, 0)
    }
}

/// What `first_free` finds is free and stands in `remaining`, with only
/// excluded colours before it; where it finds nothing, every colour of
/// `remaining[from..]` is excluded.
pub proof fn lemma_first_free(n: NodeView, from: int)
    requires
        0 <= from,
    ensures
        match first_free(n, from) {
            Some(c) => color_free(n, c) && exists|k: int|
                from <= k < n.remaining.len() && #[trigger] n.remaining[k] == c && forall|j: int|
                    from <= j < k ==> !color_free(n, #[trigger] n.remaining[j]),
            None => forall|j: int|
                from <= j < n.remaining.len() ==> !color_free(n, #[trigger] n.remaining[j]),
        },
    decreases n.remaining.len() - from,
{
    if from < n.remaining.len() && !color_free(n, n.remaining[from]) {
        lemma_first_free(n, from + 1);
        match first_free(n, from + 1) {
            Some(c) => {
                let k = choose|k: int|
                    from + 1 <= k < n.remaining.len() && #[trigger] n.remaining[k] == c && forall|
                        j: int,
                    |
                        from + 1 <= j < k ==> !color_free(n, #[trigger] n.remaining[j]);
                assert(from <= k < n.remaining.len() && n.remaining[k] == c);
            },
            None => {},
        }
    } else if from < n.remaining.len() {
        assert(n.remaining[from] == n.remaining[from]);
    }
}

/// Whatever colour `spec_update_color` returns is free.
pub proof fn lemma_update_color_free(n: NodeView)
    ensures
        spec_update_color(n) is Some ==> color_free(n, spec_update_color(n)->0),
{
    lemma_first_free(n, 0);
}

/// Decides whether `c` is free for `node`.
fn is_free(node: &Node, c: Color) -> (free: bool)
    ensures
        free == color_free(node@, c),
{
    let mut k: usize = 0;
    while k < node.no_good.len()
        invariant
            k <= node.no_good.len(),
            forall|j: int| 0 <= j < k ==> node.no_good[j] != c,
        decreases node.no_good.len() - k,
    {
        if node.no_good[k] == c {
            assert(node@.no_good[k as int] == c);
            return false;
        }
        k += 1;
    }
    let mut k: usize = 0;
    while k < node.agent_view.len()
        invariant
            k <= node.agent_view.len(),
            !node@.no_good.contains(c),
            forall|j: int| 0 <= j < k ==> (#[trigger] node.agent_view[j]).1 != c,
        decreases node.agent_view.len() - k,
    {
        if node.agent_view[k].1 == c {
            assert(node@.agent_view[k as int].1 == c);
            return false;
        }
        k += 1;
    }
    true
}

/// Chooses the colour of `node` from its view and its nogoods: the one it
/// has while that is still free, else the first free one of `remaining`.
pub fn update_color(node: &Node) -> (next: Option<Color>)
    ensures
        next == spec_update_color(node@),
{
    match node.color {
        Some(c) => {
            if is_free(node, c) {
                return node.color;
            }
        },
        None => {},
    }
    let mut k: usize = 0;
    while k < node.remaining.len()
        invariant
            k <= node.remaining.len(),
            spec_update_color(node@) == first_free(node@, k as int),
        decreases node.remaining.len() - k,
    {
        let c = node.remaining[k];
        if is_free(node, c) {
            return Some(c);
        }
        k += 1;
    }
    None
}

/// The colour a node takes when its turn comes: a coloured node that
/// nobody has touched keeps its colour, any other chooses anew.
pub open spec fn spec_next_color(n: NodeView) -> Option<Color> {
    if n.color is Some && !n.modified {
        n.color
    } else {
        spec_update_color(n)
    }
}

/// The colour that node `node_index` has and the one it takes next. The
/// graph is left as it was.
pub fn get_last_and_next_color(graph: &mut Vec<Node>, node_index: usize) -> (colors: (
    Option<Color>,
    Option<Color>,
))
    requires
        node_index < old(graph).len(),
    ensures
        *final(graph) == *old(graph),
        colors.0 == old(graph)[node_index as int].color,
        colors.1 == spec_next_color(old(graph)[node_index as int]@),
{
    let last_color = graph[node_index].color;
    let next_color = match last_color {
        None => update_color(&graph[node_index]),
        Some(_) => {
            if graph[node_index].modified {
                update_color(&graph[node_index])
            } else {
                last_color
            }
        },
    };
    (last_color, next_color)
}

/// The colour that `abt_alg` gives to a node of the given name.
pub open spec fn fixed_color(name: usize) -> Color {
    if name == 0 {
        Color::Red
    } else if name == 1 {
        Color::Blue
    } else {
        Color::Green
    }
}

/// Colours a node by its name alone: red for node 0, blue for node 1,
/// green for every other.
pub fn abt_alg(node: &mut Node)
    ensures
        final(node)@ == (NodeView { color: Some(fixed_color(old(node).name)), ..old(node)@ }),
{
    if node.name == 0 {
        node.assign_color(Color::Red);
    } else if node.name == 1 {
        node.assign_color(Color::Blue);
    } else {
        node.assign_color(Color::Green);
    }
}

} // verus!
