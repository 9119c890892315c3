use abt::graph::{
    abt_alg, all_consistent, get_last_and_next_color, new_assign_valid, update_color, Node, State,
};
use abt::graph_abt::{abt_bounded, abt_round, abt_sequential, abt_step};
use abt::graph_search::exhaustive_search;
use abt::seven_coloring::Color;

fn node_with(name: usize, colors: Vec<Color>) -> Node {
    let mut node = Node::new(name);
    node.remaining = colors;
    node
}

fn triangle(colors: Vec<Color>) -> Vec<Node> {
    let mut graph = vec![
        node_with(0, colors.clone()),
        node_with(1, colors.clone()),
        node_with(2, colors),
    ];
    graph[0].add_neighbor(1);
    graph[0].add_neighbor(2);
    graph[1].add_neighbor(2);
    graph[1].add_neighbor(0);
    graph[2].add_neighbor(0);
    graph[2].add_neighbor(1);
    graph
}

fn clique(num_nodes: usize) -> Vec<Node> {
    let mut graph = Vec::new();
    for i in 0..num_nodes {
        graph.push(Node::new(i));
    }
    for node_index in 0..num_nodes {
        for neighbor_index in 0..num_nodes {
            if node_index != neighbor_index {
                graph[node_index].add_neighbor(neighbor_index);
            }
        }
    }
    graph
}

fn colors(graph: &Vec<Node>) -> Vec<Option<Color>> {
    graph.iter().map(|n| n.color).collect()
}

#[test]
fn palettes() {
    assert_eq!(abt::three_coloring::Color::num_colors(), 3);
    assert_eq!(
        abt::three_coloring::Color::vector_of_colors(),
        vec![
            abt::three_coloring::Color::Red,
            abt::three_coloring::Color::Blue,
            abt::three_coloring::Color::Green
        ]
    );
    assert_eq!(abt::four_coloring::Color::num_colors(), 4);
    assert_eq!(
        abt::four_coloring::Color::vector_of_colors(),
        vec![
            abt::four_coloring::Color::Red,
            abt::four_coloring::Color::Blue,
            abt::four_coloring::Color::Green,
            abt::four_coloring::Color::Yellow
        ]
    );
    assert_eq!(Color::num_colors(), 7);
    assert_eq!(
        Color::vector_of_colors(),
        vec![
            Color::Red,
            Color::Blue,
            Color::Green,
            Color::Yellow,
            Color::Black,
            Color::White,
            Color::Pink
        ]
    );
}

#[test]
fn new_node_is_blank() {
    let node = Node::new(4);
    assert_eq!(node.name, 4);
    assert_eq!(node.color, None);
    assert!(node.neighbors.is_empty());
    assert_eq!(node.remaining, Color::vector_of_colors());
    assert!(node.agent_view.is_empty());
    assert!(node.no_good.is_empty());
    assert!(!node.modified);
}

#[test]
fn neighbors_and_colors_are_recorded() {
    let mut node = Node::new(0);
    node.add_neighbor(3);
    node.add_neighbor(1);
    assert_eq!(node.neighbors, vec![3, 1]);
    node.assign_color(Color::White);
    assert_eq!(node.color, Some(Color::White));
    assert_eq!(node.neighbors, vec![3, 1]);
}

#[test]
fn abt_alg_colors_by_name() {
    let mut picked = Vec::new();
    for name in 0..4 {
        let mut node = Node::new(name);
        abt_alg(&mut node);
        picked.push(node.color);
    }
    assert_eq!(
        picked,
        vec![Some(Color::Red), Some(Color::Blue), Some(Color::Green), Some(Color::Green)]
    );
}

#[test]
fn all_consistent_compares_neighbors() {
    let mut graph = triangle(Color::vector_of_colors());
    // nodes without a colour count as equal
    assert!(!all_consistent(&graph));
    graph[0].assign_color(Color::Red);
    graph[1].assign_color(Color::Blue);
    graph[2].assign_color(Color::Green);
    assert!(all_consistent(&graph));
    graph[2].assign_color(Color::Red);
    assert!(!all_consistent(&graph));
    assert!(all_consistent(&Vec::new()));
}

#[test]
fn all_consistent_ignores_edges_out_of_the_graph() {
    let mut graph = vec![Node::new(0)];
    graph[0].add_neighbor(5);
    graph[0].assign_color(Color::Red);
    assert!(all_consistent(&graph));
}

#[test]
fn new_assign_valid_looks_below_the_bound() {
    let mut graph = triangle(Color::vector_of_colors());
    graph[0].assign_color(Color::Red);
    graph[1].assign_color(Color::Red);
    graph[2].assign_color(Color::Blue);
    let mut cur = Node::new(2);
    cur.add_neighbor(0);
    cur.add_neighbor(1);
    cur.assign_color(Color::Red);
    assert!(new_assign_valid(&graph, &cur, 0));
    assert!(!new_assign_valid(&graph, &cur, 1));
    cur.assign_color(Color::Blue);
    assert!(new_assign_valid(&graph, &cur, 2));
    assert!(new_assign_valid(&graph, &graph[1], 0));
    assert!(!new_assign_valid(&graph, &graph[1], 1));
    assert!(new_assign_valid(&graph, &graph[2], 3));
}

#[test]
fn update_color_keeps_a_free_color() {
    let mut node = Node::new(1);
    node.assign_color(Color::Green);
    node.agent_view.push((0, Color::Red));
    node.no_good.push(Color::Blue);
    assert_eq!(update_color(&node), Some(Color::Green));
}

#[test]
fn update_color_takes_first_free_color() {
    let mut node = Node::new(2);
    node.agent_view.push((0, Color::Red));
    node.agent_view.push((1, Color::Green));
    node.no_good.push(Color::Blue);
    assert_eq!(update_color(&node), Some(Color::Yellow));
    node.assign_color(Color::Red);
    assert_eq!(update_color(&node), Some(Color::Yellow));
    node.assign_color(Color::Blue);
    assert_eq!(update_color(&node), Some(Color::Yellow));
}

#[test]
fn update_color_finds_nothing_when_all_are_excluded() {
    let mut node = node_with(1, vec![Color::Red, Color::Blue]);
    node.agent_view.push((0, Color::Red));
    node.no_good.push(Color::Blue);
    assert_eq!(update_color(&node), None);
    let empty = node_with(0, Vec::new());
    assert_eq!(update_color(&empty), None);
}

#[test]
fn untouched_colored_node_keeps_its_color() {
    let mut graph = vec![Node::new(0), Node::new(1)];
    graph[1].assign_color(Color::Red);
    graph[1].agent_view.push((0, Color::Red));
    assert_eq!(get_last_and_next_color(&mut graph, 1), (Some(Color::Red), Some(Color::Red)));
    graph[1].modified = true;
    assert_eq!(get_last_and_next_color(&mut graph, 1), (Some(Color::Red), Some(Color::Blue)));
    assert_eq!(get_last_and_next_color(&mut graph, 0), (None, Some(Color::Red)));
    assert_eq!(graph[1].color, Some(Color::Red));
}

#[test]
fn first_turn_announces_to_higher_neighbors() {
    let mut graph = triangle(Color::vector_of_colors());
    assert_eq!(abt_step(&mut graph, 1), State::HasChange);
    assert_eq!(graph[1].color, Some(Color::Red));
    assert!(graph[1].modified);
    assert_eq!(graph[2].agent_view, vec![(1, Color::Red)]);
    assert!(graph[2].modified);
    assert!(graph[0].agent_view.is_empty());
    assert!(!graph[0].modified);
}

#[test]
fn unchanged_turn_refreshes_the_view() {
    let mut graph = triangle(Color::vector_of_colors());
    graph[0].assign_color(Color::Blue);
    graph[2].agent_view.push((1, Color::Green));
    graph[2].agent_view.push((0, Color::Red));
    assert_eq!(abt_step(&mut graph, 0), State::NoChange);
    assert_eq!(graph[1].agent_view, vec![(0, Color::Blue)]);
    assert_eq!(graph[2].agent_view, vec![(1, Color::Green), (0, Color::Blue)]);
}

#[test]
fn changed_color_is_not_announced_at_once() {
    let mut graph = triangle(Color::vector_of_colors());
    graph[1].assign_color(Color::Red);
    graph[1].modified = true;
    graph[1].agent_view.push((0, Color::Red));
    assert_eq!(abt_step(&mut graph, 1), State::HasChange);
    assert_eq!(graph[1].color, Some(Color::Blue));
    assert!(graph[2].agent_view.is_empty());
    assert_eq!(abt_step(&mut graph, 1), State::NoChange);
    assert_eq!(graph[2].agent_view, vec![(1, Color::Blue)]);
}

#[test]
fn node_without_color_blames_the_highest_of_its_view() {
    let mut graph = vec![
        Node::new(0),
        Node::new(1),
        node_with(2, vec![Color::Red, Color::Blue]),
    ];
    graph[2].agent_view.push((1, Color::Blue));
    graph[2].agent_view.push((0, Color::Red));
    assert_eq!(abt_step(&mut graph, 2), State::HasChange);
    assert_eq!(graph[2].color, None);
    assert_eq!(graph[1].no_good, vec![Color::Blue]);
    assert!(graph[1].modified);
    assert!(graph[0].no_good.is_empty());
    assert_eq!(graph[2].agent_view, vec![(0, Color::Red)]);
    assert!(graph[2].modified);
}

#[test]
fn blame_takes_the_last_of_equal_names() {
    let mut graph = vec![Node::new(0), node_with(1, Vec::new())];
    graph[1].agent_view.push((0, Color::Red));
    graph[1].agent_view.push((0, Color::Blue));
    assert_eq!(abt_step(&mut graph, 1), State::HasChange);
    assert_eq!(graph[0].no_good, vec![Color::Blue]);
    assert_eq!(graph[1].agent_view, vec![(0, Color::Red)]);
}

#[test]
fn node_without_color_and_view_gives_up() {
    let mut graph = vec![node_with(0, Vec::new()), Node::new(1)];
    assert_eq!(abt_step(&mut graph, 0), State::NoSol);
    assert!(graph[0].modified);
    assert_eq!(abt_round(&mut graph), State::NoSol);
    // the pass stopped at node 0
    assert_eq!(graph[1].color, None);
    assert_eq!(abt_bounded(&mut graph, 5), State::NoSol);
    assert!(!abt_sequential(&mut graph));
}

#[test]
fn rounds_settle_a_path() {
    let mut graph = vec![Node::new(0), Node::new(1), Node::new(2)];
    graph[0].add_neighbor(1);
    graph[1].add_neighbor(0);
    graph[1].add_neighbor(2);
    graph[2].add_neighbor(1);
    assert_eq!(abt_round(&mut graph), State::HasChange);
    assert_eq!(colors(&graph), vec![Some(Color::Red), Some(Color::Blue), Some(Color::Red)]);
    assert_eq!(abt_round(&mut graph), State::NoChange);
    assert_eq!(colors(&graph), vec![Some(Color::Red), Some(Color::Blue), Some(Color::Red)]);
    assert!(all_consistent(&graph));
}

#[test]
fn bounded_run_reports_rounds_running_out() {
    let mut graph = triangle(Color::vector_of_colors());
    assert_eq!(abt_bounded(&mut graph, 0), State::HasChange);
    assert_eq!(colors(&graph), vec![None, None, None]);
    assert_eq!(abt_bounded(&mut graph, 1), State::HasChange);
    assert_eq!(abt_bounded(&mut graph, 100), State::NoChange);
    assert!(all_consistent(&graph));
}

#[test]
fn empty_graph_is_solved() {
    let mut graph: Vec<Node> = Vec::new();
    assert!(abt_sequential(&mut graph));
    assert!(exhaustive_search(&mut graph));
}

#[test]
fn triangle_needs_three_colors() {
    let mut graph = triangle(vec![Color::Red, Color::Blue, Color::Green]);
    assert!(abt_sequential(&mut graph));
    assert!(all_consistent(&graph));
    let mut used = colors(&graph);
    used.dedup();
    assert_eq!(used.len(), 3);
    assert!(used.iter().all(|c| c.is_some()));

    let mut graph = triangle(vec![Color::Red, Color::Blue]);
    assert!(!abt_sequential(&mut graph));

    let mut graph = triangle(vec![Color::Red, Color::Blue, Color::Green]);
    assert!(exhaustive_search(&mut graph));
    assert!(all_consistent(&graph));
}

#[test]
fn exhaustive_search_refills_with_the_whole_palette() {
    // two colours do not do for a triangle, but a node that the search
    // returns from gets the whole palette back
    let mut graph = triangle(vec![Color::Red, Color::Blue]);
    assert!(exhaustive_search(&mut graph));
    assert!(all_consistent(&graph));
    assert_eq!(graph[0].color, Some(Color::Red));
    assert_eq!(graph[1].color, Some(Color::Pink));
}

#[test]
fn clique_of_eight_has_no_seven_coloring() {
    let mut graph = clique(Color::num_colors() + 1);
    assert!(!exhaustive_search(&mut graph));
    assert!(graph[0].remaining.is_empty());
    let mut graph = clique(Color::num_colors() + 1);
    assert!(!abt_sequential(&mut graph));
}

#[test]
fn clique_of_seven_takes_every_color() {
    let mut graph = clique(Color::num_colors());
    assert!(exhaustive_search(&mut graph));
    assert!(all_consistent(&graph));
    let mut graph = clique(Color::num_colors());
    assert!(abt_sequential(&mut graph));
    assert!(all_consistent(&graph));
}

#[test]
fn exhaustive_search_takes_colors_from_the_end() {
    let mut graph = vec![Node::new(0), Node::new(1)];
    graph[0].add_neighbor(1);
    graph[1].add_neighbor(0);
    assert!(exhaustive_search(&mut graph));
    assert_eq!(colors(&graph), vec![Some(Color::Pink), Some(Color::White)]);
    assert_eq!(graph[0].remaining.len(), 6);
    assert_eq!(graph[1].remaining.len(), 5);
}

#[test]
fn exhaustive_search_backtracks() {
    // node 2 finds red taken twice; the search returns to node 1, which
    // moves on to green, and node 2 starts again with the whole palette
    let mut graph = vec![
        node_with(0, vec![Color::Blue, Color::Red]),
        node_with(1, vec![Color::Green, Color::Red]),
        node_with(2, vec![Color::Red]),
    ];
    graph[2].add_neighbor(0);
    graph[2].add_neighbor(1);
    assert!(exhaustive_search(&mut graph));
    assert_eq!(
        colors(&graph),
        vec![Some(Color::Red), Some(Color::Green), Some(Color::Pink)]
    );
    assert_eq!(graph[0].remaining, vec![Color::Blue]);
    assert!(graph[1].remaining.is_empty());
    assert_eq!(graph[2].remaining.len(), 6);
}
