use rank_dot::graph::{DotError, Edge, Graph, Node, NodeIndex};

fn node(label: &str, from: usize, to: &[usize]) -> Node {
    let mut n = Node::new(label.to_string());
    for &t in to {
        n.add_edge(from, t);
    }
    n
}

fn rank_groups(text: &str) -> Vec<String> {
    text.lines()
        .filter(|l| l.starts_with("  { rank="))
        .map(|l| l.to_string())
        .collect()
}

fn edge_lines(text: &str) -> Vec<String> {
    text.lines()
        .filter(|l| l.contains(" -> "))
        .map(|l| l.to_string())
        .collect()
}

#[test]
fn single_node_is_one_max_group() {
    let g = Graph::new(vec![node("A", 0, &[])]);
    assert_eq!(
        g.gen_dot(),
        Ok("digraph {\n  { rank=\"max\"; \"A\" }\n}".to_string())
    );
}

#[test]
fn root_with_two_leaves() {
    let g = Graph::new(vec![node("0", 0, &[1, 2]), node("1", 1, &[]), node("2", 2, &[])]);
    let out = g.gen_dot().unwrap();
    assert_eq!(
        out,
        "digraph {\n  { rank=\"same\"; \"0\" }\n  \"0\" -> \"1\"\n  \"0\" -> \"2\"\n  { rank=\"max\"; \"1\" \"2\" }\n}"
    );
    assert_eq!(rank_groups(&out).len(), 2);
    assert_eq!(edge_lines(&out).len(), 2);
}

#[test]
fn diamond_lists_shared_node_once() {
    let g = Graph::new(vec![
        node("R", 0, &[1, 2]),
        node("A", 1, &[3]),
        node("B", 2, &[3]),
        node("C", 3, &[]),
    ]);
    let out = g.gen_dot().unwrap();
    assert_eq!(
        out,
        "digraph {\n  { rank=\"same\"; \"R\" }\n  \"R\" -> \"A\"\n  \"R\" -> \"B\"\n  { rank=\"same\"; \"A\" \"B\" }\n  \"A\" -> \"C\"\n  \"B\" -> \"C\"\n  { rank=\"max\"; \"C\" }\n}"
    );
    let groups = rank_groups(&out);
    assert_eq!(groups.iter().filter(|l| l.contains("\"C\"")).count(), 1);
    assert!(edge_lines(&out).contains(&"  \"A\" -> \"C\"".to_string()));
    assert!(edge_lines(&out).contains(&"  \"B\" -> \"C\"".to_string()));
}

#[test]
fn unreachable_node_is_left_out() {
    let g = Graph::new(vec![node("R", 0, &[1]), node("A", 1, &[]), node("U", 2, &[1])]);
    let out = g.gen_dot().unwrap();
    assert_eq!(
        out,
        "digraph {\n  { rank=\"same\"; \"R\" }\n  \"R\" -> \"A\"\n  { rank=\"max\"; \"A\" }\n}"
    );
    assert!(!out.contains("\"U\""));
}

#[test]
fn last_tier_is_closed_when_no_new_node_turns_up() {
    // Node 1 points back at the root; node 2 is never reached.
    let g = Graph::new(vec![node("R", 0, &[1]), node("A", 1, &[0]), node("U", 2, &[0])]);
    let out = g.gen_dot().unwrap();
    assert_eq!(
        out,
        "digraph {\n  { rank=\"same\"; \"R\" }\n  \"R\" -> \"A\"\n  { rank=\"max\"; \"A\" }\n}"
    );
    let groups = rank_groups(&out);
    assert_eq!(groups.iter().filter(|l| l.contains("rank=\"max\"")).count(), 1);
    assert!(groups.last().unwrap().contains("rank=\"max\""));
}

#[test]
fn self_loop_with_unreachable_node_ends_at_max_group() {
    let g = Graph::new(vec![node("A", 0, &[0]), node("B", 1, &[])]);
    assert_eq!(
        g.gen_dot().unwrap(),
        "digraph {\n  { rank=\"max\"; \"A\" }\n}"
    );
}

#[test]
fn dangling_target_is_reported() {
    let g = Graph::new(vec![node("R", 0, &[1, 5]), node("A", 1, &[])]);
    assert_eq!(g.gen_dot(), Err(DotError::DanglingEdge(5)));
}

#[test]
fn dangling_source_is_reported() {
    let mut r = Node::new("R".to_string());
    r.add_edge(9, 0);
    let g = Graph::new(vec![r]);
    assert_eq!(g.gen_dot(), Err(DotError::DanglingEdge(9)));
}

#[test]
fn first_dangling_edge_wins() {
    let g = Graph::new(vec![
        node("R", 0, &[1]),
        node("A", 1, &[7]),
        node("B", 2, &[8]),
    ]);
    assert_eq!(g.gen_dot(), Err(DotError::DanglingEdge(7)));
    assert_eq!(g.first_dangling(), Some(7));
}

#[test]
fn dangling_edge_of_unreachable_node_is_reported() {
    let g = Graph::new(vec![node("R", 0, &[]), node("U", 1, &[4])]);
    assert_eq!(g.gen_dot(), Err(DotError::DanglingEdge(4)));
}

#[test]
fn empty_graph_is_an_error() {
    let g = Graph::new(vec![]);
    assert_eq!(g.gen_dot(), Err(DotError::EmptyGraph));
}

#[test]
fn export_twice_is_identical() {
    let g = Graph::new(vec![node("R", 0, &[1, 2]), node("A", 1, &[2, 0]), node("B", 2, &[2])]);
    let a = g.gen_dot().unwrap();
    let b = g.gen_dot().unwrap();
    assert_eq!(a, b);
}

#[test]
fn edges_keep_source_order() {
    let g = Graph::new(vec![
        node("R", 0, &[3, 1, 2]),
        node("a", 1, &[]),
        node("b", 2, &[]),
        node("c", 3, &[]),
    ]);
    let out = g.gen_dot().unwrap();
    assert_eq!(
        edge_lines(&out),
        vec![
            "  \"R\" -> \"c\"".to_string(),
            "  \"R\" -> \"a\"".to_string(),
            "  \"R\" -> \"b\"".to_string(),
        ]
    );
    assert!(out.contains("{ rank=\"max\"; \"c\" \"a\" \"b\" }"));
}

#[test]
fn edges_of_final_tier_are_not_followed_when_all_are_processed() {
    let g = Graph::new(vec![node("0", 0, &[1]), node("1", 1, &[0])]);
    assert_eq!(
        g.gen_dot().unwrap(),
        "digraph {\n  { rank=\"same\"; \"0\" }\n  \"0\" -> \"1\"\n  { rank=\"max\"; \"1\" }\n}"
    );
}

#[test]
fn self_loops_and_repeats_print_each_time() {
    let g = Graph::new(vec![node("0", 0, &[0, 1, 1]), node("1", 1, &[])]);
    assert_eq!(
        g.gen_dot().unwrap(),
        "digraph {\n  { rank=\"same\"; \"0\" }\n  \"0\" -> \"0\"\n  \"0\" -> \"1\"\n  \"0\" -> \"1\"\n  { rank=\"max\"; \"1\" }\n}"
    );
}

#[test]
fn every_node_of_a_connected_graph_is_in_one_group() {
    let g = Graph::new(vec![
        node("Root", 0, &[1, 2, 3, 6]),
        node("1", 1, &[4, 5]),
        node("2", 2, &[4, 5]),
        node("3", 3, &[4, 5]),
        node("Leaf 1", 4, &[]),
        node("Leaf 2", 5, &[]),
        node("Leaf 3", 6, &[]),
    ]);
    let out = g.gen_dot().unwrap();
    assert_eq!(
        out,
        "digraph {\n  { rank=\"same\"; \"Root\" }\n  \"Root\" -> \"1\"\n  \"Root\" -> \"2\"\n  \"Root\" -> \"3\"\n  \"Root\" -> \"Leaf 3\"\n  { rank=\"same\"; \"1\" \"2\" \"3\" \"Leaf 3\" }\n  \"1\" -> \"Leaf 1\"\n  \"1\" -> \"Leaf 2\"\n  \"2\" -> \"Leaf 1\"\n  \"2\" -> \"Leaf 2\"\n  \"3\" -> \"Leaf 1\"\n  \"3\" -> \"Leaf 2\"\n  { rank=\"max\"; \"Leaf 1\" \"Leaf 2\" }\n}"
    );
    let groups = rank_groups(&out);
    assert_eq!(groups.len(), 3);
    for label in ["Root", "1", "2", "3", "Leaf 1", "Leaf 2", "Leaf 3"] {
        let quoted = format!("\"{}\"", label);
        assert_eq!(groups.iter().filter(|l| l.contains(&quoted)).count(), 1);
    }
}

#[test]
fn builders_keep_what_they_are_given() {
    let e = Edge::new(2, 3);
    assert_eq!(e.from, NodeIndex(2));
    assert_eq!(e.to.index(), 3);
    let n = node("x", 0, &[4, 1]);
    assert_eq!(n.label, "x");
    assert_eq!(n.edges.len(), 2);
    assert_eq!(n.edges[1].to, NodeIndex(1));
    let g = Graph::new(vec![n]);
    assert_eq!(g.nodes.len(), 1);
    assert_eq!(g.first_dangling(), Some(4));
}

#[test]
fn groups_match_depths_with_an_unreachable_node() {
    // Depths: R 0, A 1, B 2, C 3 (shortest path through the chain); U is unreachable.
    let g = Graph::new(vec![
        node("R", 0, &[1]),
        node("A", 1, &[2, 0]),
        node("B", 2, &[3, 1]),
        node("C", 3, &[]),
        node("U", 4, &[0, 3]),
    ]);
    let out = g.gen_dot().unwrap();
    let groups = rank_groups(&out);
    assert_eq!(
        groups,
        vec![
            "  { rank=\"same\"; \"R\" }".to_string(),
            "  { rank=\"same\"; \"A\" }".to_string(),
            "  { rank=\"same\"; \"B\" }".to_string(),
            "  { rank=\"max\"; \"C\" }".to_string(),
        ]
    );
    assert!(!out.contains("\"U\""));
    assert_eq!(
        edge_lines(&out),
        vec![
            "  \"R\" -> \"A\"".to_string(),
            "  \"A\" -> \"B\"".to_string(),
            "  \"A\" -> \"R\"".to_string(),
            "  \"B\" -> \"C\"".to_string(),
            "  \"B\" -> \"A\"".to_string(),
        ]
    );
}

#[test]
fn only_the_last_group_is_max() {
    let g = Graph::new(vec![
        node("R", 0, &[1, 2]),
        node("A", 1, &[3]),
        node("B", 2, &[4]),
        node("C", 3, &[]),
        node("D", 4, &[0]),
    ]);
    let groups = rank_groups(&g.gen_dot().unwrap());
    assert_eq!(groups.len(), 3);
    for (i, l) in groups.iter().enumerate() {
        assert_eq!(l.contains("rank=\"max\""), i == groups.len() - 1);
        assert_eq!(l.contains("rank=\"same\""), i != groups.len() - 1);
    }
}
