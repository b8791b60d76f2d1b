use expr_graph::render::{count_vertices, render_dot};

#[test]
fn vertex_count_is_one_past_largest_endpoint() {
    assert_eq!(count_vertices(&vec![]), 0);
    assert_eq!(count_vertices(&vec![(0, 1)]), 2);
    assert_eq!(count_vertices(&vec![(4, 1), (2, 3)]), 5);
}

#[test]
fn renders_nodes_and_edges_as_dot() {
    let entries = vec![(1, "b".to_string()), (0, "a".to_string())];
    let text = render_dot(&entries, &vec![(0, 1)]);
    assert_eq!(
        text,
        "digraph {\n    0 [ label = \"\\\"a\\\"\" ]\n    1 [ label = \"\\\"b\\\"\" ]\n    0 -> 1 [ ]\n}\n"
    );
}

#[test]
fn ids_without_entry_render_blank() {
    let entries = vec![(2, "c".to_string())];
    let text = render_dot(&entries, &vec![(2, 0)]);
    assert_eq!(
        text,
        "digraph {\n    0 [ label = \"\\\"\\\"\" ]\n    1 [ label = \"\\\"\\\"\" ]\n    2 [ label = \"\\\"c\\\"\" ]\n    2 -> 0 [ ]\n}\n"
    );
}

#[test]
fn no_edges_render_empty_graph() {
    let entries = vec![(0, "a".to_string())];
    assert_eq!(render_dot(&entries, &vec![]), "digraph {\n}\n");
}
