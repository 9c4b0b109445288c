use grafpe::graph::convertible::{perms_to_directed, perms_to_undirected, Convertible, GraphFormat};
use grafpe::graph::ValidGraph;

#[test]
fn test_small_graph_to_perm() {
    let graph = ValidGraph::from_permutations(
        6,
        2,
        vec![vec![1, 2, 3, 4, 5, 6], vec![2, 4, 6, 8, 10, 12]],
    );

    let result_raw = graph.to_string_directed(GraphFormat::Perm(80));
    println!("RESULT:\n{}\n", result_raw);
    let result: Vec<&str> = result_raw.split('\n').collect();
    assert_eq!(result.len(), 3);
    assert_eq!(result[0], "S\t80");
    assert_eq!(result[1], "N\t6\tD\t2");
    assert_eq!(result[2], "1\t2\t3\t4\t5\t6");
}

#[test]
fn dot_text_exact() {
    let perms: Vec<Vec<u64>> = vec![vec![1, 2, 0], vec![2, 0, 1]];
    assert_eq!(
        perms_to_directed(&perms),
        "digraph {\n\t0 -> 1;\n\t1 -> 2;\n\t2 -> 0;\n}\n"
    );
    assert_eq!(
        perms_to_undirected(&perms),
        "graph {\n\t0 -- 1;\n\t1 -- 2;\n\t2 -- 0;\n}\n"
    );
}

#[test]
fn perm_table_undirected_lists_both_halves() {
    let graph = ValidGraph::from_permutations(3, 2, vec![vec![1, 2, 0], vec![2, 0, 1]]);
    let text = graph.to_string_undirected(GraphFormat::Perm(5));
    assert_eq!(text, "S\t5\nN\t3\tD\t2\n1\t2\t0\n2\t0\t1");
}
