use mono_diagram::{
    add_connections, add_dummy, assign_level, count_crossings, crossings, get_perm_levels,
    has_crossing, minimize_crossings_with, overlap, replace_text, CyclicGraphError, DAG, DagGraph,
    Graph, LayoutError, Style,
};

fn graph_of(names: &[&str], edges: &[(&str, &str)]) -> (Graph, Vec<usize>) {
    let mut dag = DAG::new();
    let mut ids = Vec::new();
    for n in names {
        ids.push(dag.get_vertex(&n.to_string()));
    }
    for (s, t) in edges {
        let a = dag.get_vertex(&s.to_string());
        let b = dag.get_vertex(&t.to_string());
        dag.add_edge(a, b);
    }
    (dag.to_graph(), ids)
}

fn diamond() -> (Graph, Vec<usize>) {
    graph_of(
        &["a", "b", "c", "d"],
        &[("a", "b"), ("a", "c"), ("b", "d"), ("c", "d")],
    )
}

fn levels(g: &Graph) -> Vec<usize> {
    g.vertices.iter().map(|v| v.level).collect()
}

#[test]
fn diamond_levels() {
    let (mut g, _) = diamond();
    let m = assign_level(&mut g).unwrap();
    assert_eq!(m, 3);
    assert_eq!(levels(&g), vec![1, 2, 2, 3]);
}

#[test]
fn diamond_has_no_crossings() {
    let (g, _) = diamond();
    let d = DagGraph::layout_with(g, &vec![], &vec![]).unwrap();
    assert_eq!(d.crossings, 0);
    let (g2, _) = diamond();
    let d2 = DagGraph::layout_with(g2, &vec![], &vec![1, 0, 1, 1, 0, 1]).unwrap();
    assert_eq!(d2.crossings, 0);
}

#[test]
fn every_edge_goes_down_after_leveling() {
    let (mut g, _) = graph_of(
        &["a", "b", "c", "d", "e"],
        &[("a", "b"), ("b", "c"), ("a", "c"), ("d", "c"), ("c", "e")],
    );
    assign_level(&mut g).unwrap();
    for v in &g.vertices {
        assert!(v.level >= 1);
    }
    for e in &g.edges {
        assert!(g.vertices[e.target].level > g.vertices[e.source].level);
    }
    assert_eq!(levels(&g), vec![1, 2, 3, 1, 4]);
}

#[test]
fn forced_crossing_is_resolved() {
    let (mut g, ids) = graph_of(&["a", "b", "c", "d"], &[("a", "d"), ("b", "c")]);
    let m = assign_level(&mut g).unwrap();
    replace_text(&mut g, &vec![]);
    let layers = get_perm_levels(&g, m);
    assert_eq!(layers, vec![vec![ids[0], ids[1]], vec![ids[2], ids[3]]]);
    assert_eq!(count_crossings(&g, &layers), 1);
    let (best, cnt) = minimize_crossings_with(&g, &layers, &vec![0; 23]);
    assert_eq!(cnt, 0);
    assert_eq!(best[0], vec![ids[0], ids[1]]);
    assert_eq!(best[1], vec![ids[3], ids[2]]);
}

#[test]
fn minimizer_never_worse_than_start() {
    let (mut g, _) = graph_of(
        &["a", "b", "c", "d", "e", "f"],
        &[("a", "f"), ("b", "e"), ("c", "d"), ("a", "d"), ("c", "f")],
    );
    let m = assign_level(&mut g).unwrap();
    replace_text(&mut g, &vec![]);
    let layers = get_perm_levels(&g, m);
    let start = count_crossings(&g, &layers);
    for seed in 0..5usize {
        let draws: Vec<usize> = (0..100).map(|i| (i * 7 + seed * 13) % 11).collect();
        let (best, cnt) = minimize_crossings_with(&g, &layers, &draws);
        assert!(cnt <= start);
        assert_eq!(cnt, count_crossings(&g, &best));
    }
}

#[test]
fn layer_positions_are_a_permutation() {
    let (g, _) = graph_of(
        &["a", "b", "c", "d", "e"],
        &[("a", "c"), ("b", "c"), ("a", "d"), ("b", "e"), ("d", "e")],
    );
    let d = DagGraph::layout_with(g, &vec![], &vec![3, 1, 4, 1, 5, 9, 2, 6]).unwrap();
    for (l, layer) in d.layers.iter().enumerate() {
        let mut seen = vec![false; layer.len()];
        for (i, v) in layer.iter().enumerate() {
            assert_eq!(d.graph.vertices[*v].level, l + 1);
            assert!(!seen[i]);
            seen[i] = true;
        }
        let count = d.graph.vertices.iter().filter(|v| v.level == l + 1).count();
        assert_eq!(count, layer.len());
    }
}

#[test]
fn skip_level_edge_gets_one_placeholder() {
    let (mut g, ids) = graph_of(
        &["a", "b", "c", "d"],
        &[("a", "b"), ("a", "c"), ("b", "d"), ("c", "d"), ("a", "d")],
    );
    assign_level(&mut g).unwrap();
    assert_eq!(mono_diagram::dummy_count(&g), Some(1));
    add_dummy(&mut g);
    assert_eq!(g.vertices.len(), 5);
    let p = 4;
    assert!(g.vertices[p].is_dummy);
    assert_eq!(g.vertices[p].level, 2);
    assert_eq!(g.vertices[p].width, 1);
    assert!(g.labels[p].is_empty());
    let pairs: Vec<(usize, usize)> = g.edges.iter().map(|e| (e.source, e.target)).collect();
    assert!(pairs.contains(&(ids[0], p)));
    assert!(pairs.contains(&(p, ids[3])));
    assert!(!pairs.contains(&(ids[0], ids[3])));
    for e in &g.edges {
        assert_eq!(g.vertices[e.target].level, g.vertices[e.source].level + 1);
    }
}

#[test]
fn placeholder_chain_for_long_edge() {
    let (mut g, ids) = graph_of(
        &["a", "b", "c", "d", "e"],
        &[("a", "b"), ("b", "c"), ("c", "d"), ("a", "d"), ("d", "e")],
    );
    assign_level(&mut g).unwrap();
    add_dummy(&mut g);
    assert_eq!(g.vertices.len(), 7);
    assert_eq!(g.vertices[5].level, 2);
    assert_eq!(g.vertices[6].level, 3);
    let pairs: Vec<(usize, usize)> = g.edges.iter().map(|e| (e.source, e.target)).collect();
    assert!(pairs.contains(&(ids[0], 5)));
    assert!(pairs.contains(&(5, 6)));
    assert!(pairs.contains(&(6, ids[3])));
}

#[test]
fn cycle_is_rejected() {
    let (mut g, _) = graph_of(&["a", "b"], &[("a", "b"), ("b", "a")]);
    assert_eq!(assign_level(&mut g), Err(CyclicGraphError));
    let (g2, _) = graph_of(&["a", "b"], &[("a", "b"), ("b", "a")]);
    assert!(matches!(DagGraph::layout_with(g2, &vec![], &vec![]), Err(LayoutError::CyclicGraph)));
}

#[test]
fn self_loop_is_rejected() {
    let (mut g, _) = graph_of(&["a"], &[("a", "a")]);
    assert_eq!(assign_level(&mut g), Err(CyclicGraphError));
}

#[test]
fn longer_cycle_is_rejected() {
    let (g, _) = graph_of(
        &["a", "b", "c", "d"],
        &[("d", "a"), ("a", "b"), ("b", "c"), ("c", "a")],
    );
    assert!(matches!(DagGraph::layout_with(g, &vec![], &vec![]), Err(LayoutError::CyclicGraph)));
}

#[test]
fn single_vertex_renders_as_ascii_box() {
    let (g, _) = graph_of(&["x"], &[]);
    let d = DagGraph::layout_with(g, &vec![], &vec![]).unwrap();
    assert_eq!(d.max_width, 5);
    assert_eq!(d.max_height, 3);
    assert_eq!(d.to_text(Style::Ascii), "+---+\n| x |\n+---+\n");
}

#[test]
fn single_vertex_renders_as_unicode_box() {
    let (g, _) = graph_of(&["x"], &[]);
    let d = DagGraph::layout_with(g, &vec![], &vec![]).unwrap();
    assert_eq!(d.to_text(Style::Unicode), "┌───┐\n│ x │\n└───┘\n");
    assert_eq!(d.write(Style::Unicode), "┌───┐\n│ x │\n└───┘\n".as_bytes().to_vec());
}

#[test]
fn chain_renders_with_straight_connector() {
    let (g, _) = graph_of(&["a", "b"], &[("a", "b")]);
    let d = DagGraph::layout_with(g, &vec![], &vec![]).unwrap();
    assert_eq!(d.to_text(Style::Ascii), "+---+\n| a |\n++--+\n+V--+\n| b |\n+---+\n");
    assert!(d.graph.edges[0].routed);
}

#[test]
fn boxes_in_a_layer_never_overlap() {
    let (g, _) = graph_of(
        &["root", "left", "middle", "right", "leaf"],
        &[
            ("root", "left"),
            ("root", "middle"),
            ("root", "right"),
            ("left", "leaf"),
            ("right", "leaf"),
            ("middle", "leaf"),
        ],
    );
    let d = DagGraph::layout_with(g, &vec![], &vec![2, 1, 0, 2, 1]).unwrap();
    for layer in &d.layers {
        for i in 0..layer.len() {
            for j in (i + 1)..layer.len() {
                let a = d.graph.vertices[layer[i]];
                let b = d.graph.vertices[layer[j]];
                assert!(a.x + a.width < b.x);
            }
        }
    }
    for v in &d.graph.vertices {
        assert!(v.x + v.width <= d.max_width);
    }
}

#[test]
fn routing_twice_changes_nothing() {
    let (g, _) = graph_of(&["a", "b"], &[("a", "b")]);
    let mut d = DagGraph::layout_with(g, &vec![], &vec![]).unwrap();
    assert!(d.graph.edges.iter().all(|e| e.routed));
    let before = d.graph.vertices.clone();
    let (ct, sp, w) = add_connections(&mut d.graph, &d.layers, d.max_width);
    assert_eq!(d.graph.vertices, before);
    assert_eq!(w, d.max_width);
    assert!(sp.iter().all(|s| *s == (0, 0)));
    assert_eq!(ct.len(), 1);
}

#[test]
fn bent_connector_reserves_a_lane() {
    let (g, _) = graph_of(&["a", "b", "c"], &[("a", "c"), ("b", "c")]);
    let d = DagGraph::layout_with(g, &vec![], &vec![]).unwrap();
    let lanes: i64 = d.spacing.iter().map(|s| s.1 - s.0).sum();
    assert!(lanes >= 1);
    assert_eq!(d.max_height as i64, 6 + lanes);
    let text = d.to_text(Style::Ascii);
    assert_eq!(text.lines().count(), d.max_height);
    for line in text.lines() {
        assert_eq!(line.chars().count(), d.max_width);
    }
}

#[test]
fn crossing_count_of_pairs() {
    assert_eq!(crossings(&vec![(0, 1), (1, 0)]), 1);
    assert_eq!(crossings(&vec![(0, 0), (1, 1), (2, 2)]), 0);
    assert_eq!(crossings(&vec![(0, 2), (1, 1), (2, 0)]), 3);
    assert_eq!(crossings(&vec![]), 0);
    assert!(has_crossing((0, 1), (1, 0)));
    assert!(!has_crossing((0, 0), (1, 1)));
    assert!(!has_crossing((0, 1), (0, 0)));
}

#[test]
fn overlap_columns() {
    assert_eq!(overlap((3, 1, true), (3, 1, true)), Some(3));
    assert_eq!(overlap((3, 1, true), (4, 1, true)), None);
    assert_eq!(overlap((3, 1, true), (0, 6, false)), Some(3));
    assert_eq!(overlap((0, 5, false), (0, 5, false)), Some(1));
    assert_eq!(overlap((0, 5, false), (3, 5, false)), None);
}

#[test]
fn diagrams_are_joined_with_line_feeds() {
    assert_eq!(mono_diagram::dag::write(&vec![b"ab".to_vec(), b"c".to_vec()]), b"ab\nc\n".to_vec());
    assert_eq!(mono_diagram::dag::write(&vec![]), Vec::<u8>::new());
}

#[test]
fn random_search_is_never_worse() {
    let (mut g, _) = graph_of(&["a", "b", "c", "d"], &[("a", "d"), ("b", "c")]);
    let m = assign_level(&mut g).unwrap();
    replace_text(&mut g, &vec![]);
    let layers = get_perm_levels(&g, m);
    let (best, cnt) = mono_diagram::minimize_crossings(&g, &layers);
    assert!(cnt <= 1);
    assert_eq!(cnt, count_crossings(&g, &best));
    let draws = mono_diagram::random_draws(&layers);
    assert_eq!(draws.len(), 23);
    assert!(draws.iter().all(|d| *d <= 1));
}

#[test]
fn random_layout_of_diamond() {
    let (g, _) = diamond();
    let d = DagGraph::layout(g, &vec![]).unwrap();
    assert_eq!(d.crossings, 0);
    let lanes: i64 = d.spacing.iter().map(|s| s.1 - s.0).sum();
    assert_eq!(d.max_height as i64, 9 + lanes);
    let text = d.to_text(Style::Unicode);
    assert_eq!(text.lines().count(), d.max_height);
}

#[test]
fn wide_graph_renders_in_both_styles() {
    let (g, _) = graph_of(
        &["top", "a", "b", "c", "bottom"],
        &[
            ("top", "a"),
            ("top", "b"),
            ("top", "c"),
            ("a", "bottom"),
            ("c", "bottom"),
            ("top", "bottom"),
        ],
    );
    let d = DagGraph::layout_with(g, &vec![], &vec![0, 1, 2, 0, 1]).unwrap();
    for style in [Style::Ascii, Style::Unicode] {
        let text = d.to_text(style);
        assert_eq!(text.lines().count(), d.max_height);
        for line in text.lines() {
            assert_eq!(line.chars().count(), d.max_width);
        }
        assert!(text.contains("top"));
        assert!(text.contains("bottom"));
    }
    let ascii = d.to_text(Style::Ascii);
    assert!(ascii.chars().all(|c| c.is_ascii()));
}

#[test]
fn every_edge_has_exactly_one_connector() {
    let (g, _) = graph_of(
        &["a", "b", "c", "d"],
        &[("a", "b"), ("a", "c"), ("b", "d"), ("c", "d"), ("a", "d")],
    );
    let d = DagGraph::layout_with(g, &vec![], &vec![]).unwrap();
    let mut seen = vec![0usize; d.graph.edges.len()];
    for (k, row) in d.connections.iter().enumerate() {
        for c in row {
            let (e, straight) = match c {
                mono_diagram::Connection::Straight { edge, .. } => (*edge, true),
                mono_diagram::Connection::Bent { edge, .. } => (*edge, false),
            };
            seen[e] += 1;
            assert_eq!(d.graph.vertices[d.graph.edges[e].source].level, k + 1);
            assert_eq!(straight, d.graph.edges[e].routed);
        }
    }
    assert!(seen.iter().all(|n| *n == 1));
}

#[test]
fn shuffle_follows_fisher_yates() {
    let (mut g, _) = graph_of(&["a", "b", "c"], &[]);
    let m = assign_level(&mut g).unwrap();
    let mut layers = get_perm_levels(&g, m);
    let mut cursor = 0usize;
    mono_diagram::shuffle_level(&g, &mut layers, 0, &vec![0, 1], &mut cursor);
    assert_eq!(layers[0], vec![1, 2, 0]);
    assert_eq!(cursor, 2);
}

#[test]
fn ascii_and_unicode_agree_cell_by_cell() {
    let (g, _) = graph_of(
        &["top", "a", "b", "c", "bottom"],
        &[("top", "a"), ("top", "b"), ("top", "c"), ("a", "bottom"), ("c", "bottom"), ("top", "bottom")],
    );
    let d = DagGraph::layout_with(g, &vec![], &vec![1, 0, 2, 1]).unwrap();
    let a: Vec<Vec<char>> = d.to_text(Style::Ascii).lines().map(|l| l.chars().collect()).collect();
    let u: Vec<Vec<char>> = d.to_text(Style::Unicode).lines().map(|l| l.chars().collect()).collect();
    assert_eq!(a.len(), u.len());
    for (ra, ru) in a.iter().zip(u.iter()) {
        assert_eq!(ra.len(), ru.len());
        for (ca, cu) in ra.iter().zip(ru.iter()) {
            assert_eq!(*ca == ' ', *cu == ' ');
            if ca.is_alphanumeric() {
                assert_eq!(ca, cu);
            }
        }
    }
    for (v, lab) in d.graph.vertices.iter().zip(d.graph.labels.iter()) {
        if !v.is_dummy {
            let row = &a[v.y + 1];
            let got: String = row[v.x + 2..v.x + 2 + lab.chars().count()].iter().collect();
            assert_eq!(&got, lab);
        }
    }
}
