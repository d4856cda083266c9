use mono_diagram::{init_diagram, DiagramKind};
use mono_diagram::{add_prefix, pad_string_center, pad_string_left, pad_string_right, TreeNode};

#[test]
fn center_padding_splits_evenly() {
    assert_eq!(pad_string_center("ab", 6, '<', '>'), "<<ab>>");
    assert_eq!(pad_string_center("ab", 5, '<', '>'), "<ab>>");
    assert_eq!(pad_string_center("abc", 2, '<', '>'), "abc");
    assert_eq!(pad_string_center("", 3, '.', '.'), "...");
}

#[test]
fn side_padding() {
    assert_eq!(pad_string_right("ab", 4, '-'), "ab--");
    assert_eq!(pad_string_left("ab", 4, '-'), "--ab");
    assert_eq!(pad_string_right("abcde", 4, '-'), "abcde");
    assert_eq!(pad_string_left("ab", 2, '-'), "ab");
}

#[test]
fn prefix_on_every_line() {
    assert_eq!(add_prefix("a\nb".to_string(), "// "), "// a\n// b");
    assert_eq!(add_prefix("a\nb\n".to_string(), "# "), "# a\n# b");
    assert_eq!(add_prefix("a\r\n\nc".to_string(), "> "), "> a\n> \n> c");
    assert_eq!(add_prefix("".to_string(), "> "), "");
}

#[test]
fn tree_depth() {
    let leaf: TreeNode<i32> = TreeNode::new_leaf(1);
    assert_eq!(leaf.degree(), 1);
    let t = TreeNode::new(
        0,
        Some(Box::new(TreeNode::new(2, Some(Box::new(TreeNode::new_leaf(3))), None))),
        Some(Box::new(TreeNode::new_leaf(4))),
    );
    assert_eq!(t.degree(), 3);
}


use mono_diagram::{init_dag, replace_text, Attrib, ParseStyleError, Style};

#[test]
fn style_names_ignore_case() {
    assert_eq!(Style::from_str("ascii"), Ok(Style::Ascii));
    assert_eq!(Style::from_str("UniCode"), Ok(Style::Unicode));
    assert_eq!(Style::from_str("ASCII"), Ok(Style::Ascii));
    assert_eq!(Style::from_str("asci"), Err(ParseStyleError));
    assert_eq!(Style::from_str(" ascii"), Err(ParseStyleError));
}

#[test]
fn attribute_block_sets_style() {
    assert_eq!(Attrib::parse_from_str("{style: unicode}").style, Style::Unicode);
    assert_eq!(Attrib::parse_from_str("  { Style : ASCII , other: 3 }  ").style, Style::Ascii);
    assert_eq!(Attrib::parse_from_str("{style: unicode, style: nonsense}").style, Style::Unicode);
    assert_eq!(Attrib::parse_from_str("{style: ascii, style: unicode}").style, Style::Unicode);
    assert_eq!(Attrib::parse_from_str("{}").style, Style::Ascii);
    assert_eq!(Attrib::parse_from_str("{colour: red}").style, Style::Ascii);
    assert_eq!(Attrib::parse_from_str("{{style:unicode}}").style, Style::Unicode);
}

#[test]
fn relationships_build_a_graph() {
    let rels = vec![
        ("a".to_string(), "b".to_string()),
        ("b".to_string(), "c".to_string()),
        ("a".to_string(), "b".to_string()),
    ];
    let dag = init_dag(&rels);
    assert_eq!(dag.vertices.len(), 3);
    assert_eq!(dag.vertices[0].value, "a");
    assert_eq!(dag.vertices[0].childs, vec![1]);
    assert_eq!(dag.vertices[1].childs, vec![2]);
    let g = dag.to_graph();
    assert_eq!(g.edges.len(), 2);
    assert_eq!(g.labels, vec!["a".to_string(), "b".to_string(), "c".to_string()]);
}

#[test]
fn labels_are_substituted() {
    let rels = vec![("a".to_string(), "b".to_string())];
    let mut g = init_dag(&rels).to_graph();
    let assign = vec![("b".to_string(), "Beta".to_string()), ("b".to_string(), "Other".to_string())];
    replace_text(&mut g, &assign);
    assert_eq!(g.labels, vec!["a".to_string(), "Other".to_string()]);
}

use mono_diagram::{Table, TableCell, TableDiagram};

fn table_of(rows: &[&[&str]], style: Style) -> TableDiagram {
    let cells: Vec<Vec<TableCell<String>>> = rows
        .iter()
        .map(|r| r.iter().map(|c| TableCell { value: c.to_string() }).collect())
        .collect();
    let width = rows.iter().map(|r| r.len()).max().unwrap_or(0);
    TableDiagram {
        data: Table { cells, width, height: rows.len() },
        attribs: Attrib { style },
    }
}

#[test]
fn table_renders_ascii_grid() {
    let t = table_of(&[&["a", "bb"], &["ccc"]], Style::Ascii);
    assert_eq!(t.col_widths(), vec![3, 2]);
    assert_eq!(
        t.write(),
        "+-----+----+\n| a   | bb |\n+-----+----+\n| ccc |    |\n+-----+----+\n"
    );
}

#[test]
fn table_renders_unicode_grid() {
    let t = table_of(&[&["x"], &["y"]], Style::Unicode);
    assert_eq!(t.write(), "┌───┐\n│ x │\n├───┤\n│ y │\n└───┘\n");
}

#[test]
fn empty_table_is_a_bottom_border() {
    let t = table_of(&[], Style::Ascii);
    assert_eq!(t.write(), "+\n");
}

use mono_diagram::{GridDiagram, GridError};

#[test]
fn grid_renders_centred_cells() {
    let assigns = vec![((1, 1), "a".to_string()), ((2, 2), "bc".to_string())];
    let g = GridDiagram::from_cells(2, 2, &assigns, Attrib { style: Style::Ascii }).unwrap();
    assert_eq!(g.write(), "+---+---+\n| a |   |\n+---+---+\n|   |bc |\n+---+---+\n");
}

#[test]
fn grid_renders_unicode() {
    let g = GridDiagram::from_cells(1, 1, &vec![], Attrib { style: Style::Unicode }).unwrap();
    assert_eq!(g.write(), "┌───┐\n│   │\n└───┘\n");
}

#[test]
fn grid_errors() {
    let a = Attrib { style: Style::Ascii };
    assert!(matches!(GridDiagram::from_cells(0, 2, &vec![], a), Err(GridError::MissingSize)));
    assert!(matches!(
        GridDiagram::from_cells(2, 2, &vec![((1, 2), "long".to_string())], a),
        Err(GridError::CellTooLong(1, 2))
    ));
    assert!(matches!(
        GridDiagram::from_cells(2, 2, &vec![((1, 1), "a".to_string()), ((1, 1), "b".to_string())], a),
        Err(GridError::AssignedTwice(1, 1))
    ));
    assert!(matches!(
        GridDiagram::from_cells(2, 2, &vec![((3, 1), "a".to_string())], a),
        Err(GridError::OutOfGrid(3, 1))
    ));
}

use mono_diagram::{TimelineDiagram, TimelineError};

#[test]
fn timeline_renders_ascii() {
    let data = vec![("2020".to_string(), "start".to_string()), ("21".to_string(), String::new())];
    let t = TimelineDiagram::new(data, Attrib { style: Style::Ascii }).unwrap();
    assert_eq!(t.max_width, 4);
    let expected = "   |\n   |\n   |\n---v---\n  2020  >--- start\n---v---\n   |\n --v--\n   21\n --v--\n   |\n   |\n   |\n   V\n";
    assert_eq!(t.write(), expected);
}

#[test]
fn timeline_renders_unicode() {
    let data = vec![("abc".to_string(), "x".to_string())];
    let t = TimelineDiagram::new(data, Attrib { style: Style::Unicode }).unwrap();
    let expected = "  ║\n  ║\n  ║\n  ╨\n abc  ┄┄┄┄ x\n  ╥\n  ║\n  ║\n  ║\n  ▼\n";
    assert_eq!(t.write(), expected);
}

#[test]
fn timeline_rejects_empty_time() {
    let data = vec![("a".to_string(), String::new()), (String::new(), "b".to_string())];
    assert!(matches!(
        TimelineDiagram::new(data, Attrib { style: Style::Ascii }),
        Err(TimelineError::EmptyTime(1))
    ));
}

#[test]
fn gantt_slot_widths() {
    assert_eq!(mono_diagram::get_time_width(0), 17);
    assert_eq!(mono_diagram::get_time_width(2), 17);
    assert_eq!(mono_diagram::get_time_width(3), 14);
    assert_eq!(mono_diagram::get_time_width(6), 8);
    assert_eq!(mono_diagram::get_time_width(10), 5);
    assert_eq!(mono_diagram::get_time_width(11), 4);
}

#[test]
fn diagram_titles() {
    assert_eq!(init_diagram("dag"), Some(DiagramKind::Dag));
    assert_eq!(init_diagram("Binary_Tree"), Some(DiagramKind::BinaryTree));
    assert_eq!(init_diagram("GANTT"), Some(DiagramKind::Gantt));
    assert_eq!(init_diagram("timeline"), Some(DiagramKind::Timeline));
    assert_eq!(init_diagram("grid"), Some(DiagramKind::Grid));
    assert_eq!(init_diagram("table"), Some(DiagramKind::Table));
    assert_eq!(init_diagram("tree"), None);
}

use mono_diagram::BinaryTreeDiagram;

fn leaf(v: &str) -> Option<Box<TreeNode<String>>> {
    Some(Box::new(TreeNode::new_leaf(v.to_string())))
}

#[test]
fn binary_tree_renders_ascii() {
    let t = BinaryTreeDiagram {
        data: Box::new(TreeNode::new("a".to_string(), leaf("b"), leaf("c"))),
        attribs: Attrib { style: Style::Ascii },
    };
    assert_eq!(t.write(), "   a    \n  / \\   \n b   c  \n");
}

#[test]
fn binary_tree_renders_unicode() {
    let t = BinaryTreeDiagram {
        data: Box::new(TreeNode::new("a".to_string(), leaf("b"), leaf("c"))),
        attribs: Attrib { style: Style::Unicode },
    };
    assert_eq!(t.write(), "   a    \n ┌─┴─┐  \n b   c  \n");
}

#[test]
fn binary_tree_with_missing_child() {
    let t = BinaryTreeDiagram {
        data: Box::new(TreeNode::new("a".to_string(), leaf("b"), None)),
        attribs: Attrib { style: Style::Ascii },
    };
    assert_eq!(t.write(), "   a    \n  /     \n b      \n");
}

#[test]
fn tree_is_built_from_relationships() {
    let rm = vec![
        ("r".to_string(), Some("x".to_string()), Some("y".to_string())),
        ("x".to_string(), None, Some("r".to_string())),
        ("y".to_string(), Some("z".to_string()), None),
    ];
    let am = vec![("z".to_string(), "Zed".to_string())];
    let t = mono_diagram::construct_tree(&"r".to_string(), &rm, &am);
    assert_eq!(t.value, "r");
    let x = t.lnode.as_ref().unwrap();
    assert_eq!(x.value, "x");
    assert!(x.lnode.is_none());
    assert!(x.rnode.is_none());
    let y = t.rnode.as_ref().unwrap();
    assert_eq!(y.value, "y");
    assert_eq!(y.lnode.as_ref().unwrap().value, "Zed");
    assert_eq!(t.degree(), 3);
    let d = BinaryTreeDiagram { data: t, attribs: Attrib { style: Style::Ascii } };
    assert_eq!(d.write().lines().count(), 5);
}

use mono_diagram::{GanttDiagram, GanttError, Period, Ratio};

fn period(task: &str, s: (u32, u32), e: (u32, u32)) -> Period {
    Period {
        task: task.to_string(),
        start: Ratio { num: s.0, den: s.1 },
        end: Ratio { num: e.0, den: e.1 },
    }
}

#[test]
fn gantt_renders_bars() {
    let timeline = vec!["Q1".to_string(), "Q2".to_string()];
    let tasks = vec![period("a", (0, 1), (1, 1)), period("bb", (1, 2), (2, 1))];
    let g = GanttDiagram::new(timeline, tasks, Attrib { style: Style::Ascii }).unwrap();
    let mut expected = String::new();
    expected += &format!("    |{}Q1{}|{}Q2{}\n", " ".repeat(7), " ".repeat(8), " ".repeat(7), " ".repeat(8));
    expected += &format!("----+{}+{}-\n", "-".repeat(17), "-".repeat(17));
    expected += &format!("  a |<{}>\n", "=".repeat(17));
    expected += &format!(" bb |{}<{}>\n", " ".repeat(9), "=".repeat(26));
    expected += "    |\n";
    assert_eq!(g.write(), expected);
}

#[test]
fn gantt_ticks_mark_slot_ends() {
    let timeline: Vec<String> = (1..=20).map(|i| format!("{}", i % 10)).collect();
    let tasks = vec![period("t", (2, 1), (3, 1))];
    let g = GanttDiagram::new(timeline, tasks, Attrib { style: Style::Unicode }).unwrap();
    let text = g.write();
    let line = text.lines().nth(2).unwrap();
    let expected = format!(" t │    ·    ·[{}]   ·", "━".repeat(4));
    assert!(line.starts_with(&expected));
}

#[test]
fn gantt_errors() {
    let a = Attrib { style: Style::Ascii };
    let tl = || vec!["x".to_string(), "y".to_string()];
    assert!(matches!(
        GanttDiagram::new(tl(), vec![period("t", (1, 1), (1, 1))], a),
        Err(GanttError::EndNotAfterStart(0))
    ));
    assert!(matches!(
        GanttDiagram::new(tl(), vec![period("t", (0, 1), (3, 1))], a),
        Err(GanttError::EndBeyondTimeline(0))
    ));
    assert!(matches!(
        GanttDiagram::new(tl(), vec![period("t", (0, 0), (1, 1))], a),
        Err(GanttError::ZeroDenominator(0))
    ));
}

#[test]
fn padding_counts_bytes() {
    assert_eq!(pad_string_center("é", 3, '<', '>'), "é>");
    assert_eq!(pad_string_right("é", 2, '-'), "é");
    assert_eq!(pad_string_left("é", 3, '-'), "-é");
}
