//! Layered drawing of directed acyclic graphs on a character grid.
//!
//! The pipeline runs leveling, placeholder insertion, crossing
//! minimisation, placement, connector routing and rendering, each stage a
//! verified function over an arena of vertex records and a list of edge
//! records.

mod graph;
mod crossing;
mod level;
mod dummy;
mod order;
mod minimize;
mod place;
mod route;
mod render;
pub mod dag;
mod text;
mod tree;
mod attrib;
mod table;
mod grid;
mod timeline;
mod gantt;
mod binary_tree;

pub use graph::{init_dag, replace_text, DAG, Edge, Graph, GraphVertex, MAX_ITEMS, Vertex};
pub use crossing::{crossings, has_crossing};
pub use level::{assign_level, lemma_cycle_has_no_layering, CyclicGraphError};
pub use dummy::{add_dummy, dummy_count};
pub use order::{
    cal_crossings, cal_crossings_levels, get_perm_levels, get_positions,
    lemma_layer_positions_are_permutation,
};
pub use minimize::{copy_layers, count_crossings, initial_ranks, minimize_crossings, minimize_crossings_with, random_draws, reorder_level, shuffle_level};
pub use place::{layout_fits, place_node, MAX_COORD, PADDING, ROW_HEIGHT};
pub use route::{add_connections, overlap, Connection};
pub use render::{glyph, render, Style};
pub use dag::{grid_text, DagGraph, LayoutError};
pub use text::{add_prefix, pad_string_center, pad_string_left, pad_string_right};
pub use tree::{Table, TableCell, TreeNode};
pub use attrib::{init_diagram, Attrib, DiagramKind, ParseStyleError};
pub use table::TableDiagram;
pub use grid::{GridDiagram, GridError, MAX_CELL_WIDTH};
pub use timeline::{TimelineDiagram, TimelineError};
pub use gantt::{get_time_width, GanttDiagram, GanttError, Period, Ratio};
pub use binary_tree::{construct_tree, BinaryTreeDiagram};
