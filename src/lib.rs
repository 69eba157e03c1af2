//! A retained-mode widget composition and rendering engine for terminal UIs.
//!
//! Widgets live in an owned tree ([`tree`]). Each widget kind registers one
//! draw operation ([`registry`]). Each frame, [`draw::draw_hierarchy_system`]
//! walks the tree depth-first from its single root: it lays out every node's
//! children inside the node's area by the node's style ([`style`]), and
//! schedules the node's draw operation with a context holding its area
//! ([`draw::WidgetDrawContext`]). The order and coverage of a frame are
//! stated in [`traversal`]; sized widgets are placed by [`geometry`].
pub mod draw;
pub mod geometry;
mod layout;
pub mod registry;
pub mod style;
pub mod traversal;
pub mod tree;

pub use draw::{draw_hierarchy_system, find_root, DrawCall, WidgetDrawContext};
pub use geometry::{align_rect, Align, Rect, Size};
pub use ratatui::layout::{Constraint, Direction, Flex};
pub use registry::{DrawSystemId, RegisterError, WidgetRegistry, WidgetTag};
pub use style::{WidgetBundle, WidgetStyle};
pub use tree::{DespawnUI, Entity, WidgetNode, WidgetTree};
