use vstd::prelude::*;

use crate::geometry::Rect;

verus! {

/// A sizing rule that a child contributes to its parent's layout pass
/// (fixed length, percentage, ratio, fill weight, minimum or maximum).
#[verifier::external_type_specification]
#[verifier::external_body]
pub struct ExConstraint(ratatui::layout::Constraint);

/// The axis along which a node's children are laid out.
#[verifier::external_type_specification]
#[verifier::external_body]
pub struct ExDirection(ratatui::layout::Direction);

/// The packing policy for a node's children along the layout axis.
#[verifier::external_type_specification]
#[verifier::external_body]
pub struct ExFlex(ratatui::layout::Flex);

/// Relies on ratatui's `Constraint::default`; the value is only carried.
pub assume_specification[ <ratatui::layout::Constraint as core::default::Default>::default ]() -> ratatui::layout::Constraint;

/// Relies on ratatui's `Direction::default`; the value is only carried.
pub assume_specification[ <ratatui::layout::Direction as core::default::Default>::default ]() -> ratatui::layout::Direction;

/// Relies on ratatui's `Flex::default`; the value is only carried.
pub assume_specification[ <ratatui::layout::Flex as core::default::Default>::default ]() -> ratatui::layout::Flex;

/// Relies on ratatui's `Layout::split`: it returns one rectangle per
/// constraint, in the constraints' order (one segment per constraint in
/// `try_split`). Which rectangles is the solver's business, and may differ
/// between processes where the constraints leave a choice (its maps are
/// seeded per process), so nothing more is stated. The solver's required
/// constraints never conflict, so it does not panic.
#[verifier::external_body]
pub(crate) fn split_area(
    area: Rect,
    direction: ratatui::layout::Direction,
    flex: ratatui::layout::Flex,
    constraints: &Vec<ratatui::layout::Constraint>,
) -> (r: Vec<Rect>)
    ensures
        r@.len() == constraints@.len(),
{
    let outer = ratatui::layout::Rect {
        x: area.x,
        y: area.y,
        width: area.width,
        height: area.height,
    };
    let layout = ratatui::layout::Layout::default().direction(direction).flex(flex);
    let parts = layout.constraints(constraints.iter().copied()).split(outer);
    parts.iter().map(|p| Rect { x: p.x, y: p.y, width: p.width, height: p.height }).collect()
}

} // verus!
