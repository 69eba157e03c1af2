use vstd::prelude::*;

use crate::geometry::Align;
use ratatui::layout::{Constraint, Direction, Flex};

verus! {

/// Layout configuration of one widget node.
#[derive(Clone, Copy, Debug)]
pub struct WidgetStyle {
    /// Horizontal alignment of a sized widget inside its allotted area.
    pub align_horizontal: Align,
    /// Vertical alignment of a sized widget inside its allotted area.
    pub align_vertical: Align,
    /// Sizing rule for this widget's area, used by its parent's layout pass.
    pub constraint: Constraint,
    /// Axis along which this widget's children are laid out.
    pub content_direction: Direction,
    /// Packing policy for this widget's children.
    pub content_flex: Flex,
}

impl Default for WidgetStyle {
    /// Start alignment on both axes, and ratatui's default constraint
    /// (the whole axis), direction (vertical) and flex (start).
    fn default() -> (r: WidgetStyle)
        ensures
            r.align_horizontal == Align::Start,
            r.align_vertical == Align::Start,
    {
        WidgetStyle {
            align_horizontal: Align::Start,
            align_vertical: Align::Start,
            constraint: Constraint::default(),
            content_direction: Direction::default(),
            content_flex: Flex::default(),
        }
    }
}

/// A widget's kind-specific data together with its layout configuration:
/// everything needed to add one node to a widget tree.
pub struct WidgetBundle<W> {
    pub widget: W,
    pub style: WidgetStyle,
}

impl<W: Default> WidgetBundle<W> {
    /// A bundle of the kind's default data and the default style.
    pub fn new() -> (r: Self)
        ensures
            r.style.align_horizontal == Align::Start,
            r.style.align_vertical == Align::Start,
    {
        Self::from(W::default())
    }
}

impl<W> WidgetBundle<W> {
    /// A bundle of `widget` and the default style.
    pub fn from(widget: W) -> (r: Self)
        ensures
            r.widget == widget,
            r.style.align_horizontal == Align::Start,
            r.style.align_vertical == Align::Start,
    {
        WidgetBundle { widget, style: WidgetStyle::default() }
    }

    /// Replace the horizontal alignment.
    pub fn align_horizontal(self, align: Align) -> (r: Self)
        ensures
            r.widget == self.widget,
            r.style == (WidgetStyle { align_horizontal: align, ..self.style }),
    {
        WidgetBundle { style: WidgetStyle { align_horizontal: align, ..self.style }, ..self }
    }

    /// Replace the vertical alignment.
    pub fn align_vertical(self, align: Align) -> (r: Self)
        ensures
            r.widget == self.widget,
            r.style == (WidgetStyle { align_vertical: align, ..self.style }),
    {
        WidgetBundle { style: WidgetStyle { align_vertical: align, ..self.style }, ..self }
    }

    /// Replace the constraint used by the parent's layout pass.
    pub fn constraint(self, constraint: Constraint) -> (r: Self)
        ensures
            r.widget == self.widget,
            r.style == (WidgetStyle { constraint, ..self.style }),
    {
        WidgetBundle { style: WidgetStyle { constraint, ..self.style }, ..self }
    }

    /// Replace the axis along which the children are laid out.
    pub fn content_direction(self, content_direction: Direction) -> (r: Self)
        ensures
            r.widget == self.widget,
            r.style == (WidgetStyle { content_direction, ..self.style }),
    {
        WidgetBundle { style: WidgetStyle { content_direction, ..self.style }, ..self }
    }

    /// Replace the packing policy of the children.
    pub fn content_flex(self, content_flex: Flex) -> (r: Self)
        ensures
            r.widget == self.widget,
            r.style == (WidgetStyle { content_flex, ..self.style }),
    {
        WidgetBundle { style: WidgetStyle { content_flex, ..self.style }, ..self }
    }
}

} // verus!
