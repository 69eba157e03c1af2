use minisong::{
    align_rect, draw_hierarchy_system, find_root, Align, Constraint, DespawnUI, Direction, DrawCall,
    DrawSystemId, Entity, Flex, Rect, RegisterError, Size, WidgetBundle, WidgetDrawContext,
    WidgetRegistry, WidgetStyle, WidgetTag, WidgetTree,
};

const BLOCK: WidgetTag = WidgetTag(1);
const LABEL: WidgetTag = WidgetTag(2);
const UNKNOWN: WidgetTag = WidgetTag(99);

fn registry() -> WidgetRegistry<&'static str> {
    let mut reg = WidgetRegistry::new();
    assert_eq!(reg.register_widget(BLOCK, "block"), Ok(DrawSystemId(0)));
    assert_eq!(reg.register_widget(LABEL, "label"), Ok(DrawSystemId(1)));
    reg
}

fn entities(calls: &[DrawCall]) -> Vec<usize> {
    calls.iter().map(|c| c.context.entity.0).collect()
}

fn rects(calls: &[DrawCall]) -> Vec<Rect> {
    calls.iter().map(|c| c.context.rect).collect()
}

#[test]
fn rect_and_size_constructors() {
    assert_eq!(Rect::new(1, 2, 3, 4), Rect { x: 1, y: 2, width: 3, height: 4 });
    assert_eq!(Size::new(5, 6), Size { width: 5, height: 6 });
    assert_eq!(Size::rect(7), Size { width: 7, height: 7 });
}

#[test]
fn align_start_center_end() {
    let area = Rect::new(2, 1, 11, 5);
    let size = Size::new(4, 1);
    assert_eq!(align_rect(area, size, Align::Start, Align::Start), Rect::new(2, 1, 4, 1));
    assert_eq!(align_rect(area, size, Align::Center, Align::Center), Rect::new(5, 3, 4, 1));
    assert_eq!(align_rect(area, size, Align::End, Align::End), Rect::new(9, 5, 4, 1));
}

#[test]
fn align_center_rounds_down() {
    // spare extent 5 on the horizontal axis: offset floor(5 / 2) = 2
    let area = Rect::new(0, 0, 9, 3);
    assert_eq!(align_rect(area, Size::new(4, 3), Align::Center, Align::Start), Rect::new(2, 0, 4, 3));
}

#[test]
fn align_oversized_content_is_clipped_to_area() {
    let area = Rect::new(3, 4, 10, 2);
    assert_eq!(align_rect(area, Size::new(50, 9), Align::End, Align::Center), area);
    assert_eq!(align_rect(area, Size::new(usize::MAX, 0), Align::Center, Align::End), Rect::new(3, 6, 10, 0));
}

#[test]
fn draw_sized_centers_and_ends() {
    let style = WidgetStyle { align_horizontal: Align::Center, ..WidgetStyle::default() };
    let ctx = WidgetDrawContext::new(Entity(3), Rect::new(10, 0, 20, 4), style);
    let got = ctx.draw_sized(Size::new(6, 4), |r| r);
    assert_eq!(got, Rect::new(17, 0, 6, 4));

    let style = WidgetStyle { align_horizontal: Align::End, align_vertical: Align::End, ..style };
    let ctx = WidgetDrawContext::new(Entity(3), Rect::new(10, 0, 20, 4), style);
    assert_eq!(ctx.draw_sized(Size::new(6, 1), |r| r), Rect::new(24, 3, 6, 1));
    assert_eq!(ctx.sized_rect(Size::new(6, 1)), Rect::new(24, 3, 6, 1));
}

#[test]
fn draw_passes_whole_area() {
    let ctx = WidgetDrawContext::new(Entity(0), Rect::new(1, 2, 3, 4), WidgetStyle::default());
    assert_eq!(ctx.draw(|r| r), Rect::new(1, 2, 3, 4));
    assert_eq!(ctx.rect(), Rect::new(1, 2, 3, 4));
    assert_eq!(ctx.entity(), Entity(0));
}

#[test]
fn default_style() {
    let style = WidgetStyle::default();
    assert_eq!(style.align_horizontal, Align::Start);
    assert_eq!(style.align_vertical, Align::Start);
    assert_eq!(style.constraint, Constraint::Percentage(100));
    assert_eq!(style.content_direction, Direction::Vertical);
    assert_eq!(style.content_flex, Flex::Start);
}

#[test]
fn bundle_builders_set_one_field_each() {
    let b = WidgetBundle::from("x")
        .align_horizontal(Align::Center)
        .align_vertical(Align::End)
        .constraint(Constraint::Length(3))
        .content_direction(Direction::Horizontal)
        .content_flex(Flex::SpaceEvenly);
    assert_eq!(b.widget, "x");
    assert_eq!(b.style.align_horizontal, Align::Center);
    assert_eq!(b.style.align_vertical, Align::End);
    assert_eq!(b.style.constraint, Constraint::Length(3));
    assert_eq!(b.style.content_direction, Direction::Horizontal);
    assert_eq!(b.style.content_flex, Flex::SpaceEvenly);
    let d: WidgetBundle<u8> = WidgetBundle::new();
    assert_eq!(d.widget, 0);
}

#[test]
fn reregistration_is_rejected_and_keeps_first() {
    let mut reg = registry();
    assert_eq!(reg.register_widget(BLOCK, "other"), Err(RegisterError::AlreadyRegistered(BLOCK)));
    assert_eq!(reg.len(), 2);
    assert_eq!(reg.get_draw_system_id(BLOCK), Some(DrawSystemId(0)));
    assert_eq!(*reg.draw_system(DrawSystemId(0)), "block");
    assert_eq!(reg.get_draw_system_id(UNKNOWN), None);
}

#[test]
fn spawn_child_links_nodes() {
    let mut tree = WidgetTree::new();
    let root = tree.spawn(BLOCK, WidgetBundle::from(0u8));
    let a = tree.spawn_child(root, LABEL, WidgetBundle::from(1u8)).unwrap();
    let b = tree.spawn_child(root, LABEL, WidgetBundle::from(2u8)).unwrap();
    assert_eq!((root, a, b), (Entity(0), Entity(1), Entity(2)));
    assert_eq!(tree.node(root).children, vec![1, 2]);
    assert_eq!(tree.node(b).parent, Some(0));
    assert_eq!(tree.spawn_child(Entity(7), LABEL, WidgetBundle::from(3u8)), None);
    assert_eq!(tree.len(), 3);
    *tree.widget_mut(a) = 9;
    assert_eq!(tree.node(a).widget, 9);
    tree.set_style(a, WidgetStyle { align_vertical: Align::End, ..WidgetStyle::default() });
    assert_eq!(tree.node(a).style.align_vertical, Align::End);
    DespawnUI.apply(&mut tree);
    assert_eq!(tree.len(), 0);
}

#[test]
fn empty_tree_skips_frame() {
    let tree: WidgetTree<u8> = WidgetTree::new();
    assert_eq!(find_root(&tree), None);
    assert!(draw_hierarchy_system(&tree, &registry(), Rect::new(0, 0, 10, 10)).is_none());
}

#[test]
fn two_roots_skip_frame() {
    let mut tree = WidgetTree::new();
    tree.spawn(BLOCK, WidgetBundle::from(0u8));
    tree.spawn(LABEL, WidgetBundle::from(1u8));
    assert_eq!(find_root(&tree), None);
    assert!(draw_hierarchy_system(&tree, &registry(), Rect::new(0, 0, 10, 10)).is_none());
}

#[test]
fn frame_draws_in_preorder() {
    let mut tree = WidgetTree::new();
    let root = tree.spawn(BLOCK, WidgetBundle::from(0u8));
    let a = tree.spawn_child(root, BLOCK, WidgetBundle::from(1u8)).unwrap();
    let b = tree.spawn_child(root, LABEL, WidgetBundle::from(2u8)).unwrap();
    let a1 = tree.spawn_child(a, LABEL, WidgetBundle::from(3u8)).unwrap();
    let _b1 = tree.spawn_child(b, LABEL, WidgetBundle::from(4u8)).unwrap();
    let _a2 = tree.spawn_child(a, LABEL, WidgetBundle::from(5u8)).unwrap();
    let _a11 = tree.spawn_child(a1, LABEL, WidgetBundle::from(6u8)).unwrap();
    assert_eq!(find_root(&tree), Some(root));
    let reg = registry();
    let calls = draw_hierarchy_system(&tree, &reg, Rect::new(0, 0, 40, 20)).unwrap();
    assert_eq!(entities(&calls), vec![0, 1, 3, 6, 5, 2, 4]);
    let systems: Vec<&str> = calls.iter().map(|c| *reg.draw_system(c.system)).collect();
    assert_eq!(systems, vec!["block", "block", "label", "label", "label", "label", "label"]);
    assert_eq!(calls[0].context.rect, Rect::new(0, 0, 40, 20));
}

#[test]
fn unregistered_kind_skips_only_its_subtree() {
    let mut tree = WidgetTree::new();
    let root = tree.spawn(BLOCK, WidgetBundle::from(0u8));
    let lost = tree.spawn_child(root, UNKNOWN, WidgetBundle::from(1u8)).unwrap();
    let _sibling = tree.spawn_child(root, LABEL, WidgetBundle::from(2u8)).unwrap();
    let _below_lost = tree.spawn_child(lost, LABEL, WidgetBundle::from(3u8)).unwrap();
    let calls = draw_hierarchy_system(&tree, &registry(), Rect::new(0, 0, 10, 10)).unwrap();
    assert_eq!(entities(&calls), vec![0, 2]);
}

#[test]
fn unregistered_root_draws_nothing() {
    let mut tree = WidgetTree::new();
    let root = tree.spawn(UNKNOWN, WidgetBundle::from(0u8));
    tree.spawn_child(root, LABEL, WidgetBundle::from(1u8));
    let calls = draw_hierarchy_system(&tree, &registry(), Rect::new(0, 0, 10, 10)).unwrap();
    assert!(calls.is_empty());
}

#[test]
fn two_halves_split_width_ten() {
    let mut tree = WidgetTree::new();
    let root = tree.spawn(BLOCK, WidgetBundle::from(0u8).content_direction(Direction::Horizontal));
    tree.spawn_child(root, LABEL, WidgetBundle::from(1u8).constraint(Constraint::Percentage(50)));
    tree.spawn_child(root, LABEL, WidgetBundle::from(2u8).constraint(Constraint::Percentage(50)));
    let calls = draw_hierarchy_system(&tree, &registry(), Rect::new(0, 0, 10, 3)).unwrap();
    assert_eq!(
        rects(&calls),
        vec![Rect::new(0, 0, 10, 3), Rect::new(0, 0, 5, 3), Rect::new(5, 0, 5, 3)]
    );
}

#[test]
fn half_of_odd_axis_rounds_half_up() {
    // 50% of 81 cells is 40.5; the layout solver rounds it to the nearest
    // cell, halves away from zero, so the child gets 41 cells
    let mut tree = WidgetTree::new();
    let root = tree.spawn(BLOCK, WidgetBundle::from(0u8).content_direction(Direction::Horizontal));
    tree.spawn_child(root, LABEL, WidgetBundle::from(1u8).constraint(Constraint::Percentage(50)));
    let calls = draw_hierarchy_system(&tree, &registry(), Rect::new(0, 0, 81, 1)).unwrap();
    assert_eq!(calls[1].context.rect, Rect::new(0, 0, 41, 1));
}

#[test]
fn fixed_lengths_pack_at_start() {
    let mut tree = WidgetTree::new();
    let root = tree.spawn(
        BLOCK,
        WidgetBundle::from(0u8).content_direction(Direction::Horizontal).content_flex(Flex::Start),
    );
    for (i, len) in [3u16, 4, 5].into_iter().enumerate() {
        tree.spawn_child(root, LABEL, WidgetBundle::from(i as u8).constraint(Constraint::Length(len)));
    }
    let calls = draw_hierarchy_system(&tree, &registry(), Rect::new(2, 1, 20, 2)).unwrap();
    assert_eq!(
        rects(&calls[1..]),
        vec![Rect::new(2, 1, 3, 2), Rect::new(5, 1, 4, 2), Rect::new(9, 1, 5, 2)]
    );
}

#[test]
fn vertical_split_keeps_width() {
    let mut tree = WidgetTree::new();
    let root = tree.spawn(BLOCK, WidgetBundle::from(0u8));
    tree.spawn_child(root, LABEL, WidgetBundle::from(1u8).constraint(Constraint::Length(2)));
    tree.spawn_child(root, LABEL, WidgetBundle::from(2u8).constraint(Constraint::Fill(1)));
    let calls = draw_hierarchy_system(&tree, &registry(), Rect::new(4, 0, 7, 10)).unwrap();
    assert_eq!(rects(&calls[1..]), vec![Rect::new(4, 0, 7, 2), Rect::new(4, 2, 7, 8)]);
}

#[test]
fn nested_areas_come_from_parent_area() {
    let mut tree = WidgetTree::new();
    let root = tree.spawn(BLOCK, WidgetBundle::from(0u8).content_direction(Direction::Horizontal));
    let left = tree
        .spawn_child(root, BLOCK, WidgetBundle::from(1u8).constraint(Constraint::Length(6)))
        .unwrap();
    tree.spawn_child(left, LABEL, WidgetBundle::from(2u8).constraint(Constraint::Length(1)));
    let calls = draw_hierarchy_system(&tree, &registry(), Rect::new(0, 0, 20, 5)).unwrap();
    assert_eq!(entities(&calls), vec![0, 1, 2]);
    assert_eq!(calls[1].context.rect, Rect::new(0, 0, 6, 5));
    assert_eq!(calls[2].context.rect, Rect::new(0, 0, 6, 1));
}

#[test]
fn each_call_records_its_childrens_areas() {
    let mut tree = WidgetTree::new();
    let root = tree.spawn(BLOCK, WidgetBundle::from(0u8).content_direction(Direction::Horizontal));
    tree.spawn_child(root, LABEL, WidgetBundle::from(1u8).constraint(Constraint::Length(4)));
    tree.spawn_child(root, UNKNOWN, WidgetBundle::from(2u8).constraint(Constraint::Length(2)));
    let calls = draw_hierarchy_system(&tree, &registry(), Rect::new(0, 0, 10, 1)).unwrap();
    assert_eq!(calls[0].child_areas, vec![Rect::new(0, 0, 4, 1), Rect::new(4, 0, 2, 1)]);
    assert_eq!(calls[1].context.rect, calls[0].child_areas[0]);
    assert!(calls[1].child_areas.is_empty());
    assert_eq!(calls.len(), 2);
}

#[test]
fn despawned_tree_skips_frame() {
    let mut tree = WidgetTree::new();
    let root = tree.spawn(BLOCK, WidgetBundle::from(0u8));
    tree.spawn_child(root, LABEL, WidgetBundle::from(1u8));
    assert!(draw_hierarchy_system(&tree, &registry(), Rect::new(0, 0, 5, 5)).is_some());
    DespawnUI.apply(&mut tree);
    assert!(draw_hierarchy_system(&tree, &registry(), Rect::new(0, 0, 5, 5)).is_none());
}

#[test]
fn tags_and_handles() {
    assert_eq!(WidgetTag::new(7), WidgetTag(7));
    let mut reg: WidgetRegistry<u32> = WidgetRegistry::new();
    assert_eq!(reg.len(), 0);
    assert_eq!(reg.register_widget(WidgetTag::new(5), 50), Ok(DrawSystemId(0)));
    assert_eq!(reg.register_widget(WidgetTag::new(6), 60), Ok(DrawSystemId(1)));
    assert_eq!(reg.register_widget(WidgetTag::new(5), 70), Err(RegisterError::AlreadyRegistered(WidgetTag(5))));
    assert_eq!(*reg.draw_system(DrawSystemId(1)), 60);
    assert_eq!(*reg.draw_system(DrawSystemId(0)), 50);
}

#[test]
fn single_node_is_drawn_in_whole_area() {
    let mut tree = WidgetTree::new();
    tree.spawn(LABEL, WidgetBundle::from(0u8).align_horizontal(Align::End));
    let calls = draw_hierarchy_system(&tree, &registry(), Rect::new(3, 4, 30, 2)).unwrap();
    assert_eq!(calls.len(), 1);
    assert_eq!(calls[0].system, DrawSystemId(1));
    assert_eq!(calls[0].context.rect, Rect::new(3, 4, 30, 2));
    assert_eq!(calls[0].context.sized_rect(Size::new(5, 1)), Rect::new(28, 4, 5, 1));
}
