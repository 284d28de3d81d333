//! Rectangle arithmetic: edges, inclusive overlap, containment, and the
//! corner-normalizing constructor.

use platformer_core::editor::{ComponentsWrapper, ImGuiMemoryHelper};
use platformer_core::math::Rect;
use platformer_core::rect::RectComponent;

#[test]
fn edges_and_moves() {
    let mut r = Rect::new(10, 20, 30, 40);
    assert_eq!(r.left(), 10);
    assert_eq!(r.right(), 40);
    assert_eq!(r.top(), 20);
    assert_eq!(r.bottom(), 60);
    r.move_by(-10, 5);
    assert_eq!((r.x, r.y), (0, 25));
    r.move_to(7, 8);
    assert_eq!((r.x, r.y), (7, 8));
    r.resize_by(3, -10);
    assert_eq!((r.w, r.h), (33, 30));
    r.resize_to(1, 2);
    assert_eq!((r.w, r.h), (1, 2));
}

#[test]
fn overlap_is_inclusive_at_edges() {
    let a = Rect::new(0, 0, 100, 100);
    assert!(a.overlaps(&Rect::new(100, 0, 50, 50))); // touching right edge
    assert!(a.overlaps(&Rect::new(0, 100, 50, 50))); // touching bottom edge
    assert!(a.overlaps(&Rect::new(50, 50, 10, 10))); // contained
    assert!(!a.overlaps(&Rect::new(101, 0, 50, 50)));
    assert!(!a.overlaps(&Rect::new(0, -51, 50, 50)));
}

#[test]
fn containment() {
    let a = Rect::new(0, 0, 100, 100);
    assert!(a.contains_pt(0, 0));
    assert!(a.contains_pt(100, 100));
    assert!(!a.contains_pt(101, 50));
    assert!(a.contains_rect(&Rect::new(10, 10, 80, 80)));
    assert!(a.contains_rect(&Rect::new(0, 0, 100, 100)));
    assert!(!a.contains_rect(&Rect::new(50, 50, 100, 10)));
}

#[test]
fn from_points_normalizes_corners() {
    let r = Rect::from_points((50, 60), (10, 20));
    assert_eq!((r.x, r.y, r.w, r.h), (10, 20, 40, 40));
    let r = Rect::from_points((10, 60), (50, 20));
    assert_eq!((r.x, r.y, r.w, r.h), (10, 20, 40, 40));
    let r = Rect::from((3, 4), (5, 6));
    assert_eq!((r.x, r.y, r.w, r.h), (3, 4, 5, 6));
}

#[test]
fn rect_component_accessors() {
    let mut rc = RectComponent::new(Rect::new(1, 2, 3, 4));
    assert_eq!(rc.pos(), (1, 2));
    assert_eq!(rc.size(), (3, 4));
    rc.move_by(9, 9);
    assert_eq!(rc.pos(), (10, 11));
    rc.move_to(0, 0);
    assert_eq!(rc.get_rect(), Rect::new(0, 0, 3, 4));
    rc.get_rect_mut().resize_to(7, 7);
    assert_eq!(rc.size(), (7, 7));
    assert_eq!(RectComponent::default().get_rect(), Rect::new(0, 0, 0, 0));
}

#[test]
fn editor_helper_defaults() {
    let h = ImGuiMemoryHelper::new();
    assert!(!h.select_entity_view_show_window);
    assert!(!h.select_entity_view_add_component_popup_show);
    assert_eq!(h.select_entity_view_component_selected, ComponentsWrapper::Rect);
    assert_eq!(h.select_entity_view_add_component_popup_selected, ComponentsWrapper::Rect);
}
