//! Small state carried by the level editor's panels between frames: which
//! font a panel uses, which component kind is selected, and which windows
//! are open. The panels themselves live outside the library.

use vstd::prelude::*;

verus! {

/// The fonts the editor panels can ask for.
#[derive(Clone, Copy, Debug)]
pub enum ImGuiFonts {
    Default,
    Big,
}

/// The component kinds an entity panel can select for editing or adding.
#[derive(Clone, Copy, Debug, PartialEq, Eq, Structural)]
pub enum ComponentsWrapper {
    Rect,
    Input,
    Physics,
}

/// Panel state remembered across frames by the entity-selection view.
pub struct ImGuiMemoryHelper {
    pub select_entity_view_show_window: bool,
    pub select_entity_view_component_selected: ComponentsWrapper,
    pub select_entity_view_add_component_popup_selected: ComponentsWrapper,
    pub select_entity_view_add_component_popup_show: bool,
}

impl ImGuiMemoryHelper {
    pub fn new() -> (h: ImGuiMemoryHelper)
        ensures
            !h.select_entity_view_show_window,
            h.select_entity_view_component_selected == ComponentsWrapper::Rect,
            h.select_entity_view_add_component_popup_selected == ComponentsWrapper::Rect,
            !h.select_entity_view_add_component_popup_show,
    {
        ImGuiMemoryHelper {
            select_entity_view_show_window: false,
            select_entity_view_component_selected: ComponentsWrapper::Rect,
            select_entity_view_add_component_popup_selected: ComponentsWrapper::Rect,
            select_entity_view_add_component_popup_show: false,
        }
    }
}

} // verus!
