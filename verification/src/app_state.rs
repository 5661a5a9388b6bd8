//! The application's side panels: whether each is shown, and its width.
use vstd::prelude::*;

verus! {

/// Width of a shown side panel.
pub const PANEL_WIDTH: u32 = 250;

/// Which side panels are shown.
#[derive(Debug, Clone, Copy, PartialEq, Eq, Structural)]
pub struct PanelState {
    pub left_visible: bool,
    pub right_visible: bool,
}

/// The width of a panel that is shown or not.
pub open spec fn panel_width(visible: bool) -> u32 {
    if visible {
        PANEL_WIDTH
    } else {
        0
    }
}

impl PanelState {
    /// Both panels shown.
    pub fn new() -> (r: Self)
        ensures
            r.left_visible,
            r.right_visible,
    {
        PanelState { left_visible: true, right_visible: true }
    }

    /// The left toggle was clicked: the left panel is shown or hidden, and
    /// its new width is returned.
    pub fn toggle_left(&mut self) -> (width: u32)
        ensures
            final(self).left_visible == !old(self).left_visible,
            final(self).right_visible == old(self).right_visible,
            width == panel_width(final(self).left_visible),
    {
        self.left_visible = !self.left_visible;
        if self.left_visible {
            PANEL_WIDTH
        } else {
            0
        }
    }

    /// The right toggle was clicked: the right panel is shown or hidden,
    /// and its new width is returned.
    pub fn toggle_right(&mut self) -> (width: u32)
        ensures
            final(self).right_visible == !old(self).right_visible,
            final(self).left_visible == old(self).left_visible,
            width == panel_width(final(self).right_visible),
    {
        self.right_visible = !self.right_visible;
        if self.right_visible {
            PANEL_WIDTH
        } else {
            0
        }
    }
}

impl Default for PanelState {
    fn default() -> (r: Self)
        ensures
            r.left_visible,
            r.right_visible,
    {
        Self::new()
    }
}

} // verus!
