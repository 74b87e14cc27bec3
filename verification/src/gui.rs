//! How a GUI square reacts to the mouse, and the font sizes that text is
//! built at.
use vstd::prelude::*;

verus! {

/// A font size in pixels; text builders are kept per size.
#[derive(PartialEq, Hash, Debug, Eq, Copy, Clone, Structural)]
pub struct FontSize(pub u32);

/// What the mouse is doing to a GUI item.
#[derive(Debug, Clone, Copy, PartialEq, Eq, Structural)]
pub enum GuiItemClickState {
    Default,
    Hover,
    Click,
}

/// The state an item moves to: clicked while the left button is down over
/// it, hovered while the mouse is over it, otherwise default.
pub open spec fn spec_next_click_state(hovered: bool, left_down: bool) -> GuiItemClickState {
    if left_down {
        GuiItemClickState::Click
    } else if hovered {
        GuiItemClickState::Hover
    } else {
        GuiItemClickState::Default
    }
}

/// Reacts to the mouse: returns the item's new state and whether it
/// changed, in which case the item shows that state's texture.
pub fn react_click_state(current: GuiItemClickState, hovered: bool, left_down: bool) -> (r: (
    GuiItemClickState,
    bool,
))
    ensures
        r.0 == spec_next_click_state(hovered, left_down),
        r.1 == (r.0 != current),
{
    let mut new_state = current;
    let mut no_event = true;
    if hovered {
        no_event = false;
        new_state = GuiItemClickState::Hover;
    }
    if left_down {
        no_event = false;
        new_state = GuiItemClickState::Click;
    }
    if no_event {
        new_state = GuiItemClickState::Default;
    }
    let changed = new_state != current;
    (new_state, changed)
}

} // verus!
