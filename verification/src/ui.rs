//! State of the developer overlay: which of its menus is open.

use vstd::prelude::*;

verus! {

/// The menus of the developer overlay.
#[derive(Eq, PartialEq, Structural, Debug, Clone, Copy)]
pub enum DevUiMenu {
    Hidden,
    Main,
    Camera,
    Referee,
}

/// The developer overlay: a single open menu, or hidden.
pub struct DevUi {
    pub menu: DevUiMenu,
}

impl DevUi {
    /// The overlay starts on its main menu.
    pub fn new() -> (r: DevUi)
        ensures
            r.menu == DevUiMenu::Main,
    {
        DevUi { menu: DevUiMenu::Main }
    }

    /// Hides a shown overlay; brings a hidden one back to its main menu.
    pub fn toggle(&mut self)
        ensures
            final(self).menu == if old(self).menu == DevUiMenu::Hidden {
                DevUiMenu::Main
            } else {
                DevUiMenu::Hidden
            },
    {
        self.menu = if self.show() {
            DevUiMenu::Hidden
        } else {
            DevUiMenu::Main
        };
    }

    /// Whether the overlay is shown.
    pub fn show(&self) -> (r: bool)
        ensures
            r == (self.menu != DevUiMenu::Hidden),
    {
        !(self.menu == DevUiMenu::Hidden)
    }
}

} // verus!
