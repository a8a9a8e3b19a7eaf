//! The tray menu: what each entry does.

use vstd::prelude::*;

use crate::text::str_eq;

verus! {

/// What a tray menu entry asks for.
#[derive(Clone, Copy, Debug, PartialEq, Eq)]
pub enum TrayAction {
    /// Show and focus the main window.
    ShowWindow,
    /// Quit the application.
    Quit,
    /// Nothing.
    Ignore,
}

/// The action of the tray menu entry with this id: `show` shows the window,
/// `quit` quits, any other id does nothing.
pub fn tray_menu_action(id: &str) -> (a: TrayAction)
    ensures
        a == if id@ == "show"@ {
            TrayAction::ShowWindow
        } else if id@ == "quit"@ {
            TrayAction::Quit
        } else {
            TrayAction::Ignore
        },
{
    if str_eq(id, "show") {
        TrayAction::ShowWindow
    } else if str_eq(id, "quit") {
        TrayAction::Quit
    } else {
        TrayAction::Ignore
    }
}

/// The action of a click on the tray icon: releasing the left button shows the
/// window (restoring it from the tray); any other click does nothing.
pub fn tray_click_action(left_button: bool, released: bool) -> (a: TrayAction)
    ensures
        a == if left_button && released { TrayAction::ShowWindow } else { TrayAction::Ignore },
{
    if left_button && released {
        TrayAction::ShowWindow
    } else {
        TrayAction::Ignore
    }
}

} // verus!
