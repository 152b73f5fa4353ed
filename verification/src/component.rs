use vstd::prelude::*;
use crate::context::{Context, Stage, Menu};

verus! {

// The layout components of the dashboard, as plain values: the shell around a
// screen's content, its navigation bar, and the sidebar of menu entries.
// Rendering them is the surrounding process's business.

/// The dashboard shell around every menu screen.
#[derive(Debug, Clone, Copy, PartialEq, Eq, Structural)]
pub struct Dashboard {}

impl Dashboard {
    pub fn new() -> (r: Dashboard) {
        Dashboard {  }
    }
}

/// The navigation bar of the dashboard.
#[derive(Debug, Clone, Copy, PartialEq, Eq, Structural)]
pub struct Navbar {}

impl Navbar {
    pub fn new() -> (r: Navbar) {
        Navbar {  }
    }
}

/// The sidebar of menu entries.
#[derive(Debug, Clone, Copy, PartialEq, Eq, Structural)]
pub struct Sidebar {}

impl Sidebar {
    pub fn new() -> (r: Sidebar) {
        Sidebar {  }
    }

    /// The state change of choosing a menu entry.
    pub fn select(&self, context: &mut Context, menu: Menu)
        ensures
            final(context).stage == Stage::Menu(menu),
    {
        context.set_stage(Stage::Menu(menu));
    }
}

} // verus!
