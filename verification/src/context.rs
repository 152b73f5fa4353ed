use vstd::prelude::*;

verus! {

// The navigation state machine of the surrounding client, modeled as plain
// tagged unions: which screen is shown and how it changes. Rendering is the
// surrounding process's business; the state and its transitions live here.

/// The settings subscreens.
#[derive(Debug, Clone, Copy, PartialEq, Eq, Structural)]
pub enum Setting {
    Main,
    Relays,
}

/// The dashboard menu screens.
#[derive(Debug, Clone, Copy, PartialEq, Eq, Structural)]
pub enum Menu {
    Home,
    Explore,
    Chats,
    Contacts,
    Notifications,
    Profile,
    Setting(Setting),
}

/// Where the client stands: authentication or one of the menu screens.
#[derive(Debug, Clone, Copy, PartialEq, Eq, Structural)]
pub enum Stage {
    Login,
    Register,
    Menu(Menu),
}

impl Default for Stage {
    /// The client starts at the login screen.
    fn default() -> (r: Stage)
        ensures
            r == Stage::Login,
    {
        Stage::Login
    }
}

/// The navigation context: the current stage.
#[derive(Debug, Clone, Copy, PartialEq, Eq, Structural)]
pub struct Context {
    pub stage: Stage,
}

impl Context {
    pub fn new(stage: Stage) -> (r: Context)
        ensures
            r.stage == stage,
    {
        Context { stage }
    }

    pub fn set_stage(&mut self, stage: Stage)
        ensures
            final(self).stage == stage,
    {
        self.stage = stage;
    }
}

} // verus!
