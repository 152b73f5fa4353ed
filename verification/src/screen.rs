use vstd::prelude::*;
use crate::model::Event;
use crate::context::Context;

verus! {

// The per-screen states of the client and the part of their message handling
// that changes state. Each screen is a plain struct; each message is a plain
// tagged union; rendering and command dispatch stay outside.

/// Messages of the login screen.
#[derive(Debug, Clone)]
pub enum LoginMessage {
    SecretKeyChanged(String),
    ButtonPressed,
}

/// The login screen: the typed secret key and the last error shown.
#[derive(Debug)]
pub struct LoginState {
    secret_key: String,
    error: Option<String>,
}

impl LoginState {
    /// The typed secret key.
    pub closed spec fn spec_secret_key(self) -> Seq<char> {
        self.secret_key@
    }

    /// The error on display, if any.
    pub closed spec fn spec_error(self) -> Option<Seq<char>> {
        self.error.deep_view()
    }

    /// A fresh login screen: nothing typed, no error.
    pub fn new() -> (r: LoginState)
        ensures
            r.spec_secret_key() == Seq::<char>::empty(),
            r.spec_error() is None,
    {
        LoginState { secret_key: String::new(), error: None }
    }

    /// Forgets the typed key and the error.
    pub fn clear(&mut self)
        ensures
            final(self).spec_secret_key() == Seq::<char>::empty(),
            final(self).spec_error() is None,
    {
        self.secret_key = String::new();
        self.error = None;
    }

    /// The state change of one login message: typing replaces the key; the
    /// button itself changes nothing here (submission is the caller's side
    /// effect).
    pub fn update(&mut self, message: LoginMessage)
        ensures
            match message {
                LoginMessage::SecretKeyChanged(s) => final(self).spec_secret_key() == s@ && final(self).spec_error() == old(self).spec_error(),
                LoginMessage::ButtonPressed => *final(self) == *old(self),
            },
    {
        match message {
            LoginMessage::SecretKeyChanged(s) => {
                self.secret_key = s;
            },
            LoginMessage::ButtonPressed => {},
        }
    }

    /// The typed secret key, for the caller that submits it.
    pub fn secret_key(&self) -> (r: &String)
        ensures
            r@ == self.spec_secret_key(),
    {
        &self.secret_key
    }

    /// Shows an error on the login screen.
    pub fn set_error(&mut self, error: Option<String>)
        ensures
            final(self).spec_error() == error.deep_view(),
            final(self).spec_secret_key() == old(self).spec_secret_key(),
    {
        self.error = error;
    }
}

/// Messages of the chat screen; none change its state directly.
#[derive(Debug, Clone)]
pub enum ChatMessage {
    Noop,
}

/// The chat screen: the direct-message events on display.
#[derive(Debug)]
pub struct ChatState {
    events: Vec<Event>,
    error: Option<String>,
}

impl ChatState {
    /// How many events the screen holds.
    pub closed spec fn spec_len(self) -> nat {
        self.events@.len()
    }

    pub fn new() -> (r: ChatState)
        ensures
            r.spec_len() == 0,
    {
        ChatState { events: Vec::new(), error: None }
    }

    pub fn clear(&mut self)
        ensures
            final(self).spec_len() == 0,
    {
        self.events = Vec::new();
        self.error = None;
    }

    /// Appends one freshly delivered event.
    pub fn push_event(&mut self, event: Event)
        ensures
            final(self).spec_len() == old(self).spec_len() + 1,
    {
        self.events.push(event);
    }
}

/// Messages of the explore screen; none yet.
#[derive(Debug, Clone)]
pub enum ExploreMessage {
    Noop,
}

/// The explore screen holds no state yet.
#[derive(Debug)]
pub struct ExploreState {}

impl ExploreState {
    pub fn new() -> (r: ExploreState) {
        ExploreState {  }
    }
}

/// Messages of the notifications screen; none yet.
#[derive(Debug, Clone)]
pub enum NotificationsMessage {
    Noop,
}

/// The notifications screen holds no state yet.
#[derive(Debug)]
pub struct NotificationsState {}

impl NotificationsState {
    pub fn new() -> (r: NotificationsState) {
        NotificationsState {  }
    }
}

/// Messages of the profile screen; none yet.
#[derive(Debug, Clone)]
pub enum ProfileMessage {
    Noop,
}

/// The profile screen holds no state yet.
#[derive(Debug)]
pub struct ProfileState {}

impl ProfileState {
    pub fn new() -> (r: ProfileState) {
        ProfileState {  }
    }
}

/// The settings screen holds no state of its own.
#[derive(Debug)]
pub struct SettingState {}

impl SettingState {
    pub fn new() -> (r: SettingState) {
        SettingState {  }
    }
}

/// The whole client: authenticating, or on the dashboard.
#[derive(Debug)]
pub enum NostrDesktop {
    Auth(LoginState),
    Dashboard(Context),
}

impl NostrDesktop {
    /// The client starts at the login screen.
    pub fn new() -> (r: NostrDesktop)
        ensures
            r matches NostrDesktop::Auth(login) && login.spec_secret_key()
                == Seq::<char>::empty(),
    {
        NostrDesktop::Auth(LoginState::new())
    }

    /// A successful login moves to the dashboard.
    pub fn login(self, context: Context) -> (r: NostrDesktop)
        ensures
            r == NostrDesktop::Dashboard(context),
    {
        NostrDesktop::Dashboard(context)
    }

    /// Locking tears the session down to a fresh login screen.
    pub fn lock(self) -> (r: NostrDesktop)
        ensures
            r matches NostrDesktop::Auth(login) && login.spec_secret_key()
                == Seq::<char>::empty(),
    {
        NostrDesktop::Auth(LoginState::new())
    }
}

} // verus!
