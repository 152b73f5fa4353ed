use nostr_desktop::component::{Dashboard, Navbar, Sidebar};
use nostr_desktop::context::{Context, Menu, Setting, Stage};
use nostr_desktop::db::Store;
use nostr_desktop::filters::{clone_filter, Filter, Filters};
use nostr_desktop::model::{Event, KIND_CONTACT_LIST, KIND_TEXT_NOTE};
use nostr_desktop::screen::{
    ChatState, ExploreState, LoginMessage, LoginState, NostrDesktop, NotificationsState,
    ProfileState, SettingState,
};
use nostr_desktop::sync::{authors_with_self, NostrSync, Notification};

fn bytes32(tag: u8) -> Vec<u8> {
    vec![tag; 32]
}

fn hex_of(bytes: &[u8]) -> String {
    let mut s = String::new();
    for b in bytes {
        s.push_str(&format!("{:02x}", b));
    }
    s
}

fn contact_list_event(id_tag: u8, author_tag: u8, created_at: u64, contacts: &[u8]) -> Event {
    let mut tags = Vec::new();
    for tag in contacts {
        tags.push(vec!["p".to_string(), hex_of(&bytes32(*tag))]);
    }
    Event {
        id: bytes32(id_tag),
        pubkey: bytes32(author_tag),
        created_at,
        kind: KIND_CONTACT_LIST,
        tags,
        content: String::new(),
        sig: vec![7u8; 64],
    }
}

fn author_set(filter: &Filter) -> Vec<Vec<u8>> {
    let mut authors = filter.authors.clone().unwrap();
    authors.sort();
    authors.dedup();
    authors
}

#[test]
fn subscription_refresh_scenario() {
    let my = bytes32(1);
    let mut store = Store::open().unwrap();
    store.set_authors(vec![my.clone()]).unwrap();

    let (mut sync, initial) = NostrSync::start(my.clone(), store.get_authors().unwrap());
    assert_eq!(initial.len(), 3);
    assert_eq!(initial[0].authors.as_deref(), Some(&[my.clone()][..]));
    assert_eq!(initial[0].limit, Some(1));
    assert_eq!(initial[1].pubkey.as_deref(), Some(&my[..]));
    assert_eq!(author_set(&initial[2]), vec![my.clone()]);

    // A tick with an unchanged author set does not resubscribe.
    assert!(sync.refresh(store.get_authors().unwrap()).is_none());

    // Ingest a contact list naming {self, X, Y}; the next tick resubscribes
    // with exactly that author set.
    let event = contact_list_event(9, 1, 100, &[1, 2, 3]);
    let forwarded = NostrSync::handle_notification(&mut store, Notification::ReceivedEvent(event));
    assert!(forwarded.is_some());
    let refreshed = sync.refresh(store.get_authors().unwrap()).unwrap();
    assert_eq!(
        author_set(&refreshed[2]),
        vec![bytes32(1), bytes32(2), bytes32(3)]
    );

    // And the tick after that is quiet again.
    assert!(sync.refresh(store.get_authors().unwrap()).is_none());
}

#[test]
fn notifications_drive_the_store() {
    let mut store = Store::open().unwrap();
    let note = Event {
        id: bytes32(4),
        pubkey: bytes32(5),
        created_at: 42,
        kind: KIND_TEXT_NOTE,
        tags: Vec::new(),
        content: "hello".to_string(),
        sig: vec![7u8; 64],
    };
    let forwarded =
        NostrSync::handle_notification(&mut store, Notification::ReceivedEvent(note.clone()));
    assert_eq!(forwarded.unwrap().id, note.id);
    assert_eq!(store.get_feed(10, 0).unwrap().len(), 1);

    let ignored = NostrSync::handle_notification(
        &mut store,
        Notification::ReceivedMessage("[\"NOTICE\"]".to_string()),
    );
    assert!(ignored.is_none());
    assert_eq!(store.get_feed(10, 0).unwrap().len(), 1);

    // A malformed event is forwarded but leaves the store untouched.
    let mut bad = note.clone();
    bad.id = vec![1];
    let forwarded = NostrSync::handle_notification(&mut store, Notification::ReceivedEvent(bad));
    assert!(forwarded.is_some());
    assert_eq!(store.get_feed(10, 0).unwrap().len(), 1);
}

#[test]
fn authors_with_self_appends_once() {
    let my = bytes32(1);
    let with = authors_with_self(vec![bytes32(2)], &my);
    assert_eq!(with, vec![bytes32(2), bytes32(1)]);
    let unchanged = authors_with_self(vec![bytes32(1), bytes32(2)], &my);
    assert_eq!(unchanged, vec![bytes32(1), bytes32(2)]);
}

#[test]
fn filters_to_vec_keeps_order_and_values() {
    let my = bytes32(1);
    let (sync, filters) = NostrSync::start(my, Vec::new());
    let again = clone_filter(&filters[2]);
    assert_eq!(again.kinds, filters[2].kinds);
    assert_eq!(again.authors, filters[2].authors);
    drop(sync);
    let fs = Filters {
        contact_list: clone_filter(&filters[0]),
        encrypted_dm: clone_filter(&filters[1]),
        following_authors: clone_filter(&filters[2]),
    };
    let v = fs.to_vec();
    assert_eq!(v[0].limit, Some(1));
    assert_eq!(v[1].kinds.as_deref(), Some(&[4u64][..]));
    assert_eq!(v[2].kinds.as_deref(), Some(&[0u64, 1, 6, 7][..]));
}

#[test]
fn navigation_states() {
    let mut app = NostrDesktop::new();
    assert!(matches!(app, NostrDesktop::Auth(_)));
    if let NostrDesktop::Auth(login) = &mut app {
        login.update(LoginMessage::SecretKeyChanged("nsec-something".to_string()));
        assert_eq!(login.secret_key(), "nsec-something");
        login.update(LoginMessage::ButtonPressed);
        login.set_error(Some("bad key".to_string()));
        login.clear();
        assert_eq!(login.secret_key(), "");
    }
    let mut context = Context::new(Stage::default());
    assert_eq!(context.stage, Stage::Login);
    let app = app.login(context);
    assert!(matches!(app, NostrDesktop::Dashboard(_)));
    let sidebar = Sidebar::new();
    sidebar.select(&mut context, Menu::Setting(Setting::Relays));
    assert_eq!(context.stage, Stage::Menu(Menu::Setting(Setting::Relays)));
    let app = app.lock();
    assert!(matches!(app, NostrDesktop::Auth(_)));

    let _ = Dashboard::new();
    let _ = Navbar::new();
    let mut chat = ChatState::new();
    chat.push_event(Event {
        id: bytes32(1),
        pubkey: bytes32(2),
        created_at: 1,
        kind: 4,
        tags: Vec::new(),
        content: "dm".to_string(),
        sig: Vec::new(),
    });
    chat.clear();
    let _ = ExploreState::new();
    let _ = NotificationsState::new();
    let _ = ProfileState::new();
    let _ = SettingState::new();
}
