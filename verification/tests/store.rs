use nostr_desktop::db::Store;
use nostr_desktop::error::Error;
use nostr_desktop::model::{
    Event, KIND_CONTACT_LIST, KIND_ENCRYPTED_DIRECT_MESSAGE, KIND_METADATA, KIND_TEXT_NOTE,
};

fn bytes32(tag: u8) -> Vec<u8> {
    vec![tag; 32]
}

fn hex_of(bytes: &[u8]) -> String {
    let mut s = String::new();
    for b in bytes {
        s.push_str(&format!("{:02x}", b));
    }
    s
}

fn text_note(id_tag: u8, author_tag: u8, created_at: u64) -> Event {
    Event {
        id: bytes32(id_tag),
        pubkey: bytes32(author_tag),
        created_at,
        kind: KIND_TEXT_NOTE,
        tags: Vec::new(),
        content: format!("note {}", id_tag),
        sig: vec![7u8; 64],
    }
}

fn metadata_event(id_tag: u8, author_tag: u8, created_at: u64, name: &str) -> Event {
    Event {
        id: bytes32(id_tag),
        pubkey: bytes32(author_tag),
        created_at,
        kind: KIND_METADATA,
        tags: Vec::new(),
        content: format!("{{\"name\":\"{}\"}}", name),
        sig: vec![7u8; 64],
    }
}

fn contact_list_event(id_tag: u8, author_tag: u8, created_at: u64, contacts: &[u8]) -> Event {
    let mut tags = Vec::new();
    for tag in contacts {
        tags.push(vec!["p".to_string(), hex_of(&bytes32(*tag))]);
    }
    Event {
        id: bytes32(id_tag),
        pubkey: bytes32(author_tag),
        created_at,
        kind: KIND_CONTACT_LIST,
        tags,
        content: String::new(),
        sig: vec![7u8; 64],
    }
}

#[test]
fn idempotent_ingestion() {
    let mut store = Store::open().unwrap();
    let note = text_note(1, 2, 1000);
    store.handle_event(&note).unwrap();
    store.handle_event(&note).unwrap();
    let feed = store.get_feed(10, 0).unwrap();
    assert_eq!(feed.len(), 1);
    assert_eq!(feed[0].id, note.id);
    let authors = store.get_authors().unwrap();
    assert_eq!(authors.len(), 1);
}

#[test]
fn monotonic_profile_updates() {
    let mut store = Store::open().unwrap();
    store.handle_event(&metadata_event(1, 9, 100, "alice")).unwrap();
    store.handle_event(&metadata_event(2, 9, 50, "bob")).unwrap();
    let profile = store.get_profile(&bytes32(9)).unwrap();
    assert_eq!(profile.metadata_at, 100);
    assert_eq!(profile.name.as_deref(), Some("alice"));
}

#[test]
fn metadata_overwrite_when_newer() {
    let mut store = Store::open().unwrap();
    store.handle_event(&metadata_event(1, 9, 50, "bob")).unwrap();
    store.handle_event(&metadata_event(2, 9, 100, "alice")).unwrap();
    let profile = store.get_profile(&bytes32(9)).unwrap();
    assert_eq!(profile.metadata_at, 100);
    assert_eq!(profile.name.as_deref(), Some("alice"));
}

#[test]
fn metadata_tie_favors_existing() {
    let mut store = Store::open().unwrap();
    store.handle_event(&metadata_event(1, 9, 100, "alice")).unwrap();
    store.handle_event(&metadata_event(2, 9, 100, "carol")).unwrap();
    let profile = store.get_profile(&bytes32(9)).unwrap();
    assert_eq!(profile.name.as_deref(), Some("alice"));
}

#[test]
fn contact_list_replacement() {
    let mut store = Store::open().unwrap();
    // Cached metadata for B, so replacement can be told from deletion.
    store.handle_event(&metadata_event(1, 11, 10, "bee")).unwrap();
    store.handle_event(&contact_list_event(2, 1, 20, &[10, 11])).unwrap();
    let a = store.get_profile(&bytes32(10)).unwrap();
    let b = store.get_profile(&bytes32(11)).unwrap();
    assert!(a.is_contact);
    assert!(b.is_contact);
    store.handle_event(&contact_list_event(3, 1, 30, &[10, 12])).unwrap();
    let a = store.get_profile(&bytes32(10)).unwrap();
    let b = store.get_profile(&bytes32(11)).unwrap();
    let c = store.get_profile(&bytes32(12)).unwrap();
    assert!(a.is_contact);
    assert!(!b.is_contact);
    assert!(c.is_contact);
    // B's cached fields survive: flagged out, not deleted.
    assert_eq!(b.name.as_deref(), Some("bee"));
    let contacts = store.get_contacts().unwrap();
    assert_eq!(contacts.len(), 2);
    assert!(contacts.iter().all(|p| p.is_contact));
}

#[test]
fn author_set_monotonic_growth() {
    let mut store = Store::open().unwrap();
    // Nine events from three distinct authors, out of order and with repeats.
    let order: [(u8, u8); 9] = [
        (1, 5),
        (2, 6),
        (3, 5),
        (4, 7),
        (5, 6),
        (6, 7),
        (7, 5),
        (8, 6),
        (9, 7),
    ];
    for (id_tag, author_tag) in order {
        store
            .handle_event(&text_note(id_tag, author_tag, 1000 + id_tag as u64))
            .unwrap();
    }
    let authors = store.get_authors().unwrap();
    assert_eq!(authors.len(), 3);
    for tag in [5u8, 6, 7] {
        assert!(authors.contains(&bytes32(tag)));
    }
}

#[test]
fn pagination_stability() {
    let mut store = Store::open().unwrap();
    for i in 0..100u8 {
        store.handle_event(&text_note(i + 1, 50, 10_000 + i as u64)).unwrap();
    }
    let page0 = store.get_feed(20, 0).unwrap();
    let page1 = store.get_feed(20, 1).unwrap();
    assert_eq!(page0.len(), 20);
    assert_eq!(page1.len(), 20);
    // Strictly descending timestamps across the concatenated pages.
    let mut all: Vec<&Event> = page0.iter().chain(page1.iter()).collect();
    for w in all.windows(2) {
        assert!(w[0].created_at > w[1].created_at);
    }
    // The two pages are disjoint and are the 40 most recent notes.
    for e0 in &page0 {
        assert!(page1.iter().all(|e1| e1.id != e0.id));
    }
    assert_eq!(all.remove(0).created_at, 10_099);
    assert_eq!(all.pop().unwrap().created_at, 10_060);
}

#[test]
fn feed_page_past_end_is_empty() {
    let mut store = Store::open().unwrap();
    store.handle_event(&text_note(1, 2, 5)).unwrap();
    assert_eq!(store.get_feed(20, 1).unwrap().len(), 0);
}

#[test]
fn unknown_and_dm_kinds_are_stored_without_indexing() {
    let mut store = Store::open().unwrap();
    let mut dm = text_note(1, 2, 9);
    dm.kind = KIND_ENCRYPTED_DIRECT_MESSAGE;
    let mut odd = text_note(2, 3, 10);
    odd.kind = 40_001;
    store.handle_event(&dm).unwrap();
    store.handle_event(&odd).unwrap();
    assert_eq!(store.get_feed(10, 0).unwrap().len(), 0);
    assert_eq!(store.get_authors().unwrap().len(), 2);
}

#[test]
fn malformed_id_is_rejected_untouched() {
    let mut store = Store::open().unwrap();
    let mut bad = text_note(1, 2, 5);
    bad.id = vec![1, 2, 3];
    assert_eq!(store.handle_event(&bad), Err(Error::MalformedId));
    assert_eq!(store.get_feed(10, 0).unwrap().len(), 0);
    assert_eq!(store.get_authors().unwrap().len(), 0);
}

#[test]
fn get_profile_missing_is_not_found() {
    let store = Store::open().unwrap();
    assert_eq!(store.get_profile(&bytes32(1)).err(), Some(Error::NotFound));
}

#[test]
fn malformed_metadata_content_is_skipped() {
    let mut store = Store::open().unwrap();
    let mut event = metadata_event(1, 9, 100, "alice");
    event.content = "not json".to_string();
    store.handle_event(&event).unwrap();
    // The event and its author are stored; no profile was produced.
    assert_eq!(store.get_authors().unwrap().len(), 1);
    assert_eq!(store.get_profile(&bytes32(9)).err(), Some(Error::NotFound));
}

#[test]
fn malformed_p_tags_are_skipped() {
    let mut store = Store::open().unwrap();
    let mut event = contact_list_event(1, 1, 20, &[10]);
    event.tags.push(vec!["p".to_string(), "zz".to_string()]);
    event.tags.push(vec!["e".to_string(), hex_of(&bytes32(13))]);
    event.tags.push(vec!["p".to_string(), "aabb".to_string()]);
    store.handle_event(&event).unwrap();
    let contacts = store.get_contacts().unwrap();
    assert_eq!(contacts.len(), 1);
    assert_eq!(contacts[0].pubkey, bytes32(10));
}

#[test]
fn metadata_preserves_contact_flag() {
    let mut store = Store::open().unwrap();
    store.handle_event(&contact_list_event(1, 1, 10, &[10])).unwrap();
    store.handle_event(&metadata_event(2, 10, 50, "alice")).unwrap();
    let profile = store.get_profile(&bytes32(10)).unwrap();
    assert!(profile.is_contact);
    assert_eq!(profile.name.as_deref(), Some("alice"));
}

#[test]
fn insert_and_update_profile_roundtrip() {
    let mut store = Store::open().unwrap();
    let mut profile = nostr_desktop::model::Profile::empty(bytes32(4));
    profile.name = Some("dora".to_string());
    profile.metadata_at = 44;
    store.insert_profile(profile).unwrap();
    let read = store.get_profile(&bytes32(4)).unwrap();
    assert_eq!(read.name.as_deref(), Some("dora"));
    assert_eq!(read.metadata_at, 44);
    let mut newer = read;
    newer.about = Some("about".to_string());
    newer.metadata_at = 45;
    store.update_profile(newer).unwrap();
    let read = store.get_profile(&bytes32(4)).unwrap();
    assert_eq!(read.about.as_deref(), Some("about"));
    assert_eq!(read.metadata_at, 45);
}

#[test]
fn insert_profile_refuses_duplicate_pubkey() {
    let mut store = Store::open().unwrap();
    let mut profile = nostr_desktop::model::Profile::empty(bytes32(4));
    profile.name = Some("dora".to_string());
    store.insert_profile(profile).unwrap();
    let mut imposter = nostr_desktop::model::Profile::empty(bytes32(4));
    imposter.name = Some("mallory".to_string());
    assert_eq!(store.insert_profile(imposter), Err(Error::Write));
    // The conflicting write left the stored row untouched.
    assert_eq!(store.get_profile(&bytes32(4)).unwrap().name.as_deref(), Some("dora"));
}

#[test]
fn update_profile_discards_stale_and_tied_snapshots() {
    let mut store = Store::open().unwrap();
    let mut profile = nostr_desktop::model::Profile::empty(bytes32(4));
    profile.name = Some("dora".to_string());
    profile.metadata_at = 100;
    store.insert_profile(profile).unwrap();
    let mut stale = nostr_desktop::model::Profile::empty(bytes32(4));
    stale.name = Some("old-dora".to_string());
    stale.metadata_at = 50;
    store.update_profile(stale).unwrap();
    let mut tied = nostr_desktop::model::Profile::empty(bytes32(4));
    tied.name = Some("tied-dora".to_string());
    tied.metadata_at = 100;
    store.update_profile(tied).unwrap();
    let read = store.get_profile(&bytes32(4)).unwrap();
    assert_eq!(read.name.as_deref(), Some("dora"));
    assert_eq!(read.metadata_at, 100);
}

#[test]
fn update_profile_preserves_contact_flag_and_missing_row() {
    let mut store = Store::open().unwrap();
    store.handle_event(&contact_list_event(1, 1, 10, &[4])).unwrap();
    assert!(store.get_profile(&bytes32(4)).unwrap().is_contact);
    let mut newer = nostr_desktop::model::Profile::empty(bytes32(4));
    newer.name = Some("dora".to_string());
    newer.metadata_at = 5;
    newer.is_contact = false;
    store.update_profile(newer).unwrap();
    let read = store.get_profile(&bytes32(4)).unwrap();
    assert_eq!(read.name.as_deref(), Some("dora"));
    assert!(read.is_contact);
    // An update for an unknown pubkey changes nothing.
    let mut unknown = nostr_desktop::model::Profile::empty(bytes32(9));
    unknown.metadata_at = 7;
    store.update_profile(unknown).unwrap();
    assert_eq!(store.get_profile(&bytes32(9)).err(), Some(Error::NotFound));
}

#[test]
fn unflushed_ingestion_is_lost_whole_on_reopen() {
    let mut store = Store::open().unwrap();
    store.handle_event(&text_note(1, 2, 100)).unwrap();
    store.flush();
    store.handle_event(&text_note(2, 3, 200)).unwrap();
    // Interrupted before the second flush: the reopened store shows the
    // flushed note with its whole index, and nothing of the unflushed one.
    let reopened = store.reopen_after_crash();
    let feed = reopened.get_feed(10, 0).unwrap();
    assert_eq!(feed.len(), 1);
    assert_eq!(feed[0].id, bytes32(1));
    assert_eq!(reopened.get_authors().unwrap(), vec![bytes32(2)]);
}

#[test]
fn set_authors_and_get_authors_deduplicate() {
    let mut store = Store::open().unwrap();
    store
        .set_authors(vec![bytes32(3), bytes32(1), bytes32(3), bytes32(2)])
        .unwrap();
    let authors = store.get_authors().unwrap();
    assert_eq!(authors, vec![bytes32(1), bytes32(2), bytes32(3)]);
}

#[test]
fn save_event_skips_duplicate_delivery() {
    let mut store = Store::open().unwrap();
    let note = text_note(1, 2, 77);
    store.save_event(&note).unwrap();
    let mut altered = text_note(1, 3, 88);
    altered.content = "imposter".to_string();
    store.save_event(&altered).unwrap();
    // The first stored record wins; the second author is still observed.
    store.handle_event(&note).unwrap();
    let feed = store.get_feed(10, 0).unwrap();
    assert_eq!(feed.len(), 1);
    assert_eq!(feed[0].content, format!("note {}", 1));
    assert_eq!(store.get_authors().unwrap().len(), 2);
}

#[test]
fn insert_relay_accepts_proxy() {
    let mut store = Store::open().unwrap();
    store
        .insert_relay("wss://relay.example".to_string(), Some("127.0.0.1:9050".to_string()))
        .unwrap();
    store.insert_relay("wss://other.example".to_string(), None).unwrap();
    store.flush();
}
