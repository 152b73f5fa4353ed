use nostr_desktop::codec::{
    decode_fields, dec_bool, dec_opt_str, dec_u64, enc_bool, enc_opt_str, encode_fields,
    string_from_utf8, str_eq,
};
use nostr_desktop::error::Error;
use nostr_desktop::keys::{be8, hash_prefix, key_cmp, u64_of_be, KeyOrder};
use nostr_desktop::kv::{vec_to_vec_string, IteratorMode, Op, Store, WriteBatch};
use nostr_desktop::metadata::parse_metadata;
use nostr_desktop::model::{hex_decode, contacts_of_tags, Contact, Event, Profile};
use nostr_desktop::records::{
    decode_contact, decode_event, decode_profile, encode_contact, encode_event, encode_profile,
};

#[test]
fn be8_is_big_endian_and_order_preserving() {
    assert_eq!(be8(0), vec![0; 8]);
    assert_eq!(be8(1), vec![0, 0, 0, 0, 0, 0, 0, 1]);
    assert_eq!(be8(0x0102030405060708), vec![1, 2, 3, 4, 5, 6, 7, 8]);
    let smaller = be8(999);
    let larger = be8(1000);
    assert_eq!(key_cmp(&smaller, &larger), KeyOrder::Less);
    assert_eq!(u64_of_be(&be8(0xdeadbeef), 0), 0xdeadbeef);
}

#[test]
fn key_cmp_is_lexicographic() {
    assert_eq!(key_cmp(&vec![1, 2], &vec![1, 2]), KeyOrder::Equal);
    assert_eq!(key_cmp(&vec![1, 2], &vec![1, 2, 0]), KeyOrder::Less);
    assert_eq!(key_cmp(&vec![2], &vec![1, 9, 9]), KeyOrder::Greater);
}

#[test]
fn hash_prefix_takes_eight_bytes() {
    let id: Vec<u8> = (0u8..32).collect();
    assert_eq!(hash_prefix(&id), vec![0, 1, 2, 3, 4, 5, 6, 7]);
}

#[test]
fn fields_roundtrip_and_reject_garbage() {
    let fields = vec![vec![], vec![1, 2, 3], vec![255; 40]];
    let encoded = encode_fields(&fields);
    assert_eq!(decode_fields(&encoded), Some(fields));
    assert_eq!(decode_fields(&vec![1, 2, 3]), None);
    let mut truncated = encode_fields(&vec![vec![9, 9]]);
    truncated.pop();
    assert_eq!(decode_fields(&truncated), None);
}

#[test]
fn primitive_fields_roundtrip() {
    assert_eq!(dec_bool(&enc_bool(true)), Some(true));
    assert_eq!(dec_bool(&enc_bool(false)), Some(false));
    assert_eq!(dec_bool(&vec![2]), None);
    assert_eq!(dec_u64(&be8(123456789)), Some(123456789));
    assert_eq!(dec_u64(&vec![1, 2]), None);
    let some = enc_opt_str(&Some("héllo".to_string()));
    assert_eq!(dec_opt_str(&some), Some(Some("héllo".to_string())));
    let none = enc_opt_str(&None);
    assert_eq!(dec_opt_str(&none), Some(None));
    assert_eq!(dec_opt_str(&vec![9, 1, 2]), None);
}

#[test]
fn utf8_wrapper_accepts_valid_and_rejects_invalid() {
    assert_eq!(string_from_utf8(vec![104, 105]), Some("hi".to_string()));
    assert_eq!(string_from_utf8(vec![0xff, 0xfe]), None);
}

#[test]
fn str_eq_compares_contents() {
    assert!(str_eq("p", "p"));
    assert!(!str_eq("p", "e"));
    assert!(!str_eq("p", "pp"));
}

#[test]
fn profile_record_roundtrip() {
    let profile = Profile {
        pubkey: vec![9; 32],
        name: Some("alice".to_string()),
        display_name: None,
        about: Some("likes math".to_string()),
        website: None,
        picture: Some("https://example/pic".to_string()),
        nip05: None,
        lud06: None,
        lud16: Some("alice@pay".to_string()),
        is_contact: true,
        metadata_at: 777,
    };
    let decoded = decode_profile(&encode_profile(&profile)).unwrap();
    assert_eq!(decoded.pubkey, profile.pubkey);
    assert_eq!(decoded.name, profile.name);
    assert_eq!(decoded.about, profile.about);
    assert_eq!(decoded.picture, profile.picture);
    assert_eq!(decoded.lud16, profile.lud16);
    assert_eq!(decoded.is_contact, true);
    assert_eq!(decoded.metadata_at, 777);
    assert_eq!(decode_profile(&vec![0, 1, 2]), None);
}

#[test]
fn event_record_roundtrip() {
    let event = Event {
        id: vec![1; 32],
        pubkey: vec![2; 32],
        created_at: 123,
        kind: 1,
        tags: vec![
            vec!["p".to_string(), "aa".to_string(), "wss://r".to_string()],
            vec![],
            vec!["t".to_string()],
        ],
        content: "gm ☀".to_string(),
        sig: vec![3; 64],
    };
    let decoded = decode_event(&encode_event(&event)).unwrap();
    assert_eq!(decoded.id, event.id);
    assert_eq!(decoded.pubkey, event.pubkey);
    assert_eq!(decoded.created_at, 123);
    assert_eq!(decoded.kind, 1);
    assert_eq!(decoded.tags, event.tags);
    assert_eq!(decoded.content, event.content);
    assert_eq!(decoded.sig, event.sig);
    assert_eq!(decode_event(&Vec::new()), None);
}

#[test]
fn contact_record_roundtrip() {
    let contact = Contact {
        pk: vec![5; 32],
        relay_url: Some("wss://relay".to_string()),
        alias: None,
    };
    let decoded = decode_contact(&encode_contact(&contact)).unwrap();
    assert_eq!(decoded.pk, contact.pk);
    assert_eq!(decoded.relay_url, contact.relay_url);
    assert_eq!(decoded.alias, None);
}

#[test]
fn hex_decoding() {
    assert_eq!(hex_decode("00ff10Ab"), Some(vec![0x00, 0xff, 0x10, 0xab]));
    assert_eq!(hex_decode(""), Some(Vec::new()));
    assert_eq!(hex_decode("abc"), None);
    assert_eq!(hex_decode("zz"), None);
}

#[test]
fn contacts_of_tags_reads_p_tags_in_order() {
    let pk_hex: String = "11".repeat(32);
    let tags = vec![
        vec!["e".to_string(), pk_hex.clone()],
        vec!["p".to_string(), pk_hex.clone(), "wss://r".to_string(), "ally".to_string()],
        vec!["p".to_string(), "short".to_string()],
    ];
    let contacts = contacts_of_tags(&tags);
    assert_eq!(contacts.len(), 1);
    assert_eq!(contacts[0].pk, vec![0x11; 32]);
    assert_eq!(contacts[0].relay_url.as_deref(), Some("wss://r"));
    assert_eq!(contacts[0].alias.as_deref(), Some("ally"));
}

#[test]
fn parse_metadata_extracts_string_fields() {
    let m = parse_metadata("{\"name\":\"alice\",\"about\":\"hi\",\"age\":3}").unwrap();
    assert_eq!(m.name.as_deref(), Some("alice"));
    assert_eq!(m.about.as_deref(), Some("hi"));
    assert_eq!(m.display_name, None);
    assert!(parse_metadata("{broken").is_none());
}

#[test]
fn error_messages_are_nonempty() {
    let all = [
        Error::StorageInit,
        Error::NotFound,
        Error::Serialization,
        Error::Write,
        Error::Subscription,
        Error::MalformedId,
    ];
    for e in all {
        assert!(!e.message().is_empty());
    }
}

#[test]
fn vec_to_vec_string_keeps_contents() {
    let out = vec_to_vec_string(vec!["event", "profile"]);
    assert_eq!(out, vec!["event".to_string(), "profile".to_string()]);
}

#[test]
fn kv_put_get_delete_and_iteration_order() {
    let mut store = Store::open(vec_to_vec_string(vec!["main"])).unwrap();
    let ns = store.cf_handle("main").unwrap();
    assert_eq!(store.cf_handle("missing"), None);
    store.put(ns, vec![2], vec![20]).unwrap();
    store.put(ns, vec![1], vec![10]).unwrap();
    store.put(ns, vec![3], vec![30]).unwrap();
    store.put(ns, vec![2], vec![22]).unwrap();
    assert_eq!(store.get(ns, &vec![2]), Ok(vec![22]));
    assert_eq!(store.get(ns, &vec![9]), Err(Error::NotFound));
    assert!(store.key_may_exist(ns, &vec![1]));
    let ascending = store.iterator(ns);
    let keys: Vec<Vec<u8>> = ascending.iter().map(|(k, _)| k.clone()).collect();
    assert_eq!(keys, vec![vec![1], vec![2], vec![3]]);
    let descending = store.iterator_with_mode(ns, IteratorMode::End);
    assert_eq!(descending[0].0, vec![3]);
    store.delete(ns, &vec![2]).unwrap();
    assert_eq!(store.get(ns, &vec![2]), Err(Error::NotFound));
    assert_eq!(store.iterator(ns).len(), 2);
}

#[test]
fn crash_consistency_of_write_batch() {
    let names = vec_to_vec_string(vec!["event", "feed"]);
    let mut store = Store::open(names).unwrap();
    let event_ns = store.cf_handle("event").unwrap();
    let feed_ns = store.cf_handle("feed").unwrap();

    // A durable base, then an unflushed batch of two puts.
    store.put(event_ns, vec![0], vec![0]).unwrap();
    store.flush();
    let mut batch = WriteBatch::new();
    batch.put(event_ns, vec![1], vec![10]);
    batch.put(feed_ns, vec![2], vec![20]);
    store.write(batch).unwrap();
    // Both writes are visible before the interruption.
    assert_eq!(store.get(event_ns, &vec![1]), Ok(vec![10]));
    assert_eq!(store.get(feed_ns, &vec![2]), Ok(vec![20]));

    // Interrupted before the flush: the reopened store shows neither.
    let reopened = store.reopen_after_crash();
    assert_eq!(reopened.get(event_ns, &vec![0]), Ok(vec![0]));
    assert_eq!(reopened.get(event_ns, &vec![1]), Err(Error::NotFound));
    assert_eq!(reopened.get(feed_ns, &vec![2]), Err(Error::NotFound));

    // The same batch flushed: the reopened store shows both.
    let mut store = reopened;
    let mut batch = WriteBatch::new();
    batch.put(event_ns, vec![1], vec![10]);
    batch.put(feed_ns, vec![2], vec![20]);
    store.write(batch).unwrap();
    store.flush();
    let reopened = store.reopen_after_crash();
    assert_eq!(reopened.get(event_ns, &vec![1]), Ok(vec![10]));
    assert_eq!(reopened.get(feed_ns, &vec![2]), Ok(vec![20]));
}

#[test]
fn write_batch_applies_deletes_atomically() {
    let mut store = Store::open(vec_to_vec_string(vec!["main"])).unwrap();
    let ns = store.cf_handle("main").unwrap();
    store.put(ns, vec![1], vec![1]).unwrap();
    let mut batch = WriteBatch::new();
    batch.delete(ns, vec![1]);
    batch.put(ns, vec![2], vec![2]);
    assert_eq!(batch.ops.len(), 2);
    assert!(matches!(batch.ops[0], Op::Delete { .. }));
    store.write(batch).unwrap();
    assert_eq!(store.get(ns, &vec![1]), Err(Error::NotFound));
    assert_eq!(store.get(ns, &vec![2]), Ok(vec![2]));
}
