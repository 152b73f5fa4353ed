use vstd::prelude::*;
use vstd::map::*;
use crate::error::Error;
use crate::keys::{spec_be8, be8, hash_prefix, HASH_PREFIX_LEN};
use crate::model::{
    Event, EventV, Profile, ProfileV, Contact, ContactV, view_opt_profile, EVENT_ID_LEN,
    KIND_METADATA, KIND_TEXT_NOTE, KIND_CONTACT_LIST,
};
use crate::records::{
    spec_dec_event, spec_dec_profile, spec_dec_contact, encode_event, decode_event, encode_profile,
    decode_profile, encode_contact,
};
use crate::codec::{clone_bytes, spec_enc_opt_str, enc_opt_str, string_to_bytes};
use crate::kv;

verus! {

// The typed event store: the generic key-value store underneath, five fixed
// namespaces on top, and the classification pipeline that keeps the derived
// namespaces (authors, contacts, the chronological feed index) consistent
// with the primary event namespace.

/// The file name a persisting caller gives the store's directory entry.
pub const DB_NAME: &'static str = "nostr.db";

/// Handle of the primary event namespace, keyed by id prefix.
pub const EVENT_NS: usize = 0;

/// Handle of the profile namespace, keyed by pubkey.
pub const PROFILE_NS: usize = 1;

/// Handle of the author-set namespace: keys are pubkeys, values empty.
pub const AUTHOR_NS: usize = 2;

/// Handle of the contact namespace, keyed by pubkey.
pub const CONTACT_NS: usize = 3;

/// Handle of the by-timestamp feed index: keys are a big-endian timestamp
/// followed by an id prefix, values empty.
pub const FEED_NS: usize = 4;

/// Handle of the relay namespace, keyed by relay url bytes.
pub const RELAY_NS: usize = 5;

/// How many namespaces the typed store uses.
pub const NUM_NS: usize = 6;

/// Every stored event record decodes, carries a 32-byte id, and sits under
/// its id prefix.
pub open spec fn events_wf(ev: Map<Seq<u8>, Seq<u8>>) -> bool {
    forall|k: Seq<u8>|
        #[trigger] ev.dom().contains(k) ==> spec_dec_event(ev[k]) is Some && spec_dec_event(
            ev[k],
        ).unwrap().id.len() == EVENT_ID_LEN && k == spec_dec_event(ev[k]).unwrap().id.subrange(
            0,
            HASH_PREFIX_LEN as int,
        )
}

/// Every stored profile record decodes and sits under its pubkey.
pub open spec fn profiles_wf(pm: Map<Seq<u8>, Seq<u8>>) -> bool {
    forall|k: Seq<u8>|
        #[trigger] pm.dom().contains(k) ==> spec_dec_profile(pm[k]) is Some && spec_dec_profile(
            pm[k],
        ).unwrap().pubkey == k
}

/// Every stored contact record decodes and sits under its pubkey.
pub open spec fn contacts_wf(cm: Map<Seq<u8>, Seq<u8>>) -> bool {
    forall|k: Seq<u8>|
        #[trigger] cm.dom().contains(k) ==> spec_dec_contact(cm[k]) is Some && spec_dec_contact(
            cm[k],
        ).unwrap().pk == k
}

/// Every feed-index key points at a stored TextNote under its own timestamp.
pub open spec fn feed_wf(fm: Map<Seq<u8>, Seq<u8>>, ev: Map<Seq<u8>, Seq<u8>>) -> bool {
    forall|k: Seq<u8>|
        #[trigger] fm.dom().contains(k) ==> k.len() == 16 && ev.dom().contains(k.skip(8))
            && k.subrange(0, 8) == spec_be8(spec_dec_event(ev[k.skip(8)]).unwrap().created_at)
            && spec_dec_event(ev[k.skip(8)]).unwrap().kind == KIND_TEXT_NOTE
}

/// The store's whole state as mathematics: the decoded contents of every
/// namespace.
pub ghost struct DbView {
    pub events: Map<Seq<u8>, EventV>,
    pub profiles: Map<Seq<u8>, ProfileV>,
    pub contacts: Map<Seq<u8>, ContactV>,
    pub authors: Set<Seq<u8>>,
    pub feed: Set<Seq<u8>>,
}

/// The decoded event map over a byte namespace.
pub open spec fn dec_events(bm: Map<Seq<u8>, Seq<u8>>) -> Map<Seq<u8>, EventV> {
    Map::new(
        |k: Seq<u8>| bm.dom().contains(k),
        |k: Seq<u8>| spec_dec_event(bm[k]).unwrap(),
    )
}

/// The decoded profile map over a byte namespace.
pub open spec fn dec_profiles(bm: Map<Seq<u8>, Seq<u8>>) -> Map<Seq<u8>, ProfileV> {
    Map::new(
        |k: Seq<u8>| bm.dom().contains(k),
        |k: Seq<u8>| spec_dec_profile(bm[k]).unwrap(),
    )
}

/// The decoded contact map over a byte namespace.
pub open spec fn dec_contacts(bm: Map<Seq<u8>, Seq<u8>>) -> Map<Seq<u8>, ContactV> {
    Map::new(
        |k: Seq<u8>| bm.dom().contains(k),
        |k: Seq<u8>| spec_dec_contact(bm[k]).unwrap(),
    )
}

/// The typed store over the generic one.
pub struct Store {
    kv: kv::Store,
}

impl Store {
    /// The namespaces exist and all their records are well formed, in the
    /// current contents and in the durable contents alike.
    pub closed spec fn wf(self) -> bool {
        &&& self.kv.wf()
        &&& self.kv.spec_num_namespaces() == NUM_NS
        &&& events_wf(self.kv.view_ns(EVENT_NS as int))
        &&& profiles_wf(self.kv.view_ns(PROFILE_NS as int))
        &&& contacts_wf(self.kv.view_ns(CONTACT_NS as int))
        &&& feed_wf(self.kv.view_ns(FEED_NS as int), self.kv.view_ns(EVENT_NS as int))
        &&& events_wf(self.kv.durable_ns(EVENT_NS as int))
        &&& profiles_wf(self.kv.durable_ns(PROFILE_NS as int))
        &&& contacts_wf(self.kv.durable_ns(CONTACT_NS as int))
        &&& feed_wf(self.kv.durable_ns(FEED_NS as int), self.kv.durable_ns(EVENT_NS as int))
    }

    /// The store's contents as mathematics.
    pub closed spec fn view(self) -> DbView {
        DbView {
            events: dec_events(self.kv.view_ns(EVENT_NS as int)),
            profiles: dec_profiles(self.kv.view_ns(PROFILE_NS as int)),
            contacts: dec_contacts(self.kv.view_ns(CONTACT_NS as int)),
            authors: self.kv.view_ns(AUTHOR_NS as int).dom(),
            feed: self.kv.view_ns(FEED_NS as int).dom(),
        }
    }

    /// The durable contents as mathematics: what survives an interruption.
    /// Writes leave it untouched; only `flush` advances it.
    pub closed spec fn durable_view(self) -> DbView {
        DbView {
            events: dec_events(self.kv.durable_ns(EVENT_NS as int)),
            profiles: dec_profiles(self.kv.durable_ns(PROFILE_NS as int)),
            contacts: dec_contacts(self.kv.durable_ns(CONTACT_NS as int)),
            authors: self.kv.durable_ns(AUTHOR_NS as int).dom(),
            feed: self.kv.durable_ns(FEED_NS as int).dom(),
        }
    }

    /// A write to the current contents carries the whole durable side over
    /// unchanged: its contents, and its well-formedness.
    proof fn lemma_durable_unchanged(self, prev: Store)
        requires
            self.kv.durable_state() == prev.kv.durable_state(),
            events_wf(prev.kv.durable_ns(EVENT_NS as int)),
            profiles_wf(prev.kv.durable_ns(PROFILE_NS as int)),
            contacts_wf(prev.kv.durable_ns(CONTACT_NS as int)),
            feed_wf(prev.kv.durable_ns(FEED_NS as int), prev.kv.durable_ns(EVENT_NS as int)),
        ensures
            self.durable_view() == prev.durable_view(),
            events_wf(self.kv.durable_ns(EVENT_NS as int)),
            profiles_wf(self.kv.durable_ns(PROFILE_NS as int)),
            contacts_wf(self.kv.durable_ns(CONTACT_NS as int)),
            feed_wf(self.kv.durable_ns(FEED_NS as int), self.kv.durable_ns(EVENT_NS as int)),
    {
        kv::lemma_durable_ns_from_state(self.kv, prev.kv);
        assert(self.kv.durable_ns(EVENT_NS as int) == prev.kv.durable_ns(EVENT_NS as int));
        assert(self.kv.durable_ns(PROFILE_NS as int) == prev.kv.durable_ns(PROFILE_NS as int));
        assert(self.kv.durable_ns(AUTHOR_NS as int) == prev.kv.durable_ns(AUTHOR_NS as int));
        assert(self.kv.durable_ns(CONTACT_NS as int) == prev.kv.durable_ns(CONTACT_NS as int));
        assert(self.kv.durable_ns(FEED_NS as int) == prev.kv.durable_ns(FEED_NS as int));
    }

    /// The raw relay namespace: url bytes to an encoded optional proxy.
    pub closed spec fn relays(self) -> Map<Seq<u8>, Seq<u8>> {
        self.kv.view_ns(RELAY_NS as int)
    }

    /// The profile entries in ascending pubkey order.
    pub closed spec fn profile_entries(self) -> Seq<(Seq<u8>, Seq<u8>)> {
        self.kv.entries_ns(PROFILE_NS as int)
    }

    /// The author pubkeys in ascending order.
    pub closed spec fn author_list(self) -> Seq<Seq<u8>> {
        Seq::new(
            self.kv.entries_ns(AUTHOR_NS as int).len(),
            |i: int| self.kv.entries_ns(AUTHOR_NS as int)[i].0,
        )
    }

    /// The feed-index keys in ascending order: oldest first, and within one
    /// timestamp by id prefix.
    pub closed spec fn feed_index(self) -> Seq<Seq<u8>> {
        Seq::new(
            self.kv.entries_ns(FEED_NS as int).len(),
            |i: int| self.kv.entries_ns(FEED_NS as int)[i].0,
        )
    }

    /// Opens a fresh, empty store with the fixed namespaces.
    pub fn open() -> (r: Result<Store, Error>)
        ensures
            r is Ok,
            r.unwrap().wf(),
            r.unwrap()@.events == Map::<Seq<u8>, EventV>::empty(),
            r.unwrap()@.profiles == Map::<Seq<u8>, ProfileV>::empty(),
            r.unwrap()@.contacts == Map::<Seq<u8>, ContactV>::empty(),
            r.unwrap()@.authors == Set::<Seq<u8>>::empty(),
            r.unwrap()@.feed == Set::<Seq<u8>>::empty(),
            r.unwrap().durable_view() == r.unwrap()@,
    {
        let mut names: Vec<String> = Vec::new();
        names.push(new_string("event"));
        names.push(new_string("profile"));
        names.push(new_string("author"));
        names.push(new_string("contact"));
        names.push(new_string("textnote_by_timestamp"));
        names.push(new_string("relays"));
        let kv_store = match kv::Store::open(names) {
            Ok(s) => s,
            Err(_) => {
                return Err(Error::StorageInit);
            },
        };
        let s = Store { kv: kv_store };
        proof {
            assert(dec_events(s.kv.view_ns(EVENT_NS as int)) =~= Map::<Seq<u8>, EventV>::empty());
            assert(dec_profiles(s.kv.view_ns(PROFILE_NS as int)) =~= Map::<
                Seq<u8>,
                ProfileV,
            >::empty());
            assert(dec_contacts(s.kv.view_ns(CONTACT_NS as int)) =~= Map::<
                Seq<u8>,
                ContactV,
            >::empty());
            assert(s.kv.view_ns(AUTHOR_NS as int).dom() =~= Set::<Seq<u8>>::empty());
            assert(s.kv.view_ns(FEED_NS as int).dom() =~= Set::<Seq<u8>>::empty());
            assert(s.kv.durable_ns(EVENT_NS as int) == s.kv.view_ns(EVENT_NS as int));
            assert(s.kv.durable_ns(PROFILE_NS as int) == s.kv.view_ns(PROFILE_NS as int));
            assert(s.kv.durable_ns(AUTHOR_NS as int) == s.kv.view_ns(AUTHOR_NS as int));
            assert(s.kv.durable_ns(CONTACT_NS as int) == s.kv.view_ns(CONTACT_NS as int));
            assert(s.kv.durable_ns(FEED_NS as int) == s.kv.view_ns(FEED_NS as int));
            assert(s.durable_view() == s@);
        }
        Ok(s)
    }

    /// Forces durability: afterwards the durable contents are exactly the
    /// current contents, and an interruption can no longer lose them.
    pub fn flush(&mut self)
        requires
            old(self).wf(),
        ensures
            final(self).wf(),
            final(self)@ == old(self)@,
            final(self).durable_view() == old(self)@,
            final(self).profile_entries() == old(self).profile_entries(),
            final(self).author_list() == old(self).author_list(),
            final(self).feed_index() == old(self).feed_index(),
    {
        self.kv.flush();
        proof {
            assert(self.kv.durable_ns(EVENT_NS as int) == old(self).kv.view_ns(EVENT_NS as int));
            assert(self.kv.durable_ns(PROFILE_NS as int) == old(self).kv.view_ns(
                PROFILE_NS as int,
            ));
            assert(self.kv.durable_ns(AUTHOR_NS as int) == old(self).kv.view_ns(AUTHOR_NS as int));
            assert(self.kv.durable_ns(CONTACT_NS as int) == old(self).kv.view_ns(
                CONTACT_NS as int,
            ));
            assert(self.kv.durable_ns(FEED_NS as int) == old(self).kv.view_ns(FEED_NS as int));
            assert(self.durable_view() == old(self)@);
            assert(self.kv.view_ns(EVENT_NS as int) == old(self).kv.view_ns(EVENT_NS as int)
                && self.kv.entries_ns(EVENT_NS as int) == old(self).kv.entries_ns(EVENT_NS as int));
            assert(self.kv.view_ns(PROFILE_NS as int) == old(self).kv.view_ns(PROFILE_NS as int)
                && self.kv.entries_ns(PROFILE_NS as int) == old(self).kv.entries_ns(
                PROFILE_NS as int,
            ));
            assert(self.kv.view_ns(AUTHOR_NS as int) == old(self).kv.view_ns(AUTHOR_NS as int)
                && self.kv.entries_ns(AUTHOR_NS as int) == old(self).kv.entries_ns(
                AUTHOR_NS as int,
            ));
            assert(self.kv.view_ns(CONTACT_NS as int) == old(self).kv.view_ns(CONTACT_NS as int)
                && self.kv.entries_ns(CONTACT_NS as int) == old(self).kv.entries_ns(
                CONTACT_NS as int,
            ));
            assert(self.kv.view_ns(FEED_NS as int) == old(self).kv.view_ns(FEED_NS as int)
                && self.kv.entries_ns(FEED_NS as int) == old(self).kv.entries_ns(FEED_NS as int));
            assert(self.kv.view_ns(RELAY_NS as int) == old(self).kv.view_ns(RELAY_NS as int));
            assert(self@ == old(self)@);
        }
    }

    /// Reopens the store as it would come back after an interruption: the
    /// durable contents become current, and every unflushed write is gone
    /// wholly — a batch is never split by a crash.
    pub fn reopen_after_crash(self) -> (r: Store)
        requires
            self.wf(),
        ensures
            r.wf(),
            r@ == self.durable_view(),
            r.durable_view() == self.durable_view(),
    {
        let reopened = Store { kv: self.kv.reopen_after_crash() };
        proof {
            assert(reopened.kv.view_ns(EVENT_NS as int) == self.kv.durable_ns(EVENT_NS as int));
            assert(reopened.kv.view_ns(PROFILE_NS as int) == self.kv.durable_ns(
                PROFILE_NS as int,
            ));
            assert(reopened.kv.view_ns(AUTHOR_NS as int) == self.kv.durable_ns(AUTHOR_NS as int));
            assert(reopened.kv.view_ns(CONTACT_NS as int) == self.kv.durable_ns(
                CONTACT_NS as int,
            ));
            assert(reopened.kv.view_ns(FEED_NS as int) == self.kv.durable_ns(FEED_NS as int));
            assert(reopened.kv.durable_ns(EVENT_NS as int) == self.kv.durable_ns(EVENT_NS as int));
            assert(reopened.kv.durable_ns(PROFILE_NS as int) == self.kv.durable_ns(
                PROFILE_NS as int,
            ));
            assert(reopened.kv.durable_ns(AUTHOR_NS as int) == self.kv.durable_ns(
                AUTHOR_NS as int,
            ));
            assert(reopened.kv.durable_ns(CONTACT_NS as int) == self.kv.durable_ns(
                CONTACT_NS as int,
            ));
            assert(reopened.kv.durable_ns(FEED_NS as int) == self.kv.durable_ns(FEED_NS as int));
            assert(reopened@ == self.durable_view());
            assert(reopened.durable_view() == self.durable_view());
        }
        reopened
    }

    /// Reads the profile stored for a pubkey; `NotFound` means exactly that
    /// none is stored.
    pub fn get_profile(&self, public_key: &Vec<u8>) -> (r: Result<Profile, Error>)
        requires
            self.wf(),
        ensures
            match r {
                Ok(p) => self@.profiles.dom().contains(public_key@) && self@.profiles[public_key@]
                    == p@ && p@.pubkey == public_key@,
                Err(e) => e == Error::NotFound && !self@.profiles.dom().contains(public_key@),
            },
    {
        let bytes = match self.kv.get(PROFILE_NS, public_key) {
            Ok(b) => b,
            Err(_) => {
                return Err(Error::NotFound);
            },
        };
        match decode_profile(&bytes) {
            Some(p) => Ok(p),
            None => {
                proof {
                    assert(false);
                }
                Err(Error::Serialization)
            },
        }
    }

    /// The stored profile, or `None`; a convenience over `get_profile`.
    pub fn get_profile_opt(&self, public_key: &Vec<u8>) -> (r: Option<Profile>)
        requires
            self.wf(),
        ensures
            view_opt_profile(r) == self@.profiles.get(public_key@),
    {
        match self.get_profile(public_key) {
            Ok(p) => Some(p),
            Err(_) => None,
        }
    }

    /// Writes a profile row as given, inserting or overwriting. Internal:
    /// the classifier's guards (`apply_metadata`, the contact replacement)
    /// decide what is written; the public writers enforce the profile
    /// invariants themselves.
    fn put_profile_raw(&mut self, profile: Profile) -> (r: Result<(), Error>)
        requires
            old(self).wf(),
        ensures
            r is Ok,
            final(self).wf(),
            final(self)@ == (DbView {
                profiles: old(self)@.profiles.insert(profile.pubkey@, profile@),
                ..old(self)@
            }),
            final(self).durable_view() == old(self).durable_view(),
    {
        let key = clone_bytes(&profile.pubkey);
        let value = encode_profile(&profile);
        let ghost b = value@;
        let _ = self.kv.put(PROFILE_NS, key, value);
        proof {
            self.lemma_view_after_profile_put(*old(self), profile.pubkey@, profile@, b);
        }
        Ok(())
    }

    /// Inserts a fresh profile row. A row already stored for the pubkey is a
    /// key conflict: the write is refused and the store is unchanged.
    pub fn insert_profile(&mut self, profile: Profile) -> (r: Result<(), Error>)
        requires
            old(self).wf(),
        ensures
            final(self).wf(),
            old(self)@.profiles.dom().contains(profile.pubkey@) ==> r == Err::<(), Error>(
                Error::Write,
            ) && final(self)@ == old(self)@,
            !old(self)@.profiles.dom().contains(profile.pubkey@) ==> r is Ok && final(self)@ == (
            DbView {
                profiles: old(self)@.profiles.insert(profile.pubkey@, profile@),
                ..old(self)@
            }),
            final(self).durable_view() == old(self).durable_view(),
    {
        if self.kv.key_may_exist(PROFILE_NS, &profile.pubkey) {
            return Err(Error::Write);
        }
        self.put_profile_raw(profile)
    }

    /// Overwrites the metadata fields of the profile stored for the pubkey,
    /// under the read-before-write freshness check: only a strictly newer
    /// `metadata_at` lands (a stale or tied snapshot is discarded whole), the
    /// stored contact flag is kept (metadata carries none), and a missing row
    /// changes nothing.
    pub fn update_profile(&mut self, profile: Profile) -> (r: Result<(), Error>)
        requires
            old(self).wf(),
        ensures
            r is Ok,
            final(self).wf(),
            ({
                let pk = profile.pubkey@;
                if old(self)@.profiles.dom().contains(pk) && profile.metadata_at > old(
                    self,
                )@.profiles[pk].metadata_at {
                    final(self)@ == (DbView {
                        profiles: old(self)@.profiles.insert(
                            pk,
                            ProfileV {
                                pubkey: old(self)@.profiles[pk].pubkey,
                                is_contact: old(self)@.profiles[pk].is_contact,
                                ..profile@
                            },
                        ),
                        ..old(self)@
                    })
                } else {
                    final(self)@ == old(self)@
                }
            }),
            final(self).durable_view() == old(self).durable_view(),
    {
        let stored = match self.get_profile(&profile.pubkey) {
            Ok(p) => p,
            Err(_) => {
                return Ok(());
            },
        };
        if profile.metadata_at <= stored.metadata_at {
            return Ok(());
        }
        let merged = Profile { pubkey: stored.pubkey, is_contact: stored.is_contact, ..profile };
        self.put_profile_raw(merged)
    }

    /// After a profile put, only the profile map changed, by one insert.
    proof fn lemma_view_after_profile_put(self, prev: Store, pk: Seq<u8>, pv: ProfileV, b: Seq<u8>)
        requires
            prev.wf(),
            self.kv.wf(),
            self.kv.spec_num_namespaces() == NUM_NS,
            self.kv.durable_state() == prev.kv.durable_state(),
            self.kv.view_ns(PROFILE_NS as int) == prev.kv.view_ns(PROFILE_NS as int).insert(pk, b),
            spec_dec_profile(b) == Some(pv),
            pv.pubkey == pk,
            forall|i: int|
                0 <= i < NUM_NS && i != PROFILE_NS ==> #[trigger] self.kv.view_ns(i)
                    == prev.kv.view_ns(i),
        ensures
            self.wf(),
            self@ == (DbView { profiles: prev@.profiles.insert(pk, pv), ..prev@ }),
            self.durable_view() == prev.durable_view(),
    {
        self.lemma_durable_unchanged(prev);
        let bm0 = prev.kv.view_ns(PROFILE_NS as int);
        let bm1 = self.kv.view_ns(PROFILE_NS as int);
        assert forall|k: Seq<u8>| #[trigger] bm1.dom().contains(k) implies spec_dec_profile(
            bm1[k],
        ) is Some && spec_dec_profile(bm1[k]).unwrap().pubkey == k by {
            if k != pk {
                assert(bm0.dom().contains(k));
                assert(bm1[k] == bm0[k]);
            }
        }
        assert(dec_profiles(bm1) =~= prev@.profiles.insert(pk, pv));
        assert(dec_events(self.kv.view_ns(EVENT_NS as int)) =~= prev@.events);
        assert(dec_contacts(self.kv.view_ns(CONTACT_NS as int)) =~= prev@.contacts);
        assert(self@ == (DbView { profiles: prev@.profiles.insert(pk, pv), ..prev@ }));
    }
}

/// The set of pubkeys held in a vector.
pub open spec fn keys_set(s: Seq<Vec<u8>>) -> Set<Seq<u8>> {
    Set::new(|k: Seq<u8>| exists|i: int| 0 <= i < s.len() && #[trigger] s[i]@ == k)
}

/// One more pubkey extends the set by exactly that pubkey.
pub proof fn lemma_keys_set_push(s: Seq<Vec<u8>>, v: Vec<u8>)
    ensures
        keys_set(s.push(v)) == keys_set(s).insert(v@),
{
    assert forall|k: Seq<u8>| true implies #[trigger] keys_set(s.push(v)).contains(k) == keys_set(
        s,
    ).insert(v@).contains(k) by {
        if keys_set(s.push(v)).contains(k) {
            let i = choose|i: int| 0 <= i < s.push(v).len() && #[trigger] s.push(v)[i]@ == k;
            if i < s.len() {
                assert(s[i]@ == k);
            }
        }
        if keys_set(s).contains(k) {
            let i = choose|i: int| 0 <= i < s.len() && #[trigger] s[i]@ == k;
            assert(s.push(v)[i]@ == k);
        }
        if v@ == k {
            assert(s.push(v)[s.len() as int]@ == k);
        }
    }
    assert(keys_set(s.push(v)) =~= keys_set(s).insert(v@));
}

impl Store {
    /// Stores an event under its id prefix, skipping an already-present key
    /// (idempotent re-delivery), and adds its author to the author set. An
    /// event whose id is not 32 bytes is rejected untouched.
    pub fn save_event(&mut self, event: &Event) -> (r: Result<(), Error>)
        requires
            old(self).wf(),
        ensures
            final(self).wf(),
            event@.id.len() != EVENT_ID_LEN ==> r == Err::<(), Error>(Error::MalformedId) && final(self)@ == old(
                self,
            )@,
            event@.id.len() == EVENT_ID_LEN ==> r is Ok && final(self)@ == (DbView {
                events: if old(self)@.events.dom().contains(
                    event@.id.subrange(0, HASH_PREFIX_LEN as int),
                ) {
                    old(self)@.events
                } else {
                    old(self)@.events.insert(event@.id.subrange(0, HASH_PREFIX_LEN as int), event@)
                },
                authors: old(self)@.authors.insert(event@.pubkey),
                ..old(self)@
            }),
            final(self).durable_view() == old(self).durable_view(),
    {
        if event.id.len() != EVENT_ID_LEN {
            return Err(Error::MalformedId);
        }
        let prefix = hash_prefix(&event.id);
        if !self.kv.key_may_exist(EVENT_NS, &prefix) {
            let bytes = encode_event(event);
            let ghost b = bytes@;
            let ghost prev = *self;
            let _ = self.kv.put(EVENT_NS, prefix, bytes);
            proof {
                self.lemma_view_after_event_put(
                    prev,
                    event@.id.subrange(0, HASH_PREFIX_LEN as int),
                    event@,
                    b,
                );
            }
        }
        let ghost mid = *self;
        let _ = self.kv.put(AUTHOR_NS, clone_bytes(&event.pubkey), Vec::new());
        proof {
            self.lemma_durable_unchanged(mid);
            assert(dec_events(self.kv.view_ns(EVENT_NS as int)) == dec_events(
                mid.kv.view_ns(EVENT_NS as int),
            ));
            assert(self.kv.view_ns(AUTHOR_NS as int).dom() =~= mid.kv.view_ns(
                AUTHOR_NS as int,
            ).dom().insert(event@.pubkey));
            assert(self@ == (DbView { authors: mid@.authors.insert(event@.pubkey), ..mid@ }));
        }
        Ok(())
    }

    /// After an event put under a fresh prefix, only the event map changed,
    /// by one insert.
    proof fn lemma_view_after_event_put(self, prev: Store, pk: Seq<u8>, ev: EventV, b: Seq<u8>)
        requires
            prev.wf(),
            self.kv.wf(),
            self.kv.spec_num_namespaces() == NUM_NS,
            self.kv.durable_state() == prev.kv.durable_state(),
            self.kv.view_ns(EVENT_NS as int) == prev.kv.view_ns(EVENT_NS as int).insert(pk, b),
            !prev.kv.view_ns(EVENT_NS as int).dom().contains(pk),
            spec_dec_event(b) == Some(ev),
            ev.id.len() == EVENT_ID_LEN,
            pk == ev.id.subrange(0, HASH_PREFIX_LEN as int),
            forall|i: int|
                0 <= i < NUM_NS && i != EVENT_NS ==> #[trigger] self.kv.view_ns(i)
                    == prev.kv.view_ns(i),
        ensures
            self.wf(),
            self@ == (DbView { events: prev@.events.insert(pk, ev), ..prev@ }),
            self.durable_view() == prev.durable_view(),
    {
        self.lemma_durable_unchanged(prev);
        let bm0 = prev.kv.view_ns(EVENT_NS as int);
        let bm1 = self.kv.view_ns(EVENT_NS as int);
        assert forall|k: Seq<u8>| #[trigger] bm1.dom().contains(k) implies spec_dec_event(
            bm1[k],
        ) is Some && spec_dec_event(bm1[k]).unwrap().id.len() == EVENT_ID_LEN && k == spec_dec_event(
            bm1[k],
        ).unwrap().id.subrange(0, HASH_PREFIX_LEN as int) by {
            if k != pk {
                assert(bm0.dom().contains(k));
                assert(bm1[k] == bm0[k]);
            }
        }
        let fm = self.kv.view_ns(FEED_NS as int);
        assert forall|k: Seq<u8>| #[trigger] fm.dom().contains(k) implies k.len() == 16
            && bm1.dom().contains(k.skip(8)) && k.subrange(0, 8) == spec_be8(
            spec_dec_event(bm1[k.skip(8)]).unwrap().created_at,
        ) && spec_dec_event(bm1[k.skip(8)]).unwrap().kind == KIND_TEXT_NOTE by {
            assert(bm0.dom().contains(k.skip(8)));
            assert(k.skip(8) != pk);
            assert(bm1[k.skip(8)] == bm0[k.skip(8)]);
        }
        assert(dec_events(bm1) =~= prev@.events.insert(pk, ev));
        assert(dec_profiles(self.kv.view_ns(PROFILE_NS as int)) == dec_profiles(
            prev.kv.view_ns(PROFILE_NS as int),
        ));
        assert(dec_contacts(self.kv.view_ns(CONTACT_NS as int)) == dec_contacts(
            prev.kv.view_ns(CONTACT_NS as int),
        ));
        assert(self@ == (DbView { events: prev@.events.insert(pk, ev), ..prev@ }));
    }

    /// Batch-adds pubkeys to the author set; duplicates are no-ops.
    pub fn set_authors(&mut self, authors: Vec<Vec<u8>>) -> (r: Result<(), Error>)
        requires
            old(self).wf(),
        ensures
            r is Ok,
            final(self).wf(),
            final(self)@ == (DbView {
                authors: old(self)@.authors.union(keys_set(authors@)),
                ..old(self)@
            }),
            final(self).durable_view() == old(self).durable_view(),
    {
        let mut i: usize = 0;
        proof {
            assert(keys_set(authors@.take(0)) =~= Set::<Seq<u8>>::empty());
            assert(old(self)@.authors.union(keys_set(authors@.take(0))) =~= old(self)@.authors);
        }
        while i < authors.len()
            invariant
                0 <= i <= authors@.len(),
                self.wf(),
                self@ == (DbView {
                    authors: old(self)@.authors.union(keys_set(authors@.take(i as int))),
                    ..old(self)@
                }),
                self.durable_view() == old(self).durable_view(),
            decreases authors@.len() - i,
        {
            let ghost mid = *self;
            let _ = self.kv.put(AUTHOR_NS, clone_bytes(&authors[i]), Vec::new());
            proof {
                self.lemma_durable_unchanged(mid);
                assert(dec_events(self.kv.view_ns(EVENT_NS as int)) == dec_events(
                    mid.kv.view_ns(EVENT_NS as int),
                ));
                assert(self.kv.view_ns(AUTHOR_NS as int).dom() =~= mid.kv.view_ns(
                    AUTHOR_NS as int,
                ).dom().insert(authors@[i as int]@));
                assert(authors@.take(i as int + 1) =~= authors@.take(i as int).push(
                    authors@[i as int],
                ));
                lemma_keys_set_push(authors@.take(i as int), authors@[i as int]);
                assert(old(self)@.authors.union(keys_set(authors@.take(i as int))).insert(
                    authors@[i as int]@,
                ) =~= old(self)@.authors.union(keys_set(authors@.take(i as int + 1))));
            }
            i = i + 1;
        }
        proof {
            assert(authors@.take(authors@.len() as int) =~= authors@);
        }
        Ok(())
    }

    /// Every pubkey the store has ever observed, in ascending byte order.
    pub fn get_authors(&self) -> (r: Result<Vec<Vec<u8>>, Error>)
        requires
            self.wf(),
        ensures
            match r {
                Ok(v) => v@.len() == self.author_list().len() && forall|i: int|
                    0 <= i < v@.len() ==> #[trigger] v@[i]@ == self.author_list()[i],
                Err(_) => false,
            },
    {
        let pairs = self.kv.iterator(AUTHOR_NS);
        let mut r: Vec<Vec<u8>> = Vec::new();
        let mut i: usize = 0;
        while i < pairs.len()
            invariant
                0 <= i <= pairs@.len(),
                pairs@.len() == self.author_list().len(),
                forall|j: int|
                    0 <= j < pairs@.len() ==> (#[trigger] pairs@[j].0@, pairs@[j].1@)
                        == self.kv.entries_ns(AUTHOR_NS as int)[j],
                r@.len() == i,
                forall|j: int| 0 <= j < i ==> #[trigger] r@[j]@ == self.author_list()[j],
            decreases pairs@.len() - i,
        {
            r.push(clone_bytes(&pairs[i].0));
            i = i + 1;
        }
        Ok(r)
    }

    /// The ascending author list is duplicate-free and carries exactly the
    /// author set.
    pub proof fn lemma_author_list(self)
        requires
            self.wf(),
        ensures
            forall|i: int, j: int|
                0 <= i < j < self.author_list().len() ==> crate::keys::lex_lt(
                    #[trigger] self.author_list()[i],
                    #[trigger] self.author_list()[j],
                ),
            forall|i: int|
                0 <= i < self.author_list().len() ==> self@.authors.contains(
                    #[trigger] self.author_list()[i],
                ),
            forall|k: Seq<u8>|
                self@.authors.contains(k) ==> exists|i: int|
                    0 <= i < self.author_list().len() && #[trigger] self.author_list()[i] == k,
    {
        self.kv.lemma_entries(AUTHOR_NS as int);
        assert forall|k: Seq<u8>| self@.authors.contains(k) implies exists|i: int|
            0 <= i < self.author_list().len() && #[trigger] self.author_list()[i] == k by {
            let i = choose|i: int|
                0 <= i < self.kv.entries_ns(AUTHOR_NS as int).len() && (#[trigger] self.kv.entries_ns(
                    AUTHOR_NS as int,
                )[i]).0 == k;
            assert(self.author_list()[i] == k);
        }
    }

    /// Records a relay and its optional proxy address.
    pub fn insert_relay(&mut self, url: String, proxy: Option<String>) -> (r: Result<(), Error>)
        requires
            old(self).wf(),
        ensures
            r is Ok,
            final(self).wf(),
            final(self)@ == old(self)@,
            final(self).durable_view() == old(self).durable_view(),
            final(self).relays() == old(self).relays().insert(
                vstd::utf8::encode_utf8(url@),
                spec_enc_opt_str(proxy.deep_view()),
            ),
    {
        let key = string_to_bytes(url.as_str());
        let value = enc_opt_str(&proxy);
        let ghost mid = *self;
        let _ = self.kv.put(RELAY_NS, key, value);
        proof {
            self.lemma_durable_unchanged(mid);
            assert(dec_events(self.kv.view_ns(EVENT_NS as int)) == dec_events(
                mid.kv.view_ns(EVENT_NS as int),
            ));
            assert(self@ == mid@);
        }
        Ok(())
    }
}

/// Whether a pubkey is named by a contact list.
pub open spec fn listed(cs: Seq<ContactV>, pk: Seq<u8>) -> bool {
    exists|i: int| 0 <= i < cs.len() && #[trigger] cs[i].pk == pk
}

pub proof fn lemma_listed_push(cs: Seq<ContactV>, c: ContactV)
    ensures
        forall|pk: Seq<u8>| #[trigger] listed(cs.push(c), pk) <==> (listed(cs, pk) || c.pk == pk),
{
    assert forall|pk: Seq<u8>| #[trigger] listed(cs.push(c), pk) implies (listed(cs, pk) || c.pk
        == pk) by {
        let i = choose|i: int| 0 <= i < cs.push(c).len() && #[trigger] cs.push(c)[i].pk == pk;
        if i < cs.len() {
            assert(cs[i].pk == pk);
        }
    }
    assert forall|pk: Seq<u8>| (listed(cs, pk) || c.pk == pk) implies #[trigger] listed(
        cs.push(c),
        pk,
    ) by {
        if listed(cs, pk) {
            let i = choose|i: int| 0 <= i < cs.len() && #[trigger] cs[i].pk == pk;
            assert(cs.push(c)[i].pk == pk);
        } else {
            assert(cs.push(c)[cs.len() as int].pk == pk);
        }
    }
}

/// The contact namespace after a wholesale replacement: one row per named
/// pubkey, a later tag winning over an earlier one for the same pubkey.
pub open spec fn contact_map(cs: Seq<ContactV>) -> Map<Seq<u8>, ContactV>
    decreases cs.len(),
{
    if cs.len() == 0 {
        Map::empty()
    } else {
        contact_map(cs.drop_last()).insert(cs.last().pk, cs.last())
    }
}

/// The profiles after a contact-list replacement: every stored profile keeps
/// its other fields and has its contact flag set to list membership; every
/// listed pubkey without a stored row gets a fresh one that is a contact.
pub open spec fn contact_flags(profiles: Map<Seq<u8>, ProfileV>, cs: Seq<ContactV>) -> Map<
    Seq<u8>,
    ProfileV,
> {
    Map::new(
        |pk: Seq<u8>| profiles.dom().contains(pk) || listed(cs, pk),
        |pk: Seq<u8>|
            if profiles.dom().contains(pk) {
                ProfileV { is_contact: listed(cs, pk), ..profiles[pk] }
            } else {
                ProfileV { is_contact: true, ..ProfileV::spec_empty(pk) }
            },
    )
}

/// The set of pubkeys a contact list names.
pub open spec fn contact_pk_set(cs: Seq<ContactV>) -> Set<Seq<u8>> {
    Set::new(|pk: Seq<u8>| listed(cs, pk))
}

/// Whether some contact in the vector names this pubkey.
fn contains_pk(list: &Vec<Contact>, pk: &Vec<u8>) -> (r: bool)
    ensures
        r == listed(crate::model::view_contacts(list@), pk@),
{
    let ghost cs = crate::model::view_contacts(list@);
    let mut i: usize = 0;
    while i < list.len()
        invariant
            0 <= i <= list@.len(),
            cs == crate::model::view_contacts(list@),
            cs.len() == list@.len(),
            forall|j: int| 0 <= j < i ==> #[trigger] cs[j].pk != pk@,
        decreases list@.len() - i,
    {
        if crate::kv::bytes_eq(&list[i].pk, pk) {
            proof {
                assert(cs[i as int].pk == pk@);
            }
            return true;
        }
        i = i + 1;
    }
    proof {
        if listed(cs, pk@) {
            let j = choose|j: int| 0 <= j < cs.len() && #[trigger] cs[j].pk == pk@;
            assert(false);
        }
    }
    false
}

impl Store {
    /// Replaces the whole contact set from an authoritative list: the contact
    /// namespace is rebuilt from the list, every stored profile's contact
    /// flag is set to list membership (stale contacts are flagged out, not
    /// deleted, keeping their cached metadata), a fresh contact row is made
    /// for every listed pubkey without one, and every listed pubkey joins the
    /// author set.
    #[verifier::rlimit(50)]
    pub fn set_contacts(&mut self, list: Vec<Contact>) -> (r: Result<(), Error>)
        requires
            old(self).wf(),
        ensures
            r is Ok,
            final(self).wf(),
            final(self)@ == (DbView {
                profiles: contact_flags(
                    old(self)@.profiles,
                    crate::model::view_contacts(list@),
                ),
                contacts: contact_map(crate::model::view_contacts(list@)),
                authors: old(self)@.authors.union(
                    contact_pk_set(crate::model::view_contacts(list@)),
                ),
                ..old(self)@
            }),
            final(self).durable_view() == old(self).durable_view(),
    {
        let ghost cs = crate::model::view_contacts(list@);
        let ghost v0 = old(self)@;
        // Set every stored profile's contact flag to list membership.
        let pairs = self.kv.iterator(PROFILE_NS);
        proof {
            self.kv.lemma_entries(PROFILE_NS as int);
        }
        let ghost entries = self.profile_entries();
        proof {
            assert forall|j1: int, j2: int|
                0 <= j1 < j2 < entries.len() implies (#[trigger] entries[j1]).0 != (
            #[trigger] entries[j2]).0 by {
                if entries[j1].0 == entries[j2].0 {
                    crate::keys::lemma_lex_lt_irrefl(entries[j1].0);
                }
            }
        }
        let mut i: usize = 0;
        while i < pairs.len()
            invariant
                0 <= i <= pairs@.len(),
                self.wf(),
                cs == crate::model::view_contacts(list@),
                cs.len() == list@.len(),
                pairs@.len() == entries.len(),
                forall|j: int|
                    0 <= j < pairs@.len() ==> (#[trigger] pairs@[j].0@, pairs@[j].1@) == entries[j],
                forall|j: int| 0 <= j < entries.len() ==> v0.profiles.dom().contains(
                    #[trigger] entries[j].0,
                ),
                forall|k: Seq<u8>|
                    v0.profiles.dom().contains(k) ==> exists|j: int|
                        0 <= j < entries.len() && (#[trigger] entries[j]).0 == k,
                forall|j1: int, j2: int|
                    0 <= j1 < j2 < entries.len() ==> (#[trigger] entries[j1]).0 != (
                    #[trigger] entries[j2]).0,
                self@.profiles.dom() == v0.profiles.dom(),
                forall|j: int|
                    0 <= j < i ==> #[trigger] self@.profiles[entries[j].0] == (ProfileV {
                        is_contact: listed(cs, entries[j].0),
                        ..v0.profiles[entries[j].0]
                    }),
                forall|k: Seq<u8>|
                    v0.profiles.dom().contains(k) && !(exists|j: int|
                        0 <= j < i && (#[trigger] entries[j]).0 == k) ==> self@.profiles[k]
                        == v0.profiles[k],
                self@.events == v0.events,
                self@.contacts == v0.contacts,
                self@.authors == v0.authors,
                self@.feed == v0.feed,
                self.durable_view() == old(self).durable_view(),
            decreases pairs@.len() - i,
        {
            let key = clone_bytes(&pairs[i].0);
            let member = contains_pk(&list, &key);
            let stored = match self.get_profile(&key) {
                Ok(p) => p,
                Err(_) => {
                    proof {
                        assert(false);
                    }
                    return Err(Error::NotFound);
                },
            };
            let updated = Profile { is_contact: member, ..stored };
            let ghost prev = *self;
            let _ = self.put_profile_raw(updated);
            proof {
                assert(updated@ == (ProfileV {
                    is_contact: listed(cs, entries[i as int].0),
                    ..v0.profiles[entries[i as int].0]
                }));
                assert(self@.profiles.dom() =~= v0.profiles.dom());
                assert forall|j: int|
                    0 <= j < i + 1 implies #[trigger] self@.profiles[entries[j].0] == (ProfileV {
                    is_contact: listed(cs, entries[j].0),
                    ..v0.profiles[entries[j].0]
                }) by {
                    if j < i {
                        assert(entries[j].0 != entries[i as int].0);
                    }
                }
            }
            i = i + 1;
        }
        // Make a fresh contact row for every listed pubkey without one.
        let ghost flagged = self@.profiles;
        proof {
            assert(flagged.dom() == v0.profiles.dom());
            assert forall|k: Seq<u8>| #[trigger] v0.profiles.dom().contains(k) implies flagged[k]
                == (ProfileV { is_contact: listed(cs, k), ..v0.profiles[k] }) by {
                let j = choose|j: int| 0 <= j < entries.len() && (#[trigger] entries[j]).0 == k;
            }
        }
        proof {
            assert(cs.take(0) =~= Seq::<ContactV>::empty());
            assert(self@.profiles =~= Map::new(
                |pk: Seq<u8>| flagged.dom().contains(pk) || listed(cs.take(0), pk),
                |pk: Seq<u8>|
                    if flagged.dom().contains(pk) {
                        flagged[pk]
                    } else {
                        ProfileV { is_contact: true, ..ProfileV::spec_empty(pk) }
                    },
            ));
        }
        let mut i2: usize = 0;
        while i2 < list.len()
            invariant
                0 <= i2 <= list@.len(),
                self.wf(),
                cs == crate::model::view_contacts(list@),
                cs.len() == list@.len(),
                forall|j: int| 0 <= j < cs.len() ==> #[trigger] cs[j].pk == list@[j].pk@,
                flagged.dom() == v0.profiles.dom(),
                self@.profiles == Map::new(
                    |pk: Seq<u8>| flagged.dom().contains(pk) || listed(cs.take(i2 as int), pk),
                    |pk: Seq<u8>|
                        if flagged.dom().contains(pk) {
                            flagged[pk]
                        } else {
                            ProfileV { is_contact: true, ..ProfileV::spec_empty(pk) }
                        },
                ),
                self@.events == v0.events,
                self@.contacts == v0.contacts,
                self@.authors == v0.authors,
                self@.feed == v0.feed,
                self.durable_view() == old(self).durable_view(),
            decreases list@.len() - i2,
        {
            let pk = clone_bytes(&list[i2].pk);
            let ghost pkv = pk@;
            let ghost before = self@.profiles;
            if !self.kv.key_may_exist(PROFILE_NS, &pk) {
                let fresh = Profile { is_contact: true, ..Profile::empty(pk) };
                proof {
                    assert(fresh@ == (ProfileV { is_contact: true, ..ProfileV::spec_empty(pkv) }));
                }
                let _ = self.put_profile_raw(fresh);
                proof {
                    assert(self@.profiles == before.insert(
                        pkv,
                        (ProfileV { is_contact: true, ..ProfileV::spec_empty(pkv) }),
                    ));
                }
            }
            proof {
                lemma_listed_take_push(cs, i2 as int);
                assert(pkv == cs[i2 as int].pk);
                let m2 = Map::new(
                    |q: Seq<u8>| flagged.dom().contains(q) || listed(cs.take(i2 as int + 1), q),
                    |q: Seq<u8>|
                        if flagged.dom().contains(q) {
                            flagged[q]
                        } else {
                            ProfileV { is_contact: true, ..ProfileV::spec_empty(q) }
                        },
                );
                assert forall|q: Seq<u8>| true implies #[trigger] self@.profiles.dom().contains(q)
                    == m2.dom().contains(q) && (self@.profiles.dom().contains(q)
                    ==> self@.profiles[q] == m2[q]) by {
                    assert(before.dom().contains(q) <==> flagged.dom().contains(q) || listed(
                        cs.take(i2 as int),
                        q,
                    ));
                    if q == pkv {
                        assert(listed(cs.take(i2 as int + 1), q));
                    }
                }
                assert(self@.profiles =~= m2);
            }
            i2 = i2 + 1;
        }
        proof {
            assert(cs.take(cs.len() as int) =~= cs);
            assert(self@.profiles =~= contact_flags(v0.profiles, cs));
        }
        // Rebuild the contact namespace from the list.
        let cpairs = self.kv.iterator(CONTACT_NS);
        proof {
            self.kv.lemma_entries(CONTACT_NS as int);
        }
        let ghost centries = self.kv.entries_ns(CONTACT_NS as int);
        let ghost cm0 = self@.contacts;
        let ghost v1 = self@;
        let mut i3: usize = 0;
        while i3 < cpairs.len()
            invariant
                0 <= i3 <= cpairs@.len(),
                self.wf(),
                cpairs@.len() == centries.len(),
                forall|j: int|
                    0 <= j < cpairs@.len() ==> (#[trigger] cpairs@[j].0@, cpairs@[j].1@)
                        == centries[j],
                forall|k: Seq<u8>|
                    cm0.dom().contains(k) ==> exists|j: int|
                        0 <= j < centries.len() && (#[trigger] centries[j]).0 == k,
                forall|k: Seq<u8>| #[trigger]
                    self@.contacts.dom().contains(k) <==> cm0.dom().contains(k) && !(exists|j: int|
                        0 <= j < i3 && (#[trigger] centries[j]).0 == k),
                self@.profiles == v1.profiles,
                self@.events == v1.events,
                self@.authors == v1.authors,
                self@.feed == v1.feed,
                self.durable_view() == old(self).durable_view(),
            decreases cpairs@.len() - i3,
        {
            let key = clone_bytes(&cpairs[i3].0);
            let ghost prev = *self;
            let _ = self.kv.delete(CONTACT_NS, &key);
            proof {
                let bm0 = prev.kv.view_ns(CONTACT_NS as int);
                let bm1 = self.kv.view_ns(CONTACT_NS as int);
                assert forall|k: Seq<u8>| #[trigger] bm1.dom().contains(k) implies spec_dec_contact(
                    bm1[k],
                ) is Some && spec_dec_contact(bm1[k]).unwrap().pk == k by {
                    assert(bm0.dom().contains(k));
                    assert(bm1[k] == bm0[k]);
                }
                self.lemma_view_after_contact_change(prev);
                assert forall|k: Seq<u8>| true implies (#[trigger] self@.contacts.dom().contains(k)
                    <==> cm0.dom().contains(k) && !(exists|j: int|
                    0 <= j < i3 + 1 && (#[trigger] centries[j]).0 == k)) by {
                    if self@.contacts.dom().contains(k) {
                        assert(prev@.contacts.dom().contains(k));
                        assert(k != centries[i3 as int].0);
                        assert(cm0.dom().contains(k));
                        if exists|j: int| 0 <= j < i3 + 1 && (#[trigger] centries[j]).0 == k {
                            let j = choose|j: int|
                                0 <= j < i3 + 1 && (#[trigger] centries[j]).0 == k;
                            assert(j < i3);
                            assert(false);
                        }
                    } else {
                        if cm0.dom().contains(k) && !(exists|j: int|
                            0 <= j < i3 + 1 && (#[trigger] centries[j]).0 == k) {
                            assert(!(exists|j: int|
                                0 <= j < i3 && (#[trigger] centries[j]).0 == k));
                            assert(prev@.contacts.dom().contains(k));
                            assert(k != centries[i3 as int].0);
                            assert(false);
                        }
                    }
                }
            }
            i3 = i3 + 1;
        }
        proof {
            assert forall|k: Seq<u8>| true implies !(#[trigger] self@.contacts.dom().contains(
                k,
            )) by {
                if self@.contacts.dom().contains(k) {
                    let j = choose|j: int| 0 <= j < centries.len() && (#[trigger] centries[j]).0 == k;
                }
            }
            assert(self@.contacts =~= Map::<Seq<u8>, ContactV>::empty());
            assert(contact_map(cs.take(0)) =~= Map::<Seq<u8>, ContactV>::empty());
        }
        let ghost v2 = self@;
        let mut i4: usize = 0;
        while i4 < list.len()
            invariant
                0 <= i4 <= list@.len(),
                self.wf(),
                cs == crate::model::view_contacts(list@),
                cs.len() == list@.len(),
                forall|j: int| 0 <= j < cs.len() ==> #[trigger] cs[j] == list@[j]@,
                self@.contacts == contact_map(cs.take(i4 as int)),
                self@.profiles == v2.profiles,
                self@.events == v2.events,
                self@.authors == v2.authors,
                self@.feed == v2.feed,
                self.durable_view() == old(self).durable_view(),
            decreases list@.len() - i4,
        {
            let c = Contact {
                pk: clone_bytes(&list[i4].pk),
                relay_url: crate::metadata::clone_opt_string(&list[i4].relay_url),
                alias: crate::metadata::clone_opt_string(&list[i4].alias),
            };
            let key = clone_bytes(&c.pk);
            let value = encode_contact(&c);
            let ghost b = value@;
            let ghost prev = *self;
            let _ = self.kv.put(CONTACT_NS, key, value);
            proof {
                assert(c@ == cs[i4 as int]);
                self.lemma_view_after_contact_put(prev, cs[i4 as int].pk, cs[i4 as int], b);
                assert(cs.take(i4 as int + 1).drop_last() =~= cs.take(i4 as int));
                assert(cs.take(i4 as int + 1).last() == cs[i4 as int]);
            }
            i4 = i4 + 1;
        }
        proof {
            assert(cs.take(cs.len() as int) =~= cs);
        }
        // Every listed pubkey joins the author set.
        let mut pks: Vec<Vec<u8>> = Vec::new();
        let mut i5: usize = 0;
        while i5 < list.len()
            invariant
                0 <= i5 <= list@.len(),
                cs == crate::model::view_contacts(list@),
                cs.len() == list@.len(),
                pks@.len() == i5,
                forall|j: int| 0 <= j < i5 ==> #[trigger] pks@[j]@ == cs[j].pk,
            decreases list@.len() - i5,
        {
            pks.push(clone_bytes(&list[i5].pk));
            i5 = i5 + 1;
        }
        let ghost v3 = self@;
        let _ = self.set_authors(pks);
        proof {
            assert forall|k: Seq<u8>| true implies #[trigger] keys_set(pks@).contains(k)
                == contact_pk_set(cs).contains(k) by {
                if keys_set(pks@).contains(k) {
                    let j = choose|j: int| 0 <= j < pks@.len() && #[trigger] pks@[j]@ == k;
                    assert(cs[j].pk == k);
                }
                if contact_pk_set(cs).contains(k) {
                    let j = choose|j: int| 0 <= j < cs.len() && #[trigger] cs[j].pk == k;
                    assert(pks@[j]@ == k);
                }
            }
            assert(keys_set(pks@) =~= contact_pk_set(cs));
            assert(v3.authors == v0.authors);
        }
        Ok(())
    }

    /// A contact-namespace change leaves every other component untouched.
    proof fn lemma_view_after_contact_change(self, prev: Store)
        requires
            prev.wf(),
            self.kv.wf(),
            self.kv.spec_num_namespaces() == NUM_NS,
            self.kv.durable_state() == prev.kv.durable_state(),
            forall|i: int|
                0 <= i < NUM_NS && i != CONTACT_NS ==> #[trigger] self.kv.view_ns(i)
                    == prev.kv.view_ns(i),
            contacts_wf(self.kv.view_ns(CONTACT_NS as int)),
        ensures
            self.wf(),
            self@.events == prev@.events,
            self@.profiles == prev@.profiles,
            self@.authors == prev@.authors,
            self@.feed == prev@.feed,
            self.durable_view() == prev.durable_view(),
    {
        self.lemma_durable_unchanged(prev);
        assert(dec_events(self.kv.view_ns(EVENT_NS as int)) == dec_events(
            prev.kv.view_ns(EVENT_NS as int),
        ));
        assert(dec_profiles(self.kv.view_ns(PROFILE_NS as int)) == dec_profiles(
            prev.kv.view_ns(PROFILE_NS as int),
        ));
    }

    /// After a contact put, only the contact map changed, by one insert.
    proof fn lemma_view_after_contact_put(self, prev: Store, pk: Seq<u8>, cv: ContactV, b: Seq<u8>)
        requires
            prev.wf(),
            self.kv.wf(),
            self.kv.spec_num_namespaces() == NUM_NS,
            self.kv.durable_state() == prev.kv.durable_state(),
            self.kv.view_ns(CONTACT_NS as int) == prev.kv.view_ns(CONTACT_NS as int).insert(pk, b),
            spec_dec_contact(b) == Some(cv),
            cv.pk == pk,
            forall|i: int|
                0 <= i < NUM_NS && i != CONTACT_NS ==> #[trigger] self.kv.view_ns(i)
                    == prev.kv.view_ns(i),
        ensures
            self.wf(),
            self@ == (DbView { contacts: prev@.contacts.insert(pk, cv), ..prev@ }),
            self.durable_view() == prev.durable_view(),
    {
        let bm0 = prev.kv.view_ns(CONTACT_NS as int);
        let bm1 = self.kv.view_ns(CONTACT_NS as int);
        assert forall|k: Seq<u8>| #[trigger] bm1.dom().contains(k) implies spec_dec_contact(
            bm1[k],
        ) is Some && spec_dec_contact(bm1[k]).unwrap().pk == k by {
            if k != pk {
                assert(bm0.dom().contains(k));
                assert(bm1[k] == bm0[k]);
            }
        }
        self.lemma_view_after_contact_change(prev);
        assert(dec_contacts(bm1) =~= prev@.contacts.insert(pk, cv));
        assert(self@ == (DbView { contacts: prev@.contacts.insert(pk, cv), ..prev@ }));
    }
}

/// A pubkey freshly listed at position `i` extends list membership by at most
/// that pubkey.
pub proof fn lemma_listed_take_push(cs: Seq<ContactV>, i: int)
    requires
        0 <= i < cs.len(),
    ensures
        forall|pk: Seq<u8>| #[trigger]
            listed(cs.take(i + 1), pk) <==> (listed(cs.take(i), pk) || cs[i].pk == pk),
{
    assert(cs.take(i + 1) =~= cs.take(i).push(cs[i]));
    lemma_listed_push(cs.take(i), cs[i]);
}

/// The values of a sequence of profiles.
pub open spec fn view_profiles(s: Seq<Profile>) -> Seq<ProfileV> {
    Seq::new(s.len(), |i: int| s[i]@)
}

/// The values of a sequence of events.
pub open spec fn view_events(s: Seq<Event>) -> Seq<EventV> {
    Seq::new(s.len(), |i: int| s[i]@)
}

/// The stored profiles whose contact flag is set, in ascending pubkey order
/// of the given entries.
pub open spec fn spec_filter_contacts(entries: Seq<(Seq<u8>, Seq<u8>)>) -> Seq<ProfileV>
    decreases entries.len(),
{
    if entries.len() == 0 {
        Seq::empty()
    } else {
        let rest = spec_filter_contacts(entries.drop_last());
        let p = spec_dec_profile(entries.last().1).unwrap();
        if p.is_contact {
            rest.push(p)
        } else {
            rest
        }
    }
}

/// Every element of the contact filter comes from a flagged entry, and every
/// flagged entry's profile is an element.
pub proof fn lemma_filter_contacts_members(entries: Seq<(Seq<u8>, Seq<u8>)>)
    ensures
        forall|i: int| #![trigger spec_filter_contacts(entries)[i]]
            0 <= i < spec_filter_contacts(entries).len() ==> exists|j: int|
                0 <= j < entries.len() && spec_filter_contacts(entries)[i] == spec_dec_profile(
                    (#[trigger] entries[j]).1,
                ).unwrap() && spec_dec_profile(entries[j].1).unwrap().is_contact,
        forall|j: int|
            0 <= j < entries.len() && spec_dec_profile(
                (#[trigger] entries[j]).1,
            ).unwrap().is_contact ==> spec_filter_contacts(entries).contains(
                spec_dec_profile(entries[j].1).unwrap(),
            ),
    decreases entries.len(),
{
    if entries.len() > 0 {
        let prefix = entries.drop_last();
        lemma_filter_contacts_members(prefix);
        let fc = spec_filter_contacts(entries);
        let fp = spec_filter_contacts(prefix);
        let last = spec_dec_profile(entries.last().1).unwrap();
        assert forall|i: int| #![trigger fc[i]]
            0 <= i < fc.len() implies exists|j: int|
            0 <= j < entries.len() && fc[i] == spec_dec_profile(
                (#[trigger] entries[j]).1,
            ).unwrap() && spec_dec_profile(entries[j].1).unwrap().is_contact by {
            if last.is_contact && i == fc.len() - 1 {
                assert(fc[i] == spec_dec_profile((entries[entries.len() - 1]).1).unwrap());
            } else {
                assert(fc[i] == fp[i]);
                let j = choose|j: int|
                    0 <= j < prefix.len() && fp[i] == spec_dec_profile(
                        (#[trigger] prefix[j]).1,
                    ).unwrap() && spec_dec_profile(prefix[j].1).unwrap().is_contact;
                assert(entries[j] == prefix[j]);
                assert(fc[i] == spec_dec_profile((entries[j]).1).unwrap());
            }
        }
        assert forall|j: int|
            0 <= j < entries.len() && spec_dec_profile(
                (#[trigger] entries[j]).1,
            ).unwrap().is_contact implies spec_filter_contacts(entries).contains(
            spec_dec_profile(entries[j].1).unwrap(),
        ) by {
            if j == entries.len() - 1 {
                assert(fc[fc.len() - 1] == last);
            } else {
                assert(prefix[j] == entries[j]);
                assert(fp.contains(spec_dec_profile(entries[j].1).unwrap()));
                let i = choose|i: int|
                    0 <= i < fp.len() && fp[i] == spec_dec_profile(entries[j].1).unwrap();
                assert(fc[i] == spec_dec_profile(entries[j].1).unwrap());
            }
        }
    }
}

/// Over entries with strictly ascending keys, each holding a profile stored
/// under its own pubkey, the contact filter's pubkeys ascend strictly too —
/// so the result holds one entry per pubkey, with no duplicates.
pub proof fn lemma_filter_contacts_sorted(entries: Seq<(Seq<u8>, Seq<u8>)>)
    requires
        forall|i: int, j: int|
            0 <= i < j < entries.len() ==> crate::keys::lex_lt(
                (#[trigger] entries[i]).0,
                (#[trigger] entries[j]).0,
            ),
        forall|j: int|
            0 <= j < entries.len() ==> spec_dec_profile((#[trigger] entries[j]).1) is Some
                && spec_dec_profile(entries[j].1).unwrap().pubkey == entries[j].0,
    ensures
        forall|i: int, j: int|
            0 <= i < j < spec_filter_contacts(entries).len() ==> crate::keys::lex_lt(
                (#[trigger] spec_filter_contacts(entries)[i]).pubkey,
                (#[trigger] spec_filter_contacts(entries)[j]).pubkey,
            ),
    decreases entries.len(),
{
    if entries.len() > 0 {
        let prefix = entries.drop_last();
        assert(forall|i: int| 0 <= i < prefix.len() ==> #[trigger] prefix[i] == entries[i]);
        lemma_filter_contacts_sorted(prefix);
        lemma_filter_contacts_members(prefix);
        let fc = spec_filter_contacts(entries);
        let fp = spec_filter_contacts(prefix);
        let last = spec_dec_profile(entries.last().1).unwrap();
        assert forall|i: int, j: int|
            0 <= i < j < fc.len() implies crate::keys::lex_lt(
            (#[trigger] fc[i]).pubkey,
            (#[trigger] fc[j]).pubkey,
        ) by {
            if last.is_contact && j == fc.len() - 1 {
                assert(fc[i] == fp[i]);
                assert(fc[j] == last);
                let k = choose|k: int|
                    0 <= k < prefix.len() && fp[i] == spec_dec_profile(
                        (#[trigger] prefix[k]).1,
                    ).unwrap() && spec_dec_profile(prefix[k].1).unwrap().is_contact;
                assert(fc[i].pubkey == entries[k].0);
                assert(last.pubkey == entries[entries.len() - 1].0);
                assert(crate::keys::lex_lt(entries[k].0, entries[entries.len() - 1].0));
            } else {
                assert(fc[i] == fp[i] && fc[j] == fp[j]);
            }
        }
    }
}

/// The smaller of two lengths.
pub open spec fn spec_min(a: int, b: int) -> int {
    if a < b {
        a
    } else {
        b
    }
}

impl Store {
    /// The profiles filtered by the contact flag, in ascending pubkey order.
    pub fn get_contacts(&self) -> (r: Result<Vec<Profile>, Error>)
        requires
            self.wf(),
        ensures
            match r {
                Ok(v) => view_profiles(v@) == spec_filter_contacts(self.profile_entries()),
                Err(_) => false,
            },
    {
        let pairs = self.kv.iterator(PROFILE_NS);
        proof {
            self.kv.lemma_entries(PROFILE_NS as int);
        }
        let ghost entries = self.profile_entries();
        let mut out: Vec<Profile> = Vec::new();
        let mut i: usize = 0;
        proof {
            assert(entries.take(0) =~= Seq::<(Seq<u8>, Seq<u8>)>::empty());
            assert(view_profiles(out@) =~= spec_filter_contacts(entries.take(0)));
        }
        while i < pairs.len()
            invariant
                0 <= i <= pairs@.len(),
                self.wf(),
                entries == self.profile_entries(),
                pairs@.len() == entries.len(),
                forall|j: int|
                    0 <= j < pairs@.len() ==> (#[trigger] pairs@[j].0@, pairs@[j].1@) == entries[j],
                forall|j: int| 0 <= j < entries.len() ==> self@.profiles.dom().contains(
                    #[trigger] entries[j].0,
                ) && self.kv.view_ns(PROFILE_NS as int)[entries[j].0] == entries[j].1,
                view_profiles(out@) == spec_filter_contacts(entries.take(i as int)),
            decreases pairs@.len() - i,
        {
            proof {
                assert((pairs@[i as int].0@, pairs@[i as int].1@) == entries[i as int]);
                assert(self.kv.view_ns(PROFILE_NS as int).dom().contains(entries[i as int].0));
            }
            let p = match decode_profile(&pairs[i].1) {
                Some(p) => p,
                None => {
                    proof {
                        assert(false);
                    }
                    return Err(Error::Serialization);
                },
            };
            let ghost old_out = out@;
            if p.is_contact {
                out.push(p);
            }
            proof {
                assert(entries.take(i as int + 1).drop_last() =~= entries.take(i as int));
                assert(entries.take(i as int + 1).last() == entries[i as int]);
                assert(view_profiles(out@) =~= spec_filter_contacts(entries.take(i as int + 1)));
            }
            i = i + 1;
        }
        proof {
            assert(entries.take(entries.len() as int) =~= entries);
        }
        Ok(out)
    }

    /// What `get_contacts` returns is exactly the stored profiles whose
    /// contact flag is set: each result is the profile stored under its
    /// pubkey and is a contact, and every flagged stored profile appears.
    pub proof fn lemma_contacts_are_flagged_profiles(self)
        requires
            self.wf(),
        ensures
            forall|i: int|
                0 <= i < spec_filter_contacts(self.profile_entries()).len()
                    ==> self@.profiles.dom().contains(
                    (#[trigger] spec_filter_contacts(self.profile_entries())[i]).pubkey,
                ) && self@.profiles[spec_filter_contacts(self.profile_entries())[i].pubkey]
                    == spec_filter_contacts(self.profile_entries())[i] && spec_filter_contacts(
                    self.profile_entries(),
                )[i].is_contact,
            forall|pk: Seq<u8>|
                self@.profiles.dom().contains(pk) && (#[trigger] self@.profiles[pk]).is_contact
                    ==> spec_filter_contacts(self.profile_entries()).contains(self@.profiles[pk]),
            forall|i: int, j: int|
                0 <= i < j < spec_filter_contacts(self.profile_entries()).len()
                    ==> crate::keys::lex_lt(
                    (#[trigger] spec_filter_contacts(self.profile_entries())[i]).pubkey,
                    (#[trigger] spec_filter_contacts(self.profile_entries())[j]).pubkey,
                ) && spec_filter_contacts(self.profile_entries())[i].pubkey
                    != spec_filter_contacts(self.profile_entries())[j].pubkey,
    {
        self.kv.lemma_entries(PROFILE_NS as int);
        let entries = self.profile_entries();
        lemma_filter_contacts_members(entries);
        assert forall|j: int|
            0 <= j < entries.len() implies spec_dec_profile((#[trigger] entries[j]).1) is Some
            && spec_dec_profile(entries[j].1).unwrap().pubkey == entries[j].0 by {
            assert(self.kv.view_ns(PROFILE_NS as int).dom().contains(entries[j].0));
            assert(self.kv.view_ns(PROFILE_NS as int)[entries[j].0] == entries[j].1);
        }
        lemma_filter_contacts_sorted(entries);
        assert forall|i: int, j: int|
            0 <= i < j < spec_filter_contacts(entries).len() implies (
        #[trigger] spec_filter_contacts(entries)[i]).pubkey != (#[trigger] spec_filter_contacts(
            entries,
        )[j]).pubkey by {
            crate::keys::lemma_lex_lt_irrefl(spec_filter_contacts(entries)[i].pubkey);
        }
        assert forall|i: int|
            0 <= i < spec_filter_contacts(entries).len() implies self@.profiles.dom().contains(
            (#[trigger] spec_filter_contacts(entries)[i]).pubkey,
        ) && self@.profiles[spec_filter_contacts(entries)[i].pubkey] == spec_filter_contacts(
            entries,
        )[i] && spec_filter_contacts(entries)[i].is_contact by {
            let j = choose|j: int|
                0 <= j < entries.len() && spec_filter_contacts(entries)[i] == spec_dec_profile(
                    (#[trigger] entries[j]).1,
                ).unwrap() && spec_dec_profile(entries[j].1).unwrap().is_contact;
            assert(self.kv.view_ns(PROFILE_NS as int).dom().contains(entries[j].0));
            assert(self.kv.view_ns(PROFILE_NS as int)[entries[j].0] == entries[j].1);
            assert(spec_dec_profile(entries[j].1).unwrap().pubkey == entries[j].0);
        }
        assert forall|pk: Seq<u8>|
            self@.profiles.dom().contains(pk) && (#[trigger] self@.profiles[pk]).is_contact implies
            spec_filter_contacts(entries).contains(self@.profiles[pk]) by {
            let j = choose|j: int|
                0 <= j < entries.len() && (#[trigger] entries[j]).0 == pk;
            assert(self.kv.view_ns(PROFILE_NS as int)[entries[j].0] == entries[j].1);
            assert(spec_dec_profile(entries[j].1).unwrap() == self@.profiles[pk]);
        }
    }

    /// The feed-index keys from newest to oldest.
    pub open spec fn feed_desc(self) -> Seq<Seq<u8>> {
        Seq::new(self.feed_index().len(), |i: int| self.feed_index()[self.feed_index().len() - 1 - i])
    }

    /// The indexed TextNote events from newest to oldest.
    pub open spec fn feed_events_desc(self) -> Seq<EventV> {
        Seq::new(self.feed_desc().len(), |i: int| self@.events[self.feed_desc()[i].skip(8)])
    }

    /// One page of the chronological feed: page `page` of size `limit`, newest
    /// first, pages counted from zero.
    pub fn get_feed(&self, limit: usize, page: usize) -> (r: Result<Vec<Event>, Error>)
        requires
            self.wf(),
            limit * page + limit <= usize::MAX,
        ensures
            match r {
                Ok(v) => view_events(v@) == self.feed_events_desc().subrange(
                    spec_min(limit * page, self.feed_events_desc().len() as int),
                    spec_min(limit * page + limit, self.feed_events_desc().len() as int),
                ),
                Err(_) => false,
            },
    {
        let pairs = self.kv.iterator_with_mode(FEED_NS, kv::IteratorMode::End);
        proof {
            self.kv.lemma_entries(FEED_NS as int);
        }
        let ghost n = self.feed_desc().len();
        proof {
            assert forall|j: int| 0 <= j < n implies (#[trigger] pairs@[j].0@) == self.feed_desc()[j]
                && self@.feed.contains(self.feed_desc()[j]) by {
                assert((pairs@[j].0@, pairs@[j].1@) == self.kv.entries_ns(FEED_NS as int)[pairs@.len()
                    - 1 - j]);
            }
        }
        let start = limit * page;
        let mut out: Vec<Event> = Vec::new();
        let mut i: usize = start;
        while i < pairs.len() && out.len() < limit
            invariant
                self.wf(),
                n == self.feed_desc().len(),
                pairs@.len() == n,
                forall|j: int|
                    0 <= j < n ==> (#[trigger] pairs@[j].0@) == self.feed_desc()[j]
                        && self@.feed.contains(self.feed_desc()[j]),
                start == limit * page,
                start + limit <= usize::MAX,
                start <= i <= start + limit,
                out@.len() == i - start,
                i > start ==> i <= n,
                forall|j: int|
                    0 <= j < out@.len() ==> #[trigger] out@[j]@ == self.feed_events_desc()[start
                        + j],
            decreases pairs@.len() - i,
        {
            let ghost fkey = self.feed_desc()[i as int];
            proof {
                assert(pairs@[i as int].0@ == self.feed_desc()[i as int]);
                assert(self@.feed.contains(fkey));
                assert(fkey.len() == 16);
                assert(fkey.subrange(8, 16) =~= fkey.skip(8));
            }
            let ekey = crate::codec::subvec(&pairs[i].0, 8, 16);
            let bytes = match self.kv.get(EVENT_NS, &ekey) {
                Ok(b) => b,
                Err(_) => {
                    proof {
                        assert(false);
                    }
                    return Err(Error::NotFound);
                },
            };
            let ev = match decode_event(&bytes) {
                Some(e) => e,
                None => {
                    proof {
                        assert(false);
                    }
                    return Err(Error::Serialization);
                },
            };
            out.push(ev);
            i = i + 1;
        }
        proof {
            let lo = spec_min(start as int, n as int);
            let hi = spec_min(start as int + limit as int, n as int);
            if i >= pairs.len() {
                if out@.len() == 0 && start >= n {
                    assert(lo == n && hi == n);
                } else {
                    assert(i == n);
                    assert(lo == start as int && hi == n);
                }
            } else {
                assert(out@.len() == limit);
                assert(lo == start as int && hi == start as int + limit as int);
            }
            assert(view_events(out@) =~= self.feed_events_desc().subrange(lo, hi));
        }
        Ok(out)
    }
}

impl Store {
    /// Reading the feed newest-first, timestamps never increase, distinct
    /// timestamps decrease strictly, and every position holds a different
    /// event id.
    pub proof fn lemma_feed_index_facts(self)
        requires
            self.wf(),
        ensures
            forall|i: int, j: int|
                0 <= i < j < self.feed_events_desc().len() ==> (
                #[trigger] self.feed_events_desc()[i]).created_at >= (
                #[trigger] self.feed_events_desc()[j]).created_at,
            forall|i: int, j: int|
                0 <= i < j < self.feed_events_desc().len() && (
                #[trigger] self.feed_events_desc()[i]).created_at != (
                #[trigger] self.feed_events_desc()[j]).created_at
                    ==> self.feed_events_desc()[i].created_at
                    > self.feed_events_desc()[j].created_at,
            forall|i: int, j: int|
                0 <= i < j < self.feed_events_desc().len() ==> (
                #[trigger] self.feed_events_desc()[i]).id != (
                #[trigger] self.feed_events_desc()[j]).id,
            forall|i: int|
                0 <= i < self.feed_desc().len() ==> self@.events.dom().contains(
                    (#[trigger] self.feed_desc()[i]).skip(8),
                ),
            forall|i: int|
                0 <= i < self.feed_events_desc().len() ==> (
                #[trigger] self.feed_events_desc()[i]).kind == KIND_TEXT_NOTE,
    {
        self.kv.lemma_entries(FEED_NS as int);
        assert forall|i: int|
            0 <= i < self.feed_desc().len() implies self@.events.dom().contains(
            (#[trigger] self.feed_desc()[i]).skip(8),
        ) && (self.feed_events_desc()[i]).kind == KIND_TEXT_NOTE by {
            let n2 = self.feed_desc().len();
            assert(self.feed_desc()[i] == self.kv.entries_ns(FEED_NS as int)[n2 - 1 - i].0);
            assert(self.kv.view_ns(FEED_NS as int).dom().contains(self.feed_desc()[i]));
        }
        let n = self.feed_desc().len();
        let fm = self.kv.view_ns(FEED_NS as int);
        assert forall|i: int, j: int|
            0 <= i < j < n implies ((#[trigger] self.feed_events_desc()[i]).created_at >= (
        #[trigger] self.feed_events_desc()[j]).created_at) && (self.feed_events_desc()[i].created_at
            != self.feed_events_desc()[j].created_at ==> self.feed_events_desc()[i].created_at
            > self.feed_events_desc()[j].created_at) && (self.feed_events_desc()[i].id
            != self.feed_events_desc()[j].id) by {
            let ki = self.feed_desc()[i];
            let kj = self.feed_desc()[j];
            assert(ki == self.kv.entries_ns(FEED_NS as int)[n - 1 - i].0);
            assert(kj == self.kv.entries_ns(FEED_NS as int)[n - 1 - j].0);
            assert(crate::keys::lex_lt(kj, ki));
            assert(fm.dom().contains(ki) && fm.dom().contains(kj));
            let pi = ki.skip(8);
            let pj = kj.skip(8);
            let ei = self.feed_events_desc()[i];
            let ej = self.feed_events_desc()[j];
            assert(ei == self@.events[pi] && ej == self@.events[pj]);
            assert(ki.subrange(0, 8) == spec_be8(ei.created_at));
            assert(kj.subrange(0, 8) == spec_be8(ej.created_at));
            assert(ki =~= ki.subrange(0, 8) + ki.skip(8));
            assert(kj =~= kj.subrange(0, 8) + kj.skip(8));
            crate::keys::lemma_lex_lt_prefix(
                kj.subrange(0, 8),
                ki.subrange(0, 8),
                kj.skip(8),
                ki.skip(8),
            );
            if kj.subrange(0, 8) == ki.subrange(0, 8) {
                crate::keys::lemma_be8_injective(ej.created_at, ei.created_at);
            } else {
                assert(crate::keys::lex_lt(spec_be8(ej.created_at), spec_be8(ei.created_at)));
                if ej.created_at > ei.created_at {
                    crate::keys::lemma_be8_order(ei.created_at, ej.created_at);
                    crate::keys::lemma_lex_lt_asymmetric(
                        spec_be8(ej.created_at),
                        spec_be8(ei.created_at),
                    );
                    assert(false);
                }
                if ej.created_at == ei.created_at {
                    crate::keys::lemma_lex_lt_irrefl(spec_be8(ei.created_at));
                    assert(false);
                }
            }
            // Distinct positions hold distinct ids: equal ids would force the
            // same prefix, hence the same timestamp key, hence equal keys.
            assert(ei.id.subrange(0, HASH_PREFIX_LEN as int) == pi);
            assert(ej.id.subrange(0, HASH_PREFIX_LEN as int) == pj);
            if ei.id == ej.id {
                assert(pi == pj);
                assert(ki =~= kj);
                crate::keys::lemma_lex_lt_irrefl(ki);
                assert(false);
            }
        }
    }
}

/// The classifier's whole effect on the store's contents, for one event with
/// a well-formed id. The event is stored once, keyed by its id prefix; its
/// author joins the author set; then exactly one kind-specific strategy runs:
/// Metadata merges a profile snapshot guarded by freshness, ContactList
/// replaces the contact set wholesale, TextNote joins the chronological feed
/// index, and anything else (direct messages included) is stored with no
/// further action.
pub open spec fn spec_ingest(v: DbView, e: EventV) -> DbView {
    let prefix = e.id.subrange(0, HASH_PREFIX_LEN as int);
    let events1 = if v.events.dom().contains(prefix) {
        v.events
    } else {
        v.events.insert(prefix, e)
    };
    let stored = events1[prefix];
    let cs = crate::model::spec_contacts_of_tags(e.tags);
    let profiles1 = if e.kind == KIND_METADATA {
        match crate::metadata::metadata_of(e.content) {
            Some(m) => {
                let existing = if v.profiles.dom().contains(e.pubkey) {
                    Some(v.profiles[e.pubkey])
                } else {
                    None
                };
                match crate::metadata::spec_apply_metadata(existing, e.pubkey, m, e.created_at) {
                    Some(p) => v.profiles.insert(e.pubkey, p),
                    None => v.profiles,
                }
            },
            None => v.profiles,
        }
    } else if e.kind == KIND_CONTACT_LIST {
        contact_flags(v.profiles, cs)
    } else {
        v.profiles
    };
    let contacts1 = if e.kind == KIND_CONTACT_LIST {
        contact_map(cs)
    } else {
        v.contacts
    };
    let authors1 = if e.kind == KIND_CONTACT_LIST {
        v.authors.insert(e.pubkey).union(contact_pk_set(cs))
    } else {
        v.authors.insert(e.pubkey)
    };
    let feed1 = if e.kind == KIND_TEXT_NOTE && stored.kind == KIND_TEXT_NOTE {
        v.feed.insert(spec_be8(stored.created_at) + prefix)
    } else {
        v.feed
    };
    DbView { events: events1, profiles: profiles1, contacts: contacts1, authors: authors1, feed: feed1 }
}

impl Store {
    /// Every stored event is well formed: it carries a 32-byte id and sits
    /// under its own id prefix.
    pub proof fn lemma_events_well_formed(self)
        requires
            self.wf(),
        ensures
            forall|k: Seq<u8>|
                #[trigger] self@.events.dom().contains(k) ==> self@.events[k].id.len()
                    == EVENT_ID_LEN && k == self@.events[k].id.subrange(
                    0,
                    HASH_PREFIX_LEN as int,
                ),
    {
        assert forall|k: Seq<u8>| #[trigger]
            self@.events.dom().contains(k) implies self@.events[k].id.len() == EVENT_ID_LEN && k
            == self@.events[k].id.subrange(0, HASH_PREFIX_LEN as int) by {
            assert(self.kv.view_ns(EVENT_NS as int).dom().contains(k));
        }
    }

    /// Classifies and ingests one event: the kind-specific strategy of
    /// `spec_ingest`, applied atomically to the current state. An event whose
    /// id is not 32 bytes is rejected untouched; nothing else fails.
    pub fn handle_event(&mut self, event: &Event) -> (r: Result<(), Error>)
        requires
            old(self).wf(),
        ensures
            final(self).wf(),
            event@.id.len() != EVENT_ID_LEN ==> r == Err::<(), Error>(Error::MalformedId) && final(self)@ == old(
                self,
            )@,
            event@.id.len() == EVENT_ID_LEN ==> r is Ok && final(self)@ == spec_ingest(
                old(self)@,
                event@,
            ),
            final(self).durable_view() == old(self).durable_view(),
    {
        if event.id.len() != EVENT_ID_LEN {
            return Err(Error::MalformedId);
        }
        let ghost v0 = old(self)@;
        let ghost prefix = event@.id.subrange(0, HASH_PREFIX_LEN as int);
        let r = self.save_event(event);
        let ghost v1 = self@;
        proof {
            assert(v1.events == spec_ingest(v0, event@).events);
        }
        if event.kind == KIND_METADATA {
            let m = match crate::metadata::parse_metadata(event.content.as_str()) {
                Some(m) => m,
                None => {
                    proof {
                        assert(self@ =~~= spec_ingest(v0, event@));
                    }
                    return Ok(());
                },
            };
            let existing = self.get_profile_opt(&event.pubkey);
            let updated = crate::metadata::apply_metadata(&existing, &event.pubkey, &m, event.created_at);
            match updated {
                Some(p) => {
                    proof {
                        assert(p@.pubkey == event@.pubkey);
                    }
                    let _ = self.put_profile_raw(p);
                    proof {
                        assert(self@ =~~= spec_ingest(v0, event@));
                    }
                },
                None => {
                    proof {
                        assert(self@ =~~= spec_ingest(v0, event@));
                    }
                },
            }
            Ok(())
        } else if event.kind == KIND_CONTACT_LIST {
            let contacts = crate::model::contacts_of_tags(&event.tags);
            let _ = self.set_contacts(contacts);
            proof {
                assert(self@.authors =~= spec_ingest(v0, event@).authors);
                assert(self@ =~~= spec_ingest(v0, event@));
            }
            Ok(())
        } else if event.kind == KIND_TEXT_NOTE {
            let pfx = hash_prefix(&event.id);
            let bytes = match self.kv.get(EVENT_NS, &pfx) {
                Ok(b) => b,
                Err(_) => {
                    proof {
                        assert(self@.events.dom().contains(prefix));
                        assert(false);
                    }
                    return Err(Error::NotFound);
                },
            };
            let stored = match decode_event(&bytes) {
                Some(e) => e,
                None => {
                    proof {
                        assert(false);
                    }
                    return Err(Error::Serialization);
                },
            };
            proof {
                assert(stored@ == self@.events[prefix]);
            }
            if stored.kind == KIND_TEXT_NOTE {
                let mut fkey = be8(stored.created_at);
                let mut tail = clone_bytes(&pfx);
                fkey.append(&mut tail);
                proof {
                    assert(fkey@ == spec_be8(stored@.created_at) + prefix);
                    assert((spec_be8(stored@.created_at) + prefix).skip(8) =~= prefix);
                    assert((spec_be8(stored@.created_at) + prefix).subrange(0, 8) =~= spec_be8(
                        stored@.created_at,
                    ));
                }
                let ghost prev = *self;
                let empty_value: Vec<u8> = Vec::new();
                let _ = self.kv.put(FEED_NS, fkey, empty_value);
                proof {
                    self.lemma_view_after_feed_put(
                        prev,
                        spec_be8(stored@.created_at) + prefix,
                        prefix,
                    );
                    assert(self@ =~~= spec_ingest(v0, event@));
                }
            } else {
                proof {
                    assert(self@ =~~= spec_ingest(v0, event@));
                }
            }
            Ok(())
        } else {
            proof {
                assert(self@ =~~= spec_ingest(v0, event@));
            }
            Ok(())
        }
    }

    /// After a feed-index put of a key pointing at a stored TextNote, only the
    /// feed set changed, by one insert.
    proof fn lemma_view_after_feed_put(self, prev: Store, k: Seq<u8>, pfx: Seq<u8>)
        requires
            prev.wf(),
            self.kv.wf(),
            self.kv.spec_num_namespaces() == NUM_NS,
            self.kv.durable_state() == prev.kv.durable_state(),
            self.kv.view_ns(FEED_NS as int) == prev.kv.view_ns(FEED_NS as int).insert(
                k,
                Seq::empty(),
            ),
            forall|i: int|
                0 <= i < NUM_NS && i != FEED_NS ==> #[trigger] self.kv.view_ns(i)
                    == prev.kv.view_ns(i),
            k.len() == 16,
            pfx == k.skip(8),
            prev@.events.dom().contains(pfx),
            k.subrange(0, 8) == spec_be8(prev@.events[pfx].created_at),
            prev@.events[pfx].kind == KIND_TEXT_NOTE,
        ensures
            self.wf(),
            self@ == (DbView { feed: prev@.feed.insert(k), ..prev@ }),
            self.durable_view() == prev.durable_view(),
    {
        self.lemma_durable_unchanged(prev);
        let fm0 = prev.kv.view_ns(FEED_NS as int);
        let fm1 = self.kv.view_ns(FEED_NS as int);
        let ev = self.kv.view_ns(EVENT_NS as int);
        assert forall|k2: Seq<u8>| #[trigger] fm1.dom().contains(k2) implies k2.len() == 16
            && ev.dom().contains(k2.skip(8)) && k2.subrange(0, 8) == spec_be8(
            spec_dec_event(ev[k2.skip(8)]).unwrap().created_at,
        ) && spec_dec_event(ev[k2.skip(8)]).unwrap().kind == KIND_TEXT_NOTE by {
            if k2 != k {
                assert(fm0.dom().contains(k2));
            }
        }
        assert(dec_events(self.kv.view_ns(EVENT_NS as int)) == dec_events(
            prev.kv.view_ns(EVENT_NS as int),
        ));
        assert(dec_profiles(self.kv.view_ns(PROFILE_NS as int)) == dec_profiles(
            prev.kv.view_ns(PROFILE_NS as int),
        ));
        assert(dec_contacts(self.kv.view_ns(CONTACT_NS as int)) == dec_contacts(
            prev.kv.view_ns(CONTACT_NS as int),
        ));
        assert(fm1.dom() =~= fm0.dom().insert(k));
        assert(self@ == (DbView { feed: prev@.feed.insert(k), ..prev@ }));
    }
}

/// A fresh `String` holding the given text.
pub fn new_string(s: &str) -> (r: String)
    ensures
        r@ == s@,
{
    s.to_owned()
}

} // verus!
