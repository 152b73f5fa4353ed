use vstd::prelude::*;
use crate::model::{Event, EVENT_ID_LEN};
use crate::filters::{
    Filter, Filters, contact_list_filter, encrypted_dm_filter, following_filter, same_author_set,
    author_list_contains, spec_following_kinds,
};
use crate::db::{Store, keys_set, spec_ingest, lemma_keys_set_push};
use crate::codec::clone_bytes;

verus! {

// The relay-synchronization engine's decisions: which filters to subscribe
// with, when the growing author set forces a resubscription, and what one
// received notification does to the store. The waiting itself (the poll
// timer, the notification stream) belongs to the surrounding process; every
// decision is made here.

/// One message from the relay pool: an event delivery, or a raw relay
/// message that the core ignores.
pub enum Notification {
    ReceivedEvent(Event),
    ReceivedMessage(String),
}

/// The synchronization engine's own state: whose client this is, and the
/// filters of the last subscription.
pub struct NostrSync {
    my_public_key: Vec<u8>,
    filters: Filters,
}

impl NostrSync {
    /// The following filter always carries an author list.
    pub closed spec fn wf(self) -> bool {
        self.filters.following_authors.authors is Some
    }

    /// The local user's pubkey.
    pub closed spec fn spec_my(self) -> Seq<u8> {
        self.my_public_key@
    }

    /// The author set of the last "following" subscription.
    pub closed spec fn following_set(self) -> Set<Seq<u8>> {
        keys_set(self.filters.following_authors.authors.unwrap()@)
    }

    /// The current filters as values.
    pub closed spec fn spec_filters(self) -> (crate::filters::FilterV, crate::filters::FilterV, crate::filters::FilterV) {
        (self.filters.contact_list@, self.filters.encrypted_dm@, self.filters.following_authors@)
    }

    /// Builds the engine and the three initial filters: the local user's own
    /// contact list (most recent only), direct messages mentioning the local
    /// user, and content from the known authors plus the local user.
    pub fn start(my_public_key: Vec<u8>, authors: Vec<Vec<u8>>) -> (r: (NostrSync, Vec<Filter>))
        ensures
            r.0.wf(),
            r.0.spec_my() == my_public_key@,
            r.0.following_set() == keys_set(authors@).insert(my_public_key@),
            r.0.spec_filters().0.authors == Some(seq![my_public_key@]),
            r.0.spec_filters().0.kinds == Some(seq![crate::model::KIND_CONTACT_LIST]),
            r.0.spec_filters().0.limit == Some(1usize),
            r.0.spec_filters().1.pubkey == Some(my_public_key@),
            r.0.spec_filters().1.kinds == Some(
                seq![crate::model::KIND_ENCRYPTED_DIRECT_MESSAGE],
            ),
            r.0.spec_filters().2.kinds == Some(spec_following_kinds()),
            r.1@.len() == 3,
            r.1@[0]@ == r.0.spec_filters().0,
            r.1@[1]@ == r.0.spec_filters().1,
            r.1@[2]@ == r.0.spec_filters().2,
    {
        let contact_list = contact_list_filter(&my_public_key);
        let encrypted_dm = encrypted_dm_filter(&my_public_key);
        let na = authors_with_self(authors, &my_public_key);
        let ghost na_view = na@;
        let following_authors = following_filter(na);
        let filters = Filters { contact_list, encrypted_dm, following_authors };
        let sync = NostrSync { my_public_key, filters };
        let subscribe_with = sync.filters.to_vec();
        proof {
            assert(sync.following_set() == keys_set(na_view));
        }
        (sync, subscribe_with)
    }

    /// One tick of the periodic reconciliation: given the author set read
    /// back from the store, decide whether the "following" subscription is
    /// stale. Equal author sets (as sets, whatever order or duplication)
    /// cause no resubscription; a changed set rebuilds the following filter
    /// and hands back all three filters to subscribe with.
    pub fn refresh(&mut self, authors: Vec<Vec<u8>>) -> (r: Option<Vec<Filter>>)
        requires
            old(self).wf(),
        ensures
            final(self).wf(),
            final(self).spec_my() == old(self).spec_my(),
            match r {
                None => keys_set(authors@).insert(old(self).spec_my()) == old(self).following_set() && final(self).spec_filters() == old(self).spec_filters()
                    && final(self).following_set() == old(self).following_set(),
                Some(fs) => keys_set(authors@).insert(old(self).spec_my()) != old(self).following_set() && final(self).following_set() == keys_set(authors@).insert(
                    old(self).spec_my(),
                ) && final(self).spec_filters().0 == old(self).spec_filters().0 && final(self).spec_filters().1 == old(self).spec_filters().1 && final(self).spec_filters().2.kinds == Some(spec_following_kinds())
                    && final(self).spec_filters().2.authors is Some && final(self).spec_filters().2.pubkey is None && final(self).spec_filters().2.limit is None
                    && fs@.len() == 3
                    && fs@[0]@ == final(self).spec_filters().0 && fs@[1]@ == final(self).spec_filters().1 && fs@[2]@ == final(self).spec_filters().2,
            },
    {
        let na = authors_with_self(authors, &self.my_public_key);
        let unchanged = match &self.filters.following_authors.authors {
            Some(cur) => same_author_set(&na, cur),
            None => {
                proof {
                    assert(false);
                }
                false
            },
        };
        if unchanged {
            proof {
                assert(keys_set(na@) == old(self).following_set());
            }
            return None;
        }
        let ghost na_view = na@;
        let new_following = following_filter(na);
        self.filters.following_authors = new_following;
        proof {
            assert(self.following_set() == keys_set(na_view));
        }
        Some(self.filters.to_vec())
    }

    /// Consumes one notification from the relay pool: an event delivery is
    /// classified into the store and handed on for local consumers to append
    /// without waiting for a poll; a raw relay message is ignored. A
    /// classification failure never stops the loop: the event is still
    /// forwarded, and only an event with a malformed id leaves the store
    /// untouched.
    pub fn handle_notification(store: &mut Store, notification: Notification) -> (r: Option<Event>)
        requires
            old(store).wf(),
        ensures
            final(store).wf(),
            match notification {
                Notification::ReceivedMessage(_) => r is None && final(store)@ == old(store)@,
                Notification::ReceivedEvent(e) => (r matches Some(forwarded) && forwarded@ == e@)
                    && (e@.id.len() == EVENT_ID_LEN ==> final(store)@ == spec_ingest(
                    old(store)@,
                    e@,
                )) && (e@.id.len() != EVENT_ID_LEN ==> final(store)@ == old(store)@),
            },
    {
        match notification {
            Notification::ReceivedEvent(event) => {
                let _ = store.handle_event(&event);
                Some(event)
            },
            Notification::ReceivedMessage(_) => None,
        }
    }
}

/// The author list with the local user's pubkey appended when absent.
pub fn authors_with_self(authors: Vec<Vec<u8>>, my_public_key: &Vec<u8>) -> (r: Vec<Vec<u8>>)
    ensures
        keys_set(r@) == keys_set(authors@).insert(my_public_key@),
{
    let present = author_list_contains(&authors, my_public_key);
    let mut r = authors;
    if !present {
        let ghost before = r@;
        r.push(clone_bytes(my_public_key));
        proof {
            lemma_keys_set_push(before, r@[r@.len() - 1]);
            assert(r@ == before.push(r@[r@.len() - 1]));
        }
    } else {
        proof {
            assert(keys_set(r@).insert(my_public_key@) =~= keys_set(r@));
        }
    }
    r
}

} // verus!
