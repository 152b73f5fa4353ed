use vstd::prelude::*;
use crate::model::{EventV, ProfileV, EVENT_ID_LEN, KIND_METADATA, KIND_CONTACT_LIST, KIND_TEXT_NOTE};
use crate::model::spec_contacts_of_tags;
use crate::keys::{spec_be8, lemma_be8_order, lemma_be8_injective, lemma_lex_lt_prefix,
    lemma_lex_lt_asymmetric, lemma_lex_lt_irrefl, lex_lt, HASH_PREFIX_LEN};
use crate::db::{DbView, spec_ingest, contact_flags, contact_map, contact_pk_set, listed, Store};
use crate::kv::{self, Op, op_ns, apply_op, apply_ops};

verus! {

// What must hold of the store, stated once and proved: re-delivery changes
// nothing, profile snapshots only move forward, a contact list replaces
// rather than merges, the author set only grows, the feed pages cleanly, and
// a write batch is never split.

/// Ingesting the same event twice leaves exactly the state of one ingestion:
/// the primary namespace holds one record, and no index entry is duplicated,
/// however often a relay re-delivers.
pub proof fn lemma_ingest_idempotent(v: DbView, e: EventV)
    requires
        e.id.len() == EVENT_ID_LEN,
    ensures
        spec_ingest(spec_ingest(v, e), e) == spec_ingest(v, e),
{
    let prefix = e.id.subrange(0, HASH_PREFIX_LEN as int);
    let v1 = spec_ingest(v, e);
    let v2 = spec_ingest(v1, e);
    assert(v1.events.dom().contains(prefix));
    assert(v2.events =~= v1.events);
    assert(v2.authors =~= v1.authors);
    assert(v2.feed =~= v1.feed);
    if e.kind == KIND_METADATA {
        match crate::metadata::metadata_of(e.content) {
            Some(m) => {
                match crate::metadata::spec_apply_metadata(
                    if v.profiles.dom().contains(e.pubkey) {
                        Some(v.profiles[e.pubkey])
                    } else {
                        None
                    },
                    e.pubkey,
                    m,
                    e.created_at,
                ) {
                    Some(p) => {
                        assert(v1.profiles[e.pubkey].metadata_at == e.created_at);
                        assert(v2.profiles =~= v1.profiles);
                    },
                    None => {
                        assert(v1.profiles == v.profiles);
                        assert(v2.profiles =~= v1.profiles);
                    },
                }
            },
            None => {
                assert(v2.profiles =~= v1.profiles);
            },
        }
    } else if e.kind == KIND_CONTACT_LIST {
        let cs = spec_contacts_of_tags(e.tags);
        assert(v2.contacts =~= v1.contacts);
        assert forall|pk: Seq<u8>| true implies #[trigger] v2.profiles.dom().contains(pk)
            == v1.profiles.dom().contains(pk) && (v2.profiles.dom().contains(pk)
            ==> v2.profiles[pk] == v1.profiles[pk]) by {}
        assert(v2.profiles =~= v1.profiles);
    } else {
        assert(v2.profiles =~= v1.profiles);
        assert(v2.contacts =~= v1.contacts);
    }
    assert(v2 =~~= v1);
}

/// Profile snapshots are monotonic: a Metadata event no newer than the stored
/// snapshot is discarded whole, and ingesting anything never moves a stored
/// profile's `metadata_at` backwards.
pub proof fn lemma_profile_monotonic(v: DbView, e: EventV, pk: Seq<u8>)
    requires
        e.id.len() == EVENT_ID_LEN,
        v.profiles.dom().contains(pk),
    ensures
        spec_ingest(v, e).profiles.dom().contains(pk),
        spec_ingest(v, e).profiles[pk].metadata_at >= v.profiles[pk].metadata_at,
        e.kind == KIND_METADATA && e.pubkey == pk && e.created_at <= v.profiles[pk].metadata_at
            ==> spec_ingest(v, e).profiles == v.profiles,
{
    let v1 = spec_ingest(v, e);
    if e.kind == KIND_METADATA {
        match crate::metadata::metadata_of(e.content) {
            Some(m) => {},
            None => {},
        }
    }
}

/// A ContactList event is an authoritative snapshot, not a delta: afterwards
/// a stored profile is a contact exactly when listed, its other fields kept
/// (a stale contact is flagged out, not deleted), and every listed pubkey has
/// a contact row.
pub proof fn lemma_contact_list_replacement(v: DbView, e: EventV, pk: Seq<u8>)
    requires
        e.id.len() == EVENT_ID_LEN,
        e.kind == KIND_CONTACT_LIST,
    ensures
        ({
            let cs = spec_contacts_of_tags(e.tags);
            let p1 = spec_ingest(v, e).profiles;
            &&& (v.profiles.dom().contains(pk) ==> p1.dom().contains(pk) && p1[pk] == (ProfileV {
                is_contact: listed(cs, pk),
                ..v.profiles[pk]
            }))
            &&& (listed(cs, pk) && !v.profiles.dom().contains(pk) ==> p1.dom().contains(pk)
                && p1[pk].is_contact)
            &&& (listed(cs, pk) <==> spec_ingest(v, e).contacts.dom().contains(pk))
        }),
{
    let cs = spec_contacts_of_tags(e.tags);
    lemma_contact_map_dom(cs);
}

/// The contact namespace built from a list holds exactly the listed pubkeys.
pub proof fn lemma_contact_map_dom(cs: Seq<crate::model::ContactV>)
    ensures
        forall|pk: Seq<u8>| #[trigger] contact_map(cs).dom().contains(pk) <==> listed(cs, pk),
    decreases cs.len(),
{
    if cs.len() > 0 {
        lemma_contact_map_dom(cs.drop_last());
        assert forall|pk: Seq<u8>| true implies (#[trigger] contact_map(cs).dom().contains(pk)
            <==> listed(cs, pk)) by {
            if contact_map(cs).dom().contains(pk) {
                if pk == cs.last().pk {
                    assert(cs[cs.len() - 1].pk == pk);
                } else {
                    assert(contact_map(cs.drop_last()).dom().contains(pk));
                    assert(listed(cs.drop_last(), pk));
                    let i = choose|i: int|
                        0 <= i < cs.drop_last().len() && #[trigger] cs.drop_last()[i].pk == pk;
                    assert(cs[i].pk == pk);
                }
            }
            if listed(cs, pk) {
                let i = choose|i: int| 0 <= i < cs.len() && #[trigger] cs[i].pk == pk;
                if i < cs.len() - 1 {
                    assert(cs.drop_last()[i].pk == pk);
                    assert(listed(cs.drop_last(), pk));
                    assert(contact_map(cs.drop_last()).dom().contains(pk));
                } else {
                    assert(pk == cs.last().pk);
                }
                assert(contact_map(cs).dom().contains(pk));
            }
        }
    }
}

/// The set of authors every event contributes: its author, and for a
/// ContactList also every listed pubkey.
pub open spec fn spec_event_authors(e: EventV) -> Set<Seq<u8>> {
    if e.kind == KIND_CONTACT_LIST {
        Set::empty().insert(e.pubkey).union(contact_pk_set(spec_contacts_of_tags(e.tags)))
    } else {
        Set::empty().insert(e.pubkey)
    }
}

/// The state after ingesting a whole run of events, in delivery order.
pub open spec fn spec_ingest_all(v: DbView, es: Seq<EventV>) -> DbView
    decreases es.len(),
{
    if es.len() == 0 {
        v
    } else {
        spec_ingest_all(spec_ingest(v, es[0]), es.drop_first())
    }
}

/// The authors contributed by a run of events.
pub open spec fn spec_authors_of_events(es: Seq<EventV>) -> Set<Seq<u8>>
    decreases es.len(),
{
    if es.len() == 0 {
        Set::empty()
    } else {
        spec_event_authors(es[0]).union(spec_authors_of_events(es.drop_first()))
    }
}

/// The author set grows monotonically and exactly: processing any run of
/// well-formed events yields the initial author set united with every
/// event's contributed authors — a set union, so duplicate authors collapse
/// and delivery order cannot change the outcome.
pub proof fn lemma_author_set_growth(v: DbView, es: Seq<EventV>)
    requires
        forall|i: int| 0 <= i < es.len() ==> (#[trigger] es[i]).id.len() == EVENT_ID_LEN,
    ensures
        spec_ingest_all(v, es).authors == v.authors.union(spec_authors_of_events(es)),
    decreases es.len(),
{
    if es.len() == 0 {
        assert(v.authors.union(spec_authors_of_events(es)) =~= v.authors);
    } else {
        let v1 = spec_ingest(v, es[0]);
        assert(v1.authors =~= v.authors.union(spec_event_authors(es[0])));
        lemma_author_set_growth(v1, es.drop_first());
        assert(v1.authors.union(spec_authors_of_events(es.drop_first())) =~= v.authors.union(
            spec_authors_of_events(es),
        ));
    }
}

/// The feed pages cleanly: reading the index newest-first, timestamps never
/// increase, they strictly decrease while they are pairwise distinct, and two
/// different positions always hold events with different ids — so any two
/// distinct pages of the feed are disjoint.
pub proof fn lemma_feed_pagination(s: Store)
    requires
        s.wf(),
    ensures
        forall|i: int, j: int|
            0 <= i < j < s.feed_events_desc().len() ==> (#[trigger] s.feed_events_desc()[i]).created_at
                >= (#[trigger] s.feed_events_desc()[j]).created_at,
        forall|i: int, j: int|
            0 <= i < j < s.feed_events_desc().len() && (#[trigger] s.feed_events_desc()[i]).created_at
                != (#[trigger] s.feed_events_desc()[j]).created_at
                ==> s.feed_events_desc()[i].created_at > s.feed_events_desc()[j].created_at,
        forall|i: int, j: int|
            0 <= i < j < s.feed_events_desc().len() ==> (#[trigger] s.feed_events_desc()[i]).id != (
            #[trigger] s.feed_events_desc()[j]).id,
{
    s.lemma_feed_index_facts();
}

/// A write batch of two puts to two namespaces is never split: after the
/// batch both values stand in the current contents while the durable
/// contents are exactly what they were, and recovery after an interruption
/// reopens on the durable contents — so a reopened store shows the two puts
/// both applied (after a flush) or both absent (before one), never one
/// without the other.
pub proof fn lemma_write_batch_both_or_neither(
    s0: kv::Store,
    s1: kv::Store,
    ops: Seq<Op>,
    ns1: usize,
    k1: Vec<u8>,
    v1: Vec<u8>,
    ns2: usize,
    k2: Vec<u8>,
    v2: Vec<u8>,
)
    requires
        s0.wf(),
        ns1 != ns2,
        ns1 < s0.spec_num_namespaces(),
        ns2 < s0.spec_num_namespaces(),
        ops == seq![Op::Put { ns: ns1, key: k1, value: v1 }, Op::Put { ns: ns2, key: k2, value: v2 }],
        s1.spec_num_namespaces() == s0.spec_num_namespaces(),
        forall|i: int|
            0 <= i < s0.spec_num_namespaces() ==> #[trigger] s1.view_ns(i) == apply_ops(
                s0.view_ns(i),
                ops,
                i,
                ops.len() as int,
            ),
        s1.durable_state() == s0.durable_state(),
    ensures
        s1.view_ns(ns1 as int).dom().contains(k1@) && s1.view_ns(ns1 as int)[k1@] == v1@,
        s1.view_ns(ns2 as int).dom().contains(k2@) && s1.view_ns(ns2 as int)[k2@] == v2@,
        forall|i: int|
            0 <= i < s0.spec_num_namespaces() ==> #[trigger] s1.durable_ns(i) == s0.durable_ns(i),
{
    kv::lemma_durable_ns_from_state(s1, s0);
    assert(ops.len() == 2);
    assert(ops[0] == (Op::Put { ns: ns1, key: k1, value: v1 }));
    assert(ops[1] == (Op::Put { ns: ns2, key: k2, value: v2 }));
    assert(op_ns(ops[0]) == ns1 && op_ns(ops[1]) == ns2);
    assert(apply_ops(s0.view_ns(ns1 as int), ops, ns1 as int, 0) == s0.view_ns(ns1 as int));
    assert(apply_ops(s0.view_ns(ns2 as int), ops, ns2 as int, 0) == s0.view_ns(ns2 as int));
    assert(apply_ops(s0.view_ns(ns1 as int), ops, ns1 as int, 1) == s0.view_ns(ns1 as int).insert(
        k1@,
        v1@,
    ));
    assert(apply_ops(s0.view_ns(ns1 as int), ops, ns1 as int, 2) == apply_ops(
        s0.view_ns(ns1 as int),
        ops,
        ns1 as int,
        1,
    ));
    assert(apply_ops(s0.view_ns(ns2 as int), ops, ns2 as int, 1) == s0.view_ns(ns2 as int));
    assert(apply_ops(s0.view_ns(ns2 as int), ops, ns2 as int, 2) == apply_ops(
        s0.view_ns(ns2 as int),
        ops,
        ns2 as int,
        1,
    ).insert(k2@, v2@));
}

} // verus!
