use vstd::prelude::*;
use vstd::utf8::{valid_utf8, decode_utf8, encode_utf8, encode_utf8_valid_utf8, encode_utf8_decode_utf8};
use crate::keys::spec_be8;
use crate::codec::{
    spec_enc_fields, spec_dec_fields, spec_enc_opt_str, spec_dec_opt_str, spec_enc_bool,
    spec_dec_bool, spec_dec_u64, encode_fields, decode_fields, enc_opt_str, dec_opt_str, enc_bool,
    dec_bool, dec_u64, string_to_bytes, string_from_utf8, lemma_fields_roundtrip,
    lemma_opt_str_roundtrip, lemma_deep_view_bytes, clone_bytes,
};
use crate::keys::be8;
use crate::codec::lemma_u64_field_roundtrip;
use crate::model::{
    Profile, ProfileV, Event, EventV, Contact, ContactV, lemma_deep_view_strings,
    lemma_deep_view_tags, clone_string,
};

verus! {

// The byte records under which the store persists its entities, layered on the
// generic field codec: one field list per entity, in a fixed order. Each
// decoder accepts exactly the encoder's output, proved by the round-trip
// lemmas, so a record written by this crate always reads back.

// Profile records: eleven fields.

pub open spec fn spec_profile_fields(p: ProfileV) -> Seq<Seq<u8>> {
    seq![
        p.pubkey,
        spec_enc_opt_str(p.name),
        spec_enc_opt_str(p.display_name),
        spec_enc_opt_str(p.about),
        spec_enc_opt_str(p.website),
        spec_enc_opt_str(p.picture),
        spec_enc_opt_str(p.nip05),
        spec_enc_opt_str(p.lud06),
        spec_enc_opt_str(p.lud16),
        spec_enc_bool(p.is_contact),
        spec_be8(p.metadata_at),
    ]
}

pub open spec fn spec_enc_profile(p: ProfileV) -> Seq<u8> {
    spec_enc_fields(spec_profile_fields(p))
}

pub open spec fn spec_dec_profile(b: Seq<u8>) -> Option<ProfileV> {
    match spec_dec_fields(b) {
        Some(fs) => {
            if fs.len() == 11 && spec_dec_opt_str(fs[1]) is Some && spec_dec_opt_str(fs[2]) is Some
                && spec_dec_opt_str(fs[3]) is Some && spec_dec_opt_str(fs[4]) is Some
                && spec_dec_opt_str(fs[5]) is Some && spec_dec_opt_str(fs[6]) is Some
                && spec_dec_opt_str(fs[7]) is Some && spec_dec_opt_str(fs[8]) is Some
                && spec_dec_bool(fs[9]) is Some && spec_dec_u64(fs[10]) is Some {
                Some(
                    ProfileV {
                        pubkey: fs[0],
                        name: spec_dec_opt_str(fs[1]).unwrap(),
                        display_name: spec_dec_opt_str(fs[2]).unwrap(),
                        about: spec_dec_opt_str(fs[3]).unwrap(),
                        website: spec_dec_opt_str(fs[4]).unwrap(),
                        picture: spec_dec_opt_str(fs[5]).unwrap(),
                        nip05: spec_dec_opt_str(fs[6]).unwrap(),
                        lud06: spec_dec_opt_str(fs[7]).unwrap(),
                        lud16: spec_dec_opt_str(fs[8]).unwrap(),
                        is_contact: spec_dec_bool(fs[9]).unwrap(),
                        metadata_at: spec_dec_u64(fs[10]).unwrap(),
                    },
                )
            } else {
                None
            }
        },
        None => None,
    }
}

/// A profile record decodes back to the profile it was encoded from.
pub proof fn lemma_profile_roundtrip(p: ProfileV)
    requires
        forall|i: int|
            0 <= i < spec_profile_fields(p).len() ==> #[trigger] spec_profile_fields(
                p,
            )[i].len() <= u64::MAX,
    ensures
        spec_dec_profile(spec_enc_profile(p)) == Some(p),
{
    let fs = spec_profile_fields(p);
    lemma_fields_roundtrip(fs);
    lemma_opt_str_roundtrip(p.name);
    lemma_opt_str_roundtrip(p.display_name);
    lemma_opt_str_roundtrip(p.about);
    lemma_opt_str_roundtrip(p.website);
    lemma_opt_str_roundtrip(p.picture);
    lemma_opt_str_roundtrip(p.nip05);
    lemma_opt_str_roundtrip(p.lud06);
    lemma_opt_str_roundtrip(p.lud16);
    lemma_u64_field_roundtrip(p.metadata_at);
}

/// Serializes a profile record.
pub fn encode_profile(p: &Profile) -> (r: Vec<u8>)
    ensures
        r@ == spec_enc_profile(p@),
        spec_dec_profile(r@) == Some(p@),
{
    let mut fields: Vec<Vec<u8>> = Vec::new();
    fields.push(clone_bytes(&p.pubkey));
    fields.push(enc_opt_str(&p.name));
    fields.push(enc_opt_str(&p.display_name));
    fields.push(enc_opt_str(&p.about));
    fields.push(enc_opt_str(&p.website));
    fields.push(enc_opt_str(&p.picture));
    fields.push(enc_opt_str(&p.nip05));
    fields.push(enc_opt_str(&p.lud06));
    fields.push(enc_opt_str(&p.lud16));
    fields.push(enc_bool(p.is_contact));
    fields.push(be8(p.metadata_at));
    let r = encode_fields(&fields);
    proof {
        lemma_deep_view_bytes(&fields);
        assert(fields.deep_view() =~= spec_profile_fields(p@));
        crate::codec::lemma_fields_bounded(&fields);
        lemma_profile_roundtrip(p@);
    }
    r
}

/// Parses a profile record; `None` on any malformation.
pub fn decode_profile(b: &Vec<u8>) -> (r: Option<Profile>)
    ensures
        match r {
            Some(p) => spec_dec_profile(b@) == Some(p@),
            None => spec_dec_profile(b@) is None,
        },
{
    let fs = match decode_fields(b) {
        Some(fs) => fs,
        None => {
            return None;
        },
    };
    proof {
        lemma_deep_view_bytes(&fs);
    }
    if fs.len() != 11 {
        return None;
    }
    let name = match dec_opt_str(&fs[1]) {
        Some(o) => o,
        None => {
            return None;
        },
    };
    let display_name = match dec_opt_str(&fs[2]) {
        Some(o) => o,
        None => {
            return None;
        },
    };
    let about = match dec_opt_str(&fs[3]) {
        Some(o) => o,
        None => {
            return None;
        },
    };
    let website = match dec_opt_str(&fs[4]) {
        Some(o) => o,
        None => {
            return None;
        },
    };
    let picture = match dec_opt_str(&fs[5]) {
        Some(o) => o,
        None => {
            return None;
        },
    };
    let nip05 = match dec_opt_str(&fs[6]) {
        Some(o) => o,
        None => {
            return None;
        },
    };
    let lud06 = match dec_opt_str(&fs[7]) {
        Some(o) => o,
        None => {
            return None;
        },
    };
    let lud16 = match dec_opt_str(&fs[8]) {
        Some(o) => o,
        None => {
            return None;
        },
    };
    let is_contact = match dec_bool(&fs[9]) {
        Some(v) => v,
        None => {
            return None;
        },
    };
    let metadata_at = match dec_u64(&fs[10]) {
        Some(v) => v,
        None => {
            return None;
        },
    };
    Some(
        Profile {
            pubkey: clone_bytes(&fs[0]),
            name,
            display_name,
            about,
            website,
            picture,
            nip05,
            lud06,
            lud16,
            is_contact,
            metadata_at,
        },
    )
}

// Contact records: three fields.

pub open spec fn spec_contact_fields(c: ContactV) -> Seq<Seq<u8>> {
    seq![c.pk, spec_enc_opt_str(c.relay_url), spec_enc_opt_str(c.alias)]
}

pub open spec fn spec_enc_contact(c: ContactV) -> Seq<u8> {
    spec_enc_fields(spec_contact_fields(c))
}

pub open spec fn spec_dec_contact(b: Seq<u8>) -> Option<ContactV> {
    match spec_dec_fields(b) {
        Some(fs) => {
            if fs.len() == 3 && spec_dec_opt_str(fs[1]) is Some && spec_dec_opt_str(fs[2]) is Some {
                Some(
                    ContactV {
                        pk: fs[0],
                        relay_url: spec_dec_opt_str(fs[1]).unwrap(),
                        alias: spec_dec_opt_str(fs[2]).unwrap(),
                    },
                )
            } else {
                None
            }
        },
        None => None,
    }
}

/// A contact record decodes back to the contact it was encoded from.
pub proof fn lemma_contact_roundtrip(c: ContactV)
    requires
        forall|i: int|
            0 <= i < spec_contact_fields(c).len() ==> #[trigger] spec_contact_fields(
                c,
            )[i].len() <= u64::MAX,
    ensures
        spec_dec_contact(spec_enc_contact(c)) == Some(c),
{
    lemma_fields_roundtrip(spec_contact_fields(c));
    lemma_opt_str_roundtrip(c.relay_url);
    lemma_opt_str_roundtrip(c.alias);
}

/// Serializes a contact record.
pub fn encode_contact(c: &Contact) -> (r: Vec<u8>)
    ensures
        r@ == spec_enc_contact(c@),
        spec_dec_contact(r@) == Some(c@),
{
    let mut fields: Vec<Vec<u8>> = Vec::new();
    fields.push(clone_bytes(&c.pk));
    fields.push(enc_opt_str(&c.relay_url));
    fields.push(enc_opt_str(&c.alias));
    let r = encode_fields(&fields);
    proof {
        lemma_deep_view_bytes(&fields);
        assert(fields.deep_view() =~= spec_contact_fields(c@));
        crate::codec::lemma_fields_bounded(&fields);
        lemma_contact_roundtrip(c@);
    }
    r
}

/// Parses a contact record; `None` on any malformation.
pub fn decode_contact(b: &Vec<u8>) -> (r: Option<Contact>)
    ensures
        match r {
            Some(c) => spec_dec_contact(b@) == Some(c@),
            None => spec_dec_contact(b@) is None,
        },
{
    let fs = match decode_fields(b) {
        Some(fs) => fs,
        None => {
            return None;
        },
    };
    proof {
        lemma_deep_view_bytes(&fs);
    }
    if fs.len() != 3 {
        return None;
    }
    let relay_url = match dec_opt_str(&fs[1]) {
        Some(o) => o,
        None => {
            return None;
        },
    };
    let alias = match dec_opt_str(&fs[2]) {
        Some(o) => o,
        None => {
            return None;
        },
    };
    Some(Contact { pk: clone_bytes(&fs[0]), relay_url, alias })
}

// Event records: seven fields, the tag list nested as field lists of field
// lists.

pub open spec fn spec_enc_tag(tag: Seq<Seq<char>>) -> Seq<u8> {
    spec_enc_fields(tag.map_values(|s: Seq<char>| encode_utf8(s)))
}

pub open spec fn spec_dec_tag(b: Seq<u8>) -> Option<Seq<Seq<char>>> {
    match spec_dec_fields(b) {
        Some(ss) => {
            if forall|i: int| 0 <= i < ss.len() ==> valid_utf8(#[trigger] ss[i]) {
                Some(ss.map_values(|s: Seq<u8>| decode_utf8(s)))
            } else {
                None
            }
        },
        None => None,
    }
}

pub open spec fn spec_enc_tags(tags: Seq<Seq<Seq<char>>>) -> Seq<u8> {
    spec_enc_fields(tags.map_values(|t: Seq<Seq<char>>| spec_enc_tag(t)))
}

pub open spec fn spec_dec_tags(b: Seq<u8>) -> Option<Seq<Seq<Seq<char>>>> {
    match spec_dec_fields(b) {
        Some(ts) => {
            if forall|i: int| 0 <= i < ts.len() ==> spec_dec_tag(#[trigger] ts[i]) is Some {
                Some(ts.map_values(|t: Seq<u8>| spec_dec_tag(t).unwrap()))
            } else {
                None
            }
        },
        None => None,
    }
}

/// A tag record decodes back to the strings it was encoded from.
pub proof fn lemma_tag_roundtrip(tag: Seq<Seq<char>>)
    requires
        forall|i: int| 0 <= i < tag.len() ==> #[trigger] encode_utf8(tag[i]).len() <= u64::MAX,
    ensures
        spec_dec_tag(spec_enc_tag(tag)) == Some(tag),
{
    let enc = tag.map_values(|s: Seq<char>| encode_utf8(s));
    assert(forall|i: int| 0 <= i < enc.len() ==> #[trigger] enc[i].len() <= u64::MAX);
    lemma_fields_roundtrip(enc);
    assert forall|i: int| 0 <= i < enc.len() implies valid_utf8(#[trigger] enc[i]) by {
        encode_utf8_valid_utf8(tag[i]);
    }
    assert forall|i: int| #![trigger enc[i]]
        0 <= i < enc.len() implies enc.map_values(|s: Seq<u8>| decode_utf8(s))[i] == tag[i] by {
        encode_utf8_decode_utf8(tag[i]);
    }
    assert(enc.map_values(|s: Seq<u8>| decode_utf8(s)) =~= tag);
}

/// A tag-list record decodes back to the tags it was encoded from.
pub proof fn lemma_tags_roundtrip(tags: Seq<Seq<Seq<char>>>)
    requires
        forall|i: int| 0 <= i < tags.len() ==> #[trigger] spec_enc_tag(tags[i]).len() <= u64::MAX,
        forall|i: int, j: int|
            0 <= i < tags.len() && 0 <= j < tags[i].len() ==> #[trigger] encode_utf8(
                tags[i][j],
            ).len() <= u64::MAX,
    ensures
        spec_dec_tags(spec_enc_tags(tags)) == Some(tags),
{
    let enc = tags.map_values(|t: Seq<Seq<char>>| spec_enc_tag(t));
    assert(forall|i: int| 0 <= i < enc.len() ==> #[trigger] enc[i].len() <= u64::MAX);
    lemma_fields_roundtrip(enc);
    assert forall|i: int| 0 <= i < enc.len() implies spec_dec_tag(#[trigger] enc[i]) is Some by {
        lemma_tag_roundtrip(tags[i]);
    }
    assert forall|i: int| #![trigger enc[i]]
        0 <= i < enc.len() implies enc.map_values(|t: Seq<u8>| spec_dec_tag(t).unwrap())[i]
        == tags[i] by {
        lemma_tag_roundtrip(tags[i]);
    }
    assert(enc.map_values(|t: Seq<u8>| spec_dec_tag(t).unwrap()) =~= tags);
}

/// Serializes one tag. The bounds on the encoded strings come with the
/// result: every string's UTF-8 bytes were materialized in memory.
pub fn encode_tag(tag: &Vec<String>) -> (r: Vec<u8>)
    ensures
        r@ == spec_enc_tag(tag.deep_view()),
        forall|j: int|
            0 <= j < tag.deep_view().len() ==> #[trigger] encode_utf8(
                tag.deep_view()[j],
            ).len() <= u64::MAX,
{
    let mut fields: Vec<Vec<u8>> = Vec::new();
    let mut i: usize = 0;
    proof {
        lemma_deep_view_strings(tag);
    }
    while i < tag.len()
        invariant
            0 <= i <= tag@.len(),
            tag.deep_view().len() == tag@.len(),
            forall|k: int| 0 <= k < tag@.len() ==> #[trigger] tag.deep_view()[k] == tag@[k]@,
            fields.deep_view() == tag.deep_view().take(i as int).map_values(
                |s: Seq<char>| encode_utf8(s),
            ),
            forall|k: int|
                0 <= k < i ==> #[trigger] encode_utf8(tag.deep_view()[k]).len() <= u64::MAX,
        decreases tag@.len() - i,
    {
        let ghost old_fields = fields.deep_view();
        proof {
            lemma_deep_view_bytes(&fields);
        }
        let sb = string_to_bytes(tag[i].as_str());
        proof {
            vstd::std_specs::vec::axiom_spec_len(&sb);
        }
        fields.push(sb);
        proof {
            lemma_deep_view_bytes(&fields);
            assert(fields.deep_view() =~= old_fields.push(encode_utf8(tag.deep_view()[i as int])));
            assert(fields.deep_view() =~= tag.deep_view().take(i as int + 1).map_values(
                |s: Seq<char>| encode_utf8(s),
            ));
        }
        i = i + 1;
    }
    proof {
        assert(tag.deep_view().take(tag@.len() as int) =~= tag.deep_view());
    }
    encode_fields(&fields)
}

/// Parses one tag; `None` on any malformation.
pub fn decode_tag(b: &Vec<u8>) -> (r: Option<Vec<String>>)
    ensures
        match r {
            Some(t) => spec_dec_tag(b@) == Some(t.deep_view()),
            None => spec_dec_tag(b@) is None,
        },
{
    let fs = match decode_fields(b) {
        Some(fs) => fs,
        None => {
            return None;
        },
    };
    proof {
        lemma_deep_view_bytes(&fs);
    }
    let ghost ss = fs.deep_view();
    let mut out: Vec<String> = Vec::new();
    let mut i: usize = 0;
    while i < fs.len()
        invariant
            0 <= i <= fs@.len(),
            ss == fs.deep_view(),
            spec_dec_fields(b@) == Some(ss),
            ss.len() == fs@.len(),
            forall|k: int| 0 <= k < fs@.len() ==> #[trigger] ss[k] == fs@[k]@,
            forall|k: int| 0 <= k < i ==> valid_utf8(#[trigger] ss[k]),
            out.deep_view() == ss.take(i as int).map_values(|s: Seq<u8>| decode_utf8(s)),
        decreases fs@.len() - i,
    {
        let ghost old_out = out.deep_view();
        proof {
            lemma_deep_view_strings(&out);
        }
        let s = match string_from_utf8(clone_bytes(&fs[i])) {
            Some(s) => s,
            None => {
                proof {
                    assert(!valid_utf8(ss[i as int]));
                    assert(!(forall|k: int| 0 <= k < ss.len() ==> valid_utf8(#[trigger] ss[k])));
                    assert(spec_dec_tag(b@) is None);
                }
                return None;
            },
        };
        out.push(s);
        proof {
            lemma_deep_view_strings(&out);
            assert(out.deep_view() =~= old_out.push(decode_utf8(ss[i as int])));
            assert(out.deep_view() =~= ss.take(i as int + 1).map_values(
                |s: Seq<u8>| decode_utf8(s),
            ));
        }
        i = i + 1;
    }
    proof {
        assert(ss.take(fs@.len() as int) =~= ss);
    }
    Some(out)
}

/// Serializes the tag list of an event, with the bounds that make the
/// encoding decodable: every tag blob and every string was materialized.
pub fn encode_tags(tags: &Vec<Vec<String>>) -> (r: Vec<u8>)
    ensures
        r@ == spec_enc_tags(tags.deep_view()),
        forall|i: int|
            0 <= i < tags.deep_view().len() ==> #[trigger] spec_enc_tag(
                tags.deep_view()[i],
            ).len() <= u64::MAX,
        forall|i: int, j: int|
            0 <= i < tags.deep_view().len() && 0 <= j < tags.deep_view()[i].len()
                ==> #[trigger] encode_utf8(tags.deep_view()[i][j]).len() <= u64::MAX,
{
    let mut fields: Vec<Vec<u8>> = Vec::new();
    let mut i: usize = 0;
    proof {
        lemma_deep_view_tags(tags);
    }
    while i < tags.len()
        invariant
            0 <= i <= tags@.len(),
            tags.deep_view().len() == tags@.len(),
            forall|k: int|
                0 <= k < tags@.len() ==> #[trigger] tags.deep_view()[k] == tags@[k].deep_view(),
            fields.deep_view() == tags.deep_view().take(i as int).map_values(
                |t: Seq<Seq<char>>| spec_enc_tag(t),
            ),
            forall|k: int|
                0 <= k < i ==> #[trigger] spec_enc_tag(tags.deep_view()[k]).len() <= u64::MAX,
            forall|k: int, j: int|
                0 <= k < i && 0 <= j < tags.deep_view()[k].len() ==> #[trigger] encode_utf8(
                    tags.deep_view()[k][j],
                ).len() <= u64::MAX,
        decreases tags@.len() - i,
    {
        let ghost old_fields = fields.deep_view();
        proof {
            lemma_deep_view_bytes(&fields);
        }
        let tb = encode_tag(&tags[i]);
        proof {
            vstd::std_specs::vec::axiom_spec_len(&tb);
        }
        fields.push(tb);
        proof {
            lemma_deep_view_bytes(&fields);
            assert(fields.deep_view() =~= old_fields.push(
                spec_enc_tag(tags.deep_view()[i as int]),
            ));
            assert(fields.deep_view() =~= tags.deep_view().take(i as int + 1).map_values(
                |t: Seq<Seq<char>>| spec_enc_tag(t),
            ));
        }
        i = i + 1;
    }
    proof {
        assert(tags.deep_view().take(tags@.len() as int) =~= tags.deep_view());
    }
    encode_fields(&fields)
}

/// Parses the tag list of an event; `None` on any malformation.
pub fn decode_tags(b: &Vec<u8>) -> (r: Option<Vec<Vec<String>>>)
    ensures
        match r {
            Some(ts) => spec_dec_tags(b@) == Some(ts.deep_view()),
            None => spec_dec_tags(b@) is None,
        },
{
    let fs = match decode_fields(b) {
        Some(fs) => fs,
        None => {
            return None;
        },
    };
    proof {
        lemma_deep_view_bytes(&fs);
    }
    let ghost ts = fs.deep_view();
    let mut out: Vec<Vec<String>> = Vec::new();
    let mut i: usize = 0;
    while i < fs.len()
        invariant
            0 <= i <= fs@.len(),
            ts == fs.deep_view(),
            spec_dec_fields(b@) == Some(ts),
            ts.len() == fs@.len(),
            forall|k: int| 0 <= k < fs@.len() ==> #[trigger] ts[k] == fs@[k]@,
            forall|k: int| 0 <= k < i ==> spec_dec_tag(#[trigger] ts[k]) is Some,
            out.deep_view() == ts.take(i as int).map_values(
                |t: Seq<u8>| spec_dec_tag(t).unwrap(),
            ),
        decreases fs@.len() - i,
    {
        let ghost old_out = out.deep_view();
        proof {
            lemma_deep_view_tags(&out);
        }
        let t = match decode_tag(&fs[i]) {
            Some(t) => t,
            None => {
                return None;
            },
        };
        out.push(t);
        proof {
            lemma_deep_view_tags(&out);
            assert(out.deep_view() =~= old_out.push(spec_dec_tag(ts[i as int]).unwrap()));
            assert(out.deep_view() =~= ts.take(i as int + 1).map_values(
                |t: Seq<u8>| spec_dec_tag(t).unwrap(),
            ));
        }
        i = i + 1;
    }
    proof {
        assert(ts.take(fs@.len() as int) =~= ts);
    }
    Some(out)
}

pub open spec fn spec_event_fields(e: EventV) -> Seq<Seq<u8>> {
    seq![
        e.id,
        e.pubkey,
        spec_be8(e.created_at),
        spec_be8(e.kind),
        spec_enc_tags(e.tags),
        encode_utf8(e.content),
        e.sig,
    ]
}

pub open spec fn spec_enc_event(e: EventV) -> Seq<u8> {
    spec_enc_fields(spec_event_fields(e))
}

pub open spec fn spec_dec_event(b: Seq<u8>) -> Option<EventV> {
    match spec_dec_fields(b) {
        Some(fs) => {
            if fs.len() == 7 && spec_dec_u64(fs[2]) is Some && spec_dec_u64(fs[3]) is Some
                && spec_dec_tags(fs[4]) is Some && valid_utf8(fs[5]) {
                Some(
                    EventV {
                        id: fs[0],
                        pubkey: fs[1],
                        created_at: spec_dec_u64(fs[2]).unwrap(),
                        kind: spec_dec_u64(fs[3]).unwrap(),
                        tags: spec_dec_tags(fs[4]).unwrap(),
                        content: decode_utf8(fs[5]),
                        sig: fs[6],
                    },
                )
            } else {
                None
            }
        },
        None => None,
    }
}

/// An event record decodes back to the event it was encoded from.
pub proof fn lemma_event_roundtrip(e: EventV)
    requires
        forall|i: int|
            0 <= i < spec_event_fields(e).len() ==> #[trigger] spec_event_fields(
                e,
            )[i].len() <= u64::MAX,
        forall|i: int| 0 <= i < e.tags.len() ==> #[trigger] spec_enc_tag(e.tags[i]).len() <= u64::MAX,
        forall|i: int, j: int|
            0 <= i < e.tags.len() && 0 <= j < e.tags[i].len() ==> #[trigger] encode_utf8(
                e.tags[i][j],
            ).len() <= u64::MAX,
    ensures
        spec_dec_event(spec_enc_event(e)) == Some(e),
{
    let fs = spec_event_fields(e);
    lemma_fields_roundtrip(fs);
    assert(spec_dec_fields(spec_enc_event(e)) == Some(fs));
    assert(fs.len() == 7);
    assert(fs[2] == spec_be8(e.created_at));
    assert(fs[3] == spec_be8(e.kind));
    assert(fs[4] == spec_enc_tags(e.tags));
    assert(fs[5] == encode_utf8(e.content));
    lemma_u64_field_roundtrip(e.created_at);
    lemma_u64_field_roundtrip(e.kind);
    lemma_tags_roundtrip(e.tags);
    encode_utf8_valid_utf8(e.content);
    encode_utf8_decode_utf8(e.content);
    assert(spec_dec_u64(fs[2]) == Some(e.created_at));
    assert(spec_dec_u64(fs[3]) == Some(e.kind));
    assert(spec_dec_tags(fs[4]) == Some(e.tags));
    assert(valid_utf8(fs[5]) && decode_utf8(fs[5]) == e.content);
}

/// Serializes an event record.
pub fn encode_event(e: &Event) -> (r: Vec<u8>)
    ensures
        r@ == spec_enc_event(e@),
        spec_dec_event(r@) == Some(e@),
{
    let mut fields: Vec<Vec<u8>> = Vec::new();
    fields.push(clone_bytes(&e.id));
    fields.push(clone_bytes(&e.pubkey));
    fields.push(be8(e.created_at));
    fields.push(be8(e.kind));
    fields.push(encode_tags(&e.tags));
    fields.push(string_to_bytes(e.content.as_str()));
    fields.push(clone_bytes(&e.sig));
    let r = encode_fields(&fields);
    proof {
        lemma_deep_view_bytes(&fields);
        assert(fields.deep_view() =~= spec_event_fields(e@));
        crate::codec::lemma_fields_bounded(&fields);
        lemma_event_roundtrip(e@);
    }
    r
}

/// Parses an event record; `None` on any malformation.
pub fn decode_event(b: &Vec<u8>) -> (r: Option<Event>)
    ensures
        match r {
            Some(e) => spec_dec_event(b@) == Some(e@),
            None => spec_dec_event(b@) is None,
        },
{
    let fs = match decode_fields(b) {
        Some(fs) => fs,
        None => {
            return None;
        },
    };
    proof {
        lemma_deep_view_bytes(&fs);
    }
    if fs.len() != 7 {
        return None;
    }
    let created_at = match dec_u64(&fs[2]) {
        Some(v) => v,
        None => {
            return None;
        },
    };
    let kind = match dec_u64(&fs[3]) {
        Some(v) => v,
        None => {
            return None;
        },
    };
    let tags = match decode_tags(&fs[4]) {
        Some(t) => t,
        None => {
            return None;
        },
    };
    let content = match string_from_utf8(clone_bytes(&fs[5])) {
        Some(s) => s,
        None => {
            return None;
        },
    };
    Some(
        Event {
            id: clone_bytes(&fs[0]),
            pubkey: clone_bytes(&fs[1]),
            created_at,
            kind,
            tags,
            content,
            sig: clone_bytes(&fs[6]),
        },
    )
}

} // verus!
