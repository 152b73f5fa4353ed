use vstd::prelude::*;
use vstd::string::StrSliceExecFns;

verus! {

// The entities the store persists: immutable protocol events, per-pubkey
// profile snapshots merged from Metadata events, and contact-graph edges
// replaced wholesale from ContactList events.

/// Event kind discriminators interpreted specially by the classifier; the
/// numeric space is open-ended and unknown kinds are stored untouched.
pub const KIND_METADATA: u64 = 0;

pub const KIND_TEXT_NOTE: u64 = 1;

pub const KIND_CONTACT_LIST: u64 = 3;

pub const KIND_ENCRYPTED_DIRECT_MESSAGE: u64 = 4;

pub const KIND_BOOST: u64 = 6;

pub const KIND_REACTION: u64 = 7;

/// Byte length of a well-formed event id (a content hash).
pub const EVENT_ID_LEN: usize = 32;

/// Byte length of an author public key.
pub const PUBKEY_LEN: usize = 32;

/// An immutable protocol event. The `id` is a content hash computed and
/// verified upstream; the core treats it as the primary key and never
/// recomputes it. The signature is stored for completeness only.
#[derive(Debug, Clone, PartialEq, Eq)]
pub struct Event {
    pub id: Vec<u8>,
    pub pubkey: Vec<u8>,
    pub created_at: u64,
    pub kind: u64,
    pub tags: Vec<Vec<String>>,
    pub content: String,
    pub sig: Vec<u8>,
}

/// The mathematical value of an event.
pub ghost struct EventV {
    pub id: Seq<u8>,
    pub pubkey: Seq<u8>,
    pub created_at: u64,
    pub kind: u64,
    pub tags: Seq<Seq<Seq<char>>>,
    pub content: Seq<char>,
    pub sig: Seq<u8>,
}

impl View for Event {
    type V = EventV;

    open spec fn view(&self) -> EventV {
        EventV {
            id: self.id@,
            pubkey: self.pubkey@,
            created_at: self.created_at,
            kind: self.kind,
            tags: self.tags.deep_view(),
            content: self.content@,
            sig: self.sig@,
        }
    }
}

/// A per-pubkey profile snapshot, merged from Metadata events. `metadata_at`
/// is the timestamp of the newest Metadata event reflected here and only moves
/// forward; `is_contact` records membership in the local contact list and is
/// not carried by Metadata events themselves.
#[derive(Debug, Clone, PartialEq, Eq)]
pub struct Profile {
    pub pubkey: Vec<u8>,
    pub name: Option<String>,
    pub display_name: Option<String>,
    pub about: Option<String>,
    pub website: Option<String>,
    pub picture: Option<String>,
    pub nip05: Option<String>,
    pub lud06: Option<String>,
    pub lud16: Option<String>,
    pub is_contact: bool,
    pub metadata_at: u64,
}

/// The mathematical value of a profile.
pub ghost struct ProfileV {
    pub pubkey: Seq<u8>,
    pub name: Option<Seq<char>>,
    pub display_name: Option<Seq<char>>,
    pub about: Option<Seq<char>>,
    pub website: Option<Seq<char>>,
    pub picture: Option<Seq<char>>,
    pub nip05: Option<Seq<char>>,
    pub lud06: Option<Seq<char>>,
    pub lud16: Option<Seq<char>>,
    pub is_contact: bool,
    pub metadata_at: u64,
}

impl View for Profile {
    type V = ProfileV;

    open spec fn view(&self) -> ProfileV {
        ProfileV {
            pubkey: self.pubkey@,
            name: self.name.deep_view(),
            display_name: self.display_name.deep_view(),
            about: self.about.deep_view(),
            website: self.website.deep_view(),
            picture: self.picture.deep_view(),
            nip05: self.nip05.deep_view(),
            lud06: self.lud06.deep_view(),
            lud16: self.lud16.deep_view(),
            is_contact: self.is_contact,
            metadata_at: self.metadata_at,
        }
    }
}

impl Profile {
    /// A profile holding nothing but the pubkey: not a contact, no metadata.
    pub fn empty(pubkey: Vec<u8>) -> (r: Profile)
        ensures
            r@ == ProfileV::spec_empty(pubkey@),
    {
        Profile {
            pubkey,
            name: None,
            display_name: None,
            about: None,
            website: None,
            picture: None,
            nip05: None,
            lud06: None,
            lud16: None,
            is_contact: false,
            metadata_at: 0,
        }
    }
}

impl ProfileV {
    /// The profile value holding nothing but the pubkey.
    pub open spec fn spec_empty(pubkey: Seq<u8>) -> ProfileV {
        ProfileV {
            pubkey,
            name: None,
            display_name: None,
            about: None,
            website: None,
            picture: None,
            nip05: None,
            lud06: None,
            lud16: None,
            is_contact: false,
            metadata_at: 0,
        }
    }
}

/// One edge of the local user's social graph, read from a `p` tag of a
/// ContactList event: the followed pubkey with an optional relay hint and an
/// optional human alias.
#[derive(Debug, Clone, PartialEq, Eq)]
pub struct Contact {
    pub pk: Vec<u8>,
    pub relay_url: Option<String>,
    pub alias: Option<String>,
}

/// The mathematical value of a contact.
pub ghost struct ContactV {
    pub pk: Seq<u8>,
    pub relay_url: Option<Seq<char>>,
    pub alias: Option<Seq<char>>,
}

impl View for Contact {
    type V = ContactV;

    open spec fn view(&self) -> ContactV {
        ContactV {
            pk: self.pk@,
            relay_url: self.relay_url.deep_view(),
            alias: self.alias.deep_view(),
        }
    }
}

/// The value of an optional profile.
pub open spec fn view_opt_profile(o: Option<Profile>) -> Option<ProfileV> {
    match o {
        Some(p) => Some(p@),
        None => None,
    }
}

/// The values of a sequence of contacts.
pub open spec fn view_contacts(s: Seq<Contact>) -> Seq<ContactV> {
    Seq::new(s.len(), |i: int| s[i]@)
}

// Hexadecimal decoding of pubkeys carried as text inside tags.

/// The value of one hexadecimal digit, or `None` for any other character.
pub open spec fn spec_hex_digit(c: char) -> Option<u8> {
    if '0' <= c <= '9' {
        Some((c as u8 - '0' as u8) as u8)
    } else if 'a' <= c <= 'f' {
        Some((c as u8 - 'a' as u8 + 10) as u8)
    } else if 'A' <= c <= 'F' {
        Some((c as u8 - 'A' as u8 + 10) as u8)
    } else {
        None
    }
}

/// The bytes written in hexadecimal, or `None` if the text is not an even
/// number of hexadecimal digits.
pub open spec fn spec_hex_decode(s: Seq<char>) -> Option<Seq<u8>>
    decreases s.len(),
{
    if s.len() == 0 {
        Some(Seq::empty())
    } else if s.len() == 1 {
        None
    } else {
        match (spec_hex_digit(s[0]), spec_hex_digit(s[1])) {
            (Some(h), Some(l)) => match spec_hex_decode(s.skip(2)) {
                Some(rest) => Some(seq![(h * 16 + l) as u8] + rest),
                None => None,
            },
            _ => None,
        }
    }
}

/// Decides and evaluates one hexadecimal digit.
pub fn hex_digit(c: char) -> (r: Option<u8>)
    ensures
        r == spec_hex_digit(c),
{
    if '0' <= c && c <= '9' {
        Some(c as u8 - '0' as u8)
    } else if 'a' <= c && c <= 'f' {
        Some(c as u8 - 'a' as u8 + 10)
    } else if 'A' <= c && c <= 'F' {
        Some(c as u8 - 'A' as u8 + 10)
    } else {
        None
    }
}

/// Decodes hexadecimal text to bytes; `None` unless the text is an even
/// number of hexadecimal digits.
pub fn hex_decode(s: &str) -> (r: Option<Vec<u8>>)
    ensures
        match r {
            Some(v) => spec_hex_decode(s@) == Some(v@),
            None => spec_hex_decode(s@) is None,
        },
{
    let n = s.unicode_len();
    let mut out: Vec<u8> = Vec::new();
    let mut i: usize = 0;
    proof {
        assert(s@.skip(0) =~= s@);
    }
    while i < n
        invariant
            0 <= i <= n,
            n == s@.len(),
            i % 2 == 0,
            match spec_hex_decode(s@.skip(i as int)) {
                Some(rest) => spec_hex_decode(s@) == Some(out@ + rest),
                None => spec_hex_decode(s@) is None,
            },
        decreases n - i,
    {
        let ghost suf = s@.skip(i as int);
        if n - i == 1 {
            return None;
        }
        let hc = s.get_char(i);
        let lc = s.get_char(i + 1);
        proof {
            assert(suf[0] == s@[i as int]);
            assert(suf[1] == s@[i as int + 1]);
        }
        let h = match hex_digit(hc) {
            Some(h) => h,
            None => {
                return None;
            },
        };
        let l = match hex_digit(lc) {
            Some(l) => l,
            None => {
                return None;
            },
        };
        let ghost old_out = out@;
        out.push(h * 16 + l);
        proof {
            assert(suf.skip(2) =~= s@.skip(i as int + 2));
            match spec_hex_decode(s@.skip(i as int + 2)) {
                Some(rest) => {
                    assert(old_out + (seq![(h * 16 + l) as u8] + rest) =~= out@ + rest);
                },
                None => {},
            }
        }
        i = i + 2;
    }
    proof {
        assert(s@.skip(i as int).len() == 0);
        assert(out@ + Seq::<u8>::empty() =~= out@);
    }
    Some(out)
}

// Contact extraction from the `p` tags of a ContactList event. A malformed
// tag (wrong label, or a pubkey that is not 64 hexadecimal digits) is skipped
// rather than failing the whole event.

/// The contact named by one tag, if it is a well-formed `p` tag.
pub open spec fn spec_contact_of_tag(tag: Seq<Seq<char>>) -> Option<ContactV> {
    if tag.len() >= 2 && tag[0] == seq!['p'] && spec_hex_decode(tag[1]) is Some && spec_hex_decode(
        tag[1],
    ).unwrap().len() == PUBKEY_LEN {
        Some(ContactV {
            pk: spec_hex_decode(tag[1]).unwrap(),
            relay_url: if tag.len() >= 3 {
                Some(tag[2])
            } else {
                None
            },
            alias: if tag.len() >= 4 {
                Some(tag[3])
            } else {
                None
            },
        })
    } else {
        None
    }
}

/// The contacts named by the well-formed `p` tags, in tag order.
pub open spec fn spec_contacts_of_tags(tags: Seq<Seq<Seq<char>>>) -> Seq<ContactV>
    decreases tags.len(),
{
    if tags.len() == 0 {
        Seq::empty()
    } else {
        let rest = spec_contacts_of_tags(tags.drop_first());
        match spec_contact_of_tag(tags[0]) {
            Some(c) => seq![c] + rest,
            None => rest,
        }
    }
}

pub proof fn lemma_contacts_of_tags_push(tags: Seq<Seq<Seq<char>>>, t: Seq<Seq<char>>)
    ensures
        spec_contacts_of_tags(tags.push(t)) == match spec_contact_of_tag(t) {
            Some(c) => spec_contacts_of_tags(tags).push(c),
            None => spec_contacts_of_tags(tags),
        },
    decreases tags.len(),
{
    let p = tags.push(t);
    if tags.len() == 0 {
        assert(p[0] == t);
        assert(p.drop_first() =~= Seq::<Seq<Seq<char>>>::empty());
        assert(spec_contacts_of_tags(Seq::<Seq<Seq<char>>>::empty()) == Seq::<ContactV>::empty());
        assert(spec_contacts_of_tags(tags) == Seq::<ContactV>::empty());
        match spec_contact_of_tag(t) {
            Some(c) => {
                assert(spec_contacts_of_tags(p) == seq![c] + Seq::<ContactV>::empty());
                assert(seq![c] + Seq::<ContactV>::empty() =~= Seq::<ContactV>::empty().push(c));
            },
            None => {
                assert(spec_contacts_of_tags(p) == Seq::<ContactV>::empty());
            },
        }
    } else {
        assert(p[0] == tags[0]);
        assert(p.drop_first() =~= tags.drop_first().push(t));
        lemma_contacts_of_tags_push(tags.drop_first(), t);
        match spec_contact_of_tag(t) {
            Some(c) => {
                match spec_contact_of_tag(tags[0]) {
                    Some(c0) => {
                        assert(spec_contacts_of_tags(p) =~= spec_contacts_of_tags(tags).push(c));
                    },
                    None => {
                        assert(spec_contacts_of_tags(p) =~= spec_contacts_of_tags(tags).push(c));
                    },
                }
            },
            None => {
                match spec_contact_of_tag(tags[0]) {
                    Some(c0) => {
                        assert(spec_contacts_of_tags(p) =~= spec_contacts_of_tags(tags));
                    },
                    None => {
                        assert(spec_contacts_of_tags(p) =~= spec_contacts_of_tags(tags));
                    },
                }
            },
        }
    }
}

/// The deep view of a tag list indexes to each tag's string views.
pub proof fn lemma_deep_view_tags(v: &Vec<Vec<String>>)
    ensures
        v.deep_view().len() == v@.len(),
        forall|i: int| 0 <= i < v@.len() ==> #[trigger] v.deep_view()[i] == v@[i].deep_view(),
        forall|i: int, j: int|
            0 <= i < v@.len() && 0 <= j < v@[i]@.len() ==> #[trigger] v.deep_view()[i][j]
                == v@[i]@[j]@,
{
    assert forall|i: int| 0 <= i < v@.len() implies #[trigger] v.deep_view()[i]
        == v@[i].deep_view() by {}
    assert forall|i: int, j: int|
        0 <= i < v@.len() && 0 <= j < v@[i]@.len() implies #[trigger] v.deep_view()[i][j]
        == v@[i]@[j]@ by {
        assert(v.deep_view()[i] == v@[i].deep_view());
        assert(v@[i].deep_view()[j] == v@[i]@[j].deep_view());
    }
}

/// Reads one tag as a contact if it is a well-formed `p` tag.
pub fn contact_of_tag(tag: &Vec<String>) -> (r: Option<Contact>)
    ensures
        match r {
            Some(c) => spec_contact_of_tag(tag.deep_view()) == Some(c@),
            None => spec_contact_of_tag(tag.deep_view()) is None,
        },
{
    proof {
        lemma_deep_view_strings(tag);
    }
    if tag.len() < 2 {
        return None;
    }
    proof {
        reveal_strlit("p");
    }
    if !crate::codec::str_eq(tag[0].as_str(), "p") {
        proof {
            assert("p"@ =~= seq!['p']);
        }
        return None;
    }
    proof {
        assert("p"@ =~= seq!['p']);
    }
    let pk = match hex_decode(tag[1].as_str()) {
        Some(pk) => pk,
        None => {
            return None;
        },
    };
    if pk.len() != PUBKEY_LEN {
        return None;
    }
    let relay_url: Option<String> = if tag.len() >= 3 {
        Some(clone_string(&tag[2]))
    } else {
        None
    };
    let alias: Option<String> = if tag.len() >= 4 {
        Some(clone_string(&tag[3]))
    } else {
        None
    };
    Some(Contact { pk, relay_url, alias })
}

/// A copy of a string with the same characters.
pub fn clone_string(s: &String) -> (r: String)
    ensures
        r@ == s@,
{
    s.clone()
}

/// The deep view of a string list indexes to the strings' views.
pub proof fn lemma_deep_view_strings(v: &Vec<String>)
    ensures
        v.deep_view().len() == v@.len(),
        forall|i: int| 0 <= i < v@.len() ==> #[trigger] v.deep_view()[i] == v@[i]@,
{
    assert forall|i: int| 0 <= i < v@.len() implies #[trigger] v.deep_view()[i] == v@[i]@ by {}
}

/// Reads every well-formed `p` tag of a ContactList event as a contact.
pub fn contacts_of_tags(tags: &Vec<Vec<String>>) -> (r: Vec<Contact>)
    ensures
        view_contacts(r@) == spec_contacts_of_tags(tags.deep_view()),
{
    let mut r: Vec<Contact> = Vec::new();
    let mut i: usize = 0;
    proof {
        lemma_deep_view_tags(tags);
        assert(view_contacts(r@) =~= spec_contacts_of_tags(tags.deep_view().take(0)));
    }
    while i < tags.len()
        invariant
            0 <= i <= tags@.len(),
            tags.deep_view().len() == tags@.len(),
            forall|k: int|
                0 <= k < tags@.len() ==> #[trigger] tags.deep_view()[k] == tags@[k].deep_view(),
            view_contacts(r@) == spec_contacts_of_tags(tags.deep_view().take(i as int)),
        decreases tags@.len() - i,
    {
        let ghost old_r = r@;
        let c = contact_of_tag(&tags[i]);
        match c {
            Some(c) => {
                r.push(c);
            },
            None => {},
        }
        proof {
            let dv = tags.deep_view();
            assert(dv.take(i as int + 1) =~= dv.take(i as int).push(dv[i as int]));
            lemma_contacts_of_tags_push(dv.take(i as int), dv[i as int]);
            match spec_contact_of_tag(dv[i as int]) {
                Some(cv) => {
                    assert(view_contacts(r@) =~= view_contacts(old_r).push(cv));
                },
                None => {
                    assert(view_contacts(r@) =~= view_contacts(old_r));
                },
            }
        }
        i = i + 1;
    }
    proof {
        assert(tags.deep_view().take(tags@.len() as int) =~= tags.deep_view());
    }
    r
}


} // verus!
