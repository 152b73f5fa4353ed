use vstd::prelude::*;
use crate::model::{Profile, ProfileV, clone_string, view_opt_profile};

verus! {

// A Metadata event carries a JSON object in its `content`; the profile fields
// are read out of it. The parse itself is delegated to serde_json and only
// named here: everything that is decided on the parsed fields is verified
// downstream of `parse_metadata`.

/// The profile fields carried by one Metadata event.
#[derive(Debug, Clone)]
pub struct ProfileMetadata {
    pub name: Option<String>,
    pub display_name: Option<String>,
    pub about: Option<String>,
    pub website: Option<String>,
    pub picture: Option<String>,
    pub nip05: Option<String>,
    pub lud06: Option<String>,
    pub lud16: Option<String>,
}

/// The mathematical value of parsed metadata.
pub ghost struct MetadataV {
    pub name: Option<Seq<char>>,
    pub display_name: Option<Seq<char>>,
    pub about: Option<Seq<char>>,
    pub website: Option<Seq<char>>,
    pub picture: Option<Seq<char>>,
    pub nip05: Option<Seq<char>>,
    pub lud06: Option<Seq<char>>,
    pub lud16: Option<Seq<char>>,
}

impl View for ProfileMetadata {
    type V = MetadataV;

    open spec fn view(&self) -> MetadataV {
        MetadataV {
            name: self.name.deep_view(),
            display_name: self.display_name.deep_view(),
            about: self.about.deep_view(),
            website: self.website.deep_view(),
            picture: self.picture.deep_view(),
            nip05: self.nip05.deep_view(),
            lud06: self.lud06.deep_view(),
            lud16: self.lud16.deep_view(),
        }
    }
}

/// What parsing a metadata content string yields: a function of the
/// characters alone.
pub uninterp spec fn metadata_of(content: Seq<char>) -> Option<MetadataV>;

/// Relies on serde_json::from_str::<Value> and Value::{get, as_str}: parsing
/// a string and reading its string fields depend on the characters alone, and
/// fail exactly on text that is not a JSON document.
#[verifier::external_body]
pub fn parse_metadata(content: &str) -> (r: Option<ProfileMetadata>)
    ensures
        match r {
            Some(m) => metadata_of(content@) == Some(m@),
            None => metadata_of(content@) is None,
        },
{
    let v = match serde_json::from_str::<serde_json::Value>(content) {
        Ok(v) => v,
        Err(_) => return None,
    };
    let f = |k: &str| v.get(k).and_then(|x| x.as_str()).map(|s| s.to_string());
    Some(ProfileMetadata {
        name: f("name"), display_name: f("display_name"), about: f("about"),
        website: f("website"), picture: f("picture"), nip05: f("nip05"),
        lud06: f("lud06"), lud16: f("lud16"),
    })
}

/// The profile that results from applying parsed metadata with timestamp
/// `created_at` over what is stored: `None` when the event is stale and must
/// be discarded (strictly-newer wins, ties favor what is stored), else the
/// snapshot to store. A fresh profile starts outside the contact list; an
/// overwrite keeps the stored contact flag, which metadata does not carry.
pub open spec fn spec_apply_metadata(
    existing: Option<ProfileV>,
    pubkey: Seq<u8>,
    m: MetadataV,
    created_at: u64,
) -> Option<ProfileV> {
    match existing {
        Some(p) => if created_at > p.metadata_at {
            Some(
                ProfileV {
                    pubkey: p.pubkey,
                    name: m.name,
                    display_name: m.display_name,
                    about: m.about,
                    website: m.website,
                    picture: m.picture,
                    nip05: m.nip05,
                    lud06: m.lud06,
                    lud16: m.lud16,
                    is_contact: p.is_contact,
                    metadata_at: created_at,
                },
            )
        } else {
            None
        },
        None => Some(
            ProfileV {
                pubkey,
                name: m.name,
                display_name: m.display_name,
                about: m.about,
                website: m.website,
                picture: m.picture,
                nip05: m.nip05,
                lud06: m.lud06,
                lud16: m.lud16,
                is_contact: false,
                metadata_at: created_at,
            },
        ),
    }
}

/// Applies parsed metadata over the stored profile; `None` means the event is
/// stale and the store keeps what it has.
pub fn apply_metadata(
    existing: &Option<Profile>,
    pubkey: &Vec<u8>,
    m: &ProfileMetadata,
    created_at: u64,
) -> (r: Option<Profile>)
    ensures
        match r {
            Some(p) => spec_apply_metadata(view_opt_profile(*existing), pubkey@, m@, created_at)
                == Some(p@),
            None => spec_apply_metadata(view_opt_profile(*existing), pubkey@, m@, created_at)
                is None,
        },
{
    match existing {
        Some(p) => {
            if created_at > p.metadata_at {
                Some(
                    Profile {
                        pubkey: crate::codec::clone_bytes(&p.pubkey),
                        name: clone_opt_string(&m.name),
                        display_name: clone_opt_string(&m.display_name),
                        about: clone_opt_string(&m.about),
                        website: clone_opt_string(&m.website),
                        picture: clone_opt_string(&m.picture),
                        nip05: clone_opt_string(&m.nip05),
                        lud06: clone_opt_string(&m.lud06),
                        lud16: clone_opt_string(&m.lud16),
                        is_contact: p.is_contact,
                        metadata_at: created_at,
                    },
                )
            } else {
                None
            }
        },
        None => Some(
            Profile {
                pubkey: crate::codec::clone_bytes(pubkey),
                name: clone_opt_string(&m.name),
                display_name: clone_opt_string(&m.display_name),
                about: clone_opt_string(&m.about),
                website: clone_opt_string(&m.website),
                picture: clone_opt_string(&m.picture),
                nip05: clone_opt_string(&m.nip05),
                lud06: clone_opt_string(&m.lud06),
                lud16: clone_opt_string(&m.lud16),
                is_contact: false,
                metadata_at: created_at,
            },
        ),
    }
}

/// A copy of an optional string with the same characters.
pub fn clone_opt_string(s: &Option<String>) -> (r: Option<String>)
    ensures
        r.deep_view() == s.deep_view(),
{
    match s {
        Some(s) => Some(clone_string(s)),
        None => None,
    }
}

} // verus!
