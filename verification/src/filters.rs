use vstd::prelude::*;
use crate::model::{
    KIND_METADATA, KIND_TEXT_NOTE, KIND_CONTACT_LIST, KIND_ENCRYPTED_DIRECT_MESSAGE, KIND_BOOST,
    KIND_REACTION,
};
use crate::codec::clone_bytes;
use crate::db::keys_set;

verus! {

// The server-side query specifications the client subscribes with, and the
// three simultaneously active filters derived from the local author set.

/// One relay-side query: by author, kind, mentioned pubkey, and result limit.
pub struct Filter {
    pub authors: Option<Vec<Vec<u8>>>,
    pub kinds: Option<Vec<u64>>,
    pub pubkey: Option<Vec<u8>>,
    pub limit: Option<usize>,
}

/// The mathematical value of a filter.
pub ghost struct FilterV {
    pub authors: Option<Seq<Seq<u8>>>,
    pub kinds: Option<Seq<u64>>,
    pub pubkey: Option<Seq<u8>>,
    pub limit: Option<usize>,
}

impl View for Filter {
    type V = FilterV;

    open spec fn view(&self) -> FilterV {
        FilterV {
            authors: self.authors.deep_view(),
            kinds: self.kinds.deep_view(),
            pubkey: self.pubkey.deep_view(),
            limit: self.limit,
        }
    }
}

/// The kinds the client follows from the authors it knows.
pub open spec fn spec_following_kinds() -> Seq<u64> {
    seq![KIND_METADATA, KIND_TEXT_NOTE, KIND_BOOST, KIND_REACTION]
}

/// The filter for the local user's own contact list: that author, that kind,
/// only the most recent one.
pub fn contact_list_filter(my_public_key: &Vec<u8>) -> (r: Filter)
    ensures
        r@.authors == Some(seq![my_public_key@]),
        r@.kinds == Some(seq![KIND_CONTACT_LIST]),
        r@.pubkey is None,
        r@.limit == Some(1usize),
{
    let mut authors: Vec<Vec<u8>> = Vec::new();
    authors.push(clone_bytes(my_public_key));
    let mut kinds: Vec<u64> = Vec::new();
    kinds.push(KIND_CONTACT_LIST);
    proof {
        crate::codec::lemma_deep_view_bytes(&authors);
    }
    let r = Filter { authors: Some(authors), kinds: Some(kinds), pubkey: None, limit: Some(1) };
    proof {
        assert(r@.authors.unwrap() =~= seq![my_public_key@]);
        assert(r@.kinds.unwrap() =~= seq![KIND_CONTACT_LIST]);
    }
    r
}

/// The filter for direct messages that mention the local user.
pub fn encrypted_dm_filter(my_public_key: &Vec<u8>) -> (r: Filter)
    ensures
        r@.authors is None,
        r@.kinds == Some(seq![KIND_ENCRYPTED_DIRECT_MESSAGE]),
        r@.pubkey == Some(my_public_key@),
        r@.limit is None,
{
    let mut kinds: Vec<u64> = Vec::new();
    kinds.push(KIND_ENCRYPTED_DIRECT_MESSAGE);
    let r = Filter {
        authors: None,
        kinds: Some(kinds),
        pubkey: Some(clone_bytes(my_public_key)),
        limit: None,
    };
    proof {
        assert(r@.kinds.unwrap() =~= seq![KIND_ENCRYPTED_DIRECT_MESSAGE]);
    }
    r
}

/// The filter for content authored by any followed pubkey.
pub fn following_filter(authors: Vec<Vec<u8>>) -> (r: Filter)
    ensures
        r.authors == Some(authors),
        r@.authors is Some,
        r@.authors.unwrap().len() == authors@.len(),
        forall|i: int|
            0 <= i < authors@.len() ==> #[trigger] r@.authors.unwrap()[i] == authors@[i]@,
        r@.kinds == Some(spec_following_kinds()),
        r@.pubkey is None,
        r@.limit is None,
{
    let mut kinds: Vec<u64> = Vec::new();
    kinds.push(KIND_METADATA);
    kinds.push(KIND_TEXT_NOTE);
    kinds.push(KIND_BOOST);
    kinds.push(KIND_REACTION);
    proof {
        crate::codec::lemma_deep_view_bytes(&authors);
    }
    let r = Filter { authors: Some(authors), kinds: Some(kinds), pubkey: None, limit: None };
    proof {
        assert(r@.kinds.unwrap() =~= spec_following_kinds());
    }
    r
}

/// The three simultaneously active subscription filters.
pub struct Filters {
    pub contact_list: Filter,
    pub encrypted_dm: Filter,
    pub following_authors: Filter,
}

impl Filters {
    /// The three filters in a fixed order, for one subscribe call.
    pub fn to_vec(&self) -> (r: Vec<Filter>)
        ensures
            r@.len() == 3,
            r@[0]@ == self.contact_list@,
            r@[1]@ == self.encrypted_dm@,
            r@[2]@ == self.following_authors@,
    {
        let mut r: Vec<Filter> = Vec::new();
        r.push(clone_filter(&self.contact_list));
        r.push(clone_filter(&self.encrypted_dm));
        r.push(clone_filter(&self.following_authors));
        r
    }
}

/// A copy of a filter with the same value.
pub fn clone_filter(f: &Filter) -> (r: Filter)
    ensures
        r@ == f@,
{
    let authors: Option<Vec<Vec<u8>>> = match &f.authors {
        Some(a) => Some(clone_author_list(a)),
        None => None,
    };
    let kinds: Option<Vec<u64>> = match &f.kinds {
        Some(ks) => {
            let mut v: Vec<u64> = Vec::new();
            let mut i: usize = 0;
            while i < ks.len()
                invariant
                    0 <= i <= ks@.len(),
                    v@ == ks@.take(i as int),
                decreases ks@.len() - i,
            {
                v.push(ks[i]);
                proof {
                    assert(v@ =~= ks@.take(i as int + 1));
                }
                i = i + 1;
            }
            proof {
                assert(ks@.take(ks@.len() as int) =~= ks@);
            }
            Some(v)
        },
        None => None,
    };
    let pubkey: Option<Vec<u8>> = match &f.pubkey {
        Some(p) => Some(clone_bytes(p)),
        None => None,
    };
    let limit: Option<usize> = match &f.limit {
        Some(l) => Some(*l),
        None => None,
    };
    let r = Filter { authors, kinds, pubkey, limit };
    proof {
        match f.authors {
            Some(_) => {
                assert(r@.authors.unwrap() =~= f@.authors.unwrap());
            },
            None => {},
        }
        match f.kinds {
            Some(_) => {
                assert(r@.kinds.unwrap() =~= f@.kinds.unwrap());
            },
            None => {},
        }
        assert(r@ =~~= f@);
    }
    r
}

/// A copy of an author list with the same pubkeys.
pub fn clone_author_list(a: &Vec<Vec<u8>>) -> (r: Vec<Vec<u8>>)
    ensures
        r@.len() == a@.len(),
        forall|i: int| 0 <= i < a@.len() ==> #[trigger] r@[i]@ == a@[i]@,
        r.deep_view() == a.deep_view(),
{
    let mut r: Vec<Vec<u8>> = Vec::new();
    let mut i: usize = 0;
    while i < a.len()
        invariant
            0 <= i <= a@.len(),
            r@.len() == i,
            forall|j: int| 0 <= j < i ==> #[trigger] r@[j]@ == a@[j]@,
        decreases a@.len() - i,
    {
        r.push(clone_bytes(&a[i]));
        i = i + 1;
    }
    proof {
        crate::codec::lemma_deep_view_bytes(&r);
        crate::codec::lemma_deep_view_bytes(a);
        assert(r.deep_view() =~= a.deep_view());
    }
    r
}

/// Whether some pubkey in the list equals the given one.
pub fn author_list_contains(list: &Vec<Vec<u8>>, pk: &Vec<u8>) -> (r: bool)
    ensures
        r == keys_set(list@).contains(pk@),
{
    let mut i: usize = 0;
    while i < list.len()
        invariant
            0 <= i <= list@.len(),
            forall|j: int| 0 <= j < i ==> #[trigger] list@[j]@ != pk@,
        decreases list@.len() - i,
    {
        if crate::kv::bytes_eq(&list[i], pk) {
            return true;
        }
        i = i + 1;
    }
    proof {
        if keys_set(list@).contains(pk@) {
            let j = choose|j: int| 0 <= j < list@.len() && #[trigger] list@[j]@ == pk@;
            assert(false);
        }
    }
    false
}

/// Whether two author lists name the same set of pubkeys, whatever their
/// order or duplication.
pub fn same_author_set(a: &Vec<Vec<u8>>, b: &Vec<Vec<u8>>) -> (r: bool)
    ensures
        r == (keys_set(a@) == keys_set(b@)),
{
    let mut i: usize = 0;
    while i < a.len()
        invariant
            0 <= i <= a@.len(),
            forall|j: int| 0 <= j < i ==> keys_set(b@).contains(#[trigger] a@[j]@),
        decreases a@.len() - i,
    {
        if !author_list_contains(b, &a[i]) {
            proof {
                assert(keys_set(a@).contains(a@[i as int]@));
                assert(keys_set(a@) != keys_set(b@));
            }
            return false;
        }
        i = i + 1;
    }
    let mut j: usize = 0;
    while j < b.len()
        invariant
            0 <= j <= b@.len(),
            forall|k: int| 0 <= k < a@.len() ==> keys_set(b@).contains(#[trigger] a@[k]@),
            forall|k: int| 0 <= k < j ==> keys_set(a@).contains(#[trigger] b@[k]@),
        decreases b@.len() - j,
    {
        if !author_list_contains(a, &b[j]) {
            proof {
                assert(keys_set(b@).contains(b@[j as int]@));
                assert(keys_set(a@) != keys_set(b@));
            }
            return false;
        }
        j = j + 1;
    }
    proof {
        assert forall|k: Seq<u8>| true implies #[trigger] keys_set(a@).contains(k) == keys_set(
            b@,
        ).contains(k) by {
            if keys_set(a@).contains(k) {
                let i2 = choose|i2: int| 0 <= i2 < a@.len() && #[trigger] a@[i2]@ == k;
            }
            if keys_set(b@).contains(k) {
                let j2 = choose|j2: int| 0 <= j2 < b@.len() && #[trigger] b@[j2]@ == k;
            }
        }
        assert(keys_set(a@) =~= keys_set(b@));
    }
    true
}

} // verus!
