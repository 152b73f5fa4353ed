use vstd::prelude::*;
use vstd::utf8::{valid_utf8, decode_utf8, encode_utf8, encode_utf8_valid_utf8, encode_utf8_decode_utf8};
use vstd::string::StrSliceExecFns;
use crate::keys::{spec_be8, spec_u64_of_be, be8, u64_of_be, lemma_be8_roundtrip};

verus! {

// The schema-stable serialization of the store: every record is a sequence of
// byte fields, each written as an eight-byte big-endian length followed by the
// field's bytes. Text is carried as UTF-8. Decoding failures are reported as
// absence (`None`), which callers surface as a serialization error distinct
// from "not found".

/// Bytes of one encoded field list: each field length-prefixed.
pub open spec fn spec_enc_fields(fs: Seq<Seq<u8>>) -> Seq<u8>
    decreases fs.len(),
{
    if fs.len() == 0 {
        Seq::empty()
    } else {
        spec_be8(fs[0].len() as u64) + fs[0] + spec_enc_fields(fs.drop_first())
    }
}

/// The field list read back from bytes, or `None` if the bytes are not an
/// exact encoding of one.
pub open spec fn spec_dec_fields(b: Seq<u8>) -> Option<Seq<Seq<u8>>>
    decreases b.len(),
{
    if b.len() == 0 {
        Some(Seq::empty())
    } else if b.len() < 8 {
        None
    } else {
        let n = spec_u64_of_be(b.take(8)) as int;
        if n + 8 > b.len() {
            None
        } else {
            match spec_dec_fields(b.skip(n + 8)) {
                Some(rest) => Some(Seq::empty().push(b.subrange(8, n + 8)) + rest),
                None => None,
            }
        }
    }
}

/// The deep view of a vector of byte vectors indexes to the bytes' views.
pub proof fn lemma_deep_view_bytes(v: &Vec<Vec<u8>>)
    ensures
        v.deep_view().len() == v@.len(),
        forall|i: int| 0 <= i < v@.len() ==> v.deep_view()[i] == v@[i]@,
{
    assert forall|i: int| 0 <= i < v@.len() implies v.deep_view()[i] == v@[i]@ by {
        assert(v@[i].deep_view() =~= v@[i]@);
    }
}

/// Every field held in a vector is short enough for its length prefix.
pub proof fn lemma_fields_bounded(v: &Vec<Vec<u8>>)
    ensures
        forall|i: int|
            0 <= i < v.deep_view().len() ==> #[trigger] v.deep_view()[i].len() <= u64::MAX,
{
    lemma_deep_view_bytes(v);
    assert forall|i: int|
        0 <= i < v.deep_view().len() implies #[trigger] v.deep_view()[i].len() <= u64::MAX by {
        vstd::std_specs::vec::axiom_spec_len(&v@[i]);
    }
}

/// Appending one more field extends the encoding at its end.
pub proof fn lemma_enc_fields_push(fs: Seq<Seq<u8>>, f: Seq<u8>)
    ensures
        spec_enc_fields(fs.push(f)) == spec_enc_fields(fs) + spec_be8(f.len() as u64) + f,
    decreases fs.len(),
{
    let p = fs.push(f);
    if fs.len() == 0 {
        assert(p[0] == f);
        assert(p.drop_first() =~= Seq::<Seq<u8>>::empty());
        assert(spec_enc_fields(p.drop_first()) == Seq::<u8>::empty());
        assert(spec_enc_fields(p) == spec_be8(f.len() as u64) + f + spec_enc_fields(
            p.drop_first(),
        ));
        assert(spec_enc_fields(fs) == Seq::<u8>::empty());
        assert(spec_enc_fields(p) =~= spec_enc_fields(fs) + spec_be8(f.len() as u64) + f);
    } else {
        assert(p[0] == fs[0]);
        assert(p.drop_first() =~= fs.drop_first().push(f));
        lemma_enc_fields_push(fs.drop_first(), f);
        assert(spec_enc_fields(p) == spec_be8(fs[0].len() as u64) + fs[0] + spec_enc_fields(
            p.drop_first(),
        ));
        assert(spec_enc_fields(fs) == spec_be8(fs[0].len() as u64) + fs[0] + spec_enc_fields(
            fs.drop_first(),
        ));
        assert(spec_enc_fields(p) =~= spec_enc_fields(fs) + spec_be8(f.len() as u64) + f);
    }
}

/// Decoding recovers exactly the fields that were encoded.
pub proof fn lemma_fields_roundtrip(fs: Seq<Seq<u8>>)
    requires
        forall|i: int| 0 <= i < fs.len() ==> #[trigger] fs[i].len() <= u64::MAX,
    ensures
        spec_dec_fields(spec_enc_fields(fs)) == Some(fs),
    decreases fs.len(),
{
    if fs.len() == 0 {
        assert(spec_enc_fields(fs).len() == 0);
    } else {
        let f0 = fs[0];
        let b = spec_enc_fields(fs);
        let rest_enc = spec_enc_fields(fs.drop_first());
        assert(f0.len() <= u64::MAX);
        lemma_be8_roundtrip(f0.len() as u64);
        assert(b.len() >= 8 + f0.len());
        assert(b.take(8) =~= spec_be8(f0.len() as u64));
        let n = spec_u64_of_be(b.take(8)) as int;
        assert(n == f0.len());
        assert(b.subrange(8, n + 8) =~= f0);
        assert(b.skip(n + 8) =~= rest_enc);
        assert(forall|i: int|
            0 <= i < fs.drop_first().len() ==> #[trigger] fs.drop_first()[i].len() <= u64::MAX);
        lemma_fields_roundtrip(fs.drop_first());
        assert(Seq::empty().push(f0) + fs.drop_first() =~= fs);
    }
}

/// A copy of a byte vector with the same contents.
pub fn clone_bytes(v: &Vec<u8>) -> (r: Vec<u8>)
    ensures
        r@ == v@,
{
    let mut r: Vec<u8> = Vec::new();
    r.extend_from_slice(v.as_slice());
    proof {
        assert(r@ =~= v@);
    }
    r
}

/// A copy of the bytes of `v` from `from` (inclusive) to `to` (exclusive).
pub fn subvec(v: &Vec<u8>, from: usize, to: usize) -> (r: Vec<u8>)
    requires
        from <= to <= v@.len(),
    ensures
        r@ == v@.subrange(from as int, to as int),
{
    let mut r: Vec<u8> = Vec::new();
    let mut i: usize = from;
    while i < to
        invariant
            from <= i <= to <= v@.len(),
            r@ == v@.subrange(from as int, i as int),
        decreases to - i,
    {
        r.push(v[i]);
        proof {
            assert(r@ =~= v@.subrange(from as int, i as int + 1));
        }
        i = i + 1;
    }
    r
}

/// Serializes a list of byte fields, each length-prefixed.
pub fn encode_fields(fields: &Vec<Vec<u8>>) -> (r: Vec<u8>)
    ensures
        r@ == spec_enc_fields(fields.deep_view()),
{
    let mut r: Vec<u8> = Vec::new();
    let mut i: usize = 0;
    proof {
        assert(fields.deep_view().take(0) =~= Seq::<Seq<u8>>::empty());
    }
    while i < fields.len()
        invariant
            0 <= i <= fields@.len(),
            r@ == spec_enc_fields(fields.deep_view().take(i as int)),
        decreases fields@.len() - i,
    {
        let mut lenb = be8(fields[i].len() as u64);
        r.append(&mut lenb);
        let mut fb: Vec<u8> = Vec::new();
        fb.extend_from_slice(fields[i].as_slice());
        r.append(&mut fb);
        proof {
            lemma_deep_view_bytes(fields);
            let dv = fields.deep_view();
            assert(dv[i as int] == fields@[i as int]@);
            assert(dv.take(i as int + 1) =~= dv.take(i as int).push(dv[i as int]));
            lemma_enc_fields_push(dv.take(i as int), dv[i as int]);
        }
        i = i + 1;
    }
    proof {
        assert(fields.deep_view().take(fields@.len() as int) =~= fields.deep_view());
    }
    r
}

/// Parses a list of length-prefixed byte fields; `None` on any malformation.
pub fn decode_fields(b: &Vec<u8>) -> (r: Option<Vec<Vec<u8>>>)
    ensures
        match r {
            Some(fs) => spec_dec_fields(b@) == Some(fs.deep_view()),
            None => spec_dec_fields(b@) is None,
        },
{
    let mut fields: Vec<Vec<u8>> = Vec::new();
    let mut pos: usize = 0;
    let len = b.len();
    proof {
        assert(b@.skip(0) =~= b@);
        assert(fields.deep_view() =~= Seq::<Seq<u8>>::empty());
    }
    while pos < len
        invariant
            0 <= pos <= len,
            len == b@.len(),
            match spec_dec_fields(b@.skip(pos as int)) {
                Some(rest) => spec_dec_fields(b@) == Some(fields.deep_view() + rest),
                None => spec_dec_fields(b@) is None,
            },
        decreases len - pos,
    {
        let ghost s = b@.skip(pos as int);
        if len - pos < 8 {
            return None;
        }
        let n64 = u64_of_be(b, pos);
        proof {
            assert(s.take(8) =~= b@.subrange(pos as int, pos as int + 8));
        }
        if n64 > (len - pos - 8) as u64 {
            return None;
        }
        let n = n64 as usize;
        let f = subvec(b, pos + 8, pos + 8 + n);
        proof {
            assert(s.subrange(8, n as int + 8) =~= b@.subrange(pos as int + 8, pos as int + 8
                + n as int));
            assert(s.skip(n as int + 8) =~= b@.skip(pos as int + 8 + n as int));
            let rest0 = spec_dec_fields(s);
            assert(rest0 matches Some(r0) ==> r0 == Seq::empty().push(f@) + spec_dec_fields(s.skip(
                n as int + 8)).unwrap());
        }
        let ghost old_view = fields@;
        let ghost old_fields = fields.deep_view();
        proof {
            lemma_deep_view_bytes(&fields);
        }
        fields.push(f);
        proof {
            lemma_deep_view_bytes(&fields);
            assert(fields@ == old_view.push(f));
            assert(fields.deep_view() =~= old_fields.push(f@));
            match spec_dec_fields(b@.skip(pos as int + 8 + n as int)) {
                Some(rest) => {
                    assert(old_fields + (Seq::empty().push(f@) + rest) =~= fields.deep_view()
                        + rest);
                },
                None => {},
            }
        }
        pos = pos + 8 + n;
    }
    proof {
        assert(b@.skip(pos as int).len() == 0);
        assert(fields.deep_view() + Seq::<Seq<u8>>::empty() =~= fields.deep_view());
    }
    Some(fields)
}

// Text fields are carried as UTF-8 bytes.

/// The UTF-8 bytes of a string.
pub fn string_to_bytes(s: &str) -> (r: Vec<u8>)
    ensures
        r@ == encode_utf8(s@),
{
    s.as_bytes_vec()
}

/// Relies on `String::from_utf8` of std: it returns the string holding exactly
/// the given bytes when they are valid UTF-8, and an error otherwise.
#[verifier::external_body]
pub fn string_from_utf8(v: Vec<u8>) -> (r: Option<String>)
    ensures
        r is Some <==> valid_utf8(v@),
        r matches Some(s) ==> s@ == decode_utf8(v@),
{
    String::from_utf8(v).ok()
}

/// Equal UTF-8 encodings come from equal strings.
pub proof fn lemma_encode_utf8_injective(a: Seq<char>, b: Seq<char>)
    requires
        encode_utf8(a) == encode_utf8(b),
    ensures
        a == b,
{
    encode_utf8_decode_utf8(a);
    encode_utf8_decode_utf8(b);
}

/// String equality, decided on the UTF-8 bytes.
pub fn str_eq(a: &str, b: &str) -> (r: bool)
    ensures
        r == (a@ == b@),
{
    let ab = a.as_bytes();
    let bb = b.as_bytes();
    if ab.len() != bb.len() {
        proof {
            if a@ == b@ {
                assert(encode_utf8(a@) == encode_utf8(b@));
            }
        }
        return false;
    }
    let n = ab.len();
    let mut i: usize = 0;
    while i < n
        invariant
            0 <= i <= n,
            n == ab@.len() == bb@.len(),
            ab@ == encode_utf8(a@),
            bb@ == encode_utf8(b@),
            forall|j: int| 0 <= j < i ==> ab@[j] == bb@[j],
        decreases n - i,
    {
        if ab[i] != bb[i] {
            proof {
                if a@ == b@ {
                    assert(encode_utf8(a@) == encode_utf8(b@));
                }
            }
            return false;
        }
        i = i + 1;
    }
    proof {
        assert(ab@ =~= bb@);
        lemma_encode_utf8_injective(a@, b@);
    }
    true
}

// Field-level encodings of the primitive record components.

/// One-byte field holding a boolean.
pub open spec fn spec_enc_bool(v: bool) -> Seq<u8> {
    if v {
        seq![1u8]
    } else {
        seq![0u8]
    }
}

/// The boolean read back from a one-byte field, or `None` if malformed.
pub open spec fn spec_dec_bool(f: Seq<u8>) -> Option<bool> {
    if f =~= seq![1u8] {
        Some(true)
    } else if f =~= seq![0u8] {
        Some(false)
    } else {
        None
    }
}

pub fn enc_bool(v: bool) -> (r: Vec<u8>)
    ensures
        r@ == spec_enc_bool(v),
{
    let mut r: Vec<u8> = Vec::new();
    if v {
        r.push(1u8);
    } else {
        r.push(0u8);
    }
    proof {
        assert(r@ =~= spec_enc_bool(v));
    }
    r
}

pub fn dec_bool(f: &Vec<u8>) -> (r: Option<bool>)
    ensures
        r == spec_dec_bool(f@),
{
    if f.len() == 1 {
        if f[0] == 1 {
            proof {
                assert(f@ =~= seq![1u8]);
            }
            Some(true)
        } else if f[0] == 0 {
            proof {
                assert(f@ =~= seq![0u8]);
                assert(!(f@ =~= seq![1u8]));
            }
            Some(false)
        } else {
            proof {
                assert(!(f@ =~= seq![1u8]) && !(f@ =~= seq![0u8]));
            }
            None
        }
    } else {
        proof {
            assert(!(f@ =~= seq![1u8]) && !(f@ =~= seq![0u8]));
        }
        None
    }
}

/// Eight-byte field holding a big-endian u64.
pub open spec fn spec_dec_u64(f: Seq<u8>) -> Option<u64> {
    if f.len() == 8 {
        Some(spec_u64_of_be(f))
    } else {
        None
    }
}

pub fn dec_u64(f: &Vec<u8>) -> (r: Option<u64>)
    ensures
        r == spec_dec_u64(f@),
{
    if f.len() == 8 {
        let v = u64_of_be(f, 0);
        proof {
            assert(f@.subrange(0, 8) =~= f@);
        }
        Some(v)
    } else {
        None
    }
}

pub proof fn lemma_u64_field_roundtrip(n: u64)
    ensures
        spec_dec_u64(spec_be8(n)) == Some(n),
{
    lemma_be8_roundtrip(n);
}

/// Field holding an optional string: a presence byte, then the UTF-8 bytes.
pub open spec fn spec_enc_opt_str(o: Option<Seq<char>>) -> Seq<u8> {
    match o {
        None => seq![0u8],
        Some(s) => seq![1u8] + encode_utf8(s),
    }
}

/// The optional string read back from a field, or `None` if malformed.
pub open spec fn spec_dec_opt_str(f: Seq<u8>) -> Option<Option<Seq<char>>> {
    if f.len() == 0 {
        None
    } else if f[0] == 0u8 {
        if f.len() == 1 {
            Some(None)
        } else {
            None
        }
    } else if f[0] == 1u8 {
        if valid_utf8(f.drop_first()) {
            Some(Some(decode_utf8(f.drop_first())))
        } else {
            None
        }
    } else {
        None
    }
}

pub fn enc_opt_str(o: &Option<String>) -> (r: Vec<u8>)
    ensures
        r@ == spec_enc_opt_str(match o {
            Some(s) => Some(s@),
            None => None,
        }),
{
    match o {
        None => {
            let mut r: Vec<u8> = Vec::new();
            r.push(0u8);
            proof {
                assert(r@ =~= spec_enc_opt_str(None));
            }
            r
        },
        Some(s) => {
            let mut r: Vec<u8> = Vec::new();
            r.push(1u8);
            let mut body = string_to_bytes(s.as_str());
            r.append(&mut body);
            proof {
                assert(r@ =~= spec_enc_opt_str(Some(s@)));
            }
            r
        },
    }
}

pub fn dec_opt_str(f: &Vec<u8>) -> (r: Option<Option<String>>)
    ensures
        match r {
            Some(None) => spec_dec_opt_str(f@) == Some(Option::<Seq<char>>::None),
            Some(Some(s)) => spec_dec_opt_str(f@) == Some(Some(s@)),
            None => spec_dec_opt_str(f@) is None,
        },
{
    if f.len() == 0 {
        return None;
    }
    if f[0] == 0 {
        if f.len() == 1 {
            Some(None)
        } else {
            None
        }
    } else if f[0] == 1 {
        let body = subvec(f, 1, f.len());
        proof {
            assert(body@ =~= f@.drop_first());
        }
        match string_from_utf8(body) {
            Some(s) => Some(Some(s)),
            None => None,
        }
    } else {
        None
    }
}

/// Round trip for optional string fields.
pub proof fn lemma_opt_str_roundtrip(o: Option<Seq<char>>)
    ensures
        spec_dec_opt_str(spec_enc_opt_str(o)) == Some(o),
{
    match o {
        None => {
            assert(spec_enc_opt_str(o).len() == 1);
        },
        Some(s) => {
            let f = spec_enc_opt_str(o);
            assert(f[0] == 1u8);
            assert(f.drop_first() =~= encode_utf8(s));
            encode_utf8_valid_utf8(s);
            encode_utf8_decode_utf8(s);
        },
    }
}

} // verus!
