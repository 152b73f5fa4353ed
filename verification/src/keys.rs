use vstd::prelude::*;

verus! {

// Keys in the store are raw byte strings ordered lexicographically; the
// by-timestamp feed index additionally relies on big-endian u64 encoding being
// order-preserving, so that iteration order matches recency order.

/// Number of bytes of an event id kept as its fixed-width store key.
pub const HASH_PREFIX_LEN: usize = 8;

/// Fixed-width prefix of an event id, used as the event's store key.
pub type HashPrefix = Vec<u8>;

/// Strict lexicographic order on byte strings: a proper prefix precedes its
/// extensions, and otherwise the first differing byte decides.
pub open spec fn lex_lt(a: Seq<u8>, b: Seq<u8>) -> bool
    decreases a.len(),
{
    if b.len() == 0 {
        false
    } else if a.len() == 0 {
        true
    } else if a[0] < b[0] {
        true
    } else if a[0] > b[0] {
        false
    } else {
        lex_lt(a.drop_first(), b.drop_first())
    }
}

pub proof fn lemma_lex_lt_irrefl(a: Seq<u8>)
    ensures
        !lex_lt(a, a),
    decreases a.len(),
{
    if a.len() > 0 {
        lemma_lex_lt_irrefl(a.drop_first());
    }
}

pub proof fn lemma_lex_lt_asymmetric(a: Seq<u8>, b: Seq<u8>)
    requires
        lex_lt(a, b),
    ensures
        !lex_lt(b, a),
    decreases a.len(),
{
    if a.len() > 0 && b.len() > 0 && a[0] == b[0] {
        lemma_lex_lt_asymmetric(a.drop_first(), b.drop_first());
    }
}

pub proof fn lemma_lex_lt_transitive(a: Seq<u8>, b: Seq<u8>, c: Seq<u8>)
    requires
        lex_lt(a, b),
        lex_lt(b, c),
    ensures
        lex_lt(a, c),
    decreases a.len(),
{
    if a.len() > 0 && b.len() > 0 && c.len() > 0 && a[0] == b[0] && b[0] == c[0] {
        lemma_lex_lt_transitive(a.drop_first(), b.drop_first(), c.drop_first());
    }
}

/// Two byte strings that neither precede one another are equal.
pub proof fn lemma_lex_lt_connected(a: Seq<u8>, b: Seq<u8>)
    requires
        !lex_lt(a, b),
        !lex_lt(b, a),
    ensures
        a == b,
    decreases a.len(),
{
    if a.len() > 0 && b.len() > 0 && a[0] == b[0] {
        lemma_lex_lt_connected(a.drop_first(), b.drop_first());
        assert forall|i: int| 0 <= i < a.len() implies a[i] == b[i] by {
            if i > 0 {
                assert(a[i] == a.drop_first()[i - 1]);
                assert(b[i] == b.drop_first()[i - 1]);
            }
        }
        assert(a =~= b);
    } else {
        assert(a.len() == 0 && b.len() == 0);
        assert(a =~= b);
    }
}

/// Dropping an equal prefix of both strings does not change their order.
pub proof fn lemma_lex_lt_skip_common(a: Seq<u8>, b: Seq<u8>, i: int)
    requires
        0 <= i <= a.len(),
        i <= b.len(),
        forall|j: int| 0 <= j < i ==> a[j] == b[j],
    ensures
        lex_lt(a, b) == lex_lt(a.skip(i), b.skip(i)),
    decreases i,
{
    if i > 0 {
        lemma_lex_lt_skip_common(a.drop_first(), b.drop_first(), i - 1);
        assert(a.drop_first().skip(i - 1) =~= a.skip(i));
        assert(b.drop_first().skip(i - 1) =~= b.skip(i));
    } else {
        assert(a.skip(0) =~= a);
        assert(b.skip(0) =~= b);
    }
}

/// If the first differing byte is smaller, the whole string is smaller.
pub proof fn lemma_lex_lt_from_first_diff(a: Seq<u8>, b: Seq<u8>, i: int)
    requires
        0 <= i < a.len(),
        i < b.len(),
        forall|j: int| 0 <= j < i ==> a[j] == b[j],
        a[i] < b[i],
    ensures
        lex_lt(a, b),
{
    lemma_lex_lt_skip_common(a, b, i);
    assert(a.skip(i)[0] == a[i]);
    assert(b.skip(i)[0] == b[i]);
}

/// Order on concatenations is decided no later than the equal-length prefixes.
pub proof fn lemma_lex_lt_prefix(a: Seq<u8>, b: Seq<u8>, x: Seq<u8>, y: Seq<u8>)
    requires
        a.len() == b.len(),
        lex_lt(a + x, b + y),
    ensures
        lex_lt(a, b) || a == b,
    decreases a.len(),
{
    if a.len() == 0 {
        assert(a =~= b);
    } else {
        assert((a + x)[0] == a[0]);
        assert((b + y)[0] == b[0]);
        if a[0] == b[0] {
            assert((a + x).drop_first() =~= a.drop_first() + x);
            assert((b + y).drop_first() =~= b.drop_first() + y);
            lemma_lex_lt_prefix(a.drop_first(), b.drop_first(), x, y);
            if a.drop_first() == b.drop_first() {
                assert forall|i: int| 0 <= i < a.len() implies a[i] == b[i] by {
                    if i > 0 {
                        assert(a[i] == a.drop_first()[i - 1]);
                        assert(b[i] == b.drop_first()[i - 1]);
                    }
                }
                assert(a =~= b);
            }
        }
    }
}

/// Big-endian encoding is injective.
pub proof fn lemma_be8_injective(m: u64, n: u64)
    requires
        spec_be8(m) == spec_be8(n),
    ensures
        m == n,
{
    lemma_be8_roundtrip(m);
    lemma_be8_roundtrip(n);
}

/// Result of a three-way comparison of two byte keys.
#[derive(Debug, Clone, Copy, PartialEq, Eq, Structural)]
pub enum KeyOrder {
    Less,
    Equal,
    Greater,
}

/// Three-way lexicographic comparison of two byte keys.
pub fn key_cmp(a: &Vec<u8>, b: &Vec<u8>) -> (r: KeyOrder)
    ensures
        r == KeyOrder::Less ==> lex_lt(a@, b@),
        r == KeyOrder::Equal ==> a@ == b@,
        r == KeyOrder::Greater ==> lex_lt(b@, a@),
{
    let n = if a.len() < b.len() {
        a.len()
    } else {
        b.len()
    };
    let mut i: usize = 0;
    while i < n
        invariant
            0 <= i <= n,
            n <= a.len(),
            n <= b.len(),
            n == a.len() || n == b.len(),
            forall|j: int| 0 <= j < i ==> a@[j] == b@[j],
        decreases n - i,
    {
        if a[i] < b[i] {
            proof {
                lemma_lex_lt_from_first_diff(a@, b@, i as int);
            }
            return KeyOrder::Less;
        }
        if a[i] > b[i] {
            proof {
                lemma_lex_lt_from_first_diff(b@, a@, i as int);
            }
            return KeyOrder::Greater;
        }
        i = i + 1;
    }
    if a.len() < b.len() {
        proof {
            lemma_lex_lt_skip_common(a@, b@, n as int);
            assert(a@.skip(n as int).len() == 0);
            assert(b@.skip(n as int).len() > 0);
        }
        KeyOrder::Less
    } else if a.len() > b.len() {
        proof {
            lemma_lex_lt_skip_common(b@, a@, n as int);
            assert(b@.skip(n as int).len() == 0);
            assert(a@.skip(n as int).len() > 0);
        }
        KeyOrder::Greater
    } else {
        proof {
            assert(a@ =~= b@);
        }
        KeyOrder::Equal
    }
}

/// Big-endian encoding of a u64, most significant byte first.
pub open spec fn spec_be8(n: u64) -> Seq<u8> {
    seq![
        ((n >> 56) & 0xff) as u8,
        ((n >> 48) & 0xff) as u8,
        ((n >> 40) & 0xff) as u8,
        ((n >> 32) & 0xff) as u8,
        ((n >> 24) & 0xff) as u8,
        ((n >> 16) & 0xff) as u8,
        ((n >> 8) & 0xff) as u8,
        (n & 0xff) as u8,
    ]
}

/// The u64 read back from eight big-endian bytes.
pub open spec fn spec_u64_of_be(s: Seq<u8>) -> u64
    recommends
        s.len() == 8,
{
    (((s[0] as u64) << 56) | ((s[1] as u64) << 48) | ((s[2] as u64) << 40) | ((s[3] as u64) << 32)
        | ((s[4] as u64) << 24) | ((s[5] as u64) << 16) | ((s[6] as u64) << 8) | (s[7] as u64)) as u64
}

pub proof fn lemma_be8_roundtrip(n: u64)
    ensures
        spec_u64_of_be(spec_be8(n)) == n,
        spec_be8(n).len() == 8,
{
    assert((((((n >> 56) & 0xff) as u8) as u64) << 56) | (((((n >> 48) & 0xff) as u8) as u64)
        << 48) | (((((n >> 40) & 0xff) as u8) as u64) << 40) | (((((n >> 32) & 0xff) as u8) as u64)
        << 32) | (((((n >> 24) & 0xff) as u8) as u64) << 24) | (((((n >> 16) & 0xff) as u8) as u64)
        << 16) | (((((n >> 8) & 0xff) as u8) as u64) << 8) | ((((n & 0xff) as u8) as u64)) == n)
        by (bit_vector);
}

/// Big-endian encoding preserves order: a smaller u64 encodes to a
/// lexicographically smaller key.
pub proof fn lemma_be8_order(m: u64, n: u64)
    requires
        m < n,
    ensures
        lex_lt(spec_be8(m), spec_be8(n)),
{
    let a = spec_be8(m);
    let b = spec_be8(n);
    assert((m >> 56) & 0xff <= 0xff && (n >> 56) & 0xff <= 0xff && (m >> 48) & 0xff <= 0xff && (n
        >> 48) & 0xff <= 0xff && (m >> 40) & 0xff <= 0xff && (n >> 40) & 0xff <= 0xff && (m >> 32)
        & 0xff <= 0xff && (n >> 32) & 0xff <= 0xff && (m >> 24) & 0xff <= 0xff && (n >> 24) & 0xff
        <= 0xff && (m >> 16) & 0xff <= 0xff && (n >> 16) & 0xff <= 0xff && (m >> 8) & 0xff <= 0xff
        && (n >> 8) & 0xff <= 0xff && m & 0xff <= 0xff && n & 0xff <= 0xff) by (bit_vector);
    if a[0] != b[0] {
        assert(m < n ==> (m >> 56) & 0xff <= (n >> 56) & 0xff) by (bit_vector);
        lemma_lex_lt_from_first_diff(a, b, 0);
    } else if a[1] != b[1] {
        assert(m < n && (m >> 56) & 0xff == (n >> 56) & 0xff ==> (m >> 48) & 0xff <= (n >> 48)
            & 0xff) by (bit_vector);
        lemma_lex_lt_from_first_diff(a, b, 1);
    } else if a[2] != b[2] {
        assert(m < n && (m >> 56) & 0xff == (n >> 56) & 0xff && (m >> 48) & 0xff == (n >> 48) & 0xff
            ==> (m >> 40) & 0xff <= (n >> 40) & 0xff) by (bit_vector);
        lemma_lex_lt_from_first_diff(a, b, 2);
    } else if a[3] != b[3] {
        assert(m < n && (m >> 56) & 0xff == (n >> 56) & 0xff && (m >> 48) & 0xff == (n >> 48) & 0xff
            && (m >> 40) & 0xff == (n >> 40) & 0xff ==> (m >> 32) & 0xff <= (n >> 32) & 0xff)
            by (bit_vector);
        lemma_lex_lt_from_first_diff(a, b, 3);
    } else if a[4] != b[4] {
        assert(m < n && (m >> 56) & 0xff == (n >> 56) & 0xff && (m >> 48) & 0xff == (n >> 48) & 0xff
            && (m >> 40) & 0xff == (n >> 40) & 0xff && (m >> 32) & 0xff == (n >> 32) & 0xff ==> (m
            >> 24) & 0xff <= (n >> 24) & 0xff) by (bit_vector);
        lemma_lex_lt_from_first_diff(a, b, 4);
    } else if a[5] != b[5] {
        assert(m < n && (m >> 56) & 0xff == (n >> 56) & 0xff && (m >> 48) & 0xff == (n >> 48) & 0xff
            && (m >> 40) & 0xff == (n >> 40) & 0xff && (m >> 32) & 0xff == (n >> 32) & 0xff && (m
            >> 24) & 0xff == (n >> 24) & 0xff ==> (m >> 16) & 0xff <= (n >> 16) & 0xff)
            by (bit_vector);
        lemma_lex_lt_from_first_diff(a, b, 5);
    } else if a[6] != b[6] {
        assert(m < n && (m >> 56) & 0xff == (n >> 56) & 0xff && (m >> 48) & 0xff == (n >> 48) & 0xff
            && (m >> 40) & 0xff == (n >> 40) & 0xff && (m >> 32) & 0xff == (n >> 32) & 0xff && (m
            >> 24) & 0xff == (n >> 24) & 0xff && (m >> 16) & 0xff == (n >> 16) & 0xff ==> (m >> 8)
            & 0xff <= (n >> 8) & 0xff) by (bit_vector);
        lemma_lex_lt_from_first_diff(a, b, 6);
    } else {
        assert(m < n && (m >> 56) & 0xff == (n >> 56) & 0xff && (m >> 48) & 0xff == (n >> 48) & 0xff
            && (m >> 40) & 0xff == (n >> 40) & 0xff && (m >> 32) & 0xff == (n >> 32) & 0xff && (m
            >> 24) & 0xff == (n >> 24) & 0xff && (m >> 16) & 0xff == (n >> 16) & 0xff && (m >> 8)
            & 0xff == (n >> 8) & 0xff ==> m & 0xff < n & 0xff) by (bit_vector);
        lemma_lex_lt_from_first_diff(a, b, 7);
    }
}

/// Big-endian encoding of a u64 as an eight-byte key.
pub fn be8(n: u64) -> (r: Vec<u8>)
    ensures
        r@ == spec_be8(n),
        r@.len() == 8,
{
    proof {
        assert((n >> 56) & 0xff <= 0xff && (n >> 48) & 0xff <= 0xff && (n >> 40) & 0xff <= 0xff
            && (n >> 32) & 0xff <= 0xff && (n >> 24) & 0xff <= 0xff && (n >> 16) & 0xff <= 0xff
            && (n >> 8) & 0xff <= 0xff && n & 0xff <= 0xff) by (bit_vector);
    }
    let mut r: Vec<u8> = Vec::new();
    r.push(((n >> 56) & 0xff) as u8);
    r.push(((n >> 48) & 0xff) as u8);
    r.push(((n >> 40) & 0xff) as u8);
    r.push(((n >> 32) & 0xff) as u8);
    r.push(((n >> 24) & 0xff) as u8);
    r.push(((n >> 16) & 0xff) as u8);
    r.push(((n >> 8) & 0xff) as u8);
    r.push((n & 0xff) as u8);
    proof {
        assert(r@ =~= spec_be8(n));
    }
    r
}

/// Reads the eight bytes starting at `pos` back as a big-endian u64.
pub fn u64_of_be(v: &Vec<u8>, pos: usize) -> (r: u64)
    requires
        pos + 8 <= v@.len(),
    ensures
        r == spec_u64_of_be(v@.subrange(pos as int, pos as int + 8)),
{
    let len = v.len();
    let r = ((v[pos] as u64) << 56) | ((v[pos + 1] as u64) << 48) | ((v[pos + 2] as u64) << 40) | (
    (v[pos + 3] as u64) << 32) | ((v[pos + 4] as u64) << 24) | ((v[pos + 5] as u64) << 16) | ((v[pos
        + 6] as u64) << 8) | (v[pos + 7] as u64);
    proof {
        let s = v@.subrange(pos as int, pos as int + 8);
        assert(s[0] == v@[pos as int] && s[1] == v@[pos as int + 1] && s[2] == v@[pos as int + 2]
            && s[3] == v@[pos as int + 3] && s[4] == v@[pos as int + 4] && s[5] == v@[pos as int
            + 5] && s[6] == v@[pos as int + 6] && s[7] == v@[pos as int + 7]);
    }
    r
}

/// The fixed-width key under which an event is stored: the first
/// `HASH_PREFIX_LEN` bytes of its 32-byte id.
pub fn hash_prefix(event_id: &Vec<u8>) -> (r: HashPrefix)
    requires
        event_id@.len() >= HASH_PREFIX_LEN,
    ensures
        r@ == event_id@.subrange(0, HASH_PREFIX_LEN as int),
{
    let mut r: Vec<u8> = Vec::new();
    let mut i: usize = 0;
    while i < HASH_PREFIX_LEN
        invariant
            0 <= i <= HASH_PREFIX_LEN,
            event_id@.len() >= HASH_PREFIX_LEN,
            r@ == event_id@.subrange(0, i as int),
        decreases HASH_PREFIX_LEN - i,
    {
        r.push(event_id[i]);
        proof {
            assert(r@ =~= event_id@.subrange(0, i as int + 1));
        }
        i = i + 1;
    }
    r
}

} // verus!
