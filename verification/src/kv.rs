use vstd::prelude::*;
use vstd::map::*;
use crate::error::Error;
use crate::keys::{
    lex_lt, key_cmp, KeyOrder, lemma_lex_lt_irrefl, lemma_lex_lt_transitive, lemma_lex_lt_connected,
};
use crate::codec::{clone_bytes, str_eq};

verus! {

// The generic embedded store: named namespaces of byte keys and byte values,
// each held as a vector of entries strictly sorted by key, so that iteration
// order is key order. Writes go to the current tables; `flush` copies them to
// the durable tables; reopening after an interruption recovers the durable
// tables, so an unflushed batch is lost wholly, never split.

/// Collects string slices into owned strings.
pub fn vec_to_vec_string(items: Vec<&str>) -> (r: Vec<String>)
    ensures
        r@.len() == items@.len(),
        forall|i: int| 0 <= i < items@.len() ==> #[trigger] r@[i]@ == items@[i]@,
{
    let mut r: Vec<String> = Vec::new();
    let mut i: usize = 0;
    while i < items.len()
        invariant
            0 <= i <= items@.len(),
            r@.len() == i,
            forall|j: int| 0 <= j < i ==> #[trigger] r@[j]@ == items@[j]@,
        decreases items@.len() - i,
    {
        r.push(items[i].to_owned());
        i = i + 1;
    }
    r
}

/// One key-value pair of a namespace.
pub struct Entry {
    pub key: Vec<u8>,
    pub value: Vec<u8>,
}

/// Entries strictly ascending by key.
pub open spec fn tbl_sorted(es: Seq<Entry>) -> bool {
    forall|i: int, j: int| 0 <= i < j < es.len() ==> lex_lt(#[trigger] es[i].key@, #[trigger] es[j].key@)
}

/// Some entry holds this key.
pub open spec fn tbl_contains(es: Seq<Entry>, k: Seq<u8>) -> bool {
    exists|i: int| 0 <= i < es.len() && #[trigger] es[i].key@ == k
}

/// The index of the entry holding this key.
pub open spec fn tbl_index_of(es: Seq<Entry>, k: Seq<u8>) -> int {
    choose|i: int| 0 <= i < es.len() && #[trigger] es[i].key@ == k
}

/// The contents of a table as a map from keys to values.
pub open spec fn tbl_map(es: Seq<Entry>) -> Map<Seq<u8>, Seq<u8>> {
    Map::new(|k: Seq<u8>| tbl_contains(es, k), |k: Seq<u8>| es[tbl_index_of(es, k)].value@)
}

pub proof fn lemma_tbl_unique(es: Seq<Entry>, i: int, j: int)
    requires
        tbl_sorted(es),
        0 <= i < es.len(),
        0 <= j < es.len(),
        es[i].key@ == es[j].key@,
    ensures
        i == j,
{
    if i < j || j < i {
        lemma_lex_lt_irrefl(es[i].key@);
    }
}

pub proof fn lemma_tbl_index_of(es: Seq<Entry>, k: Seq<u8>)
    requires
        tbl_contains(es, k),
    ensures
        0 <= tbl_index_of(es, k) < es.len(),
        es[tbl_index_of(es, k)].key@ == k,
{
}

/// The entry at each index is what the table map holds for its key.
pub proof fn lemma_tbl_map_at(es: Seq<Entry>, i: int)
    requires
        tbl_sorted(es),
        0 <= i < es.len(),
    ensures
        tbl_contains(es, es[i].key@),
        tbl_map(es)[es[i].key@] == es[i].value@,
{
    assert(tbl_contains(es, es[i].key@));
    lemma_tbl_index_of(es, es[i].key@);
    lemma_tbl_unique(es, i, tbl_index_of(es, es[i].key@));
}

/// Inserting an entry between its lexicographic neighbours keeps the table
/// sorted and inserts its key in the table map.
pub proof fn lemma_tbl_insert(es: Seq<Entry>, idx: int, e: Entry)
    requires
        tbl_sorted(es),
        0 <= idx <= es.len(),
        forall|j: int| 0 <= j < idx ==> lex_lt(#[trigger] es[j].key@, e.key@),
        forall|j: int| idx <= j < es.len() ==> lex_lt(e.key@, #[trigger] es[j].key@),
    ensures
        tbl_sorted(es.insert(idx, e)),
        tbl_map(es.insert(idx, e)) == tbl_map(es).insert(e.key@, e.value@),
{
    es.insert_ensures(idx, e);
    let n = es.insert(idx, e);
    assert forall|i: int, j: int|
        0 <= i < j < n.len() implies lex_lt(#[trigger] n[i].key@, #[trigger] n[j].key@) by {
        if i < idx && j < idx {
        } else if i < idx && j == idx {
        } else if i < idx && j > idx {
            assert(n[j] == es[j - 1]);
            if j - 1 == i {
            } else {
                lemma_lex_lt_transitive(es[i].key@, e.key@, es[j - 1].key@);
            }
        } else if i == idx {
            assert(n[j] == es[j - 1]);
        } else {
            assert(n[i] == es[i - 1]);
            assert(n[j] == es[j - 1]);
        }
    }
    assert forall|k2: Seq<u8>| true implies #[trigger] tbl_map(n).dom().contains(k2) == tbl_map(
        es,
    ).insert(e.key@, e.value@).dom().contains(k2) && (tbl_map(n).dom().contains(k2)
        ==> tbl_map(n)[k2] == tbl_map(es).insert(e.key@, e.value@)[k2]) by {
        if k2 == e.key@ {
            assert(n[idx] == e);
            lemma_tbl_map_at(n, idx);
        } else {
            if tbl_contains(n, k2) {
                lemma_tbl_index_of(n, k2);
                let i = tbl_index_of(n, k2);
                if i < idx {
                    assert(n[i] == es[i]);
                    lemma_tbl_map_at(es, i);
                    lemma_tbl_map_at(n, i);
                    assert(tbl_contains(es, k2));
                } else {
                    assert(i != idx);
                    assert(n[i] == es[i - 1]);
                    lemma_tbl_map_at(es, i - 1);
                    lemma_tbl_map_at(n, i);
                    assert(tbl_contains(es, k2));
                }
            }
            if tbl_contains(es, k2) {
                lemma_tbl_index_of(es, k2);
                let i = tbl_index_of(es, k2);
                if i < idx {
                    assert(n[i] == es[i]);
                    assert(tbl_contains(n, k2));
                } else {
                    assert(n[i + 1] == es[i]);
                    assert(tbl_contains(n, k2));
                }
            }
        }
    }
    assert(tbl_map(n) =~= tbl_map(es).insert(e.key@, e.value@));
}

/// Removing an entry keeps the table sorted and removes its key from the map.
pub proof fn lemma_tbl_remove(es: Seq<Entry>, idx: int)
    requires
        tbl_sorted(es),
        0 <= idx < es.len(),
    ensures
        tbl_sorted(es.remove(idx)),
        tbl_map(es.remove(idx)) == tbl_map(es).remove(es[idx].key@),
{
    es.remove_ensures(idx);
    let n = es.remove(idx);
    let k = es[idx].key@;
    assert forall|i: int, j: int|
        0 <= i < j < n.len() implies lex_lt(#[trigger] n[i].key@, #[trigger] n[j].key@) by {
        if i < idx && j < idx {
        } else if i < idx {
            assert(n[j] == es[j + 1]);
        } else {
            assert(n[i] == es[i + 1]);
            assert(n[j] == es[j + 1]);
        }
    }
    assert forall|k2: Seq<u8>| true implies #[trigger] tbl_map(n).dom().contains(k2) == tbl_map(
        es,
    ).remove(k).dom().contains(k2) && (tbl_map(n).dom().contains(k2) ==> tbl_map(n)[k2] == tbl_map(
        es,
    ).remove(k)[k2]) by {
        if tbl_contains(n, k2) {
            lemma_tbl_index_of(n, k2);
            let i = tbl_index_of(n, k2);
            if i < idx {
                assert(n[i] == es[i]);
                lemma_tbl_map_at(es, i);
                lemma_tbl_map_at(n, i);
                if k2 == k {
                    lemma_tbl_unique(es, i, idx);
                }
                assert(tbl_contains(es, k2));
            } else {
                assert(n[i] == es[i + 1]);
                lemma_tbl_map_at(es, i + 1);
                lemma_tbl_map_at(n, i);
                if k2 == k {
                    lemma_tbl_unique(es, i + 1, idx);
                }
                assert(tbl_contains(es, k2));
            }
        }
        if tbl_contains(es, k2) && k2 != k {
            lemma_tbl_index_of(es, k2);
            let i = tbl_index_of(es, k2);
            if i < idx {
                assert(n[i] == es[i]);
                assert(tbl_contains(n, k2));
            } else {
                assert(i != idx);
                assert(n[i - 1] == es[i]);
                assert(tbl_contains(n, k2));
            }
        }
        if k2 == k && tbl_contains(n, k2) {
            lemma_tbl_index_of(n, k2);
            let i = tbl_index_of(n, k2);
            if i < idx {
                assert(n[i] == es[i]);
                lemma_tbl_unique(es, i, idx);
                assert(false);
            } else {
                assert(n[i] == es[i + 1]);
                lemma_tbl_unique(es, i + 1, idx);
                assert(false);
            }
        }
    }
    assert(tbl_map(n) =~= tbl_map(es).remove(k));
}

/// Looks a key up in a sorted table.
fn tbl_get(es: &Vec<Entry>, key: &Vec<u8>) -> (r: Option<Vec<u8>>)
    requires
        tbl_sorted(es@),
    ensures
        match r {
            Some(v) => tbl_contains(es@, key@) && tbl_map(es@)[key@] == v@,
            None => !tbl_contains(es@, key@),
        },
{
    let mut i: usize = 0;
    while i < es.len()
        invariant
            0 <= i <= es@.len(),
            tbl_sorted(es@),
            forall|j: int| 0 <= j < i ==> #[trigger] es@[j].key@ != key@,
        decreases es@.len() - i,
    {
        match key_cmp(&es[i].key, key) {
            KeyOrder::Equal => {
                proof {
                    lemma_tbl_map_at(es@, i as int);
                }
                return Some(clone_bytes(&es[i].value));
            },
            _ => {
                proof {
                    if es@[i as int].key@ == key@ {
                        lemma_lex_lt_irrefl(key@);
                    }
                }
            },
        }
        i = i + 1;
    }
    None
}

/// Whether two byte strings hold the same bytes.
pub fn bytes_eq(a: &Vec<u8>, b: &Vec<u8>) -> (r: bool)
    ensures
        r == (a@ == b@),
{
    match key_cmp(a, b) {
        KeyOrder::Equal => true,
        _ => {
            proof {
                if a@ == b@ {
                    lemma_lex_lt_irrefl(a@);
                }
            }
            false
        },
    }
}

/// Decides whether a sorted table holds a key.
fn tbl_contains_key(es: &Vec<Entry>, key: &Vec<u8>) -> (r: bool)
    requires
        tbl_sorted(es@),
    ensures
        r == tbl_contains(es@, key@),
{
    match tbl_get(es, key) {
        Some(_) => true,
        None => false,
    }
}

/// Inserts or overwrites a key in a sorted table.
fn tbl_put(es: &mut Vec<Entry>, key: Vec<u8>, value: Vec<u8>)
    requires
        tbl_sorted(old(es)@),
    ensures
        tbl_sorted(final(es)@),
        tbl_map(final(es)@) == tbl_map(old(es)@).insert(key@, value@),
{
    let mut idx: usize = 0;
    let mut stop = false;
    while idx < es.len() && !stop
        invariant
            0 <= idx <= es@.len(),
            tbl_sorted(es@),
            es@ == old(es)@,
            forall|j: int| 0 <= j < idx ==> lex_lt(#[trigger] es@[j].key@, key@),
            stop ==> idx < es@.len() && !lex_lt(es@[idx as int].key@, key@),
        decreases es@.len() - idx + if stop {
            0int
        } else {
            1int
        },
    {
        match key_cmp(&es[idx].key, &key) {
            KeyOrder::Less => {
                idx = idx + 1;
            },
            KeyOrder::Equal => {
                proof {
                    lemma_lex_lt_irrefl(key@);
                }
                stop = true;
            },
            KeyOrder::Greater => {
                proof {
                    crate::keys::lemma_lex_lt_asymmetric(key@, es@[idx as int].key@);
                }
                stop = true;
            },
        }
    }
    // Here everything before idx is strictly below the key, and the entry at
    // idx, if any, is not below it.
    proof {
        assert(idx < es@.len() ==> !lex_lt(es@[idx as int].key@, key@));
    }
    let ghost es0 = es@;
    let mut equal_here = false;
    if idx < es.len() {
        match key_cmp(&es[idx].key, &key) {
            KeyOrder::Equal => {
                equal_here = true;
            },
            _ => {},
        }
    }
    if equal_here {
        es.remove(idx);
        proof {
            lemma_tbl_remove(es0, idx as int);
            assert forall|j: int| idx <= j < es@.len() implies lex_lt(key@, #[trigger] es@[j].key@) by {
                es0.remove_ensures(idx as int);
                assert(es@[j] == es0[j + 1]);
            }
            assert forall|j: int| 0 <= j < idx implies lex_lt(#[trigger] es@[j].key@, key@) by {
                es0.remove_ensures(idx as int);
                assert(es@[j] == es0[j]);
            }
        }
        let ghost es1 = es@;
        es.insert(idx, Entry { key, value });
        proof {
            lemma_tbl_insert(es1, idx as int, Entry { key, value });
            assert(tbl_map(es@) =~= tbl_map(es0).insert(key@, value@));
        }
    } else {
        // The key is fresh: idx is at the end or strictly above it.
        proof {
            assert forall|j: int| idx <= j < es@.len() implies lex_lt(key@, #[trigger] es@[j].key@) by {
                if !lex_lt(key@, es@[idx as int].key@) && !lex_lt(es@[idx as int].key@, key@) {
                    lemma_lex_lt_connected(key@, es@[idx as int].key@);
                    lemma_lex_lt_irrefl(key@);
                }
                assert(lex_lt(key@, es@[idx as int].key@));
                if j > idx {
                    lemma_lex_lt_transitive(key@, es@[idx as int].key@, es@[j].key@);
                }
            }
        }
        es.insert(idx, Entry { key, value });
        proof {
            lemma_tbl_insert(es0, idx as int, Entry { key, value });
        }
    }
}

/// Deletes a key from a sorted table, if present.
fn tbl_delete(es: &mut Vec<Entry>, key: &Vec<u8>)
    requires
        tbl_sorted(old(es)@),
    ensures
        tbl_sorted(final(es)@),
        tbl_map(final(es)@) == tbl_map(old(es)@).remove(key@),
{
    let mut i: usize = 0;
    while i < es.len()
        invariant
            0 <= i <= es@.len(),
            tbl_sorted(es@),
            es@ == old(es)@,
            forall|j: int| 0 <= j < i ==> #[trigger] es@[j].key@ != key@,
        decreases es@.len() - i,
    {
        match key_cmp(&es[i].key, key) {
            KeyOrder::Equal => {
                let ghost es0 = es@;
                es.remove(i);
                proof {
                    lemma_tbl_remove(es0, i as int);
                }
                return ;
            },
            _ => {
                proof {
                    if es@[i as int].key@ == key@ {
                        lemma_lex_lt_irrefl(key@);
                    }
                }
            },
        }
        i = i + 1;
    }
    proof {
        assert(!tbl_contains(es@, key@));
        assert(tbl_map(es@) =~= tbl_map(es@).remove(key@));
    }
}

/// One namespace of the store: a name and its sorted entries.
pub struct Namespace {
    pub name: String,
    pub entries: Vec<Entry>,
}

/// An exact copy of a table.
fn copy_entries(es: &Vec<Entry>) -> (r: Vec<Entry>)
    ensures
        r@.len() == es@.len(),
        forall|i: int|
            0 <= i < es@.len() ==> #[trigger] r@[i].key@ == es@[i].key@ && r@[i].value@
                == es@[i].value@,
{
    let mut r: Vec<Entry> = Vec::new();
    let mut i: usize = 0;
    while i < es.len()
        invariant
            0 <= i <= es@.len(),
            r@.len() == i,
            forall|j: int|
                0 <= j < i ==> #[trigger] r@[j].key@ == es@[j].key@ && r@[j].value@
                    == es@[j].value@,
        decreases es@.len() - i,
    {
        r.push(Entry { key: clone_bytes(&es[i].key), value: clone_bytes(&es[i].value) });
        i = i + 1;
    }
    r
}

/// An exact copy of a list of namespaces.
fn copy_namespaces(nss: &Vec<Namespace>) -> (r: Vec<Namespace>)
    ensures
        r@.len() == nss@.len(),
        forall|i: int|
            0 <= i < nss@.len() ==> #[trigger] r@[i].name@ == nss@[i].name@
                && ns_entries_view(r@[i]) == ns_entries_view(nss@[i]) && (tbl_sorted(
                nss@[i].entries@,
            ) ==> tbl_sorted(r@[i].entries@) && tbl_map(r@[i].entries@) == tbl_map(
                nss@[i].entries@,
            )),
{
    let mut r: Vec<Namespace> = Vec::new();
    let mut i: usize = 0;
    while i < nss.len()
        invariant
            0 <= i <= nss@.len(),
            r@.len() == i,
            forall|j: int|
                0 <= j < i ==> #[trigger] r@[j].name@ == nss@[j].name@ && ns_entries_view(r@[j])
                    == ns_entries_view(nss@[j]) && (tbl_sorted(nss@[j].entries@) ==> tbl_sorted(
                    r@[j].entries@,
                ) && tbl_map(r@[j].entries@) == tbl_map(nss@[j].entries@)),
        decreases nss@.len() - i,
    {
        let entries = copy_entries(&nss[i].entries);
        let ns = Namespace { name: crate::model::clone_string(&nss[i].name), entries };
        proof {
            assert(ns_entries_view(ns) =~= ns_entries_view(nss@[i as int]));
            if tbl_sorted(nss@[i as int].entries@) {
                lemma_tbl_map_same(nss@[i as int].entries@, ns.entries@);
            }
        }
        r.push(ns);
        i = i + 1;
    }
    r
}

/// Sorted tables with equal keys and values at every index have the same map.
pub proof fn lemma_tbl_map_same(a: Seq<Entry>, b: Seq<Entry>)
    requires
        tbl_sorted(a),
        a.len() == b.len(),
        forall|i: int|
            0 <= i < a.len() ==> #[trigger] a[i].key@ == b[i].key@ && a[i].value@ == b[i].value@,
    ensures
        tbl_sorted(b),
        tbl_map(a) == tbl_map(b),
{
    assert forall|i: int, j: int|
        0 <= i < j < b.len() implies lex_lt(#[trigger] b[i].key@, #[trigger] b[j].key@) by {
        assert(b[i].key@ == a[i].key@ && b[j].key@ == a[j].key@);
    }
    assert forall|k: Seq<u8>| true implies #[trigger] tbl_contains(a, k) == tbl_contains(b, k) by {
        if tbl_contains(a, k) {
            lemma_tbl_index_of(a, k);
            let i = tbl_index_of(a, k);
            assert(b[i].key@ == k);
        }
        if tbl_contains(b, k) {
            lemma_tbl_index_of(b, k);
            let i = tbl_index_of(b, k);
            assert(a[i].key@ == k);
        }
    }
    assert forall|k: Seq<u8>| tbl_contains(a, k) implies tbl_map(a)[k] == tbl_map(b)[k] by {
        lemma_tbl_index_of(a, k);
        lemma_tbl_index_of(b, k);
        let i = tbl_index_of(a, k);
        let j = tbl_index_of(b, k);
        assert(a[j].key@ == k);
        lemma_tbl_unique(a, i, j);
    }
    assert(tbl_map(a) =~= tbl_map(b));
}

/// The ordered (key, value) pairs of a namespace.
pub open spec fn ns_entries_view(ns: Namespace) -> Seq<(Seq<u8>, Seq<u8>)> {
    Seq::new(ns.entries@.len(), |i: int| (ns.entries@[i].key@, ns.entries@[i].value@))
}

/// Where iteration of a namespace starts: at the first key or at the last,
/// walking the other way.
#[derive(Debug, Clone, Copy, PartialEq, Eq, Structural)]
pub enum IteratorMode {
    Start,
    End,
}

/// The generic store: named namespaces of sorted byte entries, with a current
/// state that writes reach and a durable state that `flush` reaches.
pub struct Store {
    namespaces: Vec<Namespace>,
    durable: Vec<Namespace>,
}

impl Store {
    /// All tables sorted, and the durable side mirrors the namespace names.
    pub closed spec fn wf(self) -> bool {
        &&& forall|i: int|
            0 <= i < self.namespaces@.len() ==> tbl_sorted(#[trigger] self.namespaces@[i].entries@)
        &&& forall|i: int|
            0 <= i < self.durable@.len() ==> tbl_sorted(#[trigger] self.durable@[i].entries@)
        &&& self.durable@.len() == self.namespaces@.len()
        &&& forall|i: int|
            0 <= i < self.namespaces@.len() ==> #[trigger] self.durable@[i].name@
                == self.namespaces@[i].name@
    }

    /// How many namespaces the store holds.
    pub closed spec fn spec_num_namespaces(self) -> nat {
        self.namespaces@.len()
    }

    /// The name of a namespace.
    pub closed spec fn spec_name(self, ns: int) -> Seq<char> {
        self.namespaces@[ns].name@
    }

    /// The current contents of a namespace.
    pub closed spec fn view_ns(self, ns: int) -> Map<Seq<u8>, Seq<u8>> {
        tbl_map(self.namespaces@[ns].entries@)
    }

    /// The durable contents of a namespace: what survives an interruption.
    pub closed spec fn durable_ns(self, ns: int) -> Map<Seq<u8>, Seq<u8>> {
        tbl_map(self.durable@[ns].entries@)
    }

    /// The current entries of a namespace in ascending key order.
    pub closed spec fn entries_ns(self, ns: int) -> Seq<(Seq<u8>, Seq<u8>)> {
        ns_entries_view(self.namespaces@[ns])
    }

    /// The whole durable side, as one value: writes leave it untouched.
    pub closed spec fn durable_state(self) -> Seq<Namespace> {
        self.durable@
    }

    /// The namespace names, in order.
    pub closed spec fn names_state(self) -> Seq<Seq<char>> {
        Seq::new(self.namespaces@.len(), |i: int| self.namespaces@[i].name@)
    }

    /// The ordered entries carry exactly the namespace's map, with strictly
    /// ascending keys.
    pub proof fn lemma_entries(self, ns: int)
        requires
            self.wf(),
            0 <= ns < self.spec_num_namespaces(),
        ensures
            forall|i: int, j: int|
                0 <= i < j < self.entries_ns(ns).len() ==> lex_lt(
                    #[trigger] self.entries_ns(ns)[i].0,
                    #[trigger] self.entries_ns(ns)[j].0,
                ),
            forall|i: int|
                0 <= i < self.entries_ns(ns).len() ==> self.view_ns(ns).dom().contains(
                    #[trigger] self.entries_ns(ns)[i].0,
                ) && self.view_ns(ns)[self.entries_ns(ns)[i].0] == self.entries_ns(ns)[i].1,
            forall|k: Seq<u8>|
                self.view_ns(ns).dom().contains(k) ==> exists|i: int|
                    0 <= i < self.entries_ns(ns).len() && (#[trigger] self.entries_ns(ns)[i]).0
                        == k,
    {
        let es = self.namespaces@[ns].entries@;
        assert forall|i: int|
            0 <= i < self.entries_ns(ns).len() implies self.view_ns(ns).dom().contains(
            #[trigger] self.entries_ns(ns)[i].0,
        ) && self.view_ns(ns)[self.entries_ns(ns)[i].0] == self.entries_ns(ns)[i].1 by {
            lemma_tbl_map_at(es, i);
        }
        assert forall|k: Seq<u8>| self.view_ns(ns).dom().contains(k) implies exists|i: int|
            0 <= i < self.entries_ns(ns).len() && (#[trigger] self.entries_ns(ns)[i]).0 == k by {
            lemma_tbl_index_of(es, k);
            let i = tbl_index_of(es, k);
            assert(0 <= i < self.entries_ns(ns).len() && (self.entries_ns(ns)[i]).0 == k);
        }
    }

    /// Opens a fresh store with one empty namespace per given name.
    pub fn open(names: Vec<String>) -> (r: Result<Store, Error>)
        ensures
            r is Ok,
            r.unwrap().wf(),
            r.unwrap().spec_num_namespaces() == names@.len(),
            forall|i: int|
                0 <= i < names@.len() ==> #[trigger] r.unwrap().spec_name(i) == names@[i]@,
            forall|i: int|
                0 <= i < names@.len() ==> #[trigger] r.unwrap().view_ns(i) == Map::<
                    Seq<u8>,
                    Seq<u8>,
                >::empty(),
            forall|i: int|
                0 <= i < names@.len() ==> #[trigger] r.unwrap().durable_ns(i) == Map::<
                    Seq<u8>,
                    Seq<u8>,
                >::empty(),
    {
        let mut namespaces: Vec<Namespace> = Vec::new();
        let mut durable: Vec<Namespace> = Vec::new();
        let mut i: usize = 0;
        while i < names.len()
            invariant
                0 <= i <= names@.len(),
                namespaces@.len() == i,
                durable@.len() == i,
                forall|j: int| 0 <= j < i ==> #[trigger] namespaces@[j].name@ == names@[j]@,
                forall|j: int| 0 <= j < i ==> #[trigger] durable@[j].name@ == names@[j]@,
                forall|j: int| 0 <= j < i ==> #[trigger] namespaces@[j].entries@.len() == 0,
                forall|j: int| 0 <= j < i ==> #[trigger] durable@[j].entries@.len() == 0,
            decreases names@.len() - i,
        {
            namespaces.push(
                Namespace { name: crate::model::clone_string(&names[i]), entries: Vec::new() },
            );
            durable.push(
                Namespace { name: crate::model::clone_string(&names[i]), entries: Vec::new() },
            );
            i = i + 1;
        }
        let s = Store { namespaces, durable };
        proof {
            assert forall|j: int| 0 <= j < names@.len() implies #[trigger] s.view_ns(j) == Map::<
                Seq<u8>,
                Seq<u8>,
            >::empty() by {
                assert(s.view_ns(j) =~= Map::<Seq<u8>, Seq<u8>>::empty());
            }
            assert forall|j: int| 0 <= j < names@.len() implies #[trigger] s.durable_ns(j) == Map::<
                Seq<u8>,
                Seq<u8>,
            >::empty() by {
                assert(s.durable_ns(j) =~= Map::<Seq<u8>, Seq<u8>>::empty());
            }
        }
        Ok(s)
    }

    /// The handle (index) of the namespace with this name, if any.
    pub fn cf_handle(&self, name: &str) -> (r: Option<usize>)
        ensures
            match r {
                Some(i) => 0 <= i < self.spec_num_namespaces() && self.spec_name(i as int)
                    == name@,
                None => forall|i: int|
                    0 <= i < self.spec_num_namespaces() ==> #[trigger] self.spec_name(i) != name@,
            },
    {
        let mut i: usize = 0;
        while i < self.namespaces.len()
            invariant
                0 <= i <= self.namespaces@.len(),
                forall|j: int| 0 <= j < i ==> #[trigger] self.namespaces@[j].name@ != name@,
            decreases self.namespaces@.len() - i,
        {
            if str_eq(self.namespaces[i].name.as_str(), name) {
                return Some(i);
            }
            i = i + 1;
        }
        None
    }

    /// How many namespaces the store holds.
    pub fn num_namespaces(&self) -> (r: usize)
        ensures
            r == self.spec_num_namespaces(),
    {
        self.namespaces.len()
    }

    /// Whether the key is present; exact in this store, unlike a Bloom-style
    /// pre-check.
    pub fn key_may_exist(&self, ns: usize, key: &Vec<u8>) -> (r: bool)
        requires
            self.wf(),
            ns < self.spec_num_namespaces(),
        ensures
            r == self.view_ns(ns as int).dom().contains(key@),
    {
        tbl_contains_key(&self.namespaces[ns].entries, key)
    }

    /// Reads a key; `NotFound` is the one way it fails, and means exactly
    /// that the key is absent.
    pub fn get(&self, ns: usize, key: &Vec<u8>) -> (r: Result<Vec<u8>, Error>)
        requires
            self.wf(),
            ns < self.spec_num_namespaces(),
        ensures
            match r {
                Ok(v) => self.view_ns(ns as int).dom().contains(key@) && self.view_ns(ns as int)[key@]
                    == v@,
                Err(e) => e == Error::NotFound && !self.view_ns(ns as int).dom().contains(key@),
            },
    {
        match tbl_get(&self.namespaces[ns].entries, key) {
            Some(v) => Ok(v),
            None => Err(Error::NotFound),
        }
    }

    /// Writes one key into the current state of a namespace.
    pub fn put(&mut self, ns: usize, key: Vec<u8>, value: Vec<u8>) -> (r: Result<(), Error>)
        requires
            old(self).wf(),
            ns < old(self).spec_num_namespaces(),
        ensures
            r is Ok,
            final(self).wf(),
            final(self).spec_num_namespaces() == old(self).spec_num_namespaces(),
            final(self).view_ns(ns as int) == old(self).view_ns(ns as int).insert(key@, value@),
            forall|i: int|
                0 <= i < old(self).spec_num_namespaces() && i != ns ==> #[trigger] final(self).view_ns(i) == old(self).view_ns(i),
            final(self).durable_state() == old(self).durable_state(),
            final(self).names_state() == old(self).names_state(),
    {
        let mut entry_vec = self.namespaces.remove(ns);
        tbl_put(&mut entry_vec.entries, key, value);
        self.namespaces.insert(ns, entry_vec);
        proof {
            assert(self.namespaces@ =~= old(self).namespaces@.update(
                ns as int,
                self.namespaces@[ns as int],
            ));
            assert(self.names_state() =~= old(self).names_state());
        }
        Ok(())
    }

    /// Deletes one key from the current state of a namespace.
    pub fn delete(&mut self, ns: usize, key: &Vec<u8>) -> (r: Result<(), Error>)
        requires
            old(self).wf(),
            ns < old(self).spec_num_namespaces(),
        ensures
            r is Ok,
            final(self).wf(),
            final(self).spec_num_namespaces() == old(self).spec_num_namespaces(),
            final(self).view_ns(ns as int) == old(self).view_ns(ns as int).remove(key@),
            forall|i: int|
                0 <= i < old(self).spec_num_namespaces() && i != ns ==> #[trigger] final(self).view_ns(i) == old(self).view_ns(i),
            final(self).durable_state() == old(self).durable_state(),
            final(self).names_state() == old(self).names_state(),
    {
        let mut entry_vec = self.namespaces.remove(ns);
        tbl_delete(&mut entry_vec.entries, key);
        self.namespaces.insert(ns, entry_vec);
        proof {
            assert(self.namespaces@ =~= old(self).namespaces@.update(
                ns as int,
                self.namespaces@[ns as int],
            ));
            assert(self.names_state() =~= old(self).names_state());
        }
        Ok(())
    }

    /// The current entries of a namespace in key order: ascending from
    /// `Start`, descending from `End`.
    pub fn iterator_with_mode(&self, ns: usize, mode: IteratorMode) -> (r: Vec<(Vec<u8>, Vec<u8>)>)
        requires
            self.wf(),
            ns < self.spec_num_namespaces(),
        ensures
            r@.len() == self.entries_ns(ns as int).len(),
            mode == IteratorMode::Start ==> forall|i: int|
                0 <= i < r@.len() ==> (#[trigger] r@[i].0@, r@[i].1@) == self.entries_ns(
                    ns as int,
                )[i],
            mode == IteratorMode::End ==> forall|i: int|
                0 <= i < r@.len() ==> (#[trigger] r@[i].0@, r@[i].1@) == self.entries_ns(ns as int)[
                r@.len() - 1 - i],
    {
        let es = &self.namespaces[ns].entries;
        let mut r: Vec<(Vec<u8>, Vec<u8>)> = Vec::new();
        let n = es.len();
        let mut i: usize = 0;
        match mode {
            IteratorMode::Start => {
                while i < n
                    invariant
                        0 <= i <= n,
                        n == es@.len(),
                        es@ == self.namespaces@[ns as int].entries@,
                        ns < self.spec_num_namespaces(),
                        r@.len() == i,
                        forall|j: int|
                            0 <= j < i ==> (#[trigger] r@[j].0@, r@[j].1@) == self.entries_ns(
                                ns as int,
                            )[j],
                    decreases n - i,
                {
                    r.push((clone_bytes(&es[i].key), clone_bytes(&es[i].value)));
                    i = i + 1;
                }
            },
            IteratorMode::End => {
                while i < n
                    invariant
                        0 <= i <= n,
                        n == es@.len(),
                        es@ == self.namespaces@[ns as int].entries@,
                        ns < self.spec_num_namespaces(),
                        r@.len() == i,
                        forall|j: int|
                            0 <= j < i ==> (#[trigger] r@[j].0@, r@[j].1@) == self.entries_ns(
                                ns as int,
                            )[n - 1 - j],
                    decreases n - i,
                {
                    r.push((clone_bytes(&es[n - 1 - i].key), clone_bytes(&es[n - 1 - i].value)));
                    i = i + 1;
                }
            },
        }
        r
    }

    /// The current entries of a namespace, ascending by key.
    pub fn iterator(&self, ns: usize) -> (r: Vec<(Vec<u8>, Vec<u8>)>)
        requires
            self.wf(),
            ns < self.spec_num_namespaces(),
        ensures
            r@.len() == self.entries_ns(ns as int).len(),
            forall|i: int|
                0 <= i < r@.len() ==> (#[trigger] r@[i].0@, r@[i].1@) == self.entries_ns(
                    ns as int,
                )[i],
    {
        self.iterator_with_mode(ns, IteratorMode::Start)
    }

    /// Forces all current contents to durability. Safe to call at any time.
    pub fn flush(&mut self)
        requires
            old(self).wf(),
        ensures
            final(self).wf(),
            final(self).spec_num_namespaces() == old(self).spec_num_namespaces(),
            forall|i: int| #![trigger final(self).view_ns(i)]
                0 <= i < old(self).spec_num_namespaces() ==> final(self).view_ns(i) == old(
                    self,
                ).view_ns(i),
            forall|i: int| #![trigger final(self).entries_ns(i)]
                0 <= i < old(self).spec_num_namespaces() ==> final(self).entries_ns(i) == old(
                    self,
                ).entries_ns(i),
            forall|i: int| #![trigger final(self).spec_name(i)]
                0 <= i < old(self).spec_num_namespaces() ==> final(self).spec_name(i) == old(
                    self,
                ).spec_name(i),
            forall|i: int| #![trigger final(self).durable_ns(i)]
                0 <= i < old(self).spec_num_namespaces() ==> final(self).durable_ns(i) == old(
                    self,
                ).view_ns(i),
    {
        self.durable = copy_namespaces(&self.namespaces);
        proof {
            assert forall|i: int| 0 <= i < self.namespaces@.len() implies tbl_sorted(
                #[trigger] self.durable@[i].entries@,
            ) && self.durable@[i].name@ == self.namespaces@[i].name@ && tbl_map(
                self.durable@[i].entries@,
            ) == tbl_map(self.namespaces@[i].entries@) by {
                assert(self.durable@[i].name@ == self.namespaces@[i].name@);
            }
        }
    }

    /// Reopens the store as it would come back after an interruption: the
    /// durable contents, with every unflushed write gone wholly.
    pub fn reopen_after_crash(self) -> (r: Store)
        requires
            self.wf(),
        ensures
            r.wf(),
            r.spec_num_namespaces() == self.spec_num_namespaces(),
            forall|i: int| #![trigger r.view_ns(i)]
                0 <= i < self.spec_num_namespaces() ==> r.view_ns(i) == self.durable_ns(i),
            forall|i: int| #![trigger r.durable_ns(i)]
                0 <= i < self.spec_num_namespaces() ==> r.durable_ns(i) == self.durable_ns(i),
            forall|i: int| #![trigger r.spec_name(i)]
                0 <= i < self.spec_num_namespaces() ==> r.spec_name(i) == self.spec_name(i),
    {
        let namespaces = copy_namespaces(&self.durable);
        proof {
            assert forall|i: int| 0 <= i < self.durable@.len() implies tbl_sorted(
                #[trigger] namespaces@[i].entries@,
            ) && namespaces@[i].name@ == self.durable@[i].name@ && tbl_map(namespaces@[i].entries@)
                == tbl_map(self.durable@[i].entries@) by {
                assert(namespaces@[i].name@ == self.durable@[i].name@);
            }
        }
        Store { namespaces, durable: self.durable }
    }
}

/// Stores with the same durable side hold the same durable contents.
pub proof fn lemma_durable_ns_from_state(a: Store, b: Store)
    requires
        a.durable_state() == b.durable_state(),
    ensures
        forall|i: int| #[trigger] a.durable_ns(i) == b.durable_ns(i),
{
}

/// One operation of an atomic batch.
pub enum Op {
    Put { ns: usize, key: Vec<u8>, value: Vec<u8> },
    Delete { ns: usize, key: Vec<u8> },
}

/// An atomic multi-key, possibly multi-namespace, write: either all of its
/// operations become visible or none do.
pub struct WriteBatch {
    pub ops: Vec<Op>,
}

/// The namespace an operation addresses.
pub open spec fn op_ns(op: Op) -> int {
    match op {
        Op::Put { ns, .. } => ns as int,
        Op::Delete { ns, .. } => ns as int,
    }
}

/// What one operation does to the addressed namespace's contents.
pub open spec fn apply_op(m: Map<Seq<u8>, Seq<u8>>, op: Op) -> Map<Seq<u8>, Seq<u8>> {
    match op {
        Op::Put { ns, key, value } => m.insert(key@, value@),
        Op::Delete { ns, key } => m.remove(key@),
    }
}

/// What a prefix of a batch does to one namespace's contents.
pub open spec fn apply_ops(m: Map<Seq<u8>, Seq<u8>>, ops: Seq<Op>, ns: int, upto: int) -> Map<
    Seq<u8>,
    Seq<u8>,
>
    decreases upto,
{
    if upto <= 0 {
        m
    } else {
        let prev = apply_ops(m, ops, ns, upto - 1);
        if op_ns(ops[upto - 1]) == ns {
            apply_op(prev, ops[upto - 1])
        } else {
            prev
        }
    }
}

impl WriteBatch {
    /// An empty batch.
    pub fn new() -> (r: WriteBatch)
        ensures
            r.ops@.len() == 0,
    {
        WriteBatch { ops: Vec::new() }
    }

    /// Adds a put to the batch.
    pub fn put(&mut self, ns: usize, key: Vec<u8>, value: Vec<u8>)
        ensures
            final(self).ops@ == old(self).ops@.push(Op::Put { ns, key, value }),
    {
        self.ops.push(Op::Put { ns, key, value });
    }

    /// Adds a delete to the batch.
    pub fn delete(&mut self, ns: usize, key: Vec<u8>)
        ensures
            final(self).ops@ == old(self).ops@.push(Op::Delete { ns, key }),
    {
        self.ops.push(Op::Delete { ns, key });
    }

    /// Every operation addresses an existing namespace.
    pub open spec fn wf(self, num_namespaces: nat) -> bool {
        forall|i: int| 0 <= i < self.ops@.len() ==> 0 <= op_ns(#[trigger] self.ops@[i]) < num_namespaces
    }
}

impl Store {
    /// Applies a whole batch to the current state. The store moves from the
    /// old contents to the contents with every operation applied, with no
    /// state in between; durability still waits for `flush`.
    pub fn write(&mut self, batch: WriteBatch) -> (r: Result<(), Error>)
        requires
            old(self).wf(),
            batch.wf(old(self).spec_num_namespaces()),
        ensures
            r is Ok,
            final(self).wf(),
            final(self).spec_num_namespaces() == old(self).spec_num_namespaces(),
            forall|i: int|
                0 <= i < old(self).spec_num_namespaces() ==> #[trigger] final(self).view_ns(i)
                    == apply_ops(old(self).view_ns(i), batch.ops@, i, batch.ops@.len() as int),
            final(self).durable_state() == old(self).durable_state(),
            final(self).names_state() == old(self).names_state(),
    {
        let ghost ops = batch.ops@;
        let mut k: usize = 0;
        let ops_vec = batch.ops;
        let n = ops_vec.len();
        while k < n
            invariant
                0 <= k <= n,
                n == ops.len(),
                ops_vec@ == ops,
                self.wf(),
                self.spec_num_namespaces() == old(self).spec_num_namespaces(),
                batch_ops_wf(ops, self.spec_num_namespaces()),
                forall|i: int|
                    0 <= i < old(self).spec_num_namespaces() ==> #[trigger] self.view_ns(i)
                        == apply_ops(old(self).view_ns(i), ops, i, k as int),
                self.durable_state() == old(self).durable_state(),
                self.names_state() == old(self).names_state(),
            decreases n - k,
        {
            let op = &ops_vec[k];
            match op {
                Op::Put { ns, key, value } => {
                    let kk = clone_bytes(key);
                    let vv = clone_bytes(value);
                    let _ = self.put(*ns, kk, vv);
                },
                Op::Delete { ns, key } => {
                    let _ = self.delete(*ns, key);
                },
            }
            proof {
                assert forall|i: int|
                    0 <= i < old(self).spec_num_namespaces() implies #[trigger] self.view_ns(i)
                    == apply_ops(old(self).view_ns(i), ops, i, k as int + 1) by {
                    assert(apply_ops(old(self).view_ns(i), ops, i, k as int + 1) == if op_ns(
                        ops[k as int],
                    ) == i {
                        apply_op(apply_ops(old(self).view_ns(i), ops, i, k as int), ops[k as int])
                    } else {
                        apply_ops(old(self).view_ns(i), ops, i, k as int)
                    });
                }
            }
            k = k + 1;
        }
        Ok(())
    }
}

/// Every operation addresses an existing namespace.
pub open spec fn batch_ops_wf(ops: Seq<Op>, num_namespaces: nat) -> bool {
    forall|i: int| 0 <= i < ops.len() ==> 0 <= op_ns(#[trigger] ops[i]) < num_namespaces
}

} // verus!
