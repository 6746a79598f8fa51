//! The ordered maps of the `indexmap` crate that the gui keeps: the path of every widget, the
//! aliases of widgets, and the option buttons of selects.
//!
//! Verus does not read the crate's code, so what each function below does to a map is stated in
//! its contract, over a name for what the map holds.
use vstd::prelude::*;
use indexmap::IndexMap;

verus! {

#[verifier::external_type_specification]
#[verifier::external_body]
#[verifier::reject_recursive_types(K)]
#[verifier::reject_recursive_types(V)]
#[verifier::reject_recursive_types(S)]
pub struct ExIndexMap<K, V, S>(IndexMap<K, V, S>);

// ---------------------------------------------------------------------------------------------
// Paths: widget id -> ids of its ancestors below the root
// ---------------------------------------------------------------------------------------------

/// What a map from ids to paths holds: each key with the sequence of ids it maps to.
pub uninterp spec fn path_entries(m: IndexMap<usize, Vec<usize>>) -> Map<usize, Seq<usize>>;

/// The map from ids to paths that holds nothing.
pub open spec fn no_paths() -> Map<usize, Seq<usize>> {
    Map::empty()
}

/// `IndexMap::new`: the new map holds nothing.
#[verifier::external_body]
pub(crate) fn paths_new() -> (r: IndexMap<usize, Vec<usize>>)
    ensures
        path_entries(r) == no_paths(),
{
    IndexMap::new()
}

/// `IndexMap::insert`: afterwards `k` maps to `v`; the other keys keep their values.
#[verifier::external_body]
pub(crate) fn paths_insert(m: &mut IndexMap<usize, Vec<usize>>, k: usize, v: Vec<usize>)
    ensures
        path_entries(*final(m)) == path_entries(*old(m)).insert(k, v@),
{
    m.insert(k, v);
}

/// `IndexMap::get`: the value of `k`, if `k` is a key.
#[verifier::external_body]
pub(crate) fn paths_get(m: &IndexMap<usize, Vec<usize>>, k: usize) -> (r: Option<&Vec<usize>>)
    ensures
        r is Some <==> path_entries(*m).contains_key(k),
        r is Some ==> r.unwrap()@ == path_entries(*m)[k],
{
    m.get(&k)
}

/// `IndexMap::remove`: afterwards `k` is no key; the other keys keep their values.
#[verifier::external_body]
pub(crate) fn paths_remove(m: &mut IndexMap<usize, Vec<usize>>, k: usize)
    ensures
        path_entries(*final(m)) == path_entries(*old(m)).remove(k),
{
    m.remove(&k);
}

// ---------------------------------------------------------------------------------------------
// Aliases: name -> widget id
// ---------------------------------------------------------------------------------------------

/// What a map from names to ids holds: each name (by its characters) with its id.
pub uninterp spec fn alias_entries(m: IndexMap<String, usize>) -> Map<Seq<char>, usize>;

/// The map from names to ids that holds nothing.
pub open spec fn no_aliases() -> Map<Seq<char>, usize> {
    Map::empty()
}

/// `IndexMap::new`: the new map holds nothing.
#[verifier::external_body]
pub(crate) fn aliases_new() -> (r: IndexMap<String, usize>)
    ensures
        alias_entries(r) == no_aliases(),
{
    IndexMap::new()
}

/// `IndexMap::insert`: afterwards `k` maps to `v`; the other names keep their ids.
#[verifier::external_body]
pub(crate) fn aliases_insert(m: &mut IndexMap<String, usize>, k: String, v: usize)
    ensures
        alias_entries(*final(m)) == alias_entries(*old(m)).insert(k@, v),
{
    m.insert(k, v);
}

/// `IndexMap::get` (with `.copied()`): the id of the name `k`, if `k` is a name in the map.
#[verifier::external_body]
pub(crate) fn aliases_get(m: &IndexMap<String, usize>, k: &str) -> (r: Option<usize>)
    ensures
        r is Some <==> alias_entries(*m).contains_key(k@),
        r is Some ==> r.unwrap() == alias_entries(*m)[k@],
{
    m.get(k).copied()
}

// ---------------------------------------------------------------------------------------------
// Option maps: widget id -> option index, in insertion order
// ---------------------------------------------------------------------------------------------

/// What a map from ids to indices holds: its entries in the map's order.
pub uninterp spec fn option_entries(m: IndexMap<usize, usize>) -> Seq<(usize, usize)>;

/// The position of the first entry of `s` with key `k`, if there is one.
pub open spec fn entry_index(s: Seq<(usize, usize)>, k: usize) -> Option<int>
    decreases s.len(),
{
    if s.len() == 0 {
        None
    } else {
        match entry_index(s.drop_last(), k) {
            Some(i) => Some(i),
            None => if s.last().0 == k {
                Some(s.len() - 1)
            } else {
                None
            },
        }
    }
}

/// `entry_index` finds the first entry with key `k`, and none where no entry has that key.
pub proof fn lemma_entry_index(s: Seq<(usize, usize)>, k: usize)
    ensures
        match entry_index(s, k) {
            Some(i) => 0 <= i < s.len() && s[i].0 == k && forall|j: int| 0 <= j < i ==> s[j].0 != k,
            None => forall|j: int| 0 <= j < s.len() ==> s[j].0 != k,
        },
    decreases s.len(),
{
    if s.len() > 0 {
        lemma_entry_index(s.drop_last(), k);
        match entry_index(s.drop_last(), k) {
            Some(i) => {
                assert(s.drop_last()[i] == s[i]);
                assert forall|j: int| 0 <= j < i implies s[j].0 != k by {
                    assert(s.drop_last()[j] == s[j]);
                }
            },
            None => {
                assert forall|j: int| 0 <= j < s.len() - 1 implies s[j].0 != k by {
                    assert(s.drop_last()[j] == s[j]);
                }
            },
        }
    }
}

/// Two sequences whose entries have the same keys, position by position, have their first
/// entry with key `k` at the same place.
pub proof fn lemma_entry_index_same_keys(s: Seq<(usize, usize)>, t: Seq<(usize, usize)>, k: usize)
    requires
        forall|j: int| 0 <= j < s.len() ==> ((#[trigger] s[j]).0 == k <==> t[j].0 == k),
        forall|j: int| s.len() <= j < t.len() ==> (#[trigger] t[j]).0 != k,
        s.len() <= t.len(),
    ensures
        entry_index(t, k) == entry_index(s, k),
{
    lemma_entry_index(s, k);
    lemma_entry_index(t, k);
    match entry_index(s, k) {
        Some(i) => {
            assert(t[i].0 == k);
            match entry_index(t, k) {
                Some(i2) => {
                    if i2 < i {
                        assert(s[i2].0 == k);
                    }
                    if i < i2 {
                        assert(t[i].0 == k);
                    }
                },
                None => {},
            }
        },
        None => {
            match entry_index(t, k) {
                Some(i2) => {
                    if i2 < s.len() {
                        assert(s[i2].0 == k);
                    }
                },
                None => {},
            }
        },
    }
}

/// The option entries of an empty map.
pub open spec fn no_options() -> Seq<(usize, usize)> {
    Seq::empty()
}

/// `IndexMap::new`: the new map holds nothing.
#[verifier::external_body]
pub(crate) fn options_new() -> (r: IndexMap<usize, usize>)
    ensures
        option_entries(r) == no_options(),
{
    IndexMap::new()
}

/// The entries of a map with entries `s` after inserting `v` under `k`: an existing key keeps
/// its place and takes the new value; a new key is put last.
pub open spec fn options_inserted(s: Seq<(usize, usize)>, k: usize, v: usize) -> Seq<(usize, usize)> {
    match entry_index(s, k) {
        Some(i) => s.update(i, (k, v)),
        None => s.push((k, v)),
    }
}

/// The value of the entry with key `k` among `s`, if there is one.
pub open spec fn opt_lookup(s: Seq<(usize, usize)>, k: usize) -> Option<usize> {
    match entry_index(s, k) {
        Some(i) => Some(s[i].1),
        None => None,
    }
}

/// `IndexMap::insert`: an existing key keeps its place and takes the new value; a new key is
/// put last.
#[verifier::external_body]
pub(crate) fn options_insert(m: &mut IndexMap<usize, usize>, k: usize, v: usize)
    ensures
        option_entries(*final(m)) == options_inserted(option_entries(*old(m)), k, v),
{
    m.insert(k, v);
}

/// `IndexMap::get` (with `.copied()`): the value of the entry with key `k`, if there is one.
#[verifier::external_body]
pub(crate) fn options_get(m: &IndexMap<usize, usize>, k: usize) -> (r: Option<usize>)
    ensures
        r == opt_lookup(option_entries(*m), k),
{
    m.get(&k).copied()
}

/// Inserting under one key leaves what another key finds as it was.
pub proof fn lemma_lookup_insert_other(s: Seq<(usize, usize)>, k: usize, v: usize, j: usize)
    requires
        j != k,
    ensures
        opt_lookup(options_inserted(s, k, v), j) == opt_lookup(s, j),
{
    let t = options_inserted(s, k, v);
    lemma_entry_index(s, k);
    assert forall|a: int| 0 <= a < s.len() implies ((#[trigger] s[a]).0 == j <==> t[a].0 == j) && (s[a].0 == j ==> t[a] == s[a]) by {
        match entry_index(s, k) {
            Some(i) => {
                if a == i {
                    assert(s[a].0 == k);
                }
            },
            None => {},
        }
    }
    assert forall|a: int| s.len() <= a < t.len() implies (#[trigger] t[a]).0 != j by {}
    lemma_entry_index_same_keys(s, t, j);
    lemma_entry_index(s, j);
}

/// After inserting `v` under `k`, `k` finds `v`.
pub proof fn lemma_lookup_insert_same(s: Seq<(usize, usize)>, k: usize, v: usize)
    ensures
        opt_lookup(options_inserted(s, k, v), k) == Some(v),
{
    let t = options_inserted(s, k, v);
    lemma_entry_index(s, k);
    lemma_entry_index(t, k);
    match entry_index(s, k) {
        Some(i) => {
            assert(t[i] == (k, v));
            assert forall|j: int| 0 <= j < i implies t[j].0 != k by {
                assert(t[j] == s[j]);
            }
            match entry_index(t, k) {
                Some(i2) => {
                    if i2 < i {
                        assert(t[i2] == s[i2]);
                    }
                    if i < i2 {
                        assert(t[i].0 == k);
                    }
                },
                None => {
                    assert(t[i].0 == k);
                },
            }
        },
        None => {
            assert(t[s.len() as int] == (k, v));
            match entry_index(t, k) {
                Some(i2) => {
                    if i2 < s.len() {
                        assert(t[i2] == s[i2]);
                    }
                },
                None => {
                    assert(t[s.len() as int].0 == k);
                },
            }
        },
    }
}

/// `IndexMap::len`: the number of entries.
#[verifier::external_body]
pub(crate) fn options_len(m: &IndexMap<usize, usize>) -> (r: usize)
    ensures
        r == option_entries(*m).len(),
{
    m.len()
}

/// `IndexMap::get_index` (with the pair copied out): the entry at position `i`.
#[verifier::external_body]
pub(crate) fn options_get_index(m: &IndexMap<usize, usize>, i: usize) -> (r: (usize, usize))
    requires
        i < option_entries(*m).len(),
    ensures
        r == option_entries(*m)[i as int],
{
    let (k, v) = m.get_index(i).unwrap();
    (*k, *v)
}

} // verus!
