//! Ordered string-to-string maps, held in an `indexmap::IndexMap`.
use vstd::prelude::*;
use indexmap::IndexMap;

verus! {

/// `indexmap::IndexMap`, an ordered hash map; its contents are known through
/// `flat_entries` and the wrappers below.
#[verifier::external_type_specification]
#[verifier::external_body]
#[verifier::reject_recursive_types(K)]
#[verifier::reject_recursive_types(V)]
#[verifier::reject_recursive_types(S)]
pub struct ExIndexMap<K, V, S>(IndexMap<K, V, S>);

/// The entries of an ordered string map, in order, as (key, value) texts.
pub uninterp spec fn flat_entries(m: IndexMap<String, String>) -> Seq<(Seq<char>, Seq<char>)>;

/// Index of the first entry with key `k`, or -1.
pub open spec fn pair_index(s: Seq<(Seq<char>, Seq<char>)>, k: Seq<char>) -> int
    decreases s.len(),
{
    if s.len() == 0 {
        -1
    } else {
        let r = pair_index(s.drop_last(), k);
        if r >= 0 {
            r
        } else if s.last().0 == k {
            s.len() - 1
        } else {
            -1
        }
    }
}

/// The value stored under `k`.
pub open spec fn pair_lookup(s: Seq<(Seq<char>, Seq<char>)>, k: Seq<char>) -> Option<Seq<char>> {
    if pair_index(s, k) >= 0 {
        Some(s[pair_index(s, k)].1)
    } else {
        None
    }
}

/// Setting `k` to `v` in an ordered map: an existing key keeps its place and
/// takes the new value; a new key goes last.
pub open spec fn ordered_insert(s: Seq<(Seq<char>, Seq<char>)>, k: Seq<char>, v: Seq<char>) -> Seq<(Seq<char>, Seq<char>)> {
    if pair_index(s, k) >= 0 {
        s.update(pair_index(s, k), (k, v))
    } else {
        s.push((k, v))
    }
}

/// Each pair of `pairs` set in turn.
pub open spec fn insert_all(s: Seq<(Seq<char>, Seq<char>)>, pairs: Seq<(Seq<char>, Seq<char>)>) -> Seq<(Seq<char>, Seq<char>)>
    decreases pairs.len(),
{
    if pairs.len() == 0 {
        s
    } else {
        let r = insert_all(s, pairs.drop_last());
        ordered_insert(r, pairs.last().0, pairs.last().1)
    }
}

/// `IndexMap::new`: an empty map.
#[verifier::external_body]
pub(crate) fn flat_new() -> (m: IndexMap<String, String>)
    ensures
        flat_entries(m) == Seq::<(Seq<char>, Seq<char>)>::empty(),
{
    IndexMap::new()
}

/// `IndexMap::insert`: an existing equal key keeps its place and gets the new
/// value; otherwise the pair is added last.
#[verifier::external_body]
pub(crate) fn flat_insert(m: &mut IndexMap<String, String>, k: String, v: String)
    ensures
        flat_entries(*final(m)) == ordered_insert(flat_entries(*old(m)), k@, v@),
{
    m.insert(k, v);
}

/// `IndexMap::get`: the value stored under an equal key.
#[verifier::external_body]
pub(crate) fn flat_get<'a>(m: &'a IndexMap<String, String>, k: &str) -> (r: Option<&'a String>)
    ensures
        match r {
            Some(v) => pair_lookup(flat_entries(*m), k@) == Some(v@),
            None => pair_lookup(flat_entries(*m), k@) is None,
        },
{
    m.get(k)
}

/// `IndexMap::len`: the number of entries.
#[verifier::external_body]
pub(crate) fn flat_len(m: &IndexMap<String, String>) -> (r: usize)
    ensures
        r == flat_entries(*m).len(),
{
    m.len()
}

/// `IndexMap::get_index`: the entry at a position in the order.
#[verifier::external_body]
pub(crate) fn flat_get_index<'a>(m: &'a IndexMap<String, String>, i: usize) -> (r: Option<(&'a String, &'a String)>)
    ensures
        r is Some == (i < flat_entries(*m).len()),
        r is Some ==> (r.unwrap().0@, r.unwrap().1@) == flat_entries(*m)[i as int],
{
    m.get_index(i)
}

/// Writing through `IndexMut<usize>`: replaces the value at a position.
#[verifier::external_body]
pub(crate) fn flat_set_value(m: &mut IndexMap<String, String>, i: usize, v: String)
    requires
        i < flat_entries(*old(m)).len(),
    ensures
        flat_entries(*final(m)) == flat_entries(*old(m)).update(
            i as int,
            (flat_entries(*old(m))[i as int].0, v@),
        ),
{
    m[i] = v;
}

/// `IndexMap::clone`: the same entries in the same order.
#[verifier::external_body]
pub(crate) fn flat_clone(m: &IndexMap<String, String>) -> (r: IndexMap<String, String>)
    ensures
        flat_entries(r) == flat_entries(*m),
{
    m.clone()
}

} // verus!
