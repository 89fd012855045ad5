//! The hash tables that a search fills, which hash by Fowler-Noll-Vo.
//!
//! [`fnv::FnvHashMap`] and [`fnv::FnvHashSet`] are the tables of the standard
//! library with the hasher of the `fnv` crate. What their methods do to the
//! contents is stated here and not proved.
use crate::iterate::advance;
use fnv::{FnvHashMap, FnvHashSet};
use std::collections::hash_map::{Entry, Keys};
use std::hash::Hash;
use vstd::prelude::*;
use vstd::std_specs::hash::EntrySpecFns;
use vstd::std_specs::iter::IteratorSpec;

verus! {

/// The hasher of the `fnv` crate.
#[verifier::external_type_specification]
#[verifier::external_body]
pub struct ExFnvHasher(fnv::FnvHasher);

/// What makes the hashers of a table.
#[verifier::external_type_specification]
#[verifier::external_body]
#[verifier::reject_recursive_types(H)]
pub struct ExBuildHasherDefault<H>(std::hash::BuildHasherDefault<H>);

/// What a table with string keys holds, by the text of each key.
pub open spec fn by_text<V>(m: Map<String, V>) -> Map<Seq<char>, V> {
    Map::new(
        |t: Seq<char>| exists|k: String| m.contains_key(k) && #[trigger] k@ == t,
        |t: Seq<char>| m[choose|k: String| m.contains_key(k) && #[trigger] k@ == t],
    )
}

/// The texts of the strings of a set.
pub open spec fn texts(s: Set<String>) -> Set<Seq<char>> {
    Set::new(|t: Seq<char>| exists|k: String| s.contains(k) && #[trigger] k@ == t)
}

/// The texts of the strings of a list.
pub open spec fn list_texts(s: Seq<String>) -> Seq<Seq<char>> {
    Seq::new(s.len(), |i: int| s[i]@)
}

/// The texts of the strings of a table.
pub open spec fn value_texts<K>(m: Map<K, String>) -> Map<K, Seq<char>> {
    m.map_values(|s: String| s@)
}

/// An empty table holds no text.
pub proof fn lemma_empty_by_text<V>()
    ensures
        by_text(Map::<String, V>::empty()) == Map::<Seq<char>, V>::empty(),
{
    assert(by_text(Map::<String, V>::empty()) =~= Map::<Seq<char>, V>::empty());
}

/// An empty set holds no text.
pub proof fn lemma_empty_texts()
    ensures
        texts(Set::<String>::empty()) == Set::<Seq<char>>::empty(),
{
    assert(texts(Set::<String>::empty()) =~= Set::<Seq<char>>::empty());
}

/// Integers by which tables are keyed. They are equal, and hash alike, exactly
/// if they are the same number.
pub(crate) trait IntegerKey: Copy + Eq + Hash {

}

impl IntegerKey for usize {

}

impl IntegerKey for u64 {

}

/// `HashMap::insert` on a table with string keys: the value is held under the
/// text of the key, in place of what was held under it before, and nothing else
/// changes.
#[verifier::external_body]
pub(crate) fn text_insert<V>(m: &mut FnvHashMap<String, V>, key: String, value: V)
    ensures
        by_text(final(m)@) == by_text(old(m)@).insert(key@, value),
{
    m.insert(key, value);
}

/// `HashMap::get` on a table with string keys: the value that is held under the
/// text of the key, if one is.
#[verifier::external_body]
pub(crate) fn text_get<'a, V>(m: &'a FnvHashMap<String, V>, key: &String) -> (r: Option<&'a V>)
    ensures
        match r {
            Some(v) => by_text(m@).contains_key(key@) && *v == by_text(m@)[key@],
            None => !by_text(m@).contains_key(key@),
        },
{
    m.get(key)
}

/// `HashSet::insert` on a set of strings: the text of the word is in the set
/// afterwards, and nothing else changes.
#[verifier::external_body]
pub(crate) fn word_insert(s: &mut FnvHashSet<String>, word: String)
    ensures
        texts(final(s)@) == texts(old(s)@).insert(word@),
{
    s.insert(word);
}

/// `HashMap::entry` on a table with integer keys: the entry holds the value that
/// is held under the key, if one is. What it is left with is held under the key
/// afterwards, and nothing else changes.
#[verifier::external_body]
fn number_place<'a, K: IntegerKey, V>(m: &'a mut FnvHashMap<K, V>, key: K) -> (r: Entry<'a, K, V>)
    ensures
        r.value() == old(m)@.get(key),
        final(m)@ == (match r.final_value() {
            Some(value) => old(m)@.insert(key, value),
            None => old(m)@.remove(key),
        }),
{
    m.entry(key)
}

/// Leads to the value that is held under a key, or to the default if none is.
/// What it is changed to is held under the key afterwards, and nothing else
/// changes.
pub(crate) fn number_entry<'a, K: IntegerKey, V>(
    m: &'a mut FnvHashMap<K, V>,
    key: K,
    default: V,
) -> (r: &'a mut V)
    ensures
        *r == (if old(m)@.contains_key(key) {
            old(m)@[key]
        } else {
            default
        }),
        final(m)@ == old(m)@.insert(key, *final(r)),
{
    number_place(m, key).or_insert(default)
}

/// `HashMap::get` on a table with integer keys: the value that is held under the
/// key, if one is.
#[verifier::external_body]
pub(crate) fn number_get<'a, K: IntegerKey, V>(m: &'a FnvHashMap<K, V>, key: K) -> (r: Option<
    &'a V,
>)
    ensures
        match r {
            Some(v) => m@.contains_key(key) && *v == m@[key],
            None => !m@.contains_key(key),
        },
{
    m.get(&key)
}

/// `HashMap::keys` on a table with integer keys: every key once, in an order
/// that the table settles. The keys come to an end.
#[verifier::external_body]
fn number_walk<'a, K: IntegerKey, V>(m: &'a FnvHashMap<K, V>) -> (r: Keys<'a, K, V>)
    ensures
        r.remaining().unref().no_duplicates(),
        forall|k: K| #[trigger] m@.contains_key(k) <==> r.remaining().unref().contains(k),
        r.decrease() is Some,
{
    m.keys()
}

/// Lists the keys of a table with integer keys, each once.
pub(crate) fn number_keys<K: IntegerKey, V>(m: &FnvHashMap<K, V>) -> (r: Vec<K>)
    ensures
        r@.no_duplicates(),
        forall|k: K| r@.contains(k) <==> #[trigger] m@.contains_key(k),
{
    let mut list: Vec<K> = Vec::new();
    let mut walk: Keys<K, V> = number_walk(m);
    assert(list@ + walk.remaining().unref() =~= walk.remaining().unref());
    loop
        invariant
            walk.decrease() is Some,
            (list@ + walk.remaining().unref()).no_duplicates(),
            forall|k: K| #[trigger]
                m@.contains_key(k) <==> (list@ + walk.remaining().unref()).contains(k),
        ensures
            walk.remaining().len() == 0,
        decreases walk.decrease()->0,
    {
        let ghost ahead = walk;
        let ghost had = list@;
        match advance(&mut walk) {
            Some(key) => {
                list.push(*key);
                assert(list@ + walk.remaining().unref() =~= had + ahead.remaining().unref());
            },
            None => {
                break;
            },
        }
    }
    assert(list@ + walk.remaining().unref() =~= list@);
    list
}

} // verus!
