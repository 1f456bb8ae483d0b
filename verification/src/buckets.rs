//! Rows gathered under string keys in an insertion-ordered map. The map is
//! `indexmap::IndexMap`; what this module states of it is taken on trust.

use vstd::prelude::*;
use indexmap::IndexMap;
use crate::model::RepoResult;

verus! {

/// `indexmap::IndexMap`, a hash map that keeps its entries in the order in
/// which their keys were first inserted. Nothing inside it is visible here.
#[verifier::external_type_specification]
#[verifier::external_body]
#[verifier::reject_recursive_types(K)]
#[verifier::reject_recursive_types(V)]
#[verifier::reject_recursive_types(S)]
pub struct ExIndexMap<K, V, S>(IndexMap<K, V, S>);

/// What a bucket map holds: each key with its rows, in the order in which
/// the keys were first inserted.
pub uninterp spec fn bucket_entries(m: IndexMap<String, Vec<RepoResult>>) -> Seq<
    (Seq<char>, Seq<RepoResult>),
>;

/// The position of the first entry with key `key`; the number of entries
/// if there is none.
pub open spec fn position_of(entries: Seq<(Seq<char>, Seq<RepoResult>)>, key: Seq<char>) -> int
    decreases entries.len(),
{
    if entries.len() == 0 {
        0
    } else {
        let before = position_of(entries.drop_last(), key);
        if before < entries.len() - 1 || entries.last().0 == key {
            before
        } else {
            entries.len() as int
        }
    }
}

/// The rows under `key`; none if the key is absent.
pub open spec fn rows_under(entries: Seq<(Seq<char>, Seq<RepoResult>)>, key: Seq<char>) -> Seq<
    RepoResult,
> {
    let at = position_of(entries, key);
    if at < entries.len() {
        entries[at].1
    } else {
        Seq::empty()
    }
}

/// `entries` with `rows` under `key`: in place where the key is present,
/// as a new last entry where it is not.
pub open spec fn with_rows(
    entries: Seq<(Seq<char>, Seq<RepoResult>)>,
    key: Seq<char>,
    rows: Seq<RepoResult>,
) -> Seq<(Seq<char>, Seq<RepoResult>)> {
    let at = position_of(entries, key);
    if at < entries.len() {
        entries.update(at, (key, rows))
    } else {
        entries.push((key, rows))
    }
}

/// `IndexMap::new`: a map without entries.
#[verifier::external_body]
pub(crate) fn buckets_new() -> (m: IndexMap<String, Vec<RepoResult>>)
    ensures
        bucket_entries(m) == Seq::<(Seq<char>, Seq<RepoResult>)>::empty(),
{
    IndexMap::new()
}

/// `IndexMap::entry` followed by `Entry::or_insert_with`: the rows stored
/// under `key`, to be changed in place. A key that is absent is first
/// inserted as the last entry, with no rows. Whatever the caller leaves in
/// the returned rows is what the map then holds under `key`; no other
/// entry changes.
#[verifier::external_body]
pub(crate) fn bucket_for<'a>(m: &'a mut IndexMap<String, Vec<RepoResult>>, key: String) -> (slot:
    &'a mut Vec<RepoResult>)
    ensures
        slot@ == rows_under(bucket_entries(*old(m)), key@),
        bucket_entries(*final(m)) == with_rows(bucket_entries(*old(m)), key@, final(slot)@),
{
    m.entry(key).or_insert_with(Vec::new)
}

/// `IndexMap::get`: the rows stored under `key`, if the key is present.
#[verifier::external_body]
pub(crate) fn bucket_rows<'a>(m: &'a IndexMap<String, Vec<RepoResult>>, key: &String) -> (rows:
    Option<&'a Vec<RepoResult>>)
    ensures
        match rows {
            Some(found) => has_key(bucket_entries(*m), key@) && found@ == rows_under(
                bucket_entries(*m),
                key@,
            ),
            None => !has_key(bucket_entries(*m), key@),
        },
{
    m.get(key)
}

/// The first entry with a key is where `position_of` says: no entry before
/// it has the key, and if it is an entry, it has the key.
pub proof fn lemma_position_of(entries: Seq<(Seq<char>, Seq<RepoResult>)>, key: Seq<char>)
    ensures
        0 <= position_of(entries, key) <= entries.len(),
        position_of(entries, key) < entries.len() ==> entries[position_of(entries, key)].0 == key,
        forall|i: int| 0 <= i < position_of(entries, key) ==> (#[trigger] entries[i]).0 != key,
    decreases entries.len(),
{
    if entries.len() > 0 {
        lemma_position_of(entries.drop_last(), key);
        assert forall|i: int| 0 <= i < position_of(entries, key) implies (#[trigger] entries[i]).0
            != key by {
            if i < entries.len() - 1 {
                assert(entries.drop_last()[i] == entries[i]);
            }
        }
    }
}

/// A position that has the three properties of the first entry with a key
/// is the one that `position_of` gives.
pub proof fn lemma_position_is(entries: Seq<(Seq<char>, Seq<RepoResult>)>, key: Seq<char>, at: int)
    requires
        0 <= at <= entries.len(),
        at < entries.len() ==> entries[at].0 == key,
        forall|i: int| 0 <= i < at ==> (#[trigger] entries[i]).0 != key,
    ensures
        position_of(entries, key) == at,
{
    lemma_position_of(entries, key);
    let found = position_of(entries, key);
    if found < at {
        assert(entries[found].0 == key);
    }
}

/// True when `key` is the key of an entry.
pub open spec fn has_key(entries: Seq<(Seq<char>, Seq<RepoResult>)>, key: Seq<char>) -> bool {
    position_of(entries, key) < entries.len()
}

/// Storing rows under a key changes what that key holds and nothing else.
pub proof fn lemma_with_rows(
    entries: Seq<(Seq<char>, Seq<RepoResult>)>,
    key: Seq<char>,
    rows: Seq<RepoResult>,
    other: Seq<char>,
)
    ensures
        has_key(with_rows(entries, key, rows), other) <==> (other == key || has_key(entries, other)),
        rows_under(with_rows(entries, key, rows), other) == if other == key {
            rows
        } else {
            rows_under(entries, other)
        },
{
    lemma_position_of(entries, key);
    lemma_position_of(entries, other);
    let after = with_rows(entries, key, rows);
    let at = position_of(entries, key);
    let was = position_of(entries, other);
    if at < entries.len() {
        assert forall|i: int| 0 <= i < was implies (#[trigger] after[i]).0 != other by {
            assert(entries[i].0 != other);
        }
        lemma_position_is(after, other, was);
    } else if other == key {
        assert forall|i: int| 0 <= i < entries.len() implies (#[trigger] after[i]).0 != key by {
            assert(entries[i].0 != key);
        }
        lemma_position_is(after, key, entries.len() as int);
    } else if was < entries.len() {
        assert forall|i: int| 0 <= i < was implies (#[trigger] after[i]).0 != other by {
            assert(entries[i].0 != other);
        }
        lemma_position_is(after, other, was);
    } else {
        assert forall|i: int| 0 <= i < after.len() implies (#[trigger] after[i]).0 != other by {
            if i < entries.len() {
                assert(entries[i].0 != other);
            }
        }
        lemma_position_is(after, other, after.len() as int);
    }
}

} // verus!
