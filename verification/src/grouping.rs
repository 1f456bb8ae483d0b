//! Gathering rows into the groups of a report.

use vstd::prelude::*;
use indexmap::IndexMap;
use crate::buckets::{
    bucket_entries, bucket_for, bucket_rows, buckets_new, has_key, lemma_with_rows, rows_under,
    with_rows,
};
use crate::model::{Group, GroupView, RepoResult, RepoResultView, group_views, row_views};
use crate::paths::{base_name, last_component};
use crate::text::{to_upper, uppercase_of};

verus! {

/// The views of a sequence of strings.
pub open spec fn string_views(strings: Seq<String>) -> Seq<Seq<char>> {
    strings.map_values(|s: String| s@)
}

/// The items whose label is `key`, in their order. `labels` and `items`
/// run in parallel: `labels[i]` is the label of `items[i]`.
pub open spec fn picked<T>(labels: Seq<Seq<char>>, items: Seq<T>, key: Seq<char>) -> Seq<T>
    decreases items.len(),
{
    if items.len() == 0 || labels.len() != items.len() {
        Seq::empty()
    } else {
        let before = picked(labels.drop_last(), items.drop_last(), key);
        if labels.last() == key {
            before.push(items.last())
        } else {
            before
        }
    }
}

/// Something is picked exactly when the key is among the labels.
pub proof fn lemma_picked_none<T>(labels: Seq<Seq<char>>, items: Seq<T>, key: Seq<char>)
    requires
        labels.len() == items.len(),
    ensures
        picked(labels, items, key).len() > 0 <==> labels.contains(key),
        picked(labels, items, key).len() <= items.len(),
    decreases items.len(),
{
    if items.len() > 0 {
        lemma_picked_none(labels.drop_last(), items.drop_last(), key);
        if labels.contains(key) {
            let i = choose|i: int| 0 <= i < labels.len() && labels[i] == key;
            if i < labels.len() - 1 {
                assert(labels.drop_last()[i] == key);
            }
        }
        if labels.drop_last().contains(key) {
            let i = choose|i: int| 0 <= i < labels.drop_last().len() && labels.drop_last()[i] == key;
            assert(labels[i] == key);
        }
    }
}

/// Picking commutes with taking views.
pub proof fn lemma_picked_views(labels: Seq<Seq<char>>, rows: Seq<RepoResult>, key: Seq<char>)
    requires
        labels.len() == rows.len(),
    ensures
        row_views(picked(labels, rows, key)) == picked(labels, row_views(rows), key),
    decreases rows.len(),
{
    if rows.len() == 0 {
        assert(row_views(picked(labels, rows, key)) =~= picked(labels, row_views(rows), key));
    } else {
        lemma_picked_views(labels.drop_last(), rows.drop_last(), key);
        assert(row_views(rows).drop_last() =~= row_views(rows.drop_last()));
        assert(row_views(picked(labels, rows, key)) =~= picked(labels, row_views(rows), key));
    }
}

/// Items at the end that do not carry the key can be left out.
pub proof fn lemma_picked_prefix<T>(
    labels: Seq<Seq<char>>,
    items: Seq<T>,
    cut: int,
    key: Seq<char>,
)
    requires
        labels.len() == items.len(),
        0 <= cut <= items.len(),
        forall|i: int| cut <= i < labels.len() ==> #[trigger] labels[i] != key,
    ensures
        picked(labels, items, key) == picked(labels.take(cut), items.take(cut), key),
    decreases items.len() - cut,
{
    if cut == items.len() {
        assert(labels.take(cut) =~= labels);
        assert(items.take(cut) =~= items);
    } else {
        lemma_picked_prefix(labels.drop_last(), items.drop_last(), cut, key);
        assert(labels.drop_last().take(cut) =~= labels.take(cut));
        assert(items.drop_last().take(cut) =~= items.take(cut));
        assert(labels.last() == labels[labels.len() - 1]);
    }
}

/// Where exactly the items from `cut` on carry the key, they are what is
/// picked.
pub proof fn lemma_picked_suffix<T>(
    labels: Seq<Seq<char>>,
    items: Seq<T>,
    cut: int,
    key: Seq<char>,
)
    requires
        labels.len() == items.len(),
        0 <= cut <= items.len(),
        forall|i: int| 0 <= i < cut ==> #[trigger] labels[i] != key,
        forall|i: int| cut <= i < labels.len() ==> #[trigger] labels[i] == key,
    ensures
        picked(labels, items, key) == items.skip(cut),
    decreases items.len() - cut,
{
    if cut == items.len() {
        lemma_picked_none(labels, items, key);
        if labels.contains(key) {
            let i = choose|i: int| 0 <= i < labels.len() && labels[i] == key;
            assert(labels[i] != key);
        }
        assert(picked(labels, items, key) =~= items.skip(cut));
    } else {
        lemma_picked_suffix(labels.drop_last(), items.drop_last(), cut, key);
        assert(labels.last() == labels[labels.len() - 1]);
        assert(items.drop_last().skip(cut).push(items.last()) =~= items.skip(cut));
    }
}

/// The entries hold, under every key, the rows that carry it as label.
pub open spec fn gathers(
    entries: Seq<(Seq<char>, Seq<RepoResult>)>,
    labels: Seq<Seq<char>>,
    rows: Seq<RepoResult>,
) -> bool {
    forall|key: Seq<char>| #[trigger]
        rows_under(entries, key) == picked(labels, rows, key) && (has_key(entries, key)
            <==> labels.contains(key))
}

/// Gathers the rows under their labels.
pub(crate) fn gather(labels: &Vec<String>, rows: &Vec<RepoResult>) -> (m: IndexMap<String, Vec<RepoResult>>)
    requires
        labels@.len() == rows@.len(),
    ensures
        gathers(bucket_entries(m), string_views(labels@), rows@),
{
    let mut m = buckets_new();
    let mut i: usize = 0;
    assert(gathers(bucket_entries(m), string_views(labels@).take(0), rows@.take(0))) by {
        assert forall|key: Seq<char>| !string_views(labels@).take(0).contains(key) by {}
    }
    while i < rows.len()
        invariant
            i <= rows@.len(),
            labels@.len() == rows@.len(),
            gathers(bucket_entries(m), string_views(labels@).take(i as int), rows@.take(i as int)),
        decreases rows@.len() - i,
    {
        let ghost before = bucket_entries(m);
        let ghost seen_labels = string_views(labels@).take(i as int);
        let ghost seen_rows = rows@.take(i as int);
        let ghost now_labels = string_views(labels@).take(i + 1);
        let ghost now_rows = rows@.take(i + 1);
        let key = labels[i].clone();
        let row = rows[i].clone();
        let slot = bucket_for(&mut m, key);
        slot.push(row);
        proof {
            let label = labels@[i as int]@;
            let stored = rows_under(before, label).push(rows@[i as int]);
            assert(bucket_entries(m) == with_rows(before, label, stored));
            assert(now_labels.drop_last() =~= seen_labels);
            assert(now_rows.drop_last() =~= seen_rows);
            assert(now_labels.last() == label);
            assert(now_rows.last() == rows@[i as int]);
            assert forall|key: Seq<char>| #[trigger]
                rows_under(bucket_entries(m), key) == picked(now_labels, now_rows, key) && (has_key(
                    bucket_entries(m),
                    key,
                ) <==> now_labels.contains(key)) by {
                lemma_with_rows(before, label, stored, key);
                assert(rows_under(before, key) == picked(seen_labels, seen_rows, key));
                if seen_labels.contains(key) {
                    let j = choose|j: int| 0 <= j < seen_labels.len() && seen_labels[j] == key;
                    assert(now_labels[j] == key);
                }
                if now_labels.contains(key) && key != label {
                    let j = choose|j: int| 0 <= j < now_labels.len() && now_labels[j] == key;
                    assert(seen_labels[j] == key);
                }
            }
        }
        i += 1;
    }
    proof {
        assert(string_views(labels@).take(i as int) =~= string_views(labels@));
        assert(rows@.take(i as int) =~= rows@);
    }
    m
}

/// The heading of a group: its key in upper case, or, for a key that is a
/// directory, the last component of the key in upper case.
pub open spec fn heading_of(key: Seq<char>, key_is_path: bool) -> Seq<char> {
    if key_is_path {
        uppercase_of(last_component(key))
    } else {
        uppercase_of(key)
    }
}

/// The heading of a group.
pub fn heading(key: &str, key_is_path: bool) -> (out: String)
    ensures
        out@ == heading_of(key@, key_is_path),
{
    if key_is_path {
        let name = base_name(key);
        to_upper(name.as_str())
    } else {
        to_upper(key)
    }
}

/// The group of `key`: the rows that carry the key as label, under the
/// key's heading.
pub open spec fn group_of(
    key: Seq<char>,
    labels: Seq<Seq<char>>,
    rows: Seq<RepoResultView>,
    key_is_path: bool,
) -> GroupView {
    GroupView { key, name: heading_of(key, key_is_path), rows: picked(labels, rows, key) }
}

/// The groups of a report: one for each key of `order` that some row
/// carries as label, in the order of `order`, each with its rows in the
/// order of `rows`. A key without rows gives no group.
pub open spec fn grouped(
    order: Seq<Seq<char>>,
    labels: Seq<Seq<char>>,
    rows: Seq<RepoResultView>,
    key_is_path: bool,
) -> Seq<GroupView>
    decreases order.len(),
{
    if order.len() == 0 {
        Seq::empty()
    } else {
        let before = grouped(order.drop_last(), labels, rows, key_is_path);
        if labels.contains(order.last()) {
            before.push(group_of(order.last(), labels, rows, key_is_path))
        } else {
            before
        }
    }
}

/// No group is empty, and every group is the group of a key of `order`.
pub proof fn lemma_groups_not_empty(
    order: Seq<Seq<char>>,
    labels: Seq<Seq<char>>,
    rows: Seq<RepoResultView>,
    key_is_path: bool,
)
    requires
        labels.len() == rows.len(),
    ensures
        grouped(order, labels, rows, key_is_path).len() <= order.len(),
        forall|i: int|
            0 <= i < grouped(order, labels, rows, key_is_path).len() ==> {
                let group = #[trigger] grouped(order, labels, rows, key_is_path)[i];
                &&& group.rows.len() > 0
                &&& order.contains(group.key)
                &&& group == group_of(group.key, labels, rows, key_is_path)
            },
    decreases order.len(),
{
    if order.len() > 0 {
        let front = order.drop_last();
        lemma_groups_not_empty(front, labels, rows, key_is_path);
        lemma_picked_none(labels, rows, order.last());
        let all = grouped(order, labels, rows, key_is_path);
        let before = grouped(front, labels, rows, key_is_path);
        assert(order[order.len() - 1] == order.last());
        assert forall|i: int| 0 <= i < all.len() implies order.contains((#[trigger] all[i]).key) by {
            if i < before.len() {
                assert(all[i] == before[i]);
                let j = choose|j: int| 0 <= j < front.len() && front[j] == before[i].key;
                assert(order[j] == before[i].key);
            }
        }
    }
}

/// Rows at the end that carry none of the keys of `order` change no group.
pub proof fn lemma_grouped_prefix(
    order: Seq<Seq<char>>,
    labels: Seq<Seq<char>>,
    rows: Seq<RepoResultView>,
    cut: int,
    key_is_path: bool,
)
    requires
        labels.len() == rows.len(),
        0 <= cut <= rows.len(),
        forall|i: int, j: int|
            cut <= i < labels.len() && 0 <= j < order.len() ==> #[trigger] labels[i]
                != #[trigger] order[j],
    ensures
        grouped(order, labels, rows, key_is_path) == grouped(
            order,
            labels.take(cut),
            rows.take(cut),
            key_is_path,
        ),
    decreases order.len(),
{
    if order.len() > 0 {
        let front = order.drop_last();
        let key = order.last();
        assert forall|i: int, j: int| cut <= i < labels.len() && 0 <= j < front.len() implies
            #[trigger] labels[i] != #[trigger] front[j] by {
            assert(front[j] == order[j]);
        }
        lemma_grouped_prefix(front, labels, rows, cut, key_is_path);
        assert forall|i: int| cut <= i < labels.len() implies #[trigger] labels[i] != key by {
            assert(order[order.len() - 1] == key);
        }
        lemma_picked_prefix(labels, rows, cut, key);
        if labels.contains(key) {
            let i = choose|i: int| 0 <= i < labels.len() && labels[i] == key;
            assert(labels.take(cut)[i] == key);
        }
        if labels.take(cut).contains(key) {
            let i = choose|i: int| 0 <= i < labels.take(cut).len() && labels.take(cut)[i] == key;
            assert(labels[i] == key);
        }
    }
}

/// A copy of `rows`.
fn copy_rows(rows: &Vec<RepoResult>) -> (out: Vec<RepoResult>)
    ensures
        out@ == rows@,
{
    let mut out: Vec<RepoResult> = Vec::new();
    let mut i: usize = 0;
    while i < rows.len()
        invariant
            i <= rows@.len(),
            out@ == rows@.take(i as int),
        decreases rows@.len() - i,
    {
        out.push(rows[i].clone());
        assert(out@ =~= rows@.take(i + 1));
        i += 1;
    }
    assert(rows@.take(i as int) =~= rows@);
    out
}

/// Emits the gathered rows as groups, in the order of `order`.
pub(crate) fn emit(
    order: &Vec<String>,
    buckets: &IndexMap<String, Vec<RepoResult>>,
    key_is_path: bool,
    Ghost(labels): Ghost<Seq<Seq<char>>>,
    Ghost(rows): Ghost<Seq<RepoResult>>,
) -> (out: Vec<Group>)
    requires
        labels.len() == rows.len(),
        gathers(bucket_entries(*buckets), labels, rows),
    ensures
        group_views(out@) == grouped(string_views(order@), labels, row_views(rows), key_is_path),
{
    let mut out: Vec<Group> = Vec::new();
    let mut i: usize = 0;
    assert(group_views(out@) =~= grouped(
        string_views(order@).take(0),
        labels,
        row_views(rows),
        key_is_path,
    ));
    while i < order.len()
        invariant
            i <= order@.len(),
            labels.len() == rows.len(),
            gathers(bucket_entries(*buckets), labels, rows),
            group_views(out@) == grouped(
                string_views(order@).take(i as int),
                labels,
                row_views(rows),
                key_is_path,
            ),
        decreases order@.len() - i,
    {
        let ghost key = order@[i as int]@;
        proof {
            let now = string_views(order@).take(i + 1);
            assert(now.drop_last() =~= string_views(order@).take(i as int));
            assert(now.last() == key);
            assert(rows_under(bucket_entries(*buckets), key) == picked(labels, rows, key));
            lemma_picked_views(labels, rows, key);
        }
        match bucket_rows(buckets, &order[i]) {
            Some(found) => {
                let group = Group {
                    key: order[i].clone(),
                    name: heading(order[i].as_str(), key_is_path),
                    rows: copy_rows(found),
                };
                let ghost earlier = out@;
                out.push(group);
                assert(group_views(out@) =~= group_views(earlier).push(group@));
            },
            None => {},
        }
        i += 1;
    }
    assert(string_views(order@).take(i as int) =~= string_views(order@));
    out
}

/// The section labels of rows, in their order.
pub open spec fn section_labels(rows: Seq<RepoResultView>) -> Seq<Seq<char>> {
    rows.map_values(|r: RepoResultView| r.group)
}

/// The report of a configuration with named sections: one group for each
/// section that has rows, in the order of `sections`; the rows of a group
/// are those that carry the section's name, in the order of `rows`.
pub open spec fn sectioned(sections: Seq<Seq<char>>, rows: Seq<RepoResultView>) -> Seq<GroupView> {
    grouped(sections, section_labels(rows), rows, false)
}

/// Groups rows by the section they were listed under.
pub fn group_by_section(sections: &Vec<String>, rows: &Vec<RepoResult>) -> (out: Vec<Group>)
    ensures
        group_views(out@) == sectioned(string_views(sections@), row_views(rows@)),
{
    let mut labels: Vec<String> = Vec::new();
    let mut i: usize = 0;
    while i < rows.len()
        invariant
            i <= rows@.len(),
            string_views(labels@) == section_labels(row_views(rows@)).take(i as int),
        decreases rows@.len() - i,
    {
        let ghost earlier = labels@;
        let label = rows[i].group().clone();
        assert(label@ == row_views(rows@)[i as int].group);
        labels.push(label);
        assert(string_views(labels@) =~= string_views(earlier).push(label@));
        assert(string_views(labels@) =~= section_labels(row_views(rows@)).take(i + 1));
        i += 1;
    }
    assert(section_labels(row_views(rows@)).take(i as int) =~= section_labels(row_views(rows@)));
    let buckets = gather(&labels, rows);
    emit(sections, &buckets, false, Ghost(string_views(labels@)), Ghost(rows@))
}

} // verus!
