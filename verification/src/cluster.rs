//! Grouping without sections: rows are gathered under the directory that
//! encloses them, and a directory that lies below another one that is in
//! use joins the outer one.

use vstd::prelude::*;
use crate::paths::{
    below, is_below, lemma_ancestors_nest, lemma_below_comes_after, lemma_within_transitive,
    parent_dir, parent_of,
};
use crate::grouping::{
    emit, gather, group_of, grouped, string_views,
};
use crate::model::{Group, GroupView, RepoResult, RepoResultView, group_views, row_views};
use crate::text::{
    chars_of, comes_before, lemma_lex_asymmetric, lemma_lex_irreflexive, lemma_lex_total,
    lemma_lex_transitive, lex_lt,
};

verus! {

/// The views of a sequence of character vectors.
pub open spec fn char_views(strings: Seq<Vec<char>>) -> Seq<Seq<char>> {
    strings.map_values(|s: Vec<char>| s@)
}

/// True when some key is a directory that `k` lies below.
pub open spec fn has_ancestor(keys: Seq<Seq<char>>, k: Seq<char>) -> bool {
    exists|i: int| 0 <= i < keys.len() && is_below(k, #[trigger] keys[i])
}

/// True when `a` is, of the keys that `k` lies below, the first in
/// lexicographic order.
pub open spec fn is_first_ancestor(keys: Seq<Seq<char>>, k: Seq<char>, a: Seq<char>) -> bool {
    &&& keys.contains(a)
    &&& is_below(k, a)
    &&& forall|i: int| 0 <= i < keys.len() && is_below(k, #[trigger] keys[i]) ==> !lex_lt(keys[i], a)
}

/// The key under which the rows of key `k` end up: the lexicographically
/// first of the keys that `k` lies below, or `k` itself where there is
/// none. Only keys that are in use are joined; no common directory is made
/// up.
pub open spec fn final_key(keys: Seq<Seq<char>>, k: Seq<char>) -> Seq<char> {
    if has_ancestor(keys, k) {
        choose|a: Seq<char>| is_first_ancestor(keys, k, a)
    } else {
        k
    }
}

/// There is at most one first ancestor.
pub proof fn lemma_first_ancestor_unique(
    keys: Seq<Seq<char>>,
    k: Seq<char>,
    a: Seq<char>,
    b: Seq<char>,
)
    requires
        is_first_ancestor(keys, k, a),
        is_first_ancestor(keys, k, b),
    ensures
        a == b,
{
    let i = choose|i: int| 0 <= i < keys.len() && keys[i] == a;
    let j = choose|j: int| 0 <= j < keys.len() && keys[j] == b;
    assert(!lex_lt(keys[i], b));
    assert(!lex_lt(keys[j], a));
    lemma_lex_total(a, b);
}

/// The first ancestor among the first `n` keys, if `k` lies below any of
/// them.
proof fn lemma_first_ancestor_among(keys: Seq<Seq<char>>, k: Seq<char>, n: int) -> (best: Option<
    Seq<char>,
>)
    requires
        0 <= n <= keys.len(),
    ensures
        match best {
            Some(a) => is_first_ancestor(keys.take(n), k, a),
            None => !has_ancestor(keys.take(n), k),
        },
    decreases n,
{
    if n == 0 {
        None
    } else {
        let before = lemma_first_ancestor_among(keys, k, n - 1);
        let seen = keys.take(n - 1);
        let now = keys.take(n);
        let c = keys[n - 1];
        assert(now.drop_last() =~= seen);
        assert(now[n - 1] == c);
        assert forall|i: int| 0 <= i < n - 1 implies #[trigger] now[i] == seen[i] by {}
        match before {
            Some(a) => {
                let at = choose|i: int| 0 <= i < seen.len() && seen[i] == a;
                assert(now[at] == a);
                if is_below(k, c) && lex_lt(c, a) {
                    assert forall|i: int| 0 <= i < now.len() && is_below(k, #[trigger] now[i])
                        implies !lex_lt(now[i], c) by {
                        if i < n - 1 {
                            assert(now[i] == seen[i]);
                            if lex_lt(now[i], c) {
                                lemma_lex_transitive(now[i], c, a);
                            }
                        } else {
                            lemma_lex_irreflexive(c);
                        }
                    }
                    Some(c)
                } else {
                    assert forall|i: int| 0 <= i < now.len() && is_below(k, #[trigger] now[i])
                        implies !lex_lt(now[i], a) by {
                        if i < n - 1 {
                            assert(now[i] == seen[i]);
                        }
                    }
                    Some(a)
                }
            },
            None => {
                if is_below(k, c) {
                    assert forall|i: int| 0 <= i < now.len() && is_below(k, #[trigger] now[i])
                        implies !lex_lt(now[i], c) by {
                        if i < n - 1 {
                            assert(now[i] == seen[i]);
                        } else {
                            lemma_lex_irreflexive(c);
                        }
                    }
                    Some(c)
                } else {
                    assert forall|i: int| 0 <= i < now.len() implies !is_below(k, #[trigger] now[i]) by {
                        if i < n - 1 {
                            assert(now[i] == seen[i]);
                        }
                    }
                    None
                }
            },
        }
    }
}

/// Where `k` lies below some key, its final key is the first of those keys.
pub proof fn lemma_final_key_is_first(keys: Seq<Seq<char>>, k: Seq<char>)
    requires
        has_ancestor(keys, k),
    ensures
        is_first_ancestor(keys, k, final_key(keys, k)),
{
    let best = lemma_first_ancestor_among(keys, k, keys.len() as int);
    assert(keys.take(keys.len() as int) =~= keys);
    assert(is_first_ancestor(keys, k, best->0));
}

/// A final key is a key that is in use: none is made up.
pub proof fn lemma_final_key_is_a_key(keys: Seq<Seq<char>>, k: Seq<char>)
    requires
        keys.contains(k),
    ensures
        keys.contains(final_key(keys, k)),
{
    if has_ancestor(keys, k) {
        lemma_final_key_is_first(keys, k);
    }
}

/// A key that lies below no key in use stays as it is.
pub proof fn lemma_no_ancestor_keeps_key(keys: Seq<Seq<char>>, k: Seq<char>)
    requires
        !has_ancestor(keys, k),
    ensures
        final_key(keys, k) == k,
{
}

/// The outer directory wins: a key that lies below a key in use which
/// itself lies below none ends up under that key.
pub proof fn lemma_outer_ancestor_wins(keys: Seq<Seq<char>>, k: Seq<char>, a: Seq<char>)
    requires
        keys.contains(a),
        is_below(k, a),
        !has_ancestor(keys, a),
    ensures
        final_key(keys, k) == a,
{
    let at = choose|i: int| 0 <= i < keys.len() && keys[i] == a;
    assert(is_below(k, keys[at]));
    assert forall|i: int| 0 <= i < keys.len() && is_below(k, #[trigger] keys[i]) implies !lex_lt(
        keys[i],
        a,
    ) by {
        let b = keys[i];
        if lex_lt(b, a) {
            lemma_lex_asymmetric(b, a);
            lemma_lex_irreflexive(a);
            if b.len() <= a.len() {
                lemma_ancestors_nest(k, b, a);
                assert(is_below(a, b));
            } else {
                lemma_ancestors_nest(k, a, b);
                lemma_below_comes_after(b, a);
            }
        }
    }
    lemma_final_key_is_first(keys, k);
    lemma_first_ancestor_unique(keys, k, a, final_key(keys, k));
}

/// A final key lies below no key in use: it is the outermost.
pub proof fn lemma_final_key_is_outermost(keys: Seq<Seq<char>>, k: Seq<char>)
    ensures
        !has_ancestor(keys, final_key(keys, k)),
{
    if has_ancestor(keys, k) {
        lemma_final_key_is_first(keys, k);
        let a = final_key(keys, k);
        if has_ancestor(keys, a) {
            let i = choose|i: int| 0 <= i < keys.len() && is_below(a, #[trigger] keys[i]);
            let b = keys[i];
            lemma_within_transitive(k, a, b);
            lemma_below_comes_after(a, b);
            lemma_below_comes_after(k, a);
            assert(is_below(k, keys[i]));
        }
    }
}

/// Joining is done once: the final key of a final key is itself.
pub proof fn lemma_final_key_idempotent(keys: Seq<Seq<char>>, k: Seq<char>)
    ensures
        final_key(keys, final_key(keys, k)) == final_key(keys, k),
{
    lemma_final_key_is_outermost(keys, k);
}

/// The final key depends on which keys are in use, not on their order or
/// on how often each occurs.
pub proof fn lemma_final_key_ignores_order(
    keys: Seq<Seq<char>>,
    others: Seq<Seq<char>>,
    k: Seq<char>,
)
    requires
        forall|x: Seq<char>| keys.contains(x) <==> others.contains(x),
    ensures
        final_key(keys, k) == final_key(others, k),
{
    if has_ancestor(keys, k) {
        lemma_final_key_is_first(keys, k);
        let a = final_key(keys, k);
        assert(others.contains(a));
        let at = choose|i: int| 0 <= i < others.len() && others[i] == a;
        assert(is_below(k, others[at]));
        assert forall|i: int| 0 <= i < others.len() && is_below(k, #[trigger] others[i])
            implies !lex_lt(others[i], a) by {
            assert(others.contains(others[i]));
            assert(keys.contains(others[i]));
            let j = choose|j: int| 0 <= j < keys.len() && keys[j] == others[i];
            assert(is_below(k, keys[j]));
        }
        lemma_final_key_is_first(others, k);
        lemma_first_ancestor_unique(others, k, a, final_key(others, k));
    } else if has_ancestor(others, k) {
        let i = choose|i: int| 0 <= i < others.len() && is_below(k, #[trigger] others[i]);
        assert(others.contains(others[i]));
        let j = choose|j: int| 0 <= j < keys.len() && keys[j] == others[i];
        assert(is_below(k, keys[j]));
    }
}

/// Finds the key under which `k` ends up: the position in `keys` of the
/// first key that `k` lies below, or `None` where `k` lies below none and
/// stays as it is.
pub fn first_ancestor(keys: &Vec<Vec<char>>, k: &Vec<char>) -> (out: Option<usize>)
    ensures
        match out {
            Some(at) => at < keys@.len() && has_ancestor(char_views(keys@), k@) && keys@[at as int]@
                == final_key(char_views(keys@), k@),
            None => !has_ancestor(char_views(keys@), k@) && final_key(char_views(keys@), k@) == k@,
        },
{
    let ghost all = char_views(keys@);
    let mut best: Option<usize> = None;
    let mut i: usize = 0;
    while i < keys.len()
        invariant
            i <= keys@.len(),
            all == char_views(keys@),
            match best {
                Some(at) => at < i && is_below(k@, all[at as int]) && forall|j: int|
                    0 <= j < i && is_below(k@, #[trigger] all[j]) ==> !lex_lt(all[j], all[at as int]),
                None => forall|j: int| 0 <= j < i ==> !is_below(k@, #[trigger] all[j]),
            },
        decreases keys@.len() - i,
    {
        let ghost here = all[i as int];
        if below(k, &keys[i]) {
            let better = match best {
                Some(at) => comes_before(&keys[i], &keys[at]),
                None => true,
            };
            if better {
                proof {
                    lemma_lex_irreflexive(here);
                    assert forall|j: int| 0 <= j <= i && is_below(k@, #[trigger] all[j])
                        implies !lex_lt(all[j], here) by {
                        if j < i && best is Some && lex_lt(all[j], here) {
                            lemma_lex_transitive(all[j], here, all[best->0 as int]);
                        }
                    }
                }
                best = Some(i);
            }
        }
        i += 1;
    }
    proof {
        match best {
            Some(at) => {
                assert(all.contains(all[at as int]));
                assert(is_first_ancestor(all, k@, all[at as int]));
                lemma_final_key_is_first(all, k@);
                lemma_first_ancestor_unique(all, k@, all[at as int], final_key(all, k@));
            },
            None => {},
        }
    }
    best
}

/// True when each key comes before all that follow it.
pub open spec fn strictly_ascending(keys: Seq<Seq<char>>) -> bool {
    forall|i: int, j: int| 0 <= i < j < keys.len() ==> lex_lt(#[trigger] keys[i], #[trigger] keys[j])
}

/// Two ascending sequences that hold the same keys are the same sequence.
pub proof fn lemma_ascending_unique(a: Seq<Seq<char>>, b: Seq<Seq<char>>)
    requires
        strictly_ascending(a),
        strictly_ascending(b),
        forall|x: Seq<char>| a.contains(x) <==> b.contains(x),
    ensures
        a == b,
    decreases a.len(),
{
    if a.len() == 0 {
        if b.len() > 0 {
            assert(b.contains(b[0]));
        }
        assert(a =~= b);
    } else {
        assert(a.contains(a[0]));
        let j = choose|j: int| 0 <= j < b.len() && b[j] == a[0];
        assert(b.contains(b[0]));
        let i = choose|i: int| 0 <= i < a.len() && a[i] == b[0];
        if i > 0 {
            assert(lex_lt(a[0], a[i]));
            if j > 0 {
                assert(lex_lt(b[0], b[j]));
                lemma_lex_asymmetric(a[0], b[0]);
            } else {
                lemma_lex_irreflexive(a[0]);
            }
        }
        assert(a[0] == b[0]);
        let ta = a.drop_first();
        let tb = b.drop_first();
        assert forall|x: Seq<char>| ta.contains(x) <==> tb.contains(x) by {
            if ta.contains(x) {
                let p = choose|p: int| 0 <= p < ta.len() && ta[p] == x;
                assert(a[p + 1] == x);
                assert(lex_lt(a[0], a[p + 1]));
                assert(a.contains(x));
                let q = choose|q: int| 0 <= q < b.len() && b[q] == x;
                if q == 0 {
                    lemma_lex_irreflexive(x);
                }
                assert(tb[q - 1] == x);
            }
            if tb.contains(x) {
                let p = choose|p: int| 0 <= p < tb.len() && tb[p] == x;
                assert(b[p + 1] == x);
                assert(lex_lt(b[0], b[p + 1]));
                assert(b.contains(x));
                let q = choose|q: int| 0 <= q < a.len() && a[q] == x;
                if q == 0 {
                    lemma_lex_irreflexive(x);
                }
                assert(ta[q - 1] == x);
            }
        }
        assert(strictly_ascending(ta)) by {
            assert forall|p: int, q: int| 0 <= p < q < ta.len() implies lex_lt(
                #[trigger] ta[p],
                #[trigger] ta[q],
            ) by {
                assert(lex_lt(a[p + 1], a[q + 1]));
            }
        }
        assert(strictly_ascending(tb)) by {
            assert forall|p: int, q: int| 0 <= p < q < tb.len() implies lex_lt(
                #[trigger] tb[p],
                #[trigger] tb[q],
            ) by {
                assert(lex_lt(b[p + 1], b[q + 1]));
            }
        }
        lemma_ascending_unique(ta, tb);
        assert(a =~= seq![a[0]] + ta);
        assert(b =~= seq![b[0]] + tb);
    }
}

/// Puts `key` in its place in an ascending sequence of keys, unless it is
/// there already.
fn insert_key(order: &mut Vec<String>, key: &String)
    requires
        strictly_ascending(string_views(old(order)@)),
    ensures
        strictly_ascending(string_views(final(order)@)),
        forall|x: Seq<char>|
            string_views(final(order)@).contains(x) <==> (x == key@ || string_views(
                old(order)@,
            ).contains(x)),
{
    let ghost before = string_views(order@);
    let wanted = chars_of(key.as_str());
    let mut at: usize = 0;
    let mut searching = true;
    let mut present = false;
    while searching && at < order.len()
        invariant
            at <= order@.len(),
            before == string_views(order@),
            wanted@ == key@,
            forall|j: int| 0 <= j < at ==> lex_lt(#[trigger] before[j], key@),
            !searching ==> at < order@.len() && !lex_lt(before[at as int], key@),
            !searching ==> (present <==> before[at as int] == key@),
            searching ==> !present,
        decreases order@.len() - at + (if searching { 1int } else { 0int }),
    {
        let here = chars_of(order[at].as_str());
        if comes_before(&here, &wanted) {
            at += 1;
        } else {
            searching = false;
            present = !comes_before(&wanted, &here);
            proof {
                lemma_lex_total(here@, wanted@);
                lemma_lex_irreflexive(wanted@);
            }
        }
    }
    if present {
        proof {
            assert(before.contains(before[at as int]));
        }
    } else {
        order.insert(at, key.clone());
        proof {
            let after = string_views(order@);
            assert(after =~= before.insert(at as int, key@));
            assert forall|p: int| at <= p < before.len() implies lex_lt(key@, #[trigger] before[p]) by {
                lemma_lex_total(key@, before[at as int]);
                if p > at {
                    assert(lex_lt(before[at as int], before[p]));
                    lemma_lex_transitive(key@, before[at as int], before[p]);
                }
            }
            assert forall|i: int, j: int| 0 <= i < j < after.len() implies lex_lt(
                #[trigger] after[i],
                #[trigger] after[j],
            ) by {
                if j < at {
                    assert(lex_lt(before[i], before[j]));
                } else if j == at {
                    assert(lex_lt(before[i], key@));
                } else if i < at {
                    assert(lex_lt(before[i], before[j - 1]));
                } else if i == at {
                    assert(lex_lt(key@, before[j - 1]));
                } else {
                    assert(lex_lt(before[i - 1], before[j - 1]));
                }
            }
            assert forall|x: Seq<char>| after.contains(x) <==> (x == key@ || before.contains(
                x,
            )) by {
                if after.contains(x) {
                    let p = choose|p: int| 0 <= p < after.len() && after[p] == x;
                    if p < at {
                        assert(before[p] == x);
                    } else if p > at {
                        assert(before[p - 1] == x);
                    }
                }
                if before.contains(x) {
                    let p = choose|p: int| 0 <= p < before.len() && before[p] == x;
                    if p < at {
                        assert(after[p] == x);
                    } else {
                        assert(after[p + 1] == x);
                    }
                }
                if x == key@ {
                    assert(after[at as int] == x);
                }
            }
        }
    }
}

/// The keys of `keys`, each once, in ascending order.
pub fn sorted_keys(keys: &Vec<String>) -> (out: Vec<String>)
    ensures
        strictly_ascending(string_views(out@)),
        forall|x: Seq<char>| string_views(out@).contains(x) <==> string_views(keys@).contains(x),
{
    let mut out: Vec<String> = Vec::new();
    let mut i: usize = 0;
    while i < keys.len()
        invariant
            i <= keys@.len(),
            strictly_ascending(string_views(out@)),
            forall|x: Seq<char>|
                string_views(out@).contains(x) <==> string_views(keys@).take(i as int).contains(x),
        decreases keys@.len() - i,
    {
        let ghost seen = string_views(keys@).take(i as int);
        let ghost now = string_views(keys@).take(i + 1);
        let ghost earlier = string_views(out@);
        insert_key(&mut out, &keys[i]);
        proof {
            assert(now.drop_last() =~= seen);
            assert forall|x: Seq<char>| string_views(out@).contains(x) <==> now.contains(x) by {
                if now.contains(x) {
                    let p = choose|p: int| 0 <= p < now.len() && now[p] == x;
                    if p < i {
                        assert(seen[p] == x);
                    }
                }
                if seen.contains(x) {
                    let p = choose|p: int| 0 <= p < seen.len() && seen[p] == x;
                    assert(now[p] == x);
                }
                assert(now[i as int] == keys@[i as int]@);
            }
        }
        i += 1;
    }
    assert(string_views(keys@).take(i as int) =~= string_views(keys@));
    out
}

/// The key that each row starts under: the directory that encloses the
/// row's directory.
pub open spec fn initial_keys(rows: Seq<RepoResultView>) -> Seq<Seq<char>> {
    rows.map_values(|r: RepoResultView| parent_of(r.directory))
}

/// The key that each row ends up under.
pub open spec fn final_keys(rows: Seq<RepoResultView>) -> Seq<Seq<char>> {
    initial_keys(rows).map_values(|k: Seq<char>| final_key(initial_keys(rows), k))
}

/// The keys of groups.
pub open spec fn group_keys(groups: Seq<GroupView>) -> Seq<Seq<char>> {
    groups.map_values(|g: GroupView| g.key)
}

/// True when `groups` is the report of `rows` clustered by directory: the
/// groups come in ascending order of their keys; each is the group of a
/// final key, headed by the key's last component in upper case, with the
/// rows of that final key in the order of `rows`; and every row's final
/// key has its group.
pub open spec fn is_clustering(groups: Seq<GroupView>, rows: Seq<RepoResultView>) -> bool {
    &&& forall|i: int, j: int|
        0 <= i < j < groups.len() ==> lex_lt((#[trigger] groups[i]).key, (#[trigger] groups[j]).key)
    &&& forall|i: int|
        0 <= i < groups.len() ==> final_keys(rows).contains((#[trigger] groups[i]).key)
            && groups[i] == group_of(groups[i].key, final_keys(rows), rows, true)
    &&& forall|j: int|
        0 <= j < rows.len() ==> group_keys(groups).contains(#[trigger] final_keys(rows)[j])
}

/// There is one clustering of given rows, not several.
pub proof fn lemma_clustering_unique(
    rows: Seq<RepoResultView>,
    a: Seq<GroupView>,
    b: Seq<GroupView>,
)
    requires
        is_clustering(a, rows),
        is_clustering(b, rows),
    ensures
        a == b,
{
    let ka = group_keys(a);
    let kb = group_keys(b);
    let labels = final_keys(rows);
    assert(strictly_ascending(ka)) by {
        assert forall|i: int, j: int| 0 <= i < j < ka.len() implies lex_lt(
            #[trigger] ka[i],
            #[trigger] ka[j],
        ) by {
            assert(lex_lt(a[i].key, a[j].key));
        }
    }
    assert(strictly_ascending(kb)) by {
        assert forall|i: int, j: int| 0 <= i < j < kb.len() implies lex_lt(
            #[trigger] kb[i],
            #[trigger] kb[j],
        ) by {
            assert(lex_lt(b[i].key, b[j].key));
        }
    }
    assert forall|x: Seq<char>| ka.contains(x) <==> kb.contains(x) by {
        if ka.contains(x) {
            let i = choose|i: int| 0 <= i < ka.len() && ka[i] == x;
            assert(labels.contains(a[i].key));
            let j = choose|j: int| 0 <= j < labels.len() && labels[j] == x;
            assert(kb.contains(labels[j]));
        }
        if kb.contains(x) {
            let i = choose|i: int| 0 <= i < kb.len() && kb[i] == x;
            assert(labels.contains(b[i].key));
            let j = choose|j: int| 0 <= j < labels.len() && labels[j] == x;
            assert(ka.contains(labels[j]));
        }
    }
    lemma_ascending_unique(ka, kb);
    assert(a.len() == b.len());
    assert forall|i: int| 0 <= i < a.len() implies a[i] == b[i] by {
        assert(ka[i] == kb[i]);
        assert(a[i] == group_of(a[i].key, labels, rows, true));
        assert(b[i] == group_of(b[i].key, labels, rows, true));
    }
    assert(a =~= b);
}

/// Groups made in an ascending order of keys that are all in use: one
/// group for each key, in that order.
proof fn lemma_grouped_in_order(
    order: Seq<Seq<char>>,
    labels: Seq<Seq<char>>,
    rows: Seq<RepoResultView>,
)
    requires
        forall|i: int| 0 <= i < order.len() ==> labels.contains(#[trigger] order[i]),
    ensures
        grouped(order, labels, rows, true).len() == order.len(),
        forall|i: int|
            0 <= i < order.len() ==> (#[trigger] grouped(order, labels, rows, true)[i])
                == group_of(order[i], labels, rows, true),
    decreases order.len(),
{
    if order.len() > 0 {
        let front = order.drop_last();
        assert forall|i: int| 0 <= i < front.len() implies labels.contains(#[trigger] front[i]) by {
            assert(front[i] == order[i]);
        }
        lemma_grouped_in_order(front, labels, rows);
        assert(labels.contains(order[order.len() - 1]));
        let all = grouped(order, labels, rows, true);
        assert forall|i: int| 0 <= i < order.len() implies (#[trigger] all[i]) == group_of(
            order[i],
            labels,
            rows,
            true,
        ) by {
            if i < order.len() - 1 {
                assert(all[i] == grouped(front, labels, rows, true)[i]);
                assert(front[i] == order[i]);
            }
        }
    }
}

/// Clusters rows by the directory that encloses them. Rows whose enclosing
/// directory lies below another enclosing directory join that one; among
/// several, the lexicographically first, which is the outermost. Groups
/// come in ascending order of their keys, rows in the order given.
pub fn cluster_by_ancestor(rows: &Vec<RepoResult>) -> (out: Vec<Group>)
    ensures
        is_clustering(group_views(out@), row_views(rows@)),
{
    let ghost views = row_views(rows@);
    let mut keys: Vec<String> = Vec::new();
    let mut key_chars: Vec<Vec<char>> = Vec::new();
    let mut i: usize = 0;
    while i < rows.len()
        invariant
            i <= rows@.len(),
            views == row_views(rows@),
            string_views(keys@) == initial_keys(views).take(i as int),
            char_views(key_chars@) == initial_keys(views).take(i as int),
        decreases rows@.len() - i,
    {
        let ghost earlier = keys@;
        let ghost earlier_chars = key_chars@;
        let key = parent_dir(rows[i].directory().as_str());
        let chars = chars_of(key.as_str());
        assert(key@ == initial_keys(views)[i as int]);
        keys.push(key);
        key_chars.push(chars);
        assert(string_views(keys@) =~= string_views(earlier).push(key@));
        assert(char_views(key_chars@) =~= char_views(earlier_chars).push(chars@));
        assert(string_views(keys@) =~= initial_keys(views).take(i + 1));
        assert(char_views(key_chars@) =~= initial_keys(views).take(i + 1));
        i += 1;
    }
    assert(initial_keys(views).take(i as int) =~= initial_keys(views));
    let mut finals: Vec<String> = Vec::new();
    let mut n: usize = 0;
    while n < keys.len()
        invariant
            n <= keys@.len(),
            keys@.len() == key_chars@.len(),
            keys@.len() == rows@.len(),
            views == row_views(rows@),
            string_views(keys@) == initial_keys(views),
            char_views(key_chars@) == initial_keys(views),
            string_views(finals@) == final_keys(views).take(n as int),
        decreases keys@.len() - n,
    {
        let ghost earlier = finals@;
        let at = match first_ancestor(&key_chars, &key_chars[n]) {
            Some(at) => at,
            None => n,
        };
        let key = keys[at].clone();
        proof {
            assert(key@ == string_views(keys@)[at as int]);
            assert(key_chars@[at as int]@ == char_views(key_chars@)[at as int]);
            assert(key_chars@[n as int]@ == char_views(key_chars@)[n as int]);
            assert(key@ == final_keys(views)[n as int]);
        }
        finals.push(key);
        assert(string_views(finals@) =~= string_views(earlier).push(key@));
        assert(string_views(finals@) =~= final_keys(views).take(n + 1));
        n += 1;
    }
    assert(final_keys(views).take(n as int) =~= final_keys(views));
    let order = sorted_keys(&finals);
    let buckets = gather(&finals, rows);
    let out = emit(&order, &buckets, true, Ghost(string_views(finals@)), Ghost(rows@));
    proof {
        let labels = final_keys(views);
        let keys_in_order = string_views(order@);
        let groups = group_views(out@);
        assert forall|i: int| 0 <= i < keys_in_order.len() implies labels.contains(
            #[trigger] keys_in_order[i],
        ) by {
            assert(keys_in_order.contains(keys_in_order[i]));
        }
        lemma_grouped_in_order(keys_in_order, labels, views);
        assert forall|i: int, j: int| 0 <= i < j < groups.len() implies lex_lt(
            (#[trigger] groups[i]).key,
            (#[trigger] groups[j]).key,
        ) by {
            assert(lex_lt(keys_in_order[i], keys_in_order[j]));
        }
        assert forall|j: int| 0 <= j < views.len() implies group_keys(groups).contains(
            #[trigger] labels[j],
        ) by {
            assert(labels.contains(labels[j]));
            assert(keys_in_order.contains(labels[j]));
            let i = choose|i: int| 0 <= i < keys_in_order.len() && keys_in_order[i] == labels[j];
            assert(group_keys(groups)[i] == labels[j]);
        }
    }
    out
}

} // verus!
