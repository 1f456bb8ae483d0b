//! Directories as `/`-separated strings: the enclosing directory, the last
//! component, and whether one directory lies within another.

use vstd::prelude::*;
use vstd::string::*;
use crate::text::{chars_of, lemma_lex_prefix, lex_lt};

verus! {

/// `p` without trailing separators; a path of one character stays.
pub open spec fn trim_seps(p: Seq<char>) -> Seq<char>
    decreases p.len(),
{
    if p.len() > 1 && p.last() == '/' {
        trim_seps(p.drop_last())
    } else {
        p
    }
}

/// One more than the position of the last separator in `p`; 0 if it has none.
pub open spec fn after_last_sep(p: Seq<char>) -> int
    decreases p.len(),
{
    if p.len() == 0 {
        0
    } else if p.last() == '/' {
        p.len() as int
    } else {
        after_last_sep(p.drop_last())
    }
}

/// The directory that encloses `p`: `p` up to its last component, without
/// the separators between them. The root encloses itself, and a single
/// relative component is enclosed by the empty path.
pub open spec fn parent_of(p: Seq<char>) -> Seq<char> {
    let t = trim_seps(p);
    trim_seps(t.take(after_last_sep(t)))
}

/// The last component of `p`: what follows its last separator, trailing
/// separators aside. Empty for the root and for the empty path.
pub open spec fn last_component(p: Seq<char>) -> Seq<char> {
    let t = trim_seps(p);
    t.skip(after_last_sep(t))
}

/// The name shown for a directory: its last component, or the whole path
/// where it has none.
pub open spec fn display_name_of(p: Seq<char>) -> Seq<char> {
    if last_component(p).len() > 0 {
        last_component(p)
    } else {
        p
    }
}

/// True when `inner` is `outer` or lies below it: `outer` is not empty and
/// is a prefix of `inner` that ends where a component of `inner` ends.
pub open spec fn is_within(inner: Seq<char>, outer: Seq<char>) -> bool {
    &&& 0 < outer.len() <= inner.len()
    &&& inner.take(outer.len() as int) == outer
    &&& (outer.len() == inner.len() || outer.last() == '/' || inner[outer.len() as int] == '/')
}

/// True when `inner` lies below `outer` and is not `outer` itself.
pub open spec fn is_below(inner: Seq<char>, outer: Seq<char>) -> bool {
    is_within(inner, outer) && inner != outer
}

/// The length that `trim_seps` leaves.
proof fn lemma_trim_seps_is_take(p: Seq<char>, n: int)
    requires
        0 <= n <= p.len(),
        n >= 1 || p.len() == 0,
        forall|j: int| n <= j < p.len() ==> p[j] == '/',
        n > 1 ==> p[n - 1] != '/',
    ensures
        trim_seps(p) == p.take(n),
    decreases p.len() - n,
{
    if n == p.len() {
        assert(p.take(n) =~= p);
    } else {
        lemma_trim_seps_is_take(p.drop_last(), n);
        assert(p.drop_last().take(n) =~= p.take(n));
    }
}

/// Where the last component starts, given a position just after a
/// separator that no separator follows.
proof fn lemma_after_last_sep_is(p: Seq<char>, k: int)
    requires
        0 <= k <= p.len(),
        k > 0 ==> p[k - 1] == '/',
        forall|j: int| k <= j < p.len() ==> p[j] != '/',
    ensures
        after_last_sep(p) == k,
    decreases p.len() - k,
{
    if k < p.len() {
        lemma_after_last_sep_is(p.drop_last(), k);
    }
}

/// The length of `chars` without its trailing separators (at least 1 for a
/// path that is not empty).
fn trimmed_len(chars: &Vec<char>, len: usize) -> (n: usize)
    requires
        len <= chars@.len(),
    ensures
        n <= len,
        trim_seps(chars@.take(len as int)) == chars@.take(n as int),
{
    let mut n: usize = len;
    while n > 1 && chars[n - 1] == '/'
        invariant
            n <= len <= chars@.len(),
            len > 0 ==> n >= 1,
            forall|j: int| n <= j < len ==> chars@[j] == '/',
        decreases n,
    {
        n -= 1;
    }
    proof {
        let p = chars@.take(len as int);
        lemma_trim_seps_is_take(p, n as int);
        assert(p.take(n as int) =~= chars@.take(n as int));
    }
    n
}

/// Where the last component of the first `len` characters starts.
fn component_start(chars: &Vec<char>, len: usize) -> (k: usize)
    requires
        len <= chars@.len(),
    ensures
        k <= len,
        after_last_sep(chars@.take(len as int)) == k,
{
    let mut k: usize = len;
    while k > 0 && chars[k - 1] != '/'
        invariant
            k <= len <= chars@.len(),
            forall|j: int| k <= j < len ==> chars@[j] != '/',
        decreases k,
    {
        k -= 1;
    }
    proof {
        lemma_after_last_sep_is(chars@.take(len as int), k as int);
    }
    k
}

/// The directory that encloses `p`.
pub fn parent_dir(p: &str) -> (out: String)
    ensures
        out@ == parent_of(p@),
{
    let chars = chars_of(p);
    let n = trimmed_len(&chars, chars.len());
    let k = component_start(&chars, n);
    let m = trimmed_len(&chars, k);
    proof {
        assert(chars@.take(chars@.len() as int) =~= chars@);
        let t = chars@.take(n as int);
        assert(t.take(k as int) =~= chars@.take(k as int));
        assert(p@.subrange(0, m as int) =~= chars@.take(m as int));
    }
    String::from_str(p.substring_char(0, m))
}

/// The last component of `p`.
pub fn base_name(p: &str) -> (out: String)
    ensures
        out@ == last_component(p@),
{
    let chars = chars_of(p);
    let n = trimmed_len(&chars, chars.len());
    let k = component_start(&chars, n);
    proof {
        assert(chars@.take(chars@.len() as int) =~= chars@);
        assert(p@.subrange(k as int, n as int) =~= chars@.take(n as int).skip(k as int));
    }
    String::from_str(p.substring_char(k, n))
}

/// The name shown for a directory.
pub fn display_name(p: &str) -> (out: String)
    ensures
        out@ == display_name_of(p@),
{
    let name = base_name(p);
    if name.as_str().unicode_len() > 0 {
        name
    } else {
        String::from_str(p)
    }
}

/// Decides [`is_within`].
pub fn within(inner: &Vec<char>, outer: &Vec<char>) -> (out: bool)
    ensures
        out == is_within(inner@, outer@),
{
    let n = outer.len();
    if n == 0 || n > inner.len() {
        return false;
    }
    let mut i: usize = 0;
    while i < n
        invariant
            0 < n <= inner@.len(),
            n == outer@.len(),
            i <= n,
            forall|j: int| 0 <= j < i ==> inner@[j] == outer@[j],
        decreases n - i,
    {
        if inner[i] != outer[i] {
            proof {
                assert(inner@.take(n as int)[i as int] == inner@[i as int]);
            }
            return false;
        }
        i += 1;
    }
    proof {
        assert(inner@.take(n as int) =~= outer@);
    }
    n == inner.len() || outer[n - 1] == '/' || inner[n] == '/'
}

/// Decides [`is_below`].
pub fn below(inner: &Vec<char>, outer: &Vec<char>) -> (out: bool)
    ensures
        out == is_below(inner@, outer@),
{
    let inside = within(inner, outer);
    proof {
        if inside && inner@.len() == outer@.len() {
            assert(inner@.take(outer@.len() as int) =~= inner@);
        }
    }
    inside && inner.len() != outer.len()
}

/// `s` without its leading separators.
pub open spec fn strip_seps(s: Seq<char>) -> Seq<char>
    decreases s.len(),
{
    if s.len() > 0 && s[0] == '/' {
        strip_seps(s.drop_first())
    } else {
        s
    }
}

/// The path of `p` as seen from the directory `root`: what follows `root`
/// and the separators after it, where `p` lies below `root` and anything
/// follows; else the display name of `p`.
pub open spec fn relative_of(p: Seq<char>, root: Seq<char>) -> Seq<char> {
    if is_below(p, root) && strip_seps(p.skip(root.len() as int)).len() > 0 {
        strip_seps(p.skip(root.len() as int))
    } else {
        display_name_of(p)
    }
}

/// Skipping leading separators does not change what `strip_seps` gives.
proof fn lemma_strip_seps_skip(s: Seq<char>, i: int)
    requires
        0 <= i <= s.len(),
        forall|j: int| 0 <= j < i ==> s[j] == '/',
    ensures
        strip_seps(s) == strip_seps(s.skip(i)),
    decreases i,
{
    if i == 0 {
        assert(s.skip(0) =~= s);
    } else {
        lemma_strip_seps_skip(s.drop_first(), i - 1);
        assert(s.drop_first().skip(i - 1) =~= s.skip(i));
    }
}

/// The path of `p` as seen from the directory `root`.
pub fn relative_to(p: &str, root: &str) -> (out: String)
    ensures
        out@ == relative_of(p@, root@),
{
    let chars = chars_of(p);
    let root_chars = chars_of(root);
    if below(&chars, &root_chars) {
        let n = chars.len();
        let from = root_chars.len();
        let mut start: usize = from;
        while start < n && chars[start] == '/'
            invariant
                from <= start <= n,
                n == chars@.len(),
                forall|j: int| from <= j < start ==> chars@[j] == '/',
            decreases n - start,
        {
            start += 1;
        }
        proof {
            let rest = p@.skip(from as int);
            lemma_strip_seps_skip(rest, start - from);
            assert(rest.skip(start - from) =~= p@.skip(start as int));
            assert(p@.subrange(start as int, n as int) =~= p@.skip(start as int));
        }
        if start < n {
            return String::from_str(p.substring_char(start, n));
        }
    }
    display_name(p)
}

/// What lies within a directory lies within the directories that hold it.
pub proof fn lemma_within_transitive(inner: Seq<char>, middle: Seq<char>, outer: Seq<char>)
    requires
        is_within(inner, middle),
        is_within(middle, outer),
    ensures
        is_within(inner, outer),
{
    assert(inner.take(outer.len() as int) =~= middle.take(outer.len() as int)) by {
        assert forall|i: int| 0 <= i < outer.len() implies inner[i] == middle[i] by {
            assert(inner.take(middle.len() as int)[i] == middle[i]);
        }
    }
    if outer.len() < middle.len() && outer.last() != '/' {
        assert(inner.take(middle.len() as int)[outer.len() as int] == middle[outer.len() as int]);
    }
    if outer.len() == middle.len() {
        assert(middle.take(outer.len() as int) =~= middle);
    }
}

/// Of two directories that hold the same path, the longer lies within the
/// shorter: the directories above a path form a chain.
pub proof fn lemma_ancestors_nest(inner: Seq<char>, shorter: Seq<char>, longer: Seq<char>)
    requires
        is_within(inner, shorter),
        is_within(inner, longer),
        shorter.len() <= longer.len(),
    ensures
        is_within(longer, shorter),
{
    assert(longer.take(shorter.len() as int) =~= shorter) by {
        assert forall|i: int| 0 <= i < shorter.len() implies longer[i] == shorter[i] by {
            assert(inner.take(longer.len() as int)[i] == longer[i]);
            assert(inner.take(shorter.len() as int)[i] == shorter[i]);
        }
    }
    if shorter.len() < longer.len() {
        assert(inner.take(longer.len() as int)[shorter.len() as int] == longer[shorter.len() as int]);
    }
}

/// A directory comes before everything below it in lexicographic order.
pub proof fn lemma_below_comes_after(inner: Seq<char>, outer: Seq<char>)
    requires
        is_below(inner, outer),
    ensures
        outer.len() < inner.len(),
        lex_lt(outer, inner),
{
    if outer.len() == inner.len() {
        assert(inner.take(outer.len() as int) =~= inner);
    }
    lemma_lex_prefix(outer, inner);
}

} // verus!
