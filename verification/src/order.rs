//! Orders on text, and stable sorting by insertion.

use vstd::prelude::*;
use crate::text::chars_of;
use crate::views::views;

verus! {

/// `a` and `b` agree on their first `k` characters, and `a` ends there or has
/// the smaller character there.
pub open spec fn lex_lt_at(a: Seq<char>, b: Seq<char>, k: int) -> bool {
    &&& 0 <= k <= a.len()
    &&& k < b.len()
    &&& forall|j: int| 0 <= j < k ==> a[j] == b[j]
    &&& k == a.len() || a[k] < b[k]
}

/// `a` comes before `b` in the order of their characters' code points, which
/// is also the order of their UTF-8 bytes.
pub open spec fn lex_lt(a: Seq<char>, b: Seq<char>) -> bool {
    exists|k: int| lex_lt_at(a, b, k)
}

/// Two texts that come in neither order are the same.
pub proof fn lemma_lex_total(a: Seq<char>, b: Seq<char>)
    ensures
        lex_lt(a, b) || lex_lt(b, a) || a == b,
{
    lemma_lex_scan(a, b, 0);
}

proof fn lemma_lex_scan(a: Seq<char>, b: Seq<char>, k: int)
    requires
        0 <= k <= a.len(),
        k <= b.len(),
        forall|j: int| 0 <= j < k ==> a[j] == b[j],
    ensures
        lex_lt(a, b) || lex_lt(b, a) || a == b,
    decreases a.len() - k,
{
    if k < a.len() && k < b.len() && a[k] == b[k] {
        lemma_lex_scan(a, b, k + 1);
    } else if k == a.len() && k == b.len() {
        assert(a =~= b);
    } else if k == a.len() || (k < b.len() && a[k] < b[k]) {
        assert(lex_lt_at(a, b, k));
    } else {
        assert(lex_lt_at(b, a, k));
    }
}

/// No text comes before itself, and no two texts come before each other.
pub proof fn lemma_lex_asymmetric(a: Seq<char>, b: Seq<char>)
    requires
        lex_lt(a, b),
    ensures
        !lex_lt(b, a),
        a != b,
{
    let k = choose|k: int| lex_lt_at(a, b, k);
    if lex_lt(b, a) {
        let m = choose|m: int| lex_lt_at(b, a, m);
        if k < m {
            assert(b[k] == a[k]);
        } else if m < k {
            assert(a[m] == b[m]);
        }
    }
    if a == b {
        assert(lex_lt_at(a, a, k));
    }
}

/// The order of texts is transitive.
pub proof fn lemma_lex_transitive(a: Seq<char>, b: Seq<char>, c: Seq<char>)
    requires
        lex_lt(a, b),
        lex_lt(b, c),
    ensures
        lex_lt(a, c),
{
    let k = choose|k: int| lex_lt_at(a, b, k);
    let m = choose|m: int| lex_lt_at(b, c, m);
    let n = if k < m {
        k
    } else {
        m
    };
    assert(lex_lt_at(a, c, n));
}

/// Whether `a` comes before `b` in the order of texts.
pub fn text_before(a: &str, b: &str) -> (r: bool)
    ensures
        r == lex_lt(a@, b@),
{
    let x: Vec<char> = chars_of(a);
    let y: Vec<char> = chars_of(b);
    let mut i: usize = 0;
    while i < x.len() && i < y.len()
        invariant
            i <= x@.len(),
            i <= y@.len(),
            x@ == a@,
            y@ == b@,
            forall|j: int| 0 <= j < i ==> x@[j] == y@[j],
        decreases x@.len() - i,
    {
        if x[i] != y[i] {
            if x[i] < y[i] {
                proof {
                    assert(lex_lt_at(a@, b@, i as int));
                }
                return true;
            }
            proof {
                assert(lex_lt_at(b@, a@, i as int));
                lemma_lex_asymmetric(b@, a@);
            }
            return false;
        }
        i += 1;
    }
    if i < y.len() {
        proof {
            assert(lex_lt_at(a@, b@, i as int));
        }
        true
    } else {
        proof {
            if i < x.len() {
                assert(lex_lt_at(b@, a@, i as int));
                lemma_lex_asymmetric(b@, a@);
            } else {
                assert(a@ =~= b@);
                if lex_lt(a@, b@) {
                    lemma_lex_asymmetric(a@, b@);
                }
            }
        }
        false
    }
}

/// Values that are kept in an order, which depends on their views alone.
pub trait Ranked: View + Sized {
    /// A value that looks like `a` comes before one that looks like `b`.
    spec fn before(a: Self::V, b: Self::V) -> bool;

    /// Whether this value comes before `other`.
    fn is_before(&self, other: &Self) -> (r: bool)
        ensures
            r == Self::before(self@, other@),
    ;
}

impl Ranked for String {
    open spec fn before(a: Seq<char>, b: Seq<char>) -> bool {
        lex_lt(a, b)
    }

    fn is_before(&self, other: &Self) -> (r: bool) {
        text_before(self.as_str(), other.as_str())
    }
}

/// The number of items at the start of `s` that `x` does not come before.
pub open spec fn rank_position<V>(s: Seq<V>, x: V, before: spec_fn(V, V) -> bool) -> int
    decreases s.len(),
{
    if s.len() == 0 || before(x, s[0]) {
        0
    } else {
        1 + rank_position(s.drop_first(), x, before)
    }
}

/// `s` with `x` put in front of the first item that it comes before.
pub open spec fn ranked_insert<V>(s: Seq<V>, x: V, before: spec_fn(V, V) -> bool) -> Seq<V> {
    s.insert(rank_position(s, x, before), x)
}

/// The items of `s` in order; items that come in neither order stay as they
/// stood.
pub open spec fn ranked<V>(s: Seq<V>, before: spec_fn(V, V) -> bool) -> Seq<V>
    decreases s.len(),
{
    if s.len() == 0 {
        s
    } else {
        ranked_insert(ranked(s.drop_last(), before), s.last(), before)
    }
}

/// No item comes before one that stands ahead of it.
pub open spec fn in_order<V>(s: Seq<V>, before: spec_fn(V, V) -> bool) -> bool {
    forall|i: int, j: int| 0 <= i < j < s.len() ==> !before(#[trigger] s[j], #[trigger] s[i])
}

/// `before` is the order of some ranking: what comes in neither order is
/// equally ranked.
pub open spec fn is_ranking<V>(before: spec_fn(V, V) -> bool) -> bool {
    &&& forall|a: V, b: V| #[trigger] before(a, b) ==> !before(b, a)
    &&& forall|a: V, b: V, c: V|
        #![trigger before(a, c), before(b, c)]
        #![trigger before(a, b), before(a, c)]
        before(a, c) ==> before(a, b) || before(b, c)
}

/// Where an item is inserted, in terms of what stands on either side.
pub proof fn lemma_rank_position<V>(s: Seq<V>, x: V, before: spec_fn(V, V) -> bool)
    ensures
        0 <= rank_position(s, x, before) <= s.len(),
        forall|j: int| 0 <= j < rank_position(s, x, before) ==> !before(x, #[trigger] s[j]),
        rank_position(s, x, before) < s.len() ==> before(x, s[rank_position(s, x, before)]),
    decreases s.len(),
{
    if s.len() == 0 || before(x, s[0]) {
    } else {
        let rest = s.drop_first();
        lemma_rank_position(rest, x, before);
        let p = rank_position(s, x, before);
        assert forall|j: int| 0 <= j < p implies !before(x, #[trigger] s[j]) by {
            if j > 0 {
                assert(rest[j - 1] == s[j]);
            }
        }
        if p < s.len() {
            assert(rest[p - 1] == s[p]);
        }
    }
}

/// Sorting puts the items in order and neither loses nor adds any.
pub proof fn lemma_ranked<V>(s: Seq<V>, before: spec_fn(V, V) -> bool)
    requires
        is_ranking(before),
    ensures
        in_order(ranked(s, before), before),
        ranked(s, before).to_multiset() == s.to_multiset(),
        ranked(s, before).len() == s.len(),
    decreases s.len(),
{
    if s.len() > 0 {
        let x = s.last();
        let rest = ranked(s.drop_last(), before);
        lemma_ranked(s.drop_last(), before);
        lemma_rank_position(rest, x, before);
        let p = rank_position(rest, x, before);
        lemma_ranked_insert_in_order(rest, x, before);
        vstd::seq_lib::to_multiset_insert(rest, p, x);
        assert(s =~= s.drop_last().push(x));
        vstd::seq_lib::to_multiset_build(s.drop_last(), x);
    }
}

/// The order of texts is a ranking.
pub proof fn lemma_lex_is_ranking()
    ensures
        is_ranking(|a: Seq<char>, b: Seq<char>| lex_lt(a, b)),
{
    let before = |a: Seq<char>, b: Seq<char>| lex_lt(a, b);
    assert forall|a: Seq<char>, b: Seq<char>| #[trigger] before(a, b) implies !before(b, a) by {
        lemma_lex_asymmetric(a, b);
    }
    assert forall|a: Seq<char>, b: Seq<char>, c: Seq<char>|
        #![trigger before(a, c), before(b, c)]
        #![trigger before(a, b), before(a, c)]
        before(a, c) implies before(a, b) || before(b, c) by {
        lemma_lex_total(a, b);
        if lex_lt(b, a) {
            lemma_lex_transitive(b, a, c);
        }
    }
}

/// Texts in order are settled by which texts there are.
pub proof fn lemma_sorted_texts_unique(a: Seq<Seq<char>>, b: Seq<Seq<char>>)
    requires
        in_order(a, |x: Seq<char>, y: Seq<char>| lex_lt(x, y)),
        in_order(b, |x: Seq<char>, y: Seq<char>| lex_lt(x, y)),
        a.to_multiset() == b.to_multiset(),
    ensures
        a == b,
{
    let lt = |x: Seq<char>, y: Seq<char>| lex_lt(x, y);
    let leq = |x: Seq<char>, y: Seq<char>| !lex_lt(y, x);
    assert forall|x: Seq<char>| #[trigger] leq(x, x) by {
        if lex_lt(x, x) {
            lemma_lex_asymmetric(x, x);
        }
    }
    assert forall|x: Seq<char>, y: Seq<char>| #[trigger] leq(x, y) && #[trigger] leq(y, x) implies x == y by {
        lemma_lex_total(x, y);
    }
    assert forall|x: Seq<char>, y: Seq<char>, z: Seq<char>|
        #[trigger] leq(x, y) && #[trigger] leq(y, z) implies leq(x, z) by {
        if lex_lt(z, x) {
            lemma_lex_total(x, y);
            if lex_lt(x, y) {
                lemma_lex_transitive(z, x, y);
            }
        }
    }
    assert forall|x: Seq<char>, y: Seq<char>| #[trigger] leq(x, y) || #[trigger] leq(y, x) by {
        if lex_lt(y, x) {
            lemma_lex_asymmetric(y, x);
        }
    }
    assert(vstd::relations::total_ordering(leq));
    assert forall|i: int, j: int| 0 <= i < j < a.len() implies #[trigger] leq(a[i], a[j]) by {
        assert(!lt(a[j], a[i]));
    }
    assert forall|i: int, j: int| 0 <= i < j < b.len() implies #[trigger] leq(b[i], b[j]) by {
        assert(!lt(b[j], b[i]));
    }
    vstd::seq_lib::lemma_sorted_unique(a, b, leq);
}

/// Puts `x` into the ordered `v`, in front of the first item that it comes
/// before.
pub fn insert_ranked<T: Ranked>(v: &mut Vec<T>, x: T)
    ensures
        views(final(v)@) == ranked_insert(views(old(v)@), x@, |a: T::V, b: T::V| T::before(a, b)),
{
    let ghost before = |a: T::V, b: T::V| T::before(a, b);
    let ghost all = views(v@);
    let mut i: usize = 0;
    proof {
        assert(all.skip(0) =~= all);
    }
    while i < v.len()
        invariant
            i <= v@.len(),
            all == views(v@),
            before == (|a: T::V, b: T::V| T::before(a, b)),
            rank_position(all, x@, before) == i + rank_position(all.skip(i as int), x@, before),
        ensures
            i <= v@.len(),
            rank_position(all, x@, before) == i,
        decreases v@.len() - i,
    {
        proof {
            assert(all.skip(i as int)[0] == v@[i as int]@);
            assert(all.skip(i as int).drop_first() =~= all.skip(i + 1));
        }
        if x.is_before(&v[i]) {
            break;
        }
        i += 1;
    }
    let ghost item = x;
    let ghost items = v@;
    v.insert(i, x);
    proof {
        assert(v@ == items.insert(i as int, item));
        assert(views(v@) =~= all.insert(i as int, item@));
    }
}

/// Puts `x` into `v`, whose items are in order, in front of the first item
/// that it comes before.
pub fn insert_sorted<T: Ranked>(v: &mut Vec<T>, x: T)
    requires
        is_ranking(|a: T::V, b: T::V| T::before(a, b)),
        in_order(views(old(v)@), |a: T::V, b: T::V| T::before(a, b)),
    ensures
        views(final(v)@) == ranked_insert(views(old(v)@), x@, |a: T::V, b: T::V| T::before(a, b)),
{
    let ghost before = |a: T::V, b: T::V| T::before(a, b);
    let ghost all = views(v@);
    let ghost at = rank_position(all, x@, before);
    proof {
        lemma_rank_position(all, x@, before);
        assert forall|j: int| at <= j < all.len() implies before(x@, #[trigger] all[j]) by {
            if j > at {
                assert(!before(all[j], all[at]));
                assert(before(x@, all[at]));
                assert(before(x@, all[j]) || before(all[j], all[at]));
            }
        }
    }
    let mut lo: usize = 0;
    let mut hi: usize = v.len();
    while lo < hi
        invariant
            lo <= at <= hi <= v@.len(),
            all == views(v@),
            before == (|a: T::V, b: T::V| T::before(a, b)),
            forall|j: int| 0 <= j < at ==> !before(x@, #[trigger] all[j]),
            forall|j: int| at <= j < all.len() ==> before(x@, #[trigger] all[j]),
        decreases hi - lo,
    {
        let mid: usize = lo + (hi - lo) / 2;
        proof {
            assert(all[mid as int] == v@[mid as int]@);
        }
        if x.is_before(&v[mid]) {
            hi = mid;
        } else {
            lo = mid + 1;
        }
    }
    let ghost item = x;
    let ghost items = v@;
    v.insert(lo, x);
    proof {
        assert(v@ == items.insert(lo as int, item));
        assert(views(v@) =~= all.insert(lo as int, item@));
    }
}

/// Inserting keeps the order.
pub proof fn lemma_ranked_insert_in_order<V>(s: Seq<V>, x: V, before: spec_fn(V, V) -> bool)
    requires
        is_ranking(before),
        in_order(s, before),
    ensures
        in_order(ranked_insert(s, x, before), before),
{
    lemma_rank_position(s, x, before);
    let p = rank_position(s, x, before);
    let all = s.insert(p, x);
    assert forall|i: int, j: int| 0 <= i < j < all.len() implies !before(
        #[trigger] all[j],
        #[trigger] all[i],
    ) by {
        let ii = if i < p { i } else { i - 1 };
        let jj = if j < p { j } else { j - 1 };
        if i != p && j != p {
            assert(all[i] == s[ii] && all[j] == s[jj]);
        } else if j == p {
            assert(all[i] == s[i]);
        } else {
            assert(all[j] == s[jj]);
            assert(before(x, s[p]));
            if jj > p {
                assert(!before(s[jj], s[p]));
            }
            if before(s[jj], x) {
                assert(before(s[jj], s[p]) || before(s[p], x) || before(x, s[jj]));
            }
        }
    }
}

/// No text comes before itself.
pub proof fn lemma_lex_irreflexive(a: Seq<char>)
    ensures
        !lex_lt(a, a),
{
    if lex_lt(a, a) {
        lemma_lex_asymmetric(a, a);
    }
}

/// To order items neither loses nor adds one.
pub proof fn lemma_ranked_same_items<V>(s: Seq<V>, before: spec_fn(V, V) -> bool, v: V)
    requires
        is_ranking(before),
    ensures
        ranked(s, before).contains(v) == s.contains(v),
{
    lemma_ranked(s, before);
    s.to_multiset_ensures();
    ranked(s, before).to_multiset_ensures();
    assert(ranked(s, before).contains(v) == (s.to_multiset().count(v) > 0));
}

/// `from` says where each item of `sorted` stands in `s`: at different places.
pub open spec fn comes_from<V>(sorted: Seq<V>, s: Seq<V>, from: Seq<int>) -> bool {
    &&& from.len() == sorted.len()
    &&& from.no_duplicates()
    &&& forall|k: int|
        0 <= k < sorted.len() ==> 0 <= #[trigger] from[k] < s.len() && sorted[k] == s[from[k]]
}

/// Each item of what was ordered stands at a place of its own in what it was
/// ordered from.
pub proof fn lemma_ranked_comes_from<V>(s: Seq<V>, before: spec_fn(V, V) -> bool) -> (from: Seq<int>)
    ensures
        comes_from(ranked(s, before), s, from),
        ranked(s, before).len() == s.len(),
    decreases s.len(),
{
    if s.len() == 0 {
        Seq::empty()
    } else {
        let rest = s.drop_last();
        let sorted = ranked(rest, before);
        let x = s.last();
        let n = s.len() - 1;
        let inner = lemma_ranked_comes_from(rest, before);
        lemma_rank_position(sorted, x, before);
        let p = rank_position(sorted, x, before);
        let from = inner.insert(p, n);
        let all = ranked(s, before);
        assert(all == sorted.insert(p, x));
        assert forall|k: int| 0 <= k < all.len() implies 0 <= #[trigger] from[k] < s.len() && all[k]
            == s[from[k]] by {
            if k < p {
                assert(from[k] == inner[k] && all[k] == sorted[k]);
                assert(rest[inner[k]] == s[inner[k]]);
            } else if k > p {
                assert(from[k] == inner[k - 1] && all[k] == sorted[k - 1]);
                assert(rest[inner[k - 1]] == s[inner[k - 1]]);
            }
        }
        assert forall|i: int, j: int| 0 <= i < from.len() && 0 <= j < from.len() && i != j implies from[i]
            != from[j] by {
            let a = if i < p { i } else { i - 1 };
            let b = if j < p { j } else { j - 1 };
            if i != p {
                assert(from[i] == inner[a]);
                assert(0 <= inner[a] < rest.len());
            }
            if j != p {
                assert(from[j] == inner[b]);
                assert(0 <= inner[b] < rest.len());
            }
        }
        from
    }
}

/// `before` ranks the items of `s`.
pub open spec fn ranks_items<V>(s: Seq<V>, before: spec_fn(V, V) -> bool) -> bool {
    &&& forall|a: V, b: V| s.contains(a) && s.contains(b) && #[trigger] before(a, b) ==> !before(b, a)
    &&& forall|a: V, b: V, c: V|
        #![trigger before(a, c), before(b, c)]
        #![trigger before(a, b), before(a, c)]
        s.contains(a) && s.contains(b) && s.contains(c) && before(a, c) ==> before(a, b) || before(b, c)
}

/// Items that come in neither order stay as they stood.
pub open spec fn keeps_ties<V>(sorted: Seq<V>, from: Seq<int>, before: spec_fn(V, V) -> bool) -> bool {
    forall|k: int, m: int|
        0 <= k < m < sorted.len() && !before(#[trigger] sorted[k], #[trigger] sorted[m]) ==> from[k]
            < from[m]
}

/// Items that are ranked come in order, each from a place of its own, and those
/// that come in neither order as they stood.
pub proof fn lemma_ranked_stable<V>(s: Seq<V>, before: spec_fn(V, V) -> bool) -> (from: Seq<int>)
    requires
        ranks_items(s, before),
    ensures
        comes_from(ranked(s, before), s, from),
        ranked(s, before).len() == s.len(),
        in_order(ranked(s, before), before),
        keeps_ties(ranked(s, before), from, before),
    decreases s.len(),
{
    if s.len() == 0 {
        Seq::empty()
    } else {
        let rest = s.drop_last();
        let sorted = ranked(rest, before);
        let x = s.last();
        let n = s.len() - 1;
        assert forall|v: V| rest.contains(v) implies s.contains(v) by {
            let i = choose|i: int| 0 <= i < rest.len() && rest[i] == v;
            assert(s[i] == v);
        }
        assert(s[n] == x);
        let inner = lemma_ranked_stable(rest, before);
        assert forall|k: int| 0 <= k < sorted.len() implies s.contains(#[trigger] sorted[k]) by {
            assert(rest[inner[k]] == sorted[k]);
            assert(rest.contains(sorted[k]));
        }
        lemma_rank_position(sorted, x, before);
        let p = rank_position(sorted, x, before);
        let from = inner.insert(p, n);
        let all = ranked(s, before);
        assert(all == sorted.insert(p, x));
        assert forall|k: int| 0 <= k < all.len() implies 0 <= #[trigger] from[k] < s.len() && all[k]
            == s[from[k]] by {
            if k < p {
                assert(from[k] == inner[k] && all[k] == sorted[k]);
                assert(rest[inner[k]] == s[inner[k]]);
            } else if k > p {
                assert(from[k] == inner[k - 1] && all[k] == sorted[k - 1]);
                assert(rest[inner[k - 1]] == s[inner[k - 1]]);
            }
        }
        assert forall|i: int, j: int| 0 <= i < from.len() && 0 <= j < from.len() && i != j implies from[i]
            != from[j] by {
            let a = if i < p { i } else { i - 1 };
            let b = if j < p { j } else { j - 1 };
            if i != p {
                assert(from[i] == inner[a]);
                assert(0 <= inner[a] < rest.len());
            }
            if j != p {
                assert(from[j] == inner[b]);
                assert(0 <= inner[b] < rest.len());
            }
        }
        assert forall|m: int| p <= m < sorted.len() implies before(x, #[trigger] sorted[m]) by {
            if m > p {
                assert(!before(sorted[m], sorted[p]));
                assert(before(x, sorted[p]));
            }
        }
        assert forall|i: int, j: int| 0 <= i < j < all.len() implies !before(
            #[trigger] all[j],
            #[trigger] all[i],
        ) by {
            let a = if i < p { i } else { i - 1 };
            let b = if j < p { j } else { j - 1 };
            if i != p && j != p {
                assert(all[i] == sorted[a] && all[j] == sorted[b]);
            } else if j == p {
                assert(all[i] == sorted[i]);
            } else {
                assert(all[j] == sorted[b]);
                assert(before(x, sorted[b]));
            }
        }
        assert forall|k: int, m: int|
            0 <= k < m < all.len() && !before(#[trigger] all[k], #[trigger] all[m]) implies from[k]
            < from[m] by {
            let a = if k < p { k } else { k - 1 };
            let b = if m < p { m } else { m - 1 };
            if k != p && m != p {
                assert(all[k] == sorted[a] && all[m] == sorted[b]);
                assert(from[k] == inner[a] && from[m] == inner[b]);
            } else if m == p {
                assert(from[k] == inner[a]);
                assert(0 <= inner[a] < rest.len());
            } else {
                assert(all[m] == sorted[b]);
            }
        }
        from
    }
}

} // verus!
