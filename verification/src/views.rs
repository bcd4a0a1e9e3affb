//! Views of composite values, and searching sequences of them.

use vstd::prelude::*;

verus! {

/// The views of the items of a sequence.
pub open spec fn views<T: View>(s: Seq<T>) -> Seq<T::V> {
    s.map_values(|t: T| t@)
}

/// The view of an optional value.
pub open spec fn opt_view<T: View>(o: Option<T>) -> Option<T::V> {
    match o {
        Some(t) => Some(t@),
        None => None,
    }
}

/// The view of an optional reference.
pub open spec fn opt_ref_view<T: View>(o: Option<&T>) -> Option<T::V> {
    match o {
        Some(t) => Some(t@),
        None => None,
    }
}

/// The view of a result.
pub open spec fn result_view<T: View, E: View>(r: Result<T, E>) -> Result<T::V, E::V> {
    match r {
        Ok(t) => Ok(t@),
        Err(e) => Err(e@),
    }
}

/// The view of a text that may be missing.
pub open spec fn opt_text(o: Option<&str>) -> Option<Seq<char>> {
    match o {
        Some(s) => Some(s@),
        None => None,
    }
}

/// The first item of `s` that meets `p`.
pub open spec fn first_match<V>(s: Seq<V>, p: spec_fn(V) -> bool) -> Option<V>
    decreases s.len(),
{
    if s.len() == 0 {
        None
    } else {
        match first_match(s.drop_last(), p) {
            Some(v) => Some(v),
            None => if p(s.last()) {
                Some(s.last())
            } else {
                None
            },
        }
    }
}

/// The first match is a match and there is none before it; there is no match
/// where there is no first one.
pub proof fn lemma_first_match<V>(s: Seq<V>, p: spec_fn(V) -> bool)
    ensures
        match first_match(s, p) {
            Some(v) => p(v) && exists|i: int|
                0 <= i < s.len() && #[trigger] s[i] == v && forall|j: int|
                    0 <= j < i ==> !p(#[trigger] s[j]),
            None => forall|i: int| 0 <= i < s.len() ==> !p(#[trigger] s[i]),
        },
    decreases s.len(),
{
    if s.len() > 0 {
        let rest = s.drop_last();
        lemma_first_match(rest, p);
        match first_match(rest, p) {
            Some(v) => {
                let i = choose|i: int|
                    0 <= i < rest.len() && #[trigger] rest[i] == v && forall|j: int|
                        0 <= j < i ==> !p(#[trigger] rest[j]);
                assert(s[i] == v);
                assert forall|j: int| 0 <= j < i implies !p(#[trigger] s[j]) by {
                    assert(rest[j] == s[j]);
                }
            },
            None => {
                assert forall|i: int| 0 <= i < s.len() - 1 implies !p(#[trigger] s[i]) by {
                    assert(rest[i] == s[i]);
                }
                if p(s.last()) {
                    assert(s[s.len() - 1] == s.last());
                }
            },
        }
    }
}

/// Finding a match at `i` after no match before it settles the first match.
pub proof fn lemma_first_match_at<V>(s: Seq<V>, p: spec_fn(V) -> bool, i: int)
    requires
        0 <= i < s.len(),
        p(s[i]),
        forall|j: int| 0 <= j < i ==> !p(#[trigger] s[j]),
    ensures
        first_match(s, p) == Some(s[i]),
{
    lemma_first_match(s, p);
    match first_match(s, p) {
        Some(v) => {
            let k = choose|k: int|
                0 <= k < s.len() && #[trigger] s[k] == v && forall|j: int|
                    0 <= j < k ==> !p(#[trigger] s[j]);
            if k < i {
                assert(!p(s[k]));
            }
            if i < k {
                assert(!p(s[i]));
            }
        },
        None => {
            assert(!p(s[i]));
        },
    }
}

/// Appending an item changes the first match only where there was none.
pub proof fn lemma_first_match_push<V>(s: Seq<V>, x: V, p: spec_fn(V) -> bool)
    ensures
        first_match(s.push(x), p) == (match first_match(s, p) {
            Some(v) => Some(v),
            None => if p(x) {
                Some(x)
            } else {
                None
            },
        }),
{
    assert(s.push(x).drop_last() =~= s);
}

/// What is left after filtering was there before and meets the predicate.
pub proof fn lemma_filter_from<V>(s: Seq<V>, p: spec_fn(V) -> bool, i: int)
    requires
        0 <= i < s.filter(p).len(),
    ensures
        p(s.filter(p)[i]),
        s.contains(s.filter(p)[i]),
    decreases s.len(),
{
    if s.len() > 0 {
        let rest = s.drop_last();
        assert(s =~= rest.push(s.last()));
        rest.lemma_filter_push(s.last(), p);
        if i < rest.filter(p).len() {
            lemma_filter_from(rest, p, i);
            let k = choose|k: int| 0 <= k < rest.len() && rest[k] == rest.filter(p)[i];
            assert(s[k] == s.filter(p)[i]);
        } else {
            assert(s[s.len() - 1] == s.filter(p)[i]);
        }
    } else {
        s.lemma_filter_len(p);
    }
}

/// Filtering one item more.
pub proof fn lemma_filter_next<V>(s: Seq<V>, p: spec_fn(V) -> bool, i: int)
    requires
        0 <= i < s.len(),
    ensures
        s.take(i + 1).filter(p) == (if p(s[i]) {
            s.take(i).filter(p).push(s[i])
        } else {
            s.take(i).filter(p)
        }),
{
    assert(s.take(i + 1) =~= s.take(i).push(s[i]));
    s.take(i).lemma_filter_push(s[i], p);
}

/// The first match stays the first where filtering keeps it, and there is none
/// after filtering where there was none.
pub proof fn lemma_filter_keeps_first<V>(s: Seq<V>, keep: spec_fn(V) -> bool, p: spec_fn(V) -> bool)
    requires
        first_match(s, p) is Some ==> keep(first_match(s, p)->0),
    ensures
        first_match(s.filter(keep), p) == first_match(s, p),
    decreases s.len(),
{
    if s.len() > 0 {
        let rest = s.drop_last();
        assert(s =~= rest.push(s.last()));
        rest.lemma_filter_push(s.last(), keep);
        lemma_filter_keeps_first(rest, keep, p);
        lemma_first_match_push(rest.filter(keep), s.last(), p);
        lemma_first_match_push(rest, s.last(), p);
    } else {
        s.lemma_filter_len(keep);
        assert(s.filter(keep) =~= s);
    }
}

/// Predicates that agree keep the same items.
pub proof fn lemma_filter_same<V>(s: Seq<V>, p: spec_fn(V) -> bool, q: spec_fn(V) -> bool)
    requires
        forall|i: int| 0 <= i < s.len() ==> p(#[trigger] s[i]) == q(s[i]),
    ensures
        s.filter(p) == s.filter(q),
    decreases s.len(),
{
    if s.len() > 0 {
        let rest = s.drop_last();
        assert(s =~= rest.push(s.last()));
        rest.lemma_filter_push(s.last(), p);
        rest.lemma_filter_push(s.last(), q);
        assert forall|i: int| 0 <= i < rest.len() implies p(#[trigger] rest[i]) == q(rest[i]) by {
            assert(rest[i] == s[i]);
        }
        assert(p(s[s.len() - 1]) == q(s[s.len() - 1]));
        lemma_filter_same(rest, p, q);
    } else {
        s.lemma_filter_len(p);
        s.lemma_filter_len(q);
        assert(s.filter(p) =~= s.filter(q));
    }
}

/// To filter twice is to filter once by both predicates.
pub proof fn lemma_filter_twice<V>(s: Seq<V>, p: spec_fn(V) -> bool, q: spec_fn(V) -> bool)
    ensures
        s.filter(p).filter(q) == s.filter(|v: V| p(v) && q(v)),
    decreases s.len(),
{
    let both = |v: V| p(v) && q(v);
    if s.len() > 0 {
        let rest = s.drop_last();
        assert(s =~= rest.push(s.last()));
        rest.lemma_filter_push(s.last(), p);
        rest.lemma_filter_push(s.last(), both);
        rest.filter(p).lemma_filter_push(s.last(), q);
        lemma_filter_twice(rest, p, q);
    } else {
        s.lemma_filter_len(p);
        s.filter(p).lemma_filter_len(q);
        s.lemma_filter_len(both);
        assert(s.filter(p).filter(q) =~= s.filter(both));
    }
}

} // verus!
