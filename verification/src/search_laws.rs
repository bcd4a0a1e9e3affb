//! Laws of search: which chunks are returned, in what order, and what the words
//! of a query count for.

use vstd::prelude::*;
use crate::order::{comes_from, in_order, lemma_ranked_comes_from, lemma_ranked_stable, ranked};
use crate::scores::Score;
use crate::search::{
    ahead, best_first, counts_of, file_filter_text, keyword_rank, keywords_among, keywords_of,
    law_ahead_ranks_lower, lemma_sorted_by_score, match_count, nearest_first, quoted, rescored,
    runs_of, runs_state, RunsView, ScoredChunkView,
};
use crate::text::{contains_text, is_letter_or_number, lowercase, occurs_at};
use crate::views::lemma_filter_same;

verus! {

/// Every chunk that is returned is one of the candidates, with the score that
/// was given for that candidate and all else unchanged; and different chunks
/// that are returned are different candidates.
pub proof fn law_fused_chunks_are_candidates(
    candidates: Seq<ScoredChunkView>,
    scores: Seq<Score>,
    top_k: nat,
)
    requires
        candidates.len() == scores.len(),
    ensures
        exists|from: Seq<int>|
            #![trigger from.no_duplicates()]
            from.no_duplicates() && from.len() == best_first(rescored(candidates, scores), top_k).len()
                && forall|k: int|
                0 <= k < from.len() ==> 0 <= #[trigger] from[k] < candidates.len() && best_first(
                    rescored(candidates, scores),
                    top_k,
                )[k].chunk == candidates[from[k]].chunk && best_first(
                    rescored(candidates, scores),
                    top_k,
                )[k].score == scores[from[k]],
        best_first(rescored(candidates, scores), top_k).len() == if candidates.len() < top_k {
            candidates.len()
        } else {
            top_k
        },
{
    let all = rescored(candidates, scores);
    let before = |a: ScoredChunkView, b: ScoredChunkView| b.score.lt(a.score);
    let places = lemma_ranked_comes_from(all, before);
    let kept = best_first(all, top_k);
    let from = places.take(kept.len() as int);
    assert(from.no_duplicates()) by {
        assert forall|i: int, j: int| 0 <= i < from.len() && 0 <= j < from.len() && i != j implies from[i]
            != from[j] by {
            assert(places[i] != places[j]);
        }
    }
    assert forall|k: int| 0 <= k < from.len() implies 0 <= #[trigger] from[k] < candidates.len()
        && kept[k].chunk == candidates[from[k]].chunk && kept[k].score == scores[from[k]] by {
        assert(from[k] == places[k]);
        assert(ranked(all, before)[k] == all[places[k]]);
    }
}

/// A candidate whose score is higher than every other one comes first, and of
/// two that are returned the one with the higher score comes first.
pub proof fn law_highest_score_comes_first(
    candidates: Seq<ScoredChunkView>,
    scores: Seq<Score>,
    top_k: nat,
    i: int,
)
    requires
        candidates.len() == scores.len(),
        0 <= i < scores.len(),
        top_k > 0,
        forall|j: int| 0 <= j < scores.len() ==> !(#[trigger] scores[j]).is_nan(),
        forall|j: int| 0 <= j < scores.len() && j != i ==> (#[trigger] scores[j]).lt(scores[i]),
    ensures
        best_first(rescored(candidates, scores), top_k).len() > 0,
        best_first(rescored(candidates, scores), top_k)[0].chunk == candidates[i].chunk,
        best_first(rescored(candidates, scores), top_k)[0].score == scores[i],
{
    let all = rescored(candidates, scores);
    let before = |a: ScoredChunkView, b: ScoredChunkView| b.score.lt(a.score);
    let sorted = ranked(all, before);
    let from = lemma_ranked_comes_from(all, before);
    assert forall|j: int| 0 <= j < all.len() implies !(#[trigger] all[j]).score.is_nan() by {
        assert(!scores[j].is_nan());
    }
    lemma_sorted_by_score(all);
    let j = from[0];
    assert(sorted[0] == all[j]);
    if j != i {
        assert(scores[j].lt(scores[i]));
        sorted.to_multiset_ensures();
        all.to_multiset_ensures();
        assert(all.contains(all[i]));
        assert(all.to_multiset().count(all[i]) > 0);
        assert(sorted.contains(all[i]));
        let k = choose|k: int| 0 <= k < sorted.len() && sorted[k] == all[i];
        if k > 0 {
            assert(!before(sorted[k], sorted[0]));
        }
    }
}

/// Candidates come in the order of their distances, the nearest first, and each
/// of them comes once, as it was.
pub proof fn law_nearest_come_first(chunks: Seq<ScoredChunkView>)
    requires
        forall|i: int| 0 <= i < chunks.len() ==> !(#[trigger] chunks[i]).score.is_nan(),
    ensures
        nearest_first(chunks).len() == chunks.len(),
        forall|i: int, j: int|
            0 <= i < j < chunks.len() ==> !(#[trigger] nearest_first(chunks)[j]).score.lt(
                (#[trigger] nearest_first(chunks)[i]).score,
            ),
        exists|from: Seq<int>| comes_from(nearest_first(chunks), chunks, from),
{
    let before = |a: ScoredChunkView, b: ScoredChunkView| a.score.lt(b.score);
    let from = lemma_ranked_comes_from(chunks, before);
    assert(comes_from(nearest_first(chunks), chunks, from));
    lemma_distances_in_order(chunks);
    let all = ranked(chunks, before);
    assert forall|i: int, j: int| 0 <= i < j < chunks.len() implies !(#[trigger] all[j]).score.lt(
        (#[trigger] all[i]).score,
    ) by {
        assert(!before(all[j], all[i]));
    }
}

proof fn lemma_distances_in_order(chunks: Seq<ScoredChunkView>)
    requires
        forall|i: int| 0 <= i < chunks.len() ==> !(#[trigger] chunks[i]).score.is_nan(),
    ensures
        ({
            let before = |a: ScoredChunkView, b: ScoredChunkView| a.score.lt(b.score);
            let all = ranked(chunks, before);
            &&& all.len() == chunks.len()
            &&& in_order(all, before)
            &&& forall|i: int| 0 <= i < all.len() ==> !(#[trigger] all[i]).score.is_nan()
        }),
    decreases chunks.len(),
{
    let before = |a: ScoredChunkView, b: ScoredChunkView| a.score.lt(b.score);
    if chunks.len() > 0 {
        let rest = chunks.drop_last();
        assert forall|i: int| 0 <= i < rest.len() implies !(#[trigger] rest[i]).score.is_nan() by {
            assert(rest[i] == chunks[i]);
        }
        lemma_distances_in_order(rest);
        let s = ranked(rest, before);
        let x = chunks.last();
        assert(!chunks[chunks.len() - 1].score.is_nan());
        crate::order::lemma_rank_position(s, x, before);
        let p = crate::order::rank_position(s, x, before);
        let all = s.insert(p, x);
        assert forall|i: int| 0 <= i < all.len() implies !(#[trigger] all[i]).score.is_nan() by {
            if i < p {
                assert(all[i] == s[i]);
            } else if i > p {
                assert(all[i] == s[i - 1]);
            }
        }
        assert forall|i: int, j: int| 0 <= i < j < all.len() implies !before(
            #[trigger] all[j],
            #[trigger] all[i],
        ) by {
            let ii = if i < p { i } else { i - 1 };
            let jj = if j < p { j } else { j - 1 };
            if i != p && j != p {
                assert(all[i] == s[ii] && all[j] == s[jj]);
                assert(!before(s[jj], s[ii]));
            } else if j == p {
                assert(all[i] == s[i]);
                assert(!before(x, s[i]));
            } else {
                assert(all[j] == s[jj]);
                assert(before(x, s[p]));
                if jj > p {
                    assert(!before(s[jj], s[p]));
                }
                assert(!s[jj].score.is_nan());
            }
        }
    }
}

/// The candidate that has more of the query's words in it ranks ahead by its
/// words, and of two with as many the nearer one does.
pub proof fn law_more_words_rank_ahead(
    candidates: Seq<ScoredChunkView>,
    query: Seq<char>,
    i: int,
    j: int,
)
    requires
        0 <= i < candidates.len(),
        0 <= j < candidates.len(),
        ({
            let here = words_in(candidates[i].chunk.content, keywords_of(query));
            let there = words_in(candidates[j].chunk.content, keywords_of(query));
            here > there || (here == there && i < j)
        }),
    ensures
        keyword_rank(counts_of(candidates, keywords_of(query)), i) < keyword_rank(
            counts_of(candidates, keywords_of(query)),
            j,
        ),
{
    let words = keywords_of(query);
    let counts = counts_of(candidates, words);
    law_words_counted(candidates[i].chunk.content, words);
    law_words_counted(candidates[j].chunk.content, words);
    assert(counts[i] == match_count(candidates[i].chunk.content, words));
    assert(counts[j] == match_count(candidates[j].chunk.content, words));
    assert(ahead(counts, i, j));
    law_ahead_ranks_lower(counts, i, j);
}

/// The number of words that stand somewhere in a text, whatever its case.
pub open spec fn words_in(content: Seq<char>, words: Seq<Seq<char>>) -> nat {
    words.filter(
        |w: Seq<char>|
            exists|at: int|
                0 <= at && at + w.len() <= lowercase(content).len() && #[trigger] lowercase(
                    content,
                ).subrange(at, at + w.len()) == w,
    ).len()
}

/// The words of a query that a text has in it are counted, each once.
pub proof fn law_words_counted(content: Seq<char>, words: Seq<Seq<char>>)
    ensures
        match_count(content, words) == words_in(content, words),
{
    let lower = lowercase(content);
    let p = |k: Seq<char>| contains_text(lower, k);
    let q = |w: Seq<char>|
        exists|at: int|
            0 <= at && at + w.len() <= lower.len() && #[trigger] lower.subrange(at, at + w.len()) == w;
    assert forall|i: int| 0 <= i < words.len() implies p(#[trigger] words[i]) == q(words[i]) by {
        let w = words[i];
        if p(w) {
            let at = choose|at: int| occurs_at(lower, w, at);
            assert(lower.subrange(at, at + w.len()) == w);
        }
        if q(w) {
            let at = choose|at: int|
                0 <= at && at + w.len() <= lower.len() && #[trigger] lower.subrange(at, at + w.len())
                    == w;
            assert(occurs_at(lower, w, at));
        }
    }
    lemma_filter_same(words, p, q);
}

/// From `a` to `b` stands a run of letters and numbers that is no part of a
/// longer one.
pub open spec fn is_run(s: Seq<char>, a: int, b: int) -> bool {
    &&& 0 <= a <= b <= s.len()
    &&& forall|i: int| a <= i < b ==> is_letter_or_number(#[trigger] s[i])
    &&& a > 0 ==> !is_letter_or_number(s[a - 1])
    &&& b < s.len() ==> !is_letter_or_number(s[b])
}

/// The words of a query that count are the lowercase forms of its runs of at
/// least three letters and numbers: of each of them, and of nothing else.
pub proof fn law_keywords_are_the_long_runs(text: Seq<char>, word: Seq<char>)
    ensures
        keywords_of(text).contains(word) <==> exists|a: int, b: int|
            #[trigger] is_run(text, a, b) && b - a >= 3 && lowercase(text.subrange(a, b)) == word,
{
    lemma_runs(text);
    let runs = runs_of(text);
    lemma_keywords_among(runs, word);
    if keywords_of(text).contains(word) {
        let k = choose|k: int|
            0 <= k < runs.len() && (#[trigger] runs[k]).len() >= 3 && lowercase(runs[k]) == word;
        let (a, b) = choose|a: int, b: int| #[trigger] is_run(text, a, b) && text.subrange(a, b) == runs[k];
        assert(is_run(text, a, b));
    }
    if exists|a: int, b: int|
        #[trigger] is_run(text, a, b) && b - a >= 3 && lowercase(text.subrange(a, b)) == word {
        let (a, b) = choose|a: int, b: int|
            #[trigger] is_run(text, a, b) && b - a >= 3 && lowercase(text.subrange(a, b)) == word;
        assert(runs.contains(text.subrange(a, b)));
        let k = choose|k: int| 0 <= k < runs.len() && runs[k] == text.subrange(a, b);
        assert(runs[k].len() >= 3);
    }
}

proof fn lemma_keywords_among(runs: Seq<Seq<char>>, word: Seq<char>)
    ensures
        keywords_among(runs).contains(word) <==> exists|k: int|
            0 <= k < runs.len() && (#[trigger] runs[k]).len() >= 3 && lowercase(runs[k]) == word,
    decreases runs.len(),
{
    if runs.len() > 0 {
        let rest = runs.drop_last();
        let before = keywords_among(rest);
        let all = keywords_among(runs);
        lemma_keywords_among(rest, word);
        if all.contains(word) {
            let i = choose|i: int| 0 <= i < all.len() && all[i] == word;
            if i < before.len() {
                assert(before[i] == word);
                let k = choose|k: int|
                    0 <= k < rest.len() && (#[trigger] rest[k]).len() >= 3 && lowercase(rest[k]) == word;
                assert(runs[k] == rest[k]);
            } else {
                assert(runs[runs.len() - 1].len() >= 3);
            }
        }
        if exists|k: int|
            0 <= k < runs.len() && (#[trigger] runs[k]).len() >= 3 && lowercase(runs[k]) == word {
            let k = choose|k: int|
                0 <= k < runs.len() && (#[trigger] runs[k]).len() >= 3 && lowercase(runs[k]) == word;
            if k < rest.len() {
                assert(rest[k] == runs[k]);
                let i = choose|i: int| 0 <= i < before.len() && before[i] == word;
                assert(all[i] == word);
            } else {
                assert(all[all.len() - 1] == word);
            }
        }
    }
}

/// The complete runs of a text are those that end before its end, and the open
/// one is that at its end.
spec fn tells_runs(s: Seq<char>, state: RunsView) -> bool {
    &&& state.open.len() <= s.len()
    &&& is_run(s, s.len() - state.open.len(), s.len() as int)
    &&& s.subrange(s.len() - state.open.len(), s.len() as int) == state.open
    &&& forall|k: int| 0 <= k < state.complete.len() ==> is_early_run(s, #[trigger] state.complete[k])
    &&& forall|a: int, b: int|
        #[trigger] is_run(s, a, b) && b < s.len() ==> state.complete.contains(s.subrange(a, b))
}

/// A text is a run of `s` that ends before the end of `s`.
spec fn is_early_run(s: Seq<char>, run: Seq<char>) -> bool {
    exists|a: int, b: int| #[trigger] is_run(s, a, b) && b < s.len() && s.subrange(a, b) == run
}

/// A run that ends early is one of the text without its last character, too,
/// unless it ends right there.
proof fn lemma_run_of_rest(s: Seq<char>, a: int, b: int)
    requires
        s.len() > 0,
        0 <= a <= b < s.len() - 1,
    ensures
        is_run(s, a, b) == is_run(s.drop_last(), a, b),
        s.subrange(a, b) == s.drop_last().subrange(a, b),
{
    let rest = s.drop_last();
    assert(s.subrange(a, b) =~= rest.subrange(a, b));
    assert forall|i: int| a <= i < b implies s[i] == rest[i] by {}
    assert(s[b] == rest[b]);
    if a > 0 {
        assert(s[a - 1] == rest[a - 1]);
    }
    if is_run(rest, a, b) {
        assert forall|i: int| a <= i < b implies is_letter_or_number(#[trigger] s[i]) by {
            assert(is_letter_or_number(rest[i]));
        }
    }
    if is_run(s, a, b) {
        assert forall|i: int| a <= i < b implies is_letter_or_number(#[trigger] rest[i]) by {
            assert(is_letter_or_number(s[i]));
        }
    }
}

proof fn lemma_early_run_of_rest(s: Seq<char>, run: Seq<char>)
    requires
        s.len() > 0,
        is_early_run(s.drop_last(), run),
    ensures
        is_early_run(s, run),
{
    let rest = s.drop_last();
    let (a, b) = choose|a: int, b: int|
        #[trigger] is_run(rest, a, b) && b < rest.len() && rest.subrange(a, b) == run;
    lemma_run_of_rest(s, a, b);
    assert(is_run(s, a, b));
}

/// The open run of the text without its last character stands before that one.
proof fn lemma_open_run(s: Seq<char>, before: RunsView)
    requires
        s.len() > 0,
        tells_runs(s.drop_last(), before),
    ensures
        ({
            let m = s.len() - 1;
            let start = m - before.open.len();
            &&& 0 <= start <= m
            &&& s.subrange(start, m) == before.open
            &&& forall|i: int| start <= i < m ==> is_letter_or_number(#[trigger] s[i])
            &&& start > 0 ==> !is_letter_or_number(s[start - 1])
        }),
{
    let rest = s.drop_last();
    let m = s.len() - 1;
    let start = m - before.open.len();
    assert(s.subrange(start, m) =~= rest.subrange(start, m));
    assert forall|i: int| start <= i < m implies is_letter_or_number(#[trigger] s[i]) by {
        assert(rest[i] == s[i]);
    }
    if start > 0 {
        assert(rest[start - 1] == s[start - 1]);
    }
}

proof fn lemma_runs_grow(s: Seq<char>, before: RunsView)
    requires
        s.len() > 0,
        is_letter_or_number(s.last()),
        tells_runs(s.drop_last(), before),
    ensures
        tells_runs(s, RunsView { complete: before.complete, open: before.open.push(s.last()) }),
{
    let state = RunsView { complete: before.complete, open: before.open.push(s.last()) };
    let m = s.len() - 1;
    let start = m - before.open.len();
    lemma_open_run(s, before);
    assert(s.subrange(start, m + 1) =~= before.open.push(s.last()));
    assert forall|k: int| 0 <= k < state.complete.len() implies is_early_run(
        s,
        #[trigger] state.complete[k],
    ) by {
        lemma_early_run_of_rest(s, before.complete[k]);
    }
    assert forall|a: int, b: int| #[trigger] is_run(s, a, b) && b < s.len() implies state.complete.contains(
        s.subrange(a, b),
    ) by {
        if b == m {
            assert(is_letter_or_number(s[m]));
        } else {
            lemma_run_of_rest(s, a, b);
        }
    }
}

proof fn lemma_runs_close(s: Seq<char>, before: RunsView)
    requires
        s.len() > 0,
        !is_letter_or_number(s.last()),
        tells_runs(s.drop_last(), before),
    ensures
        tells_runs(s, RunsView { complete: before.complete.push(before.open), open: Seq::empty() }),
{
    let state = RunsView { complete: before.complete.push(before.open), open: Seq::empty() };
    let m = s.len() - 1;
    let start = m - before.open.len();
    lemma_open_run(s, before);
    assert(s.subrange(s.len() as int, s.len() as int) =~= Seq::<char>::empty());
    assert(is_run(s, start, m));
    assert forall|k: int| 0 <= k < state.complete.len() implies is_early_run(
        s,
        #[trigger] state.complete[k],
    ) by {
        if k < before.complete.len() {
            assert(state.complete[k] == before.complete[k]);
            lemma_early_run_of_rest(s, before.complete[k]);
        } else {
            assert(is_run(s, start, m) && s.subrange(start, m) == state.complete[k]);
        }
    }
    assert forall|a: int, b: int| #[trigger] is_run(s, a, b) && b < s.len() implies state.complete.contains(
        s.subrange(a, b),
    ) by {
        if b < m {
            lemma_run_of_rest(s, a, b);
            assert(before.complete.contains(s.subrange(a, b)));
            let k = choose|k: int|
                0 <= k < before.complete.len() && before.complete[k] == s.subrange(a, b);
            assert(state.complete[k] == s.subrange(a, b));
        } else {
            lemma_same_run(s, a, start, m);
            assert(state.complete[before.complete.len() as int] == s.subrange(a, b));
        }
    }
}

proof fn lemma_runs_state(s: Seq<char>)
    ensures
        tells_runs(s, runs_state(s)),
    decreases s.len(),
{
    if s.len() == 0 {
        assert(s.subrange(0, 0) =~= Seq::<char>::empty());
    } else {
        lemma_runs_state(s.drop_last());
        let before = runs_state(s.drop_last());
        if is_letter_or_number(s.last()) {
            lemma_runs_grow(s, before);
        } else {
            lemma_runs_close(s, before);
        }
    }
}

proof fn lemma_runs(s: Seq<char>)
    ensures
        forall|k: int|
            0 <= k < runs_of(s).len() ==> exists|a: int, b: int|
                #[trigger] is_run(s, a, b) && s.subrange(a, b) == #[trigger] runs_of(s)[k],
        forall|a: int, b: int|
            #[trigger] is_run(s, a, b) ==> runs_of(s).contains(s.subrange(a, b)),
{
    lemma_runs_state(s);
    let state = runs_state(s);
    let n = s.len() as int;
    let runs = runs_of(s);
    let last = n - state.open.len();
    assert forall|k: int| 0 <= k < runs.len() implies exists|a: int, b: int|
        #[trigger] is_run(s, a, b) && s.subrange(a, b) == #[trigger] runs[k] by {
        if k < state.complete.len() {
            assert(runs[k] == state.complete[k]);
            assert(is_early_run(s, state.complete[k]));
        } else {
            assert(is_run(s, last, n));
        }
    }
    assert forall|a: int, b: int| #[trigger] is_run(s, a, b) implies runs.contains(s.subrange(a, b)) by {
        if b < n {
            assert(state.complete.contains(s.subrange(a, b)));
            let k = choose|k: int| 0 <= k < state.complete.len() && state.complete[k] == s.subrange(a, b);
            assert(runs[k] == s.subrange(a, b));
        } else {
            lemma_same_run(s, a, last, n);
            assert(runs[runs.len() - 1] == s.subrange(a, b));
        }
    }
}

/// Runs that end at one place start at one place.
proof fn lemma_same_run(s: Seq<char>, a: int, c: int, b: int)
    requires
        is_run(s, a, b),
        is_run(s, c, b),
    ensures
        a == c,
{
    if a < c {
        assert(is_letter_or_number(s[c - 1]));
    }
    if c < a {
        assert(is_letter_or_number(s[a - 1]));
    }
}

/// The condition that picks the chunks of a file holds its path in quotation
/// marks, character by character, with each quotation mark doubled.
pub proof fn law_file_filter(a: Seq<char>, b: Seq<char>, c: char)
    ensures
        file_filter_text(a) == "file_path = '"@ + quoted(a) + "'"@,
        quoted(Seq::<char>::empty()) == Seq::<char>::empty(),
        quoted(a + b) == quoted(a) + quoted(b),
        c != '\'' ==> quoted(seq![c]) == seq![c],
        quoted(seq!['\'']) == seq!['\'', '\''],
    decreases b.len(),
{
    assert(seq![c].drop_last() =~= Seq::<char>::empty());
    assert(seq!['\''].drop_last() =~= Seq::<char>::empty());
    assert(quoted(Seq::<char>::empty()) =~= Seq::<char>::empty());
    assert(c != '\'' ==> quoted(seq![c]) =~= seq![c]);
    assert(quoted(seq!['\'']) =~= seq!['\'', '\'']);
    if b.len() == 0 {
        assert(a + b =~= a);
        assert(quoted(a) + quoted(b) =~= quoted(a));
    } else {
        law_file_filter(a, b.drop_last(), c);
        assert((a + b).drop_last() =~= a + b.drop_last());
        assert((a + b).last() == b.last());
        assert(quoted(a + b) =~= quoted(a) + quoted(b));
    }
}

/// Of two chunks with equal scores the one that was nearer comes first: the
/// chunks that are returned come by their scores, and those with equal scores in
/// the order of the candidates.
pub proof fn law_equal_scores_keep_their_order(
    candidates: Seq<ScoredChunkView>,
    scores: Seq<Score>,
    top_k: nat,
)
    requires
        candidates.len() == scores.len(),
        forall|j: int| 0 <= j < scores.len() ==> !(#[trigger] scores[j]).is_nan(),
    ensures
        exists|from: Seq<int>|
            #![trigger from.no_duplicates()]
            from.no_duplicates() && from.len() == best_first(rescored(candidates, scores), top_k).len()
                && (forall|k: int|
                0 <= k < from.len() ==> 0 <= #[trigger] from[k] < candidates.len() && best_first(
                    rescored(candidates, scores),
                    top_k,
                )[k].chunk == candidates[from[k]].chunk) && (forall|k: int, m: int|
                0 <= k < m < from.len() ==> scores[#[trigger] from[m]].lt(scores[#[trigger] from[k]])
                    || (!scores[from[k]].lt(scores[from[m]]) && from[k] < from[m])),
{
    let all = rescored(candidates, scores);
    let before = |a: ScoredChunkView, b: ScoredChunkView| b.score.lt(a.score);
    assert forall|v: ScoredChunkView| #[trigger] all.contains(v) implies !v.score.is_nan() by {
        let i = choose|i: int| 0 <= i < all.len() && all[i] == v;
        assert(!scores[i].is_nan());
    }
    let places = lemma_ranked_stable(all, before);
    let sorted = ranked(all, before);
    let kept = best_first(all, top_k);
    let from = places.take(kept.len() as int);
    assert(from.no_duplicates()) by {
        assert forall|i: int, j: int| 0 <= i < from.len() && 0 <= j < from.len() && i != j implies from[i]
            != from[j] by {
            assert(places[i] != places[j]);
        }
    }
    assert forall|k: int| 0 <= k < from.len() implies 0 <= #[trigger] from[k] < candidates.len()
        && kept[k].chunk == candidates[from[k]].chunk by {
        assert(from[k] == places[k]);
        assert(sorted[k] == all[places[k]]);
    }
    assert forall|k: int, m: int| 0 <= k < m < from.len() implies scores[#[trigger] from[m]].lt(
        scores[#[trigger] from[k]],
    ) || (!scores[from[k]].lt(scores[from[m]]) && from[k] < from[m]) by {
        assert(from[k] == places[k] && from[m] == places[m]);
        assert(sorted[k] == all[places[k]] && sorted[m] == all[places[m]]);
        assert(!before(sorted[m], sorted[k]));
        if !before(sorted[k], sorted[m]) {
            assert(places[k] < places[m]);
        }
    }
}

/// The words that count in two texts that are set apart are those of the one,
/// followed by those of the other.
pub proof fn law_keywords_join(a: Seq<char>, sep: char, b: Seq<char>)
    requires
        !is_letter_or_number(sep),
    ensures
        keywords_of(a.push(sep) + b) == keywords_of(a) + keywords_of(b),
{
    lemma_runs_join(a, sep, b);
    let whole = runs_of(a.push(sep) + b);
    assert(whole =~= runs_of(a) + runs_of(b));
    lemma_keywords_of_both(runs_of(a), runs_of(b));
}

proof fn lemma_runs_join(a: Seq<char>, sep: char, b: Seq<char>)
    requires
        !is_letter_or_number(sep),
    ensures
        runs_state(a.push(sep) + b).complete == runs_of(a) + runs_state(b).complete,
        runs_state(a.push(sep) + b).open == runs_state(b).open,
    decreases b.len(),
{
    let whole = a.push(sep) + b;
    if b.len() == 0 {
        assert(whole =~= a.push(sep));
        assert(whole.drop_last() =~= a);
        assert(runs_of(a) + runs_state(b).complete =~= runs_of(a));
    } else {
        lemma_runs_join(a, sep, b.drop_last());
        assert(whole.drop_last() =~= a.push(sep) + b.drop_last());
        assert(whole.last() == b.last());
        assert(runs_state(whole).complete =~= runs_of(a) + runs_state(b).complete);
    }
}

proof fn lemma_keywords_of_both(a: Seq<Seq<char>>, b: Seq<Seq<char>>)
    ensures
        keywords_among(a + b) == keywords_among(a) + keywords_among(b),
    decreases b.len(),
{
    if b.len() == 0 {
        assert(a + b =~= a);
        assert(keywords_among(a) + keywords_among(b) =~= keywords_among(a));
    } else {
        lemma_keywords_of_both(a, b.drop_last());
        assert((a + b).drop_last() =~= a + b.drop_last());
        assert((a + b).last() == b.last());
        assert(keywords_among(a + b) =~= keywords_among(a) + keywords_among(b));
    }
}

} // verus!
