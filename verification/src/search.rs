//! Hybrid search: what a vector index returns is ranked by distance and by
//! the query's words, and the best of both is kept.

use vstd::prelude::*;
use crate::ids::Uuid;
use crate::order::{insert_ranked, ranked, Ranked};
use crate::profiles::id_or_nil;
use crate::scores::Score;
use crate::text::{contains, contains_text, is_letter_or_number, lowercase};
use crate::views::{lemma_filter_next, views};
use crate::words::{signed, signed_text};

verus! {

/// The dimension of the embeddings of the default model.
pub const EMBEDDING_DIM: i32 = 384;

/// What can go wrong with a vector index.
#[derive(Debug)]
pub enum VectorStoreError {
    OpenFailed { path: String, reason: String },
    ChunkNotFound(Uuid),
    /// The index holds embeddings of another dimension.
    DimensionMismatch { existing: i32, requested: i32 },
}

/// What a [`VectorStoreError`] holds.
pub enum VectorStoreErrorView {
    OpenFailed { path: Seq<char>, reason: Seq<char> },
    ChunkNotFound(Uuid),
    DimensionMismatch { existing: i32, requested: i32 },
}

impl View for VectorStoreError {
    type V = VectorStoreErrorView;

    open spec fn view(&self) -> VectorStoreErrorView {
        match *self {
            VectorStoreError::OpenFailed { path, reason } => VectorStoreErrorView::OpenFailed {
                path: path@,
                reason: reason@,
            },
            VectorStoreError::ChunkNotFound(id) => VectorStoreErrorView::ChunkNotFound(id),
            VectorStoreError::DimensionMismatch { existing, requested } =>
                VectorStoreErrorView::DimensionMismatch { existing, requested },
        }
    }
}

/// The sentence that tells of an error.
pub open spec fn vector_error_text(e: VectorStoreErrorView) -> Seq<char> {
    match e {
        VectorStoreErrorView::OpenFailed { path, reason } => "failed to open vector index at "@ + path
            + ": "@ + reason,
        VectorStoreErrorView::ChunkNotFound(id) => "chunk "@ + crate::ids::uuid_text(id)
            + " not found"@,
        VectorStoreErrorView::DimensionMismatch { existing, requested } =>
            "AGENT_SURFACE.EMBEDDING_DIMENSION_MISMATCH: the index holds "@ + signed_text(
            existing as int,
        ) + "-dimensional embeddings, the provider reports "@ + signed_text(requested as int)
            + " — delete .kern/vectors to switch"@,
    }
}

impl VectorStoreError {
    /// The sentence that tells of the error.
    pub fn message(&self) -> (r: String)
        ensures
            r@ == vector_error_text(self@),
    {
        match self {
            VectorStoreError::OpenFailed { path, reason } => {
                let mut r: String = "failed to open vector index at ".to_owned();
                r.append(path.as_str());
                r.append(": ");
                r.append(reason.as_str());
                r
            },
            VectorStoreError::ChunkNotFound(id) => {
                let mut r: String = "chunk ".to_owned();
                r.append(id.to_text().as_str());
                r.append(" not found");
                r
            },
            VectorStoreError::DimensionMismatch { existing, requested } => {
                let mut r: String =
                    "AGENT_SURFACE.EMBEDDING_DIMENSION_MISMATCH: the index holds ".to_owned();
                r.append(signed(*existing).as_str());
                r.append("-dimensional embeddings, the provider reports ");
                r.append(signed(*requested).as_str());
                r.append(" — delete .kern/vectors to switch");
                r
            },
        }
    }
}

/// What is to be done about the table of an index.
#[derive(Clone, Copy, Debug, PartialEq, Eq, Structural)]
pub enum TablePlan {
    /// It is there, and fits.
    Keep,
    /// It is not there.
    Create,
}

/// Decides what is to be done about the table of an index, whose dimension is
/// fixed once it is there: an index is never rebuilt or truncated silently.
pub fn plan_table(existing: Option<i32>, requested: i32) -> (r: Result<TablePlan, VectorStoreError>)
    ensures
        match existing {
            None => r == Ok::<TablePlan, VectorStoreError>(TablePlan::Create),
            Some(d) => if d == requested {
                r == Ok::<TablePlan, VectorStoreError>(TablePlan::Keep)
            } else {
                r is Err && r->Err_0@ == (VectorStoreErrorView::DimensionMismatch {
                    existing: d,
                    requested,
                })
            },
        },
{
    match existing {
        None => Ok(TablePlan::Create),
        Some(d) => if d == requested {
            Ok(TablePlan::Keep)
        } else {
            Err(VectorStoreError::DimensionMismatch { existing: d, requested })
        },
    }
}

/// A chunk as it is stored.
#[derive(Debug)]
pub struct ChunkRecord {
    pub id: Uuid,
    pub file_path: String,
    pub content: String,
    pub embedding: Vec<Score>,
    pub content_hash: String,
    pub updated_at: String,
}

/// What a [`ChunkRecord`] holds.
#[verifier::ext_equal]
pub struct ChunkRecordView {
    pub id: Uuid,
    pub file_path: Seq<char>,
    pub content: Seq<char>,
    pub embedding: Seq<Score>,
    pub content_hash: Seq<char>,
    pub updated_at: Seq<char>,
}

impl View for ChunkRecord {
    type V = ChunkRecordView;

    open spec fn view(&self) -> ChunkRecordView {
        ChunkRecordView {
            id: self.id,
            file_path: self.file_path@,
            content: self.content@,
            embedding: self.embedding@,
            content_hash: self.content_hash@,
            updated_at: self.updated_at@,
        }
    }
}

/// A chunk with its distance or its score.
#[derive(Debug)]
pub struct ScoredChunk {
    pub chunk: ChunkRecord,
    pub score: Score,
}

/// What a [`ScoredChunk`] holds.
#[verifier::ext_equal]
pub struct ScoredChunkView {
    pub chunk: ChunkRecordView,
    pub score: Score,
}

impl View for ScoredChunk {
    type V = ScoredChunkView;

    open spec fn view(&self) -> ScoredChunkView {
        ScoredChunkView { chunk: self.chunk@, score: self.score }
    }
}

/// A row of an index as a chunk with its distance, zero where the index gave
/// none.
pub fn row_to_scored(
    id: &str,
    file_path: String,
    content: String,
    content_hash: String,
    updated_at: String,
    distance: Option<Score>,
) -> (r: ScoredChunk)
    ensures
        r@ == (ScoredChunkView {
            chunk: ChunkRecordView {
                id: id_or_nil(id@),
                file_path: file_path@,
                content: content@,
                embedding: Seq::empty(),
                content_hash: content_hash@,
                updated_at: updated_at@,
            },
            score: match distance {
                Some(d) => d,
                None => Score { bits: 0 },
            },
        }),
{
    let score: Score = match distance {
        Some(d) => d,
        None => Score { bits: 0 },
    };
    let r = ScoredChunk {
        chunk: ChunkRecord {
            id: Uuid::parse_or_nil(id),
            file_path,
            content,
            embedding: Vec::new(),
            content_hash,
            updated_at,
        },
        score,
    };
    proof {
        assert(r@.chunk.embedding =~= Seq::<Score>::empty());
    }
    r
}

/// The number of candidates that an index is asked for: enough for the words
/// of the query to change the ranking, and not only to break ties.
pub fn candidate_pool(top_k: usize) -> (r: usize)
    requires
        top_k * 4 <= usize::MAX,
    ensures
        r == (if top_k * 4 > 20 {
            top_k * 4
        } else {
            20
        }),
{
    let wanted: usize = top_k * 4;
    if wanted > 20 {
        wanted
    } else {
        20
    }
}

/// `path` with each quotation mark doubled.
pub open spec fn quoted(path: Seq<char>) -> Seq<char>
    decreases path.len(),
{
    if path.len() == 0 {
        path
    } else if path.last() == '\'' {
        quoted(path.drop_last()).push('\'').push('\'')
    } else {
        quoted(path.drop_last()).push(path.last())
    }
}

/// The condition that picks the chunks of a file.
pub open spec fn file_filter_text(path: Seq<char>) -> Seq<char> {
    "file_path = '"@ + quoted(path) + "'"@
}

/// The condition that picks the chunks of a file.
pub fn file_filter(file_path: &str) -> (r: String)
    ensures
        r@ == file_filter_text(file_path@),
{
    let mut escaped: String = String::new();
    for c in it: file_path.chars()
        invariant
            it.seq() == file_path@,
            escaped@ == quoted(file_path@.take(it.index() as int)),
    {
        proof {
            assert(file_path@.take(it.index() + 1).drop_last() =~= file_path@.take(it.index() as int));
        }
        if c == '\'' {
            escaped.push('\'');
        }
        escaped.push(c);
    }
    proof {
        assert(file_path@.take(file_path@.len() as int) =~= file_path@);
    }
    let mut r: String = "file_path = '".to_owned();
    r.append(escaped.as_str());
    r.append("'");
    r
}

/// Different files are picked by different conditions.
pub proof fn law_quoting_tells_apart(a: Seq<char>, b: Seq<char>)
    requires
        quoted(a) == quoted(b),
    ensures
        a == b,
    decreases a.len(),
{
    if a.len() == 0 || b.len() == 0 {
        lemma_quoted_len(a);
        lemma_quoted_len(b);
        assert(a =~= b);
    } else {
        let qa = quoted(a.drop_last());
        let qb = quoted(b.drop_last());
        assert(quoted(a).last() == a.last());
        assert(quoted(b).last() == b.last());
        if a.last() == '\'' {
            assert(qa =~= quoted(a).drop_last().drop_last());
            assert(qb =~= quoted(b).drop_last().drop_last());
        } else {
            assert(qa =~= quoted(a).drop_last());
            assert(qb =~= quoted(b).drop_last());
        }
        law_quoting_tells_apart(a.drop_last(), b.drop_last());
        assert(a =~= a.drop_last().push(a.last()));
        assert(b =~= b.drop_last().push(b.last()));
    }
}

proof fn lemma_quoted_len(a: Seq<char>)
    ensures
        quoted(a).len() >= a.len(),
        a.len() > 0 ==> quoted(a).len() > 0,
    decreases a.len(),
{
    if a.len() > 0 {
        lemma_quoted_len(a.drop_last());
    }
}

/// The state of cutting a text into runs of letters and numbers: the runs that
/// are complete, and the one that is not.
pub struct RunsView {
    pub complete: Seq<Seq<char>>,
    pub open: Seq<char>,
}

/// Where cutting `s` into runs stands after its last character.
pub open spec fn runs_state(s: Seq<char>) -> RunsView
    decreases s.len(),
{
    if s.len() == 0 {
        RunsView { complete: Seq::empty(), open: Seq::empty() }
    } else {
        let before = runs_state(s.drop_last());
        if is_letter_or_number(s.last()) {
            RunsView { complete: before.complete, open: before.open.push(s.last()) }
        } else {
            RunsView { complete: before.complete.push(before.open), open: Seq::empty() }
        }
    }
}

/// The texts between the characters that are neither letters nor numbers.
pub open spec fn runs_of(s: Seq<char>) -> Seq<Seq<char>> {
    runs_state(s).complete.push(runs_state(s).open)
}

/// The lowercase forms of those of some texts that have at least three
/// characters.
pub open spec fn keywords_among(runs: Seq<Seq<char>>) -> Seq<Seq<char>>
    decreases runs.len(),
{
    if runs.len() == 0 {
        Seq::empty()
    } else if runs.last().len() >= 3 {
        keywords_among(runs.drop_last()).push(lowercase(runs.last()))
    } else {
        keywords_among(runs.drop_last())
    }
}

/// The words of a query that count: runs of at least three letters and
/// numbers, in lowercase.
pub open spec fn keywords_of(text: Seq<char>) -> Seq<Seq<char>> {
    keywords_among(runs_of(text))
}

fn note_run(keywords: &mut Vec<String>, run: String)
    ensures
        views(final(keywords)@) == (if run@.len() >= 3 {
            views(old(keywords)@).push(lowercase(run@))
        } else {
            views(old(keywords)@)
        }),
{
    if run.as_str().unicode_len() >= 3 {
        let word: String = run.as_str().to_lowercase();
        let ghost before = keywords@;
        let ghost v = word@;
        keywords.push(word);
        proof {
            assert(views(keywords@) =~= views(before).push(v));
        }
    }
}

/// The words of a query that count.
pub fn extract_keywords(text: &str) -> (r: Vec<String>)
    ensures
        views(r@) == keywords_of(text@),
{
    let mut r: Vec<String> = Vec::new();
    let mut open: String = String::new();
    proof {
        assert(views(r@) =~= Seq::<Seq<char>>::empty());
        assert(open@ =~= Seq::<char>::empty());
    }
    for c in it: text.chars()
        invariant
            it.seq() == text@,
            views(r@) == keywords_among(runs_state(text@.take(it.index() as int)).complete),
            open@ == runs_state(text@.take(it.index() as int)).open,
    {
        let ghost state = runs_state(text@.take(it.index() as int));
        proof {
            assert(text@.take(it.index() + 1).drop_last() =~= text@.take(it.index() as int));
        }
        if c.is_alphanumeric() {
            open.push(c);
        } else {
            proof {
                assert(state.complete.push(state.open).drop_last() =~= state.complete);
            }
            note_run(&mut r, open);
            open = String::new();
            proof {
                assert(open@ =~= Seq::<char>::empty());
            }
        }
    }
    proof {
        assert(text@.take(text@.len() as int) =~= text@);
        let state = runs_state(text@);
        assert(runs_of(text@).drop_last() =~= state.complete);
    }
    note_run(&mut r, open);
    r
}

/// The number of keywords that a content contains, whatever its case.
pub open spec fn match_count(content: Seq<char>, keywords: Seq<Seq<char>>) -> nat {
    keywords.filter(|k: Seq<char>| contains_text(lowercase(content), k)).len()
}

/// The number of keywords that a content contains, whatever its case.
pub fn keyword_match_count(content: &str, keywords: &Vec<String>) -> (r: usize)
    ensures
        r == match_count(content@, views(keywords@)),
{
    let lower: String = content.to_lowercase();
    let ghost all = views(keywords@);
    let ghost p = |k: Seq<char>| contains_text(lowercase(content@), k);
    let mut n: usize = 0;
    let mut i: usize = 0;
    proof {
        assert(all.take(0).filter(p) =~= Seq::<Seq<char>>::empty());
    }
    while i < keywords.len()
        invariant
            i <= keywords.len(),
            n <= i,
            lower@ == lowercase(content@),
            all == views(keywords@),
            p == (|k: Seq<char>| contains_text(lowercase(content@), k)),
            n == all.take(i as int).filter(p).len(),
        decreases keywords.len() - i,
    {
        proof {
            lemma_filter_next(all, p, i as int);
            assert(all[i as int] == keywords@[i as int]@);
        }
        if contains(lower.as_str(), keywords[i].as_str()) {
            n += 1;
        }
        i += 1;
    }
    proof {
        assert(all.take(all.len() as int) =~= all);
    }
    n
}

/// The `j`-th candidate comes ahead of the `i`-th by its words: it contains
/// more of them, or as many and stands before it.
pub open spec fn ahead(counts: Seq<nat>, j: int, i: int) -> bool {
    counts[j] > counts[i] || (counts[j] == counts[i] && j < i)
}

/// The number of the first `n` candidates that come ahead of the `i`-th.
pub open spec fn rank_among(counts: Seq<nat>, i: int, n: nat) -> nat
    decreases n,
{
    if n == 0 {
        0
    } else {
        rank_among(counts, i, (n - 1) as nat) + if ahead(counts, n - 1, i) {
            1nat
        } else {
            0nat
        }
    }
}

/// The rank of the `i`-th candidate by its words.
pub open spec fn keyword_rank(counts: Seq<nat>, i: int) -> nat {
    rank_among(counts, i, counts.len())
}

/// The numbers of keywords that candidates contain.
pub open spec fn counts_of(candidates: Seq<ScoredChunkView>, keywords: Seq<Seq<char>>) -> Seq<nat> {
    candidates.map_values(|c: ScoredChunkView| match_count(c.chunk.content, keywords))
}

/// The ranks of candidates by the words of a query: the one that contains the
/// most of them first; of equals, the one that stands before.
pub fn keyword_ranks(candidates: &Vec<ScoredChunk>, query_text: &str) -> (r: Vec<usize>)
    ensures
        r@.len() == candidates@.len(),
        forall|i: int|
            0 <= i < r@.len() ==> #[trigger] r@[i] == keyword_rank(
                counts_of(views(candidates@), keywords_of(query_text@)),
                i,
            ),
{
    let keywords: Vec<String> = extract_keywords(query_text);
    let ghost target = counts_of(views(candidates@), keywords_of(query_text@));
    let mut counts: Vec<usize> = Vec::new();
    let mut k: usize = 0;
    while k < candidates.len()
        invariant
            k <= candidates@.len(),
            views(keywords@) == keywords_of(query_text@),
            target == counts_of(views(candidates@), keywords_of(query_text@)),
            counts@.len() == k,
            forall|j: int| 0 <= j < k ==> #[trigger] counts@[j] as nat == target[j],
        decreases candidates@.len() - k,
    {
        proof {
            assert(views(candidates@)[k as int] == candidates@[k as int]@);
        }
        counts.push(keyword_match_count(candidates[k].chunk.content.as_str(), &keywords));
        k += 1;
    }
    let mut r: Vec<usize> = Vec::new();
    let mut i: usize = 0;
    while i < counts.len()
        invariant
            i <= counts@.len(),
            counts@.len() == target.len(),
            forall|j: int| 0 <= j < counts@.len() ==> #[trigger] counts@[j] as nat == target[j],
            r@.len() == i,
            forall|j: int| 0 <= j < i ==> #[trigger] r@[j] == keyword_rank(target, j),
        decreases counts@.len() - i,
    {
        let mut rank: usize = 0;
        let mut j: usize = 0;
        while j < counts.len()
            invariant
                j <= counts.len(),
                i < counts@.len(),
                counts@.len() == target.len(),
                forall|j: int| 0 <= j < counts@.len() ==> #[trigger] counts@[j] as nat == target[j],
                rank == rank_among(target, i as int, j as nat),
                rank <= j,
            decreases counts.len() - j,
        {
            proof {
                assert(counts@[j as int] as nat == target[j as int]);
                assert(counts@[i as int] as nat == target[i as int]);
            }
            if counts[j] > counts[i] || (counts[j] == counts[i] && j < i) {
                rank += 1;
            }
            j += 1;
        }
        r.push(rank);
        i += 1;
    }
    r
}

/// No two candidates have the same rank, and a rank is less than the number of
/// candidates: the ranks are a permutation.
pub proof fn law_ranks_differ(counts: Seq<nat>, i: int, j: int)
    requires
        0 <= i < counts.len(),
        0 <= j < counts.len(),
        i != j,
    ensures
        keyword_rank(counts, i) != keyword_rank(counts, j),
        keyword_rank(counts, i) < counts.len(),
{
    if ahead(counts, i, j) {
        lemma_ahead_ranks_lower(counts, i, j, counts.len());
    } else {
        assert(ahead(counts, j, i));
        lemma_ahead_ranks_lower(counts, j, i, counts.len());
    }
    lemma_rank_skips_self(counts, i, counts.len());
}

/// A candidate that comes ahead of another one has the lower rank.
pub proof fn law_ahead_ranks_lower(counts: Seq<nat>, i: int, j: int)
    requires
        0 <= i < counts.len(),
        0 <= j < counts.len(),
        ahead(counts, i, j),
    ensures
        keyword_rank(counts, i) < keyword_rank(counts, j),
{
    lemma_ahead_ranks_lower(counts, i, j, counts.len());
}

proof fn lemma_ahead_ranks_lower(counts: Seq<nat>, i: int, j: int, n: nat)
    requires
        0 <= i < counts.len(),
        0 <= j < counts.len(),
        n <= counts.len(),
        ahead(counts, i, j),
    ensures
        rank_among(counts, i, n) <= rank_among(counts, j, n),
        i < n ==> rank_among(counts, i, n) < rank_among(counts, j, n),
    decreases n,
{
    if n > 0 {
        lemma_ahead_ranks_lower(counts, i, j, (n - 1) as nat);
    }
}

proof fn lemma_rank_skips_self(counts: Seq<nat>, i: int, n: nat)
    requires
        0 <= i < counts.len(),
        n <= counts.len(),
    ensures
        rank_among(counts, i, n) <= n,
        i < n ==> rank_among(counts, i, n) < n,
    decreases n,
{
    if n > 0 {
        lemma_rank_skips_self(counts, i, (n - 1) as nat);
    }
}

/// Chunks in the order of their distances.
#[derive(Debug)]
pub struct ByDistance {
    pub item: ScoredChunk,
}

impl View for ByDistance {
    type V = ScoredChunkView;

    open spec fn view(&self) -> ScoredChunkView {
        self.item@
    }
}

impl Ranked for ByDistance {
    open spec fn before(a: ScoredChunkView, b: ScoredChunkView) -> bool {
        a.score.lt(b.score)
    }

    fn is_before(&self, other: &Self) -> (r: bool) {
        self.item.score.less(other.item.score)
    }
}

/// Chunks in the order of their scores, the highest first.
#[derive(Debug)]
pub struct ByScore {
    pub item: ScoredChunk,
}

impl View for ByScore {
    type V = ScoredChunkView;

    open spec fn view(&self) -> ScoredChunkView {
        self.item@
    }
}

impl Ranked for ByScore {
    open spec fn before(a: ScoredChunkView, b: ScoredChunkView) -> bool {
        b.score.lt(a.score)
    }

    fn is_before(&self, other: &Self) -> (r: bool) {
        other.item.score.less(self.item.score)
    }
}

/// The chunks with the smallest distance first.
pub open spec fn nearest_first(chunks: Seq<ScoredChunkView>) -> Seq<ScoredChunkView> {
    ranked(chunks, |a: ScoredChunkView, b: ScoredChunkView| a.score.lt(b.score))
}

/// The chunks with the highest score first, and no more than `top_k` of them.
pub open spec fn best_first(chunks: Seq<ScoredChunkView>, top_k: nat) -> Seq<ScoredChunkView> {
    let all = ranked(chunks, |a: ScoredChunkView, b: ScoredChunkView| b.score.lt(a.score));
    if all.len() > top_k {
        all.take(top_k as int)
    } else {
        all
    }
}

/// Puts the chunks with the smallest distance first; the order in which an
/// index returns them is not relied on.
pub fn sort_by_distance(chunks: Vec<ScoredChunk>) -> (r: Vec<ScoredChunk>)
    ensures
        views(r@) == nearest_first(views(chunks@)),
{
    let ghost all = views(chunks@);
    let ghost before = |a: ScoredChunkView, b: ScoredChunkView| a.score.lt(b.score);
    let mut sorted: Vec<ByDistance> = Vec::new();
    let mut rest: Vec<ScoredChunk> = opposite(chunks);
    proof {
        assert(views(rest@).len() == all.len());
        assert(all.skip(0) =~= all);
        assert(views(sorted@) =~= all.take(0));
        assert((|a: ScoredChunkView, b: ScoredChunkView| <ByDistance as Ranked>::before(a, b)) =~= before);
    }
    while rest.len() > 0
        invariant
            rest@.len() <= all.len(),
            views(rest@) =~= all.skip(all.len() - rest@.len()).reverse(),
            before == (|a: ScoredChunkView, b: ScoredChunkView| a.score.lt(b.score)),
            (|a: ScoredChunkView, b: ScoredChunkView| <ByDistance as Ranked>::before(a, b)) == before,
            views(sorted@) == ranked(all.take(all.len() - rest@.len()), before),
        decreases rest@.len(),
    {
        let ghost left = rest@;
        match rest.pop() {
            Some(item) => {
                proof {
                    let n = all.len() - left.len();
                    assert(views(left).last() == left.last()@);
                    assert(item@ == all[n]);
                    assert(all.take(n + 1).drop_last() =~= all.take(n));
                    assert(views(rest@) =~= views(left).drop_last());
                }
                insert_ranked(&mut sorted, ByDistance { item });
            },
            None => {},
        }
    }
    proof {
        assert(all.take(all.len() as int) =~= all);
    }
    unwrap_by_distance(sorted)
}

/// Puts the chunks with the highest score first, and drops all but `top_k`.
pub fn keep_best(chunks: Vec<ScoredChunk>, top_k: usize) -> (r: Vec<ScoredChunk>)
    ensures
        views(r@) == best_first(views(chunks@), top_k as nat),
{
    let ghost all = views(chunks@);
    let ghost before = |a: ScoredChunkView, b: ScoredChunkView| b.score.lt(a.score);
    let mut sorted: Vec<ByScore> = Vec::new();
    let mut rest: Vec<ScoredChunk> = opposite(chunks);
    proof {
        assert(views(rest@).len() == all.len());
        assert(all.skip(0) =~= all);
        assert(views(sorted@) =~= all.take(0));
        assert((|a: ScoredChunkView, b: ScoredChunkView| <ByScore as Ranked>::before(a, b)) =~= before);
    }
    while rest.len() > 0
        invariant
            rest@.len() <= all.len(),
            views(rest@) =~= all.skip(all.len() - rest@.len()).reverse(),
            before == (|a: ScoredChunkView, b: ScoredChunkView| b.score.lt(a.score)),
            (|a: ScoredChunkView, b: ScoredChunkView| <ByScore as Ranked>::before(a, b)) == before,
            views(sorted@) == ranked(all.take(all.len() - rest@.len()), before),
        decreases rest@.len(),
    {
        let ghost left = rest@;
        match rest.pop() {
            Some(item) => {
                proof {
                    let n = all.len() - left.len();
                    assert(views(left).last() == left.last()@);
                    assert(item@ == all[n]);
                    assert(all.take(n + 1).drop_last() =~= all.take(n));
                    assert(views(rest@) =~= views(left).drop_last());
                }
                insert_ranked(&mut sorted, ByScore { item });
            },
            None => {},
        }
    }
    proof {
        assert(all.take(all.len() as int) =~= all);
    }
    let ghost full = views(sorted@);
    if sorted.len() > top_k {
        let ghost items = sorted@;
        sorted.truncate(top_k);
        proof {
            assert(views(sorted@) =~= full.take(top_k as int));
        }
    }
    unwrap_by_score(sorted)
}

/// The candidates with the fused scores in place of their distances.
pub open spec fn rescored(candidates: Seq<ScoredChunkView>, scores: Seq<Score>) -> Seq<ScoredChunkView> {
    Seq::new(
        candidates.len(),
        |i: int| ScoredChunkView { score: scores[i], ..candidates[i] },
    )
}

/// Gives the candidates the scores that their two ranks were fused into, and
/// keeps the best.
pub fn reciprocal_rank_fuse(candidates: Vec<ScoredChunk>, scores: &Vec<Score>, top_k: usize) -> (r: Vec<
    ScoredChunk,
>)
    requires
        scores@.len() == candidates@.len(),
    ensures
        views(r@) == best_first(rescored(views(candidates@), scores@), top_k as nat),
{
    let ghost all = views(candidates@);
    let ghost target = rescored(all, scores@);
    let mut fused: Vec<ScoredChunk> = candidates;
    let mut i: usize = 0;
    while i < fused.len()
        invariant
            i <= fused@.len(),
            fused@.len() == all.len(),
            scores@.len() == all.len(),
            target == rescored(all, scores@),
            forall|j: int| 0 <= j < i ==> #[trigger] views(fused@)[j] == target[j],
            forall|j: int| i <= j < fused@.len() ==> #[trigger] views(fused@)[j] == all[j],
        decreases fused@.len() - i,
    {
        let ghost before = fused@;
        proof {
            assert(views(fused@)[i as int] == all[i as int]);
        }
        fused[i].score = scores[i];
        proof {
            assert(views(fused@)[i as int] == target[i as int]);
            assert forall|j: int| 0 <= j < fused@.len() && j != i implies #[trigger] views(fused@)[j]
                == views(before)[j] by {
                assert(fused@[j] == before[j]);
            }
        }
        i += 1;
    }
    proof {
        assert(views(fused@) =~= target);
    }
    keep_best(fused, top_k)
}

fn opposite(chunks: Vec<ScoredChunk>) -> (r: Vec<ScoredChunk>)
    ensures
        views(r@) == views(chunks@).reverse(),
{
    let mut rest: Vec<ScoredChunk> = chunks;
    let mut r: Vec<ScoredChunk> = Vec::new();
    while rest.len() > 0
        invariant
            views(chunks@).reverse() =~= views(r@) + views(rest@).reverse(),
        decreases rest@.len(),
    {
        let ghost left = rest@;
        let ghost done = r@;
        match rest.pop() {
            Some(item) => {
                let ghost v = item@;
                r.push(item);
                proof {
                    assert(views(left) =~= views(rest@).push(v));
                    assert(views(r@) =~= views(done).push(v));
                    assert(views(left).reverse() =~= seq![v] + views(rest@).reverse());
                }
            },
            None => {},
        }
    }
    r
}

fn unwrap_by_distance(sorted: Vec<ByDistance>) -> (r: Vec<ScoredChunk>)
    ensures
        views(r@) == views(sorted@),
{
    let mut rest: Vec<ByDistance> = sorted;
    let mut back: Vec<ScoredChunk> = Vec::new();
    while rest.len() > 0
        invariant
            views(sorted@).reverse() =~= views(back@) + views(rest@).reverse(),
        decreases rest@.len(),
    {
        let ghost left = rest@;
        let ghost done = back@;
        match rest.pop() {
            Some(entry) => {
                let ghost v = entry@;
                back.push(entry.item);
                proof {
                    assert(views(left) =~= views(rest@).push(v));
                    assert(views(back@) =~= views(done).push(v));
                    assert(views(left).reverse() =~= seq![v] + views(rest@).reverse());
                }
            },
            None => {},
        }
    }
    proof {
        assert(views(sorted@).reverse().reverse() =~= views(sorted@));
    }
    opposite(back)
}

fn unwrap_by_score(sorted: Vec<ByScore>) -> (r: Vec<ScoredChunk>)
    ensures
        views(r@) == views(sorted@),
{
    let mut rest: Vec<ByScore> = sorted;
    let mut back: Vec<ScoredChunk> = Vec::new();
    while rest.len() > 0
        invariant
            views(sorted@).reverse() =~= views(back@) + views(rest@).reverse(),
        decreases rest@.len(),
    {
        let ghost left = rest@;
        let ghost done = back@;
        match rest.pop() {
            Some(entry) => {
                let ghost v = entry@;
                back.push(entry.item);
                proof {
                    assert(views(left) =~= views(rest@).push(v));
                    assert(views(back@) =~= views(done).push(v));
                    assert(views(left).reverse() =~= seq![v] + views(rest@).reverse());
                }
            },
            None => {},
        }
    }
    proof {
        assert(views(sorted@).reverse().reverse() =~= views(sorted@));
    }
    opposite(back)
}

/// The chunks that `best_first` leaves out.
pub open spec fn left_out(chunks: Seq<ScoredChunkView>, top_k: nat) -> Seq<ScoredChunkView> {
    let all = ranked(chunks, |a: ScoredChunkView, b: ScoredChunkView| b.score.lt(a.score));
    all.skip(best_first(chunks, top_k).len() as int)
}

/// No more chunks are kept than were asked for or found, the higher scores
/// first; every other chunk is left out, and none of those has a higher score
/// than one that is kept.
pub proof fn law_best_are_kept(chunks: Seq<ScoredChunkView>, top_k: nat)
    requires
        forall|i: int| 0 <= i < chunks.len() ==> !(#[trigger] chunks[i]).score.is_nan(),
    ensures
        best_first(chunks, top_k).len() == if chunks.len() > top_k {
            top_k
        } else {
            chunks.len()
        },
        forall|i: int, j: int|
            0 <= i < j < best_first(chunks, top_k).len() ==> !(#[trigger] best_first(
                chunks,
                top_k,
            )[i]).score.lt((#[trigger] best_first(chunks, top_k)[j]).score),
        (best_first(chunks, top_k) + left_out(chunks, top_k)).to_multiset() == chunks.to_multiset(),
        forall|i: int, j: int|
            0 <= i < best_first(chunks, top_k).len() && 0 <= j < left_out(chunks, top_k).len() ==> !(
            #[trigger] best_first(chunks, top_k)[i]).score.lt(
                (#[trigger] left_out(chunks, top_k)[j]).score,
            ),
{
    let before = |a: ScoredChunkView, b: ScoredChunkView| b.score.lt(a.score);
    lemma_sorted_by_score(chunks);
    let all = ranked(chunks, before);
    assert forall|i: int, j: int| 0 <= i < j < best_first(chunks, top_k).len() implies !(
    #[trigger] best_first(chunks, top_k)[i]).score.lt((#[trigger] best_first(chunks, top_k)[j]).score) by {
        assert(best_first(chunks, top_k)[i] == all[i]);
        assert(best_first(chunks, top_k)[j] == all[j]);
        assert(!before(all[j], all[i]));
    }
    let kept = best_first(chunks, top_k);
    assert(kept + left_out(chunks, top_k) =~= all);
    assert forall|i: int, j: int| 0 <= i < kept.len() && 0 <= j < left_out(chunks, top_k).len() implies !(
    #[trigger] best_first(chunks, top_k)[i]).score.lt((#[trigger] left_out(chunks, top_k)[j]).score) by {
        assert(kept[i] == all[i]);
        assert(left_out(chunks, top_k)[j] == all[kept.len() + j]);
        assert(!before(all[kept.len() + j], all[i]));
    }
}

/// Sorted by their scores, chunks that have one come in order, none missing.
pub proof fn lemma_sorted_by_score(chunks: Seq<ScoredChunkView>)
    requires
        forall|i: int| 0 <= i < chunks.len() ==> !(#[trigger] chunks[i]).score.is_nan(),
    ensures
        ({
            let before = |a: ScoredChunkView, b: ScoredChunkView| b.score.lt(a.score);
            let all = ranked(chunks, before);
            &&& all.len() == chunks.len()
            &&& all.to_multiset() == chunks.to_multiset()
            &&& crate::order::in_order(all, before)
            &&& forall|i: int| 0 <= i < all.len() ==> !(#[trigger] all[i]).score.is_nan()
        }),
    decreases chunks.len(),
{
    let before = |a: ScoredChunkView, b: ScoredChunkView| b.score.lt(a.score);
    if chunks.len() > 0 {
        let rest = chunks.drop_last();
        assert forall|i: int| 0 <= i < rest.len() implies !(#[trigger] rest[i]).score.is_nan() by {
            assert(rest[i] == chunks[i]);
        }
        lemma_sorted_by_score(rest);
        let s = ranked(rest, before);
        let x = chunks.last();
        assert(!chunks[chunks.len() - 1].score.is_nan());
        crate::order::lemma_rank_position(s, x, before);
        let p = crate::order::rank_position(s, x, before);
        let all = s.insert(p, x);
        vstd::seq_lib::to_multiset_insert(s, p, x);
        assert(chunks =~= rest.push(x));
        vstd::seq_lib::to_multiset_build(rest, x);
        assert forall|i: int| 0 <= i < all.len() implies !(#[trigger] all[i]).score.is_nan() by {
            if i < p {
                assert(all[i] == s[i]);
            } else if i > p {
                assert(all[i] == s[i - 1]);
            }
        }
        assert forall|i: int, j: int| 0 <= i < j < all.len() implies !before(
            #[trigger] all[j],
            #[trigger] all[i],
        ) by {
            let ii = if i < p { i } else { i - 1 };
            let jj = if j < p { j } else { j - 1 };
            if i != p && j != p {
                assert(all[i] == s[ii] && all[j] == s[jj]);
                assert(!before(s[jj], s[ii]));
            } else if j == p {
                assert(all[i] == s[i]);
                assert(!before(x, s[i]));
            } else {
                assert(all[j] == s[jj]);
                assert(before(x, s[p]));
                if jj > p {
                    assert(!before(s[jj], s[p]));
                }
                assert(!s[jj].score.is_nan());
            }
        }
    }
}

} // verus!
