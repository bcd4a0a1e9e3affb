//! The catch-up scan: what changed on disk since the last one is indexed
//! again, and nothing else.

use vstd::prelude::*;
use crate::chunker::Chunk;
use crate::known::{
    deleted_files, gone, is_real_change, known_hash, paths_of, real_change, with_hash, KnownFileView,
    KnownHashes,
};
use crate::model::ModelError;
use crate::order::{in_order, insert_sorted, is_ranking, ranked, Ranked};
use crate::paths::{
    extension, extension_of, file_name, file_name_of, parts, parts_lt, parts_of,
    Part, PartView,
};
use crate::text::same_text;
use crate::views::{opt_view, views};

verus! {

/// What is to be done about an entry of a directory.
#[derive(Clone, Copy, Debug, PartialEq, Eq, Structural)]
pub enum EntryAction {
    /// It is the project's own state, or no Markdown.
    Ignore,
    /// It is a directory to walk.
    Descend,
    /// It is a Markdown file.
    Take,
}

/// What is to be done about an entry of a directory.
pub open spec fn entry_action(path: Seq<char>, is_dir: bool) -> EntryAction {
    let name = file_name_of(path);
    if name == Some(".kern"@) {
        EntryAction::Ignore
    } else if is_dir {
        EntryAction::Descend
    } else if name is Some && extension_of(name->0) == Some("md"@) {
        EntryAction::Take
    } else {
        EntryAction::Ignore
    }
}

/// What is to be done about an entry of a directory.
pub fn classify_entry(path: &str, is_dir: bool) -> (r: EntryAction)
    ensures
        r == entry_action(path@, is_dir),
{
    if let Some(name) = file_name(path) {
        if same_text(name.as_str(), ".kern") {
            return EntryAction::Ignore;
        }
    }
    if is_dir {
        return EntryAction::Descend;
    }
    match extension(path) {
        Some(e) => if same_text(e.as_str(), "md") {
            EntryAction::Take
        } else {
            EntryAction::Ignore
        },
        None => EntryAction::Ignore,
    }
}

/// A path with its parts.
#[derive(Debug)]
pub struct PathEntry {
    pub path: String,
    pub parts: Vec<Part>,
}

/// What a [`PathEntry`] holds.
pub struct PathEntryView {
    pub path: Seq<char>,
    pub parts: Seq<PartView>,
}

impl View for PathEntry {
    type V = PathEntryView;

    open spec fn view(&self) -> PathEntryView {
        PathEntryView { path: self.path@, parts: views(self.parts@) }
    }
}

impl Ranked for PathEntry {
    open spec fn before(a: PathEntryView, b: PathEntryView) -> bool {
        parts_lt(a.parts, b.parts)
    }

    fn is_before(&self, other: &Self) -> (r: bool) {
        crate::paths::parts_before(&self.parts, &other.parts)
    }
}

/// Paths in the order of their parts; paths with the same parts stay as they
/// stood.
pub open spec fn sorted_paths(paths: Seq<Seq<char>>) -> Seq<Seq<char>> {
    ranked(
        paths.map_values(|p: Seq<char>| PathEntryView { path: p, parts: parts_of(p) }),
        |a: PathEntryView, b: PathEntryView| parts_lt(a.parts, b.parts),
    ).map_values(|e: PathEntryView| e.path)
}

/// Puts paths in the order of their parts, so that a numbered corpus is read
/// in the order of its numbers.
pub fn sort_paths(paths: &Vec<String>) -> (r: Vec<String>)
    ensures
        views(r@) == sorted_paths(views(paths@)),
{
    let ghost all = views(paths@).map_values(
        |p: Seq<char>| PathEntryView { path: p, parts: parts_of(p) },
    );
    let ghost before = |a: PathEntryView, b: PathEntryView| parts_lt(a.parts, b.parts);
    let mut entries: Vec<PathEntry> = Vec::new();
    let mut i: usize = 0;
    proof {
        lemma_parts_rank();
        assert(views(entries@) =~= all.take(0));
        assert((|a: PathEntryView, b: PathEntryView| <PathEntry as Ranked>::before(a, b)) =~= before);
    }
    while i < paths.len()
        invariant
            i <= paths@.len(),
            all == views(paths@).map_values(
                |p: Seq<char>| PathEntryView { path: p, parts: parts_of(p) },
            ),
            before == (|a: PathEntryView, b: PathEntryView| parts_lt(a.parts, b.parts)),
            (|a: PathEntryView, b: PathEntryView| <PathEntry as Ranked>::before(a, b)) == before,
            is_ranking(before),
            in_order(views(entries@), before),
            views(entries@) == ranked(all.take(i as int), before),
        decreases paths@.len() - i,
    {
        let entry = PathEntry { path: paths[i].clone(), parts: parts(paths[i].as_str()) };
        proof {
            assert(all[i as int] == entry@);
            assert(all.take(i + 1).drop_last() =~= all.take(i as int));
            crate::order::lemma_ranked_insert_in_order(views(entries@), entry@, before);
        }
        insert_sorted(&mut entries, entry);
        i += 1;
    }
    proof {
        assert(all.take(all.len() as int) =~= all);
    }
    let mut r: Vec<String> = Vec::new();
    let ghost sorted = sorted_paths(views(paths@));
    let mut j: usize = 0;
    while j < entries.len()
        invariant
            j <= entries@.len(),
            sorted == views(entries@).map_values(|e: PathEntryView| e.path),
            views(r@) =~= sorted.take(j as int),
        decreases entries@.len() - j,
    {
        let path: String = entries[j].path.clone();
        let ghost kept = r@;
        let ghost v = path@;
        r.push(path);
        proof {
            assert(views(r@) =~= views(kept).push(v));
            assert(sorted[j as int] == v);
        }
        j += 1;
    }
    proof {
        assert(sorted.take(j as int) =~= sorted);
    }
    r
}

/// The order of parts is a ranking of paths.
pub proof fn lemma_parts_rank()
    ensures
        is_ranking(|a: PathEntryView, b: PathEntryView| parts_lt(a.parts, b.parts)),
{
    let before = |a: PathEntryView, b: PathEntryView| parts_lt(a.parts, b.parts);
    assert forall|a: PathEntryView, b: PathEntryView| #[trigger] before(a, b) implies !before(b, a) by {
        crate::paths::lemma_parts_lt_asymmetric(a.parts, b.parts);
    }
    assert forall|a: PathEntryView, b: PathEntryView, c: PathEntryView|
        #![trigger before(a, c), before(b, c)]
        #![trigger before(a, b), before(a, c)]
        before(a, c) implies before(a, b) || before(b, c) by {
        crate::paths::lemma_parts_lt_total(a.parts, b.parts);
        if parts_lt(b.parts, a.parts) {
            crate::paths::lemma_parts_lt_transitive(b.parts, a.parts, c.parts);
        }
    }
}

/// What is to be done about a file that is there.
#[derive(Debug)]
pub enum FilePlan {
    /// It was indexed as it is.
    Unchanged,
    /// It has to be indexed; what was indexed of it before has to go.
    Changed { new_hash: String, was_indexed: bool },
}

/// What a [`FilePlan`] holds.
pub enum FilePlanView {
    Unchanged,
    Changed { new_hash: Seq<char>, was_indexed: bool },
}

impl View for FilePlan {
    type V = FilePlanView;

    open spec fn view(&self) -> FilePlanView {
        match *self {
            FilePlan::Unchanged => FilePlanView::Unchanged,
            FilePlan::Changed { new_hash, was_indexed } => FilePlanView::Changed {
                new_hash: new_hash@,
                was_indexed,
            },
        }
    }
}

/// What is to be done about a file that is there.
pub open spec fn file_plan(known: Seq<KnownFileView>, path: Seq<char>, content: Seq<char>) -> FilePlanView {
    match real_change(known, path, content) {
        None => FilePlanView::Unchanged,
        Some(new_hash) => FilePlanView::Changed {
            new_hash,
            was_indexed: known_hash(known, path) is Some,
        },
    }
}

/// What became of a chunk.
#[derive(Clone, Copy, Debug, PartialEq, Eq, Structural)]
pub enum ChunkResult {
    /// It was embedded and stored.
    Indexed,
    /// The embedding backend refused it, and it was left out.
    Skipped,
}

/// What a failure to embed a chunk means for the scan: a chunk that the
/// backend refused is left out; any other failure ends the scan.
pub fn is_skippable(e: &ModelError) -> (r: bool)
    ensures
        r == (e@ is RequestRejected),
{
    match e {
        ModelError::RequestRejected { .. } => true,
        _ => false,
    }
}

/// A file that is being indexed: the hash of its content, and the number of
/// its chunks that are not dealt with yet.
#[derive(Debug)]
pub struct FileProgress {
    pub path: String,
    pub hash: String,
    pub remaining: usize,
}

/// What a [`FileProgress`] holds.
pub struct FileProgressView {
    pub path: Seq<char>,
    pub hash: Seq<char>,
    pub remaining: nat,
}

impl View for FileProgress {
    type V = FileProgressView;

    open spec fn view(&self) -> FileProgressView {
        FileProgressView { path: self.path@, hash: self.hash@, remaining: self.remaining as nat }
    }
}

/// A chunk that has to be embedded and stored.
#[derive(Debug)]
pub struct PendingChunk {
    pub chunk: Chunk,
    /// The file that it belongs to, among those being indexed.
    pub file: usize,
    /// It is the frontmatter that was ingested already, and no prose.
    pub is_frontmatter_chunk: bool,
}

/// What a [`PendingChunk`] is about.
pub struct PendingView {
    pub chunk: Chunk,
    pub file: nat,
    pub is_frontmatter_chunk: bool,
}

impl View for PendingChunk {
    type V = PendingView;

    open spec fn view(&self) -> PendingView {
        PendingView {
            chunk: self.chunk,
            file: self.file as nat,
            is_frontmatter_chunk: self.is_frontmatter_chunk,
        }
    }
}

/// A file whose content is indexed, with the hash that is to be stored for it.
#[derive(Debug)]
pub struct Mark {
    pub path: String,
    pub hash: String,
}

/// What a [`Mark`] holds.
pub struct MarkView {
    pub path: Seq<char>,
    pub hash: Seq<char>,
}

impl View for Mark {
    type V = MarkView;

    open spec fn view(&self) -> MarkView {
        MarkView { path: self.path@, hash: self.hash@ }
    }
}

/// The numbers of a scan.
#[derive(Clone, Copy, Debug, PartialEq, Eq, Structural)]
pub struct CatchUpSummary {
    pub indexed: usize,
    pub skipped: usize,
    pub unchanged_files: usize,
    pub changed_files: usize,
    pub deleted_files: usize,
}

/// A scan: what was known before it, what it found deleted, unchanged and
/// changed, the chunks of what changed, and those of them that were dealt
/// with.
#[derive(Debug)]
pub struct CatchUpScan {
    pub known: KnownHashes,
    pub deleted: Vec<String>,
    pub unchanged: Vec<String>,
    pub files: Vec<FileProgress>,
    pub pending: Vec<PendingChunk>,
    pub indexed: Vec<usize>,
    pub skipped: Vec<usize>,
}

/// What a [`CatchUpScan`] holds.
#[verifier::ext_equal]
pub struct ScanView {
    pub known: Seq<KnownFileView>,
    pub deleted: Seq<Seq<char>>,
    pub unchanged: Seq<Seq<char>>,
    pub files: Seq<FileProgressView>,
    pub pending: Seq<PendingView>,
    pub indexed: Seq<usize>,
    pub skipped: Seq<usize>,
}

impl View for CatchUpScan {
    type V = ScanView;

    open spec fn view(&self) -> ScanView {
        ScanView {
            known: self.known@,
            deleted: views(self.deleted@),
            unchanged: views(self.unchanged@),
            files: views(self.files@),
            pending: views(self.pending@),
            indexed: self.indexed@,
            skipped: self.skipped@,
        }
    }
}

/// The chunks of a file as they are queued: the first one is no prose where
/// the file's frontmatter was ingested.
pub open spec fn queued(chunks: Seq<Chunk>, file: nat, frontmatter_ingested: bool) -> Seq<PendingView> {
    Seq::new(
        chunks.len(),
        |i: int|
            PendingView {
                chunk: chunks[i],
                file,
                is_frontmatter_chunk: i == 0 && frontmatter_ingested,
            },
    )
}

/// The number of chunks that are not dealt with yet.
pub open spec fn left_over(files: Seq<FileProgressView>) -> nat
    decreases files.len(),
{
    if files.len() == 0 {
        0
    } else {
        left_over(files.drop_last()) + files.last().remaining
    }
}

/// A chunk is among some chunks, which are given by their numbers.
pub open spec fn is_listed(chunks: Seq<usize>, i: int) -> bool {
    exists|k: int| 0 <= k < chunks.len() && #[trigger] chunks[k] as int == i
}

/// The chunks that are given by their numbers differ, and are among the first
/// `n`.
pub open spec fn are_numbers(chunks: Seq<usize>, n: nat) -> bool {
    &&& forall|a: int| 0 <= a < chunks.len() ==> #[trigger] chunks[a] < n
    &&& forall|a: int, b: int|
        0 <= a < b < chunks.len() ==> #[trigger] chunks[a] != #[trigger] chunks[b]
}

/// A chunk was indexed or skipped.
pub open spec fn is_settled(indexed: Seq<usize>, skipped: Seq<usize>, i: int) -> bool {
    is_listed(indexed, i) || is_listed(skipped, i)
}

/// The number of chunks of a file, among the first `n`, that were neither
/// indexed nor skipped.
pub open spec fn waiting(
    pending: Seq<PendingView>,
    indexed: Seq<usize>,
    skipped: Seq<usize>,
    file: int,
    n: nat,
) -> nat
    decreases n,
{
    if n == 0 {
        0
    } else {
        let before = waiting(pending, indexed, skipped, file, (n - 1) as nat);
        if pending[n - 1].file == file && !is_settled(indexed, skipped, n - 1) {
            before + 1
        } else {
            before
        }
    }
}

impl ScanView {
    /// A chunk was dealt with.
    pub open spec fn dealt_with(self, i: int) -> bool {
        is_settled(self.indexed, self.skipped, i)
    }

    /// All chunks of a file were dealt with.
    pub open spec fn file_dealt_with(self, file: int) -> bool {
        forall|i: int|
            0 <= i < self.pending.len() && (#[trigger] self.pending[i]).file == file
                ==> self.dealt_with(i)
    }

    /// Every chunk is dealt with once, or among those that its file still
    /// waits for.
    pub open spec fn valid(self) -> bool {
        &&& self.indexed.len() + self.skipped.len() + left_over(self.files) == self.pending.len()
        &&& forall|i: int|
            0 <= i < self.pending.len() ==> (#[trigger] self.pending[i]).file < self.files.len()
        &&& are_numbers(self.indexed, self.pending.len())
        &&& are_numbers(self.skipped, self.pending.len())
        &&& forall|a: int, b: int|
            0 <= a < self.indexed.len() && 0 <= b < self.skipped.len() ==> #[trigger] self.indexed[a]
                != #[trigger] self.skipped[b]
        &&& forall|f: int|
            0 <= f < self.files.len() ==> (#[trigger] self.files[f]).remaining == waiting(
                self.pending,
                self.indexed,
                self.skipped,
                f,
                self.pending.len(),
            )
    }

    /// A scan that has not looked at any file yet: what was indexed and is not
    /// among the current files is deleted.
    pub open spec fn started(known: Seq<KnownFileView>, current: Seq<Seq<char>>) -> ScanView {
        ScanView {
            known,
            deleted: paths_of(gone(known, current)),
            unchanged: Seq::empty(),
            files: Seq::empty(),
            pending: Seq::empty(),
            indexed: Seq::empty(),
            skipped: Seq::empty(),
        }
    }

    /// The scan after it looked at a file.
    pub open spec fn visited(self, path: Seq<char>, content: Seq<char>) -> ScanView {
        if file_plan(self.known, path, content) is Unchanged {
            ScanView { unchanged: self.unchanged.push(path), ..self }
        } else {
            self
        }
    }

    /// The scan after a file was found changed and cut into chunks.
    pub open spec fn with_file(
        self,
        path: Seq<char>,
        hash: Seq<char>,
        chunks: Seq<Chunk>,
        frontmatter_ingested: bool,
    ) -> ScanView {
        ScanView {
            files: self.files.push(FileProgressView { path, hash, remaining: chunks.len() }),
            pending: self.pending + queued(chunks, self.files.len(), frontmatter_ingested),
            ..self
        }
    }

    /// The scan after a chunk was dealt with.
    pub open spec fn with_result(self, index: usize, result: ChunkResult) -> ScanView {
        let file = self.pending[index as int].file as int;
        ScanView {
            files: self.files.update(
                file,
                FileProgressView {
                    remaining: (self.files[file].remaining - 1) as nat,
                    ..self.files[file]
                },
            ),
            indexed: if result == ChunkResult::Indexed {
                self.indexed.push(index)
            } else {
                self.indexed
            },
            skipped: if result == ChunkResult::Skipped {
                self.skipped.push(index)
            } else {
                self.skipped
            },
            ..self
        }
    }
}

proof fn lemma_left_over_update(files: Seq<FileProgressView>, i: int, new: FileProgressView)
    requires
        0 <= i < files.len(),
        files[i].remaining > 0,
        new.remaining == files[i].remaining - 1,
    ensures
        left_over(files.update(i, new)) == left_over(files) - 1,
        left_over(files) > 0,
    decreases files.len(),
{
    let after = files.update(i, new);
    if i < files.len() - 1 {
        lemma_left_over_update(files.drop_last(), i, new);
        assert(after.drop_last() =~= files.drop_last().update(i, new));
    } else {
        assert(after.drop_last() =~= files.drop_last());
    }
}

proof fn lemma_waiting_same(
    p: Seq<PendingView>,
    i1: Seq<usize>,
    s1: Seq<usize>,
    q: Seq<PendingView>,
    i2: Seq<usize>,
    s2: Seq<usize>,
    f: int,
    n: nat,
)
    requires
        forall|i: int|
            0 <= i < n ==> (#[trigger] p[i]).file == q[i].file && is_settled(i1, s1, i) == is_settled(
                i2,
                s2,
                i,
            ),
    ensures
        waiting(p, i1, s1, f, n) == waiting(q, i2, s2, f, n),
    decreases n,
{
    if n > 0 {
        lemma_waiting_same(p, i1, s1, q, i2, s2, f, (n - 1) as nat);
        assert(p[n - 1].file == q[n - 1].file);
    }
}

proof fn lemma_waiting_less(
    p: Seq<PendingView>,
    i1: Seq<usize>,
    s1: Seq<usize>,
    i2: Seq<usize>,
    s2: Seq<usize>,
    f: int,
    n: nat,
    index: int,
)
    requires
        0 <= index < n,
        !is_settled(i1, s1, index),
        is_settled(i2, s2, index),
        forall|i: int|
            0 <= i < n && i != index ==> is_settled(i1, s1, i) == #[trigger] is_settled(i2, s2, i),
    ensures
        waiting(p, i1, s1, f, n) == waiting(p, i2, s2, f, n) + (if p[index].file == f {
            1nat
        } else {
            0nat
        }),
    decreases n,
{
    let m = (n - 1) as nat;
    if index < m {
        lemma_waiting_less(p, i1, s1, i2, s2, f, m, index);
        assert(is_settled(i1, s1, m as int) == is_settled(i2, s2, m as int));
    } else {
        assert forall|i: int| 0 <= i < m implies (#[trigger] p[i]).file == p[i].file && is_settled(
            i1,
            s1,
            i,
        ) == is_settled(i2, s2, i) by {}
        lemma_waiting_same(p, i1, s1, p, i2, s2, f, m);
    }
}

proof fn lemma_waiting_none(
    p: Seq<PendingView>,
    indexed: Seq<usize>,
    skipped: Seq<usize>,
    f: int,
    n: nat,
)
    ensures
        waiting(p, indexed, skipped, f, n) == 0 <==> forall|i: int|
            0 <= i < n && (#[trigger] p[i]).file == f ==> is_settled(indexed, skipped, i),
    decreases n,
{
    if n > 0 {
        let m = (n - 1) as nat;
        lemma_waiting_none(p, indexed, skipped, f, m);
        if waiting(p, indexed, skipped, f, n) == 0 {
            assert forall|i: int| 0 <= i < n && (#[trigger] p[i]).file == f implies is_settled(
                indexed,
                skipped,
                i,
            ) by {}
        } else if waiting(p, indexed, skipped, f, m) == 0 {
            assert(p[m as int].file == f);
        }
    }
}

/// Chunks of a file that are new are waited for.
proof fn lemma_waiting_new(
    p: Seq<PendingView>,
    indexed: Seq<usize>,
    skipped: Seq<usize>,
    f: int,
    from: nat,
    n: nat,
)
    requires
        from <= n <= p.len(),
        forall|i: int| 0 <= i < from ==> (#[trigger] p[i]).file != f,
        forall|i: int|
            from <= i < n ==> (#[trigger] p[i]).file == f && !is_settled(indexed, skipped, i),
    ensures
        waiting(p, indexed, skipped, f, n) == n - from,
    decreases n,
{
    if n > from {
        lemma_waiting_new(p, indexed, skipped, f, from, (n - 1) as nat);
        assert(p[n - 1].file == f);
    } else if n > 0 {
        lemma_waiting_none(p, indexed, skipped, f, n);
    }
}

/// Chunks of other files change nothing.
proof fn lemma_waiting_others(
    p: Seq<PendingView>,
    indexed: Seq<usize>,
    skipped: Seq<usize>,
    f: int,
    from: nat,
    n: nat,
)
    requires
        from <= n <= p.len(),
        forall|i: int| from <= i < n ==> (#[trigger] p[i]).file != f,
    ensures
        waiting(p, indexed, skipped, f, n) == waiting(p, indexed, skipped, f, from),
    decreases n,
{
    if n > from {
        lemma_waiting_others(p, indexed, skipped, f, from, (n - 1) as nat);
        assert(p[n - 1].file != f);
    }
}

/// A scan stays valid where the chunks of a file are queued.
pub proof fn lemma_with_file_valid(
    scan: ScanView,
    path: Seq<char>,
    hash: Seq<char>,
    chunks: Seq<Chunk>,
    frontmatter_ingested: bool,
)
    requires
        scan.valid(),
    ensures
        scan.with_file(path, hash, chunks, frontmatter_ingested).valid(),
{
    let after = scan.with_file(path, hash, chunks, frontmatter_ingested);
    let old_len = scan.pending.len();
    let new_len = after.pending.len();
    assert(after.files.drop_last() =~= scan.files);
    assert forall|i: int| 0 <= i < new_len implies (#[trigger] after.pending[i]).file
        < after.files.len() by {
        if i < old_len {
            assert(after.pending[i] == scan.pending[i]);
        }
    }
    assert forall|f: int| 0 <= f < after.files.len() implies (#[trigger] after.files[f]).remaining
        == waiting(after.pending, after.indexed, after.skipped, f, new_len) by {
        if f < scan.files.len() {
            assert(after.files[f] == scan.files[f]);
            lemma_waiting_others(after.pending, scan.indexed, scan.skipped, f, old_len, new_len);
            assert forall|i: int| 0 <= i < old_len implies (#[trigger] scan.pending[i]).file
                == after.pending[i].file by {
                assert(after.pending[i] == scan.pending[i]);
            }
            lemma_waiting_same(
                scan.pending,
                scan.indexed,
                scan.skipped,
                after.pending,
                scan.indexed,
                scan.skipped,
                f,
                old_len,
            );
        } else {
            assert forall|i: int| 0 <= i < old_len implies (#[trigger] after.pending[i]).file != f by {
                assert(after.pending[i] == scan.pending[i]);
            }
            lemma_waiting_new(after.pending, scan.indexed, scan.skipped, f, old_len, new_len);
        }
    }
}

/// A scan stays valid where a chunk is dealt with that was not yet.
pub proof fn lemma_with_result_valid(scan: ScanView, index: usize, result: ChunkResult)
    requires
        scan.valid(),
        index < scan.pending.len(),
        !scan.dealt_with(index as int),
    ensures
        scan.with_result(index, result).valid(),
        scan.files[scan.pending[index as int].file as int].remaining > 0,
{
    let after = scan.with_result(index, result);
    let n = scan.pending.len();
    let file = scan.pending[index as int].file as int;
    lemma_waiting_none(scan.pending, scan.indexed, scan.skipped, file, n);
    assert(scan.files[file].remaining == waiting(scan.pending, scan.indexed, scan.skipped, file, n));
    lemma_left_over_update(scan.files, file, after.files[file]);
    assert forall|i: int| #[trigger] after.dealt_with(i) == (scan.dealt_with(i) || i == index) by {
        lemma_listed_push(scan.indexed, index, i);
        lemma_listed_push(scan.skipped, index, i);
    }
    assert(after.dealt_with(index as int));
    assert forall|k: int| 0 <= k < scan.indexed.len() implies #[trigger] scan.indexed[k] != index by {
        if scan.indexed[k] == index {
            assert(is_listed(scan.indexed, index as int));
        }
    }
    assert forall|k: int| 0 <= k < scan.skipped.len() implies #[trigger] scan.skipped[k] != index by {
        if scan.skipped[k] == index {
            assert(is_listed(scan.skipped, index as int));
        }
    }
    assert forall|f: int| 0 <= f < after.files.len() implies (#[trigger] after.files[f]).remaining
        == waiting(after.pending, after.indexed, after.skipped, f, n) by {
        assert(scan.files[f].remaining == waiting(scan.pending, scan.indexed, scan.skipped, f, n));
        assert forall|i: int| 0 <= i < n && i != index implies is_settled(
            scan.indexed,
            scan.skipped,
            i,
        ) == #[trigger] is_settled(after.indexed, after.skipped, i) by {
            assert(after.dealt_with(i) == (scan.dealt_with(i) || i == index));
        }
        lemma_waiting_less(
            scan.pending,
            scan.indexed,
            scan.skipped,
            after.indexed,
            after.skipped,
            f,
            n,
            index as int,
        );
    }
}

proof fn lemma_listed_push(s: Seq<usize>, x: usize, i: int)
    ensures
        is_listed(s.push(x), i) == (is_listed(s, i) || x as int == i),
{
    let after = s.push(x);
    if is_listed(s, i) {
        let k = choose|k: int| 0 <= k < s.len() && #[trigger] s[k] as int == i;
        assert(after[k] as int == i);
    }
    if x as int == i {
        assert(after[s.len() as int] as int == i);
    }
    if is_listed(after, i) {
        let k = choose|k: int| 0 <= k < after.len() && #[trigger] after[k] as int == i;
        if k < s.len() {
            assert(s[k] as int == i);
        }
    }
}

/// A file waits for no chunk any more exactly where all its chunks were dealt
/// with.
pub proof fn law_complete_file_is_dealt_with(scan: ScanView, file: int)
    requires
        scan.valid(),
        0 <= file < scan.files.len(),
    ensures
        scan.files[file].remaining == 0 <==> scan.file_dealt_with(file),
{
    lemma_waiting_none(scan.pending, scan.indexed, scan.skipped, file, scan.pending.len());
    if scan.file_dealt_with(file) {
        assert forall|i: int|
            0 <= i < scan.pending.len() && (#[trigger] scan.pending[i]).file == file implies is_settled(
            scan.indexed,
            scan.skipped,
            i,
        ) by {
            assert(scan.dealt_with(i));
        }
    }
}

impl CatchUpScan {
    /// Starts a scan: what was indexed and is not among the current files is
    /// deleted.
    pub fn start(known: KnownHashes, current: &Vec<String>) -> (r: Self)
        ensures
            r@ == ScanView::started(known@, views(current@)),
            r@.valid(),
    {
        let deleted: Vec<String> = deleted_files(&known, current);
        let r = CatchUpScan {
            known,
            deleted,
            unchanged: Vec::new(),
            files: Vec::new(),
            pending: Vec::new(),
            indexed: Vec::new(),
            skipped: Vec::new(),
        };
        proof {
            assert(r@ =~= ScanView::started(known@, views(current@)));
        }
        r
    }

    /// Looks at a file: nothing more is done about one that did not change.
    pub fn visit(&mut self, path: &str, content: &str) -> (r: FilePlan)
        ensures
            r@ == file_plan(old(self)@.known, path@, content@),
            final(self)@ == old(self)@.visited(path@, content@),
            old(self)@.valid() ==> final(self)@.valid(),
    {
        match is_real_change(path, content, &self.known) {
            None => {
                let ghost before = self.unchanged@;
                self.unchanged.push(path.to_owned());
                proof {
                    assert(views(self.unchanged@) =~= views(before).push(path@));
                }
                FilePlan::Unchanged
            },
            Some(new_hash) => {
                let was_indexed: bool = self.known.get(path).is_some();
                FilePlan::Changed { new_hash, was_indexed }
            },
        }
    }

    /// Queues the chunks of a file that changed. One without chunks is
    /// complete at once, and its hash is returned to be stored.
    pub fn enqueue(
        &mut self,
        path: &str,
        new_hash: String,
        chunks: Vec<Chunk>,
        frontmatter_ingested: bool,
    ) -> (r: Option<Mark>)
        requires
            old(self)@.valid(),
        ensures
            final(self)@ == old(self)@.with_file(path@, new_hash@, chunks@, frontmatter_ingested),
            final(self)@.valid(),
            opt_view(r) == (if chunks@.len() == 0 {
                Some(MarkView { path: path@, hash: new_hash@ })
            } else {
                None
            }),
    {
        let ghost start = self@;
        let ghost all = chunks@;
        let ghost hash = new_hash@;
        let file: usize = self.files.len();
        let remaining: usize = chunks.len();
        let mark: Option<Mark> = if remaining == 0 {
            Some(Mark { path: path.to_owned(), hash: new_hash.clone() })
        } else {
            None
        };
        let progress = FileProgress { path: path.to_owned(), hash: new_hash, remaining };
        let ghost v = progress@;
        let ghost before = self.files@;
        self.files.push(progress);
        proof {
            assert(views(self.files@) =~= views(before).push(v));
        }
        let mut rest: Vec<Chunk> = chunks;
        let mut queue: Vec<PendingChunk> = Vec::new();
        let ghost target = queued(all, file as nat, frontmatter_ingested);
        while rest.len() > 0
            invariant
                rest@ =~= all.take(rest@.len() as int),
                rest@.len() <= all.len(),
                target == queued(all, file as nat, frontmatter_ingested),
                views(queue@) =~= target.skip(rest@.len() as int).reverse(),
            decreases rest@.len(),
        {
            let ghost left = rest@;
            let ghost done = queue@;
            match rest.pop() {
                Some(chunk) => {
                    let item = PendingChunk {
                        chunk,
                        file,
                        is_frontmatter_chunk: rest.len() == 0 && frontmatter_ingested,
                    };
                    let ghost w = item@;
                    queue.push(item);
                    proof {
                        assert(left.last() == all[left.len() - 1]);
                        assert(w == target[rest@.len() as int]);
                        assert(views(queue@) =~= views(done).push(w));
                        assert(target.skip(rest@.len() as int) =~= seq![w] + target.skip(left.len() as int));
                    }
                },
                None => {},
            }
        }
        proof {
            assert(target.skip(0) =~= target);
            assert(views(queue@).reverse() =~= target);
        }
        let ghost held = self.pending@;
        let ghost total = queue@.len();
        while queue.len() > 0
            invariant
                self@.known == start.known,
                self@.deleted == start.deleted,
                self@.unchanged == start.unchanged,
                self@.indexed == start.indexed,
                self@.skipped == start.skipped,
                self@.files == start.files.push(v),
                start.pending == views(held),
                views(self.pending@) + views(queue@).reverse() =~= start.pending + target,
            decreases queue@.len(),
        {
            let ghost left = queue@;
            let ghost done = self.pending@;
            match queue.pop() {
                Some(item) => {
                    let ghost w = item@;
                    self.pending.push(item);
                    proof {
                        assert(views(self.pending@) =~= views(done).push(w));
                        assert(views(left).reverse() =~= seq![w] + views(queue@).reverse());
                    }
                },
                None => {},
            }
        }
        proof {
            assert(self@.pending =~= start.pending + target);
            assert(self@ =~= start.with_file(path@, hash, all, frontmatter_ingested));
            lemma_with_file_valid(start, path@, hash, all, frontmatter_ingested);
        }
        mark
    }

    /// Notes what became of a chunk, which was not dealt with yet. With the
    /// last chunk of a file, its hash is returned to be stored: a file with a chunk that was left out counts
    /// as indexed too, or it would be indexed again forever.
    pub fn finish_chunk(&mut self, index: usize, result: ChunkResult) -> (r: Option<Mark>)
        requires
            old(self)@.valid(),
            index < old(self)@.pending.len(),
            !old(self)@.dealt_with(index as int),
        ensures
            final(self)@ == old(self)@.with_result(index, result),
            final(self)@.valid(),
            ({
                let file = old(self)@.files[old(self)@.pending[index as int].file as int];
                opt_view(r) == (if file.remaining == 1 {
                    Some(MarkView { path: file.path, hash: file.hash })
                } else {
                    None
                })
            }),
            r is Some <==> final(self)@.file_dealt_with(
                old(self)@.pending[index as int].file as int,
            ),
    {
        let ghost start = self@;
        proof {
            lemma_with_result_valid(start, index, result);
            assert(self@.pending[index as int] == self.pending@[index as int]@);
        }
        let file: usize = self.pending[index].file;
        proof {
            assert(self@.files[file as int] == self.files@[file as int]@);
        }
        let ghost before = self.files@;
        let left: usize = self.files[file].remaining - 1;
        self.files[file].remaining = left;
        match result {
            ChunkResult::Indexed => {
                self.indexed.push(index);
            },
            ChunkResult::Skipped => {
                self.skipped.push(index);
            },
        }
        proof {
            let new = self.files@[file as int]@;
            assert(self@.files =~= start.files.update(file as int, new));
            assert(self@ =~= start.with_result(index, result));
            law_complete_file_is_dealt_with(self@, file as int);
        }
        if left == 0 {
            Some(Mark { path: self.files[file].path.clone(), hash: self.files[file].hash.clone() })
        } else {
            None
        }
    }

    /// Whether the ontology may hold what files no longer say: it is only
    /// added to, never cleaned up.
    pub fn leaves_stale_ontology(&self, enriched: bool) -> (r: bool)
        ensures
            r == (enriched && (self@.files.len() > 0 || self@.deleted.len() > 0)),
    {
        enriched && (self.files.len() > 0 || self.deleted.len() > 0)
    }

    /// The numbers of the scan.
    pub fn summary(&self) -> (r: CatchUpSummary)
        ensures
            r.indexed == self@.indexed.len(),
            r.skipped == self@.skipped.len(),
            r.unchanged_files == self@.unchanged.len(),
            r.changed_files == self@.files.len(),
            r.deleted_files == self@.deleted.len(),
    {
        CatchUpSummary {
            indexed: self.indexed.len(),
            skipped: self.skipped.len(),
            unchanged_files: self.unchanged.len(),
            changed_files: self.files.len(),
            deleted_files: self.deleted.len(),
        }
    }
}

/// When no file waits for a chunk any more, every chunk is in the index or was
/// left out.
pub proof fn law_complete_scan_accounts_for_all(scan: ScanView)
    requires
        scan.valid(),
        forall|i: int| 0 <= i < scan.files.len() ==> (#[trigger] scan.files[i]).remaining == 0,
    ensures
        scan.indexed.len() + scan.skipped.len() == scan.pending.len(),
{
    lemma_nothing_left(scan.files);
}

proof fn lemma_nothing_left(files: Seq<FileProgressView>)
    requires
        forall|i: int| 0 <= i < files.len() ==> (#[trigger] files[i]).remaining == 0,
    ensures
        left_over(files) == 0,
    decreases files.len(),
{
    if files.len() > 0 {
        assert forall|i: int| 0 <= i < files.drop_last().len() implies (
        #[trigger] files.drop_last()[i]).remaining == 0 by {
            assert(files[i].remaining == 0);
        }
        lemma_nothing_left(files.drop_last());
        assert(files[files.len() - 1].remaining == 0);
    }
}

/// A file whose content was stored as indexed is unchanged in the next scan.
pub proof fn law_warm_restart_changes_nothing(
    known: Seq<KnownFileView>,
    path: Seq<char>,
    content: Seq<char>,
)
    ensures
        file_plan(
            with_hash(known, path, crate::hashing::text_hash(content)),
            path,
            content,
        ) is Unchanged,
{
    crate::known::law_indexed_is_unchanged(known, path, path, content);
}

/// What was indexed of a file is dropped before the file is indexed again, and
/// only then.
pub proof fn law_stale_chunks_go_first(known: Seq<KnownFileView>, path: Seq<char>, content: Seq<char>)
    ensures
        match file_plan(known, path, content) {
            FilePlanView::Unchanged => known_hash(known, path) is Some,
            FilePlanView::Changed { was_indexed, .. } => was_indexed == (known_hash(known, path) is Some),
        },
{
}

} // verus!
