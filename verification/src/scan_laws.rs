//! What holds of a whole scan, from its start to its last chunk.

use vstd::prelude::*;
use vstd::utf8::encode_utf8;
use crate::chunker::Chunk;
use crate::hashing::{blake3_hex, text_hash};
use crate::known::{
    gone, is_among, known_hash, known_valid, law_deleted_are_the_missing, law_noted_hash_is_known,
    paths_of, real_change, with_hash, KnownFileView,
};
use crate::paths::parts_of;
use crate::scan::{
    file_plan, law_complete_scan_accounts_for_all, lemma_with_file_valid, lemma_with_result_valid,
    ChunkResult, FilePlanView, FileProgressView, ScanView,
};
use crate::views::{first_match, lemma_filter_from, lemma_filter_keeps_first, lemma_first_match};

verus! {

/// A file that a scan finds: its path and content, the chunks that it is cut
/// into, and whether its frontmatter was ingested.
pub struct FoundFile {
    pub path: Seq<char>,
    pub content: Seq<char>,
    pub chunks: Seq<Chunk>,
    pub frontmatter_ingested: bool,
}

/// What became of a chunk, which is given by its number.
pub struct Settlement {
    pub index: usize,
    pub result: ChunkResult,
}

/// The paths of the files that a scan finds.
pub open spec fn found_paths(found: Seq<FoundFile>) -> Seq<Seq<char>> {
    found.map_values(|f: FoundFile| f.path)
}

/// No two of the files are one.
pub open spec fn files_differ(found: Seq<FoundFile>) -> bool {
    forall|i: int, j: int|
        0 <= i < j < found.len() ==> parts_of((#[trigger] found[i]).path) != parts_of(
            (#[trigger] found[j]).path,
        )
}

impl ScanView {
    /// The scan after it looked at a file, and queued its chunks if it changed.
    pub open spec fn with_found(self, f: FoundFile) -> ScanView {
        match file_plan(self.known, f.path, f.content) {
            FilePlanView::Unchanged => self.visited(f.path, f.content),
            FilePlanView::Changed { new_hash, .. } => self.visited(f.path, f.content).with_file(
                f.path,
                new_hash,
                f.chunks,
                f.frontmatter_ingested,
            ),
        }
    }

    /// The scan after the first `n` files.
    pub open spec fn walked(self, found: Seq<FoundFile>, n: nat) -> ScanView
        decreases n,
    {
        if n == 0 {
            self
        } else {
            self.walked(found, (n - 1) as nat).with_found(found[n - 1])
        }
    }

    /// The scan after the first `n` chunks were dealt with.
    pub open spec fn settled(self, done: Seq<Settlement>, n: nat) -> ScanView
        decreases n,
    {
        if n == 0 {
            self
        } else {
            self.settled(done, (n - 1) as nat).with_result(done[n - 1].index, done[n - 1].result)
        }
    }

    /// The chunks are there, and each is dealt with once.
    pub open spec fn may_settle(self, done: Seq<Settlement>) -> bool {
        forall|k: int|
            0 <= k < done.len() ==> (#[trigger] done[k]).index < self.pending.len() && !self.settled(
                done,
                k as nat,
            ).dealt_with(done[k].index as int)
    }

    /// No file waits for a chunk any more.
    pub open spec fn complete(self) -> bool {
        forall|i: int| 0 <= i < self.files.len() ==> (#[trigger] self.files[i]).remaining == 0
    }

    /// What the next scan knows: what was known and is not deleted, with the
    /// hash of each file that waits for no chunk any more.
    pub open spec fn stored(self) -> Seq<KnownFileView> {
        with_marks(
            self.known.filter(|f: KnownFileView| !self.deleted.contains(f.path)),
            self.files,
            self.files.len(),
        )
    }
}

/// The known files with the hashes of those of the first `n` files that wait
/// for no chunk any more.
pub open spec fn with_marks(
    known: Seq<KnownFileView>,
    files: Seq<FileProgressView>,
    n: nat,
) -> Seq<KnownFileView>
    decreases n,
{
    if n == 0 {
        known
    } else {
        let before = with_marks(known, files, (n - 1) as nat);
        if files[n - 1].remaining == 0 {
            with_hash(before, files[n - 1].path, files[n - 1].hash)
        } else {
            before
        }
    }
}

/// `file` is a file that was found, with the hash of its content.
pub open spec fn is_found(file: FileProgressView, f: FoundFile) -> bool {
    file.path == f.path && file.hash == text_hash(f.content)
}

/// The first `n` files are accounted for: each is unchanged, or among those
/// being indexed, and nothing else is.
pub open spec fn accounted(scan: ScanView, found: Seq<FoundFile>, n: nat) -> bool {
    &&& scan.unchanged.len() + scan.files.len() == n
    &&& forall|i: int|
        0 <= i < n ==> known_hash(scan.known, (#[trigger] found[i]).path) == Some(
            text_hash(found[i].content),
        ) || exists|k: int| 0 <= k < scan.files.len() && is_found(#[trigger] scan.files[k], found[i])
    &&& forall|k: int|
        0 <= k < scan.files.len() ==> exists|i: int|
            0 <= i < n && is_found(#[trigger] scan.files[k], #[trigger] found[i])
}

proof fn lemma_walked(start: ScanView, found: Seq<FoundFile>, n: nat)
    requires
        start.valid(),
        start.unchanged.len() == 0,
        start.files.len() == 0,
        n <= found.len(),
    ensures
        start.walked(found, n).valid(),
        start.walked(found, n).known == start.known,
        start.walked(found, n).deleted == start.deleted,
        accounted(start.walked(found, n), found, n),
    decreases n,
{
    if n > 0 {
        let m = (n - 1) as nat;
        lemma_walked(start, found, m);
        let before = start.walked(found, m);
        let after = start.walked(found, n);
        let f = found[n - 1];
        match file_plan(before.known, f.path, f.content) {
            FilePlanView::Unchanged => {
                assert(after.files == before.files);
                assert forall|k: int| 0 <= k < after.files.len() implies exists|i: int|
                    0 <= i < n && is_found(#[trigger] after.files[k], #[trigger] found[i]) by {
                    let i = choose|i: int| 0 <= i < m && is_found(before.files[k], #[trigger] found[i]);
                    assert(is_found(after.files[k], found[i]));
                }
            },
            FilePlanView::Changed { new_hash, .. } => {
                lemma_with_file_valid(before, f.path, new_hash, f.chunks, f.frontmatter_ingested);
                let last = before.files.len() as int;
                assert(is_found(after.files[last], f));
                assert forall|i: int| 0 <= i < n implies known_hash(
                    after.known,
                    (#[trigger] found[i]).path,
                ) == Some(text_hash(found[i].content)) || exists|k: int|
                    0 <= k < after.files.len() && is_found(#[trigger] after.files[k], found[i]) by {
                    if i < m {
                        if known_hash(before.known, found[i].path) != Some(text_hash(found[i].content)) {
                            let k = choose|k: int|
                                0 <= k < before.files.len() && is_found(
                                    #[trigger] before.files[k],
                                    found[i],
                                );
                            assert(after.files[k] == before.files[k]);
                        }
                    }
                }
                assert forall|k: int| 0 <= k < after.files.len() implies exists|i: int|
                    0 <= i < n && is_found(#[trigger] after.files[k], #[trigger] found[i]) by {
                    if k < last {
                        assert(after.files[k] == before.files[k]);
                        let i = choose|i: int|
                            0 <= i < m && is_found(before.files[k], #[trigger] found[i]);
                        assert(is_found(after.files[k], found[i]));
                    } else {
                        assert(is_found(after.files[k], found[n - 1]));
                    }
                }
            },
        }
    }
}

proof fn lemma_settled(scan: ScanView, done: Seq<Settlement>, n: nat)
    requires
        scan.valid(),
        scan.may_settle(done),
        n <= done.len(),
    ensures
        ({
            let after = scan.settled(done, n);
            &&& after.valid()
            &&& after.known == scan.known
            &&& after.deleted == scan.deleted
            &&& after.unchanged == scan.unchanged
            &&& after.pending == scan.pending
            &&& after.files.len() == scan.files.len()
            &&& forall|k: int|
                0 <= k < after.files.len() ==> (#[trigger] after.files[k]).path == scan.files[k].path
                    && after.files[k].hash == scan.files[k].hash
        }),
    decreases n,
{
    if n > 0 {
        lemma_settled(scan, done, (n - 1) as nat);
        let before = scan.settled(done, (n - 1) as nat);
        let d = done[n - 1];
        lemma_with_result_valid(before, d.index, d.result);
    }
}

/// What is left of the known files after the deleted ones are taken out.
proof fn lemma_kept(known: Seq<KnownFileView>, current: Seq<Seq<char>>, path: Seq<char>)
    requires
        known_valid(known),
    ensures
        ({
            let deleted = paths_of(gone(known, current));
            known_hash(known.filter(|f: KnownFileView| !deleted.contains(f.path)), path)
                == if is_among(current, parts_of(path)) {
                known_hash(known, path)
            } else {
                None
            }
        }),
{
    let deleted = paths_of(gone(known, current));
    let keep = |f: KnownFileView| !deleted.contains(f.path);
    let p = |f: KnownFileView| f.parts == parts_of(path);
    let left = known.filter(keep);
    let missing = gone(known, current);
    if is_among(current, parts_of(path)) {
        assert forall|i: int| 0 <= i < known.len() && p(#[trigger] known[i]) implies keep(known[i]) by {
            if deleted.contains(known[i].path) {
                let k = choose|k: int| 0 <= k < deleted.len() && deleted[k] == known[i].path;
                lemma_filter_from(known, |f: KnownFileView| !is_among(current, f.parts), k);
                assert(known.contains(missing[k]));
                let j = choose|j: int| 0 <= j < known.len() && known[j] == missing[k];
                assert(known[j].path == known[i].path);
            }
        }
        lemma_first_match(known, p);
        lemma_filter_keeps_first(known, keep, p);
    } else {
        lemma_first_match(left, p);
        if first_match(left, p) is Some {
            let v = first_match(left, p)->0;
            let i = choose|i: int| 0 <= i < left.len() && #[trigger] left[i] == v;
            lemma_filter_from(known, keep, i);
            law_deleted_are_the_missing(known, current, v);
            assert(missing.contains(v));
            let k = choose|k: int| 0 <= k < missing.len() && missing[k] == v;
            assert(deleted[k] == v.path);
            assert(deleted.contains(v.path));
        }
    }
}

/// What is known of a path after some marks, all of which give it one hash.
proof fn lemma_marked(
    known: Seq<KnownFileView>,
    files: Seq<FileProgressView>,
    n: nat,
    path: Seq<char>,
    hash: Seq<char>,
)
    requires
        n <= files.len(),
        forall|k: int| 0 <= k < n ==> (#[trigger] files[k]).remaining == 0,
        forall|k: int|
            0 <= k < n && parts_of((#[trigger] files[k]).path) == parts_of(path) ==> files[k].hash == hash,
    ensures
        known_hash(with_marks(known, files, n), path) == if exists|k: int|
            0 <= k < n && parts_of((#[trigger] files[k]).path) == parts_of(path) {
            Some(hash)
        } else {
            known_hash(known, path)
        },
    decreases n,
{
    if n > 0 {
        let m = (n - 1) as nat;
        lemma_marked(known, files, m, path, hash);
        let last = files[n - 1];
        assert(last.remaining == 0);
        law_noted_hash_is_known(with_marks(known, files, m), last.path, last.hash, path);
        if parts_of(last.path) == parts_of(path) {
            assert(files[n - 1].hash == hash);
        } else if exists|k: int| 0 <= k < n && parts_of((#[trigger] files[k]).path) == parts_of(path) {
            let k = choose|k: int| 0 <= k < n && parts_of((#[trigger] files[k]).path) == parts_of(path);
            assert(k < m);
        }
    }
}

/// After a scan that dealt with every chunk, each file that is there is counted
/// once, as changed or as unchanged; each chunk was indexed or skipped; and what
/// the next scan knows are the hashes of the files that are there, and nothing
/// else.
pub proof fn law_complete_scan(
    known: Seq<KnownFileView>,
    found: Seq<FoundFile>,
    done: Seq<Settlement>,
    path: Seq<char>,
)
    requires
        known_valid(known),
        files_differ(found),
        ({
            let walked = ScanView::started(known, found_paths(found)).walked(found, found.len());
            walked.may_settle(done) && walked.settled(done, done.len()).complete()
        }),
    ensures
        ({
            let walked = ScanView::started(known, found_paths(found)).walked(found, found.len());
            let scan = walked.settled(done, done.len());
            &&& scan.unchanged.len() + scan.files.len() == found.len()
            &&& scan.indexed.len() + scan.skipped.len() == scan.pending.len()
            &&& forall|i: int|
                0 <= i < found.len() ==> known_hash(scan.stored(), (#[trigger] found[i]).path) == Some(
                    text_hash(found[i].content),
                )
            &&& !is_among(found_paths(found), parts_of(path)) ==> known_hash(scan.stored(), path)
                is None
        }),
{
    let current = found_paths(found);
    let start = ScanView::started(known, current);
    lemma_walked(start, found, found.len());
    let walked = start.walked(found, found.len());
    lemma_settled(walked, done, done.len());
    let scan = walked.settled(done, done.len());
    law_complete_scan_accounts_for_all(scan);
    let base = known.filter(|f: KnownFileView| !scan.deleted.contains(f.path));
    let n = scan.files.len();
    assert forall|i: int| 0 <= i < found.len() implies known_hash(
        scan.stored(),
        (#[trigger] found[i]).path,
    ) == Some(text_hash(found[i].content)) by {
        let f = found[i];
        let hash = text_hash(f.content);
        assert(current[i] == f.path);
        lemma_kept(known, current, f.path);
        assert forall|k: int|
            0 <= k < n && parts_of((#[trigger] scan.files[k]).path) == parts_of(f.path) implies scan.files[k].hash
            == hash by {
            assert(scan.files[k].path == walked.files[k].path);
            let j = choose|j: int|
                0 <= j < found.len() && is_found(walked.files[k], #[trigger] found[j]);
            if j < i {
                assert(parts_of(found[j].path) != parts_of(found[i].path));
            }
            if i < j {
                assert(parts_of(found[i].path) != parts_of(found[j].path));
            }
        }
        lemma_marked(base, scan.files, n, f.path, hash);
        if known_hash(known, f.path) != Some(hash) {
            let k = choose|k: int|
                0 <= k < walked.files.len() && is_found(#[trigger] walked.files[k], found[i]);
            assert(parts_of(scan.files[k].path) == parts_of(f.path));
        }
    }
    if !is_among(current, parts_of(path)) {
        lemma_kept(known, current, path);
        assert forall|k: int| 0 <= k < n implies parts_of((#[trigger] scan.files[k]).path) != parts_of(
            path,
        ) by {
            assert(scan.files[k].path == walked.files[k].path);
            let j = choose|j: int|
                0 <= j < found.len() && is_found(walked.files[k], #[trigger] found[j]);
            assert(current[j] == found[j].path);
        }
        lemma_marked(base, scan.files, n, path, Seq::empty());
    }
}

/// A file is taken for unchanged exactly where the hash that is known for it is
/// that of its content; else its new hash is that of its content, and it is known
/// whether something of it was indexed.
pub proof fn law_plan_follows_the_hash(known: Seq<KnownFileView>, path: Seq<char>, content: Seq<char>)
    ensures
        file_plan(known, path, content) is Unchanged <==> known_hash(known, path) == Some(
            blake3_hex(encode_utf8(content)),
        ),
        file_plan(known, path, content) matches FilePlanView::Changed { new_hash, was_indexed } ==> new_hash
            == blake3_hex(encode_utf8(content)) && was_indexed == (known_hash(known, path) is Some),
{
}

/// A known hash is that of a file with the same path, however it is written.
pub proof fn law_known_hash_is_of_the_path(files: Seq<KnownFileView>, path: Seq<char>)
    ensures
        known_hash(files, path) is Some <==> exists|i: int|
            0 <= i < files.len() && (#[trigger] files[i]).parts == parts_of(path),
        known_hash(files, path) is Some ==> exists|i: int|
            0 <= i < files.len() && (#[trigger] files[i]).parts == parts_of(path) && files[i].hash
                == known_hash(files, path)->0,
{
    let p = |f: KnownFileView| f.parts == parts_of(path);
    lemma_first_match(files, p);
    if exists|i: int| 0 <= i < files.len() && (#[trigger] files[i]).parts == parts_of(path) {
        let i = choose|i: int| 0 <= i < files.len() && (#[trigger] files[i]).parts == parts_of(path);
        assert(p(files[i]));
    }
    if first_match(files, p) is Some {
        let v = first_match(files, p)->0;
        let i = choose|i: int| 0 <= i < files.len() && #[trigger] files[i] == v;
        assert(files[i].parts == parts_of(path));
    }
}

/// A scan takes the path of a known file for deleted exactly where no current
/// file has that path.
pub proof fn law_scan_finds_the_deleted(
    known: Seq<KnownFileView>,
    current: Seq<Seq<char>>,
    path: Seq<char>,
)
    requires
        known_valid(known),
    ensures
        ScanView::started(known, current).deleted.contains(path) <==> (exists|i: int|
            0 <= i < known.len() && (#[trigger] known[i]).path == path) && forall|k: int|
            0 <= k < current.len() ==> parts_of(#[trigger] current[k]) != parts_of(path),
{
    let missing = gone(known, current);
    let deleted = ScanView::started(known, current).deleted;
    let p = |f: KnownFileView| !is_among(current, f.parts);
    if deleted.contains(path) {
        let k = choose|k: int| 0 <= k < deleted.len() && deleted[k] == path;
        lemma_filter_from(known, p, k);
        let i = choose|i: int| 0 <= i < known.len() && known[i] == missing[k];
        assert(known[i].path == path);
        assert(known[i].parts == parts_of(path));
    }
    if (exists|i: int| 0 <= i < known.len() && (#[trigger] known[i]).path == path) && forall|k: int|
        0 <= k < current.len() ==> parts_of(#[trigger] current[k]) != parts_of(path) {
        let i = choose|i: int| 0 <= i < known.len() && (#[trigger] known[i]).path == path;
        assert(!is_among(current, known[i].parts));
        assert(p(known[i]));
        known.lemma_filter_contains(p, i);
        let k = choose|k: int| 0 <= k < missing.len() && missing[k] == known[i];
        assert(deleted[k] == path);
    }
}

/// The chunks of a file are queued in order behind those that were queued before,
/// each for that file; only the first can be frontmatter, and is where it was
/// ingested.
pub proof fn law_chunks_are_queued(
    scan: ScanView,
    path: Seq<char>,
    hash: Seq<char>,
    chunks: Seq<Chunk>,
    frontmatter_ingested: bool,
)
    ensures
        ({
            let after = scan.with_file(path, hash, chunks, frontmatter_ingested);
            &&& after.files.len() == scan.files.len() + 1
            &&& after.files.last().path == path && after.files.last().hash == hash
            &&& after.files.last().remaining == chunks.len()
            &&& after.pending.len() == scan.pending.len() + chunks.len()
            &&& forall|i: int|
                0 <= i < scan.pending.len() ==> after.pending[i] == #[trigger] scan.pending[i]
            &&& forall|i: int|
                0 <= i < chunks.len() ==> after.pending[scan.pending.len() + i].chunk
                    == #[trigger] chunks[i] && after.pending[scan.pending.len() + i].file
                    == scan.files.len() && after.pending[scan.pending.len() + i].is_frontmatter_chunk
                    == (i == 0 && frontmatter_ingested)
        }),
{
}

/// A chunk that is dealt with is noted as indexed or as skipped, as it was, and
/// its file waits for one chunk less; nothing else changes.
pub proof fn law_result_is_noted(scan: ScanView, index: usize, f: int)
    requires
        scan.valid(),
        index < scan.pending.len(),
        !scan.dealt_with(index as int),
        0 <= f < scan.files.len(),
    ensures
        scan.with_result(index, ChunkResult::Indexed).indexed == scan.indexed.push(index),
        scan.with_result(index, ChunkResult::Indexed).skipped == scan.skipped,
        scan.with_result(index, ChunkResult::Skipped).skipped == scan.skipped.push(index),
        scan.with_result(index, ChunkResult::Skipped).indexed == scan.indexed,
        forall|result: ChunkResult|
            (#[trigger] scan.with_result(index, result)).files[f].remaining == scan.files[f].remaining
                - if scan.pending[index as int].file == f {
                1int
            } else {
                0int
            },
{
    lemma_with_result_valid(scan, index, ChunkResult::Indexed);
}

/// A content counts as changed exactly where its hash is not the known one, and
/// what is returned is its own hash.
pub proof fn law_change_is_a_new_hash(known: Seq<KnownFileView>, path: Seq<char>, content: Seq<char>)
    ensures
        real_change(known, path, content) is None <==> known_hash(known, path) == Some(
            blake3_hex(encode_utf8(content)),
        ),
        real_change(known, path, content) matches Some(hash) ==> hash == blake3_hex(
            encode_utf8(content),
        ),
{
}

/// A file that did not change is noted as such under its path, and nothing is noted
/// of one that did.
pub proof fn law_visit_notes_the_unchanged(scan: ScanView, path: Seq<char>, content: Seq<char>)
    ensures
        ({
            let after = scan.visited(path, content);
            let same = known_hash(scan.known, path) == Some(blake3_hex(encode_utf8(content)));
            &&& same ==> after.unchanged == scan.unchanged.push(path)
            &&& !same ==> after.unchanged == scan.unchanged
            &&& after.known == scan.known && after.deleted == scan.deleted
            &&& after.files == scan.files && after.pending == scan.pending
            &&& after.indexed == scan.indexed && after.skipped == scan.skipped
        }),
{
}

} // verus!
