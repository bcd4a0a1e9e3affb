//! What was indexed before, and whether a file really changed since.

use vstd::prelude::*;
use crate::hashing::{hash_content, text_hash};
use crate::paths::{parts, parts_of, same_parts, Part, PartView};
use crate::text::same_text;
use crate::views::{
    first_match, lemma_filter_next, lemma_first_match, lemma_first_match_at, lemma_first_match_push,
    opt_view, views,
};

verus! {

/// A file that was indexed, with the hash of the content that was.
#[derive(Debug)]
pub struct KnownFile {
    pub path: String,
    pub parts: Vec<Part>,
    pub hash: String,
}

/// What a [`KnownFile`] holds.
#[verifier::ext_equal]
pub struct KnownFileView {
    pub path: Seq<char>,
    pub parts: Seq<PartView>,
    pub hash: Seq<char>,
}

impl View for KnownFile {
    type V = KnownFileView;

    open spec fn view(&self) -> KnownFileView {
        KnownFileView { path: self.path@, parts: views(self.parts@), hash: self.hash@ }
    }
}

/// The files that were indexed. Paths with the same parts are one path.
#[derive(Debug)]
pub struct KnownHashes {
    pub files: Vec<KnownFile>,
}

impl View for KnownHashes {
    type V = Seq<KnownFileView>;

    open spec fn view(&self) -> Seq<KnownFileView> {
        views(self.files@)
    }
}

/// Each file is listed with the parts of its path.
pub open spec fn known_valid(files: Seq<KnownFileView>) -> bool {
    forall|i: int| 0 <= i < files.len() ==> (#[trigger] files[i]).parts == parts_of(files[i].path)
}

/// The hash that is known for a path.
pub open spec fn known_hash(files: Seq<KnownFileView>, path: Seq<char>) -> Option<Seq<char>> {
    match first_match(files, |f: KnownFileView| f.parts == parts_of(path)) {
        Some(f) => Some(f.hash),
        None => None,
    }
}

/// Where the first file with these parts stands.
pub open spec fn index_of_parts(files: Seq<KnownFileView>, parts: Seq<PartView>) -> Option<int>
    decreases files.len(),
{
    if files.len() == 0 {
        None
    } else {
        match index_of_parts(files.drop_last(), parts) {
            Some(i) => Some(i),
            None => if files.last().parts == parts {
                Some(files.len() - 1)
            } else {
                None
            },
        }
    }
}

/// The files after a hash was noted for a path.
pub open spec fn with_hash(files: Seq<KnownFileView>, path: Seq<char>, hash: Seq<char>) -> Seq<
    KnownFileView,
> {
    match index_of_parts(files, parts_of(path)) {
        Some(i) => files.update(i, KnownFileView { hash, ..files[i] }),
        None => files.push(KnownFileView { path, parts: parts_of(path), hash }),
    }
}

proof fn lemma_index_of_parts(files: Seq<KnownFileView>, parts: Seq<PartView>)
    ensures
        match index_of_parts(files, parts) {
            Some(i) => 0 <= i < files.len() && files[i].parts == parts && forall|j: int|
                0 <= j < i ==> (#[trigger] files[j]).parts != parts,
            None => forall|j: int| 0 <= j < files.len() ==> (#[trigger] files[j]).parts != parts,
        },
    decreases files.len(),
{
    if files.len() > 0 {
        let rest = files.drop_last();
        lemma_index_of_parts(rest, parts);
        match index_of_parts(rest, parts) {
            Some(i) => {
                assert forall|j: int| 0 <= j < i implies (#[trigger] files[j]).parts != parts by {
                    assert(rest[j] == files[j]);
                }
            },
            None => {
                assert forall|j: int| 0 <= j < files.len() - 1 implies (#[trigger] files[j]).parts
                    != parts by {
                    assert(rest[j] == files[j]);
                }
            },
        }
    }
}

/// A hash that was noted for a path is known for it, and for no other path.
pub proof fn law_noted_hash_is_known(
    files: Seq<KnownFileView>,
    path: Seq<char>,
    hash: Seq<char>,
    other: Seq<char>,
)
    ensures
        known_hash(with_hash(files, path, hash), other) == if parts_of(other) == parts_of(path) {
            Some(hash)
        } else {
            known_hash(files, other)
        },
{
    let p = |f: KnownFileView| f.parts == parts_of(other);
    let after = with_hash(files, path, hash);
    lemma_index_of_parts(files, parts_of(path));
    lemma_first_match(files, p);
    match index_of_parts(files, parts_of(path)) {
        Some(i) => {
            if parts_of(other) == parts_of(path) {
                assert forall|j: int| 0 <= j < i implies !p(#[trigger] after[j]) by {
                    assert(after[j] == files[j]);
                }
                lemma_first_match_at(after, p, i);
            } else {
                match first_match(files, p) {
                    Some(v) => {
                        let k = choose|k: int|
                            0 <= k < files.len() && #[trigger] files[k] == v && forall|j: int|
                                0 <= j < k ==> !p(#[trigger] files[j]);
                        assert(k != i);
                        assert forall|j: int| 0 <= j < k implies !p(#[trigger] after[j]) by {
                            assert(!p(files[j]));
                        }
                        assert(after[k] == files[k]);
                        lemma_first_match_at(after, p, k);
                    },
                    None => {
                        lemma_first_match(after, p);
                        if first_match(after, p) is Some {
                            let v = first_match(after, p)->0;
                            let k = choose|k: int| 0 <= k < after.len() && #[trigger] after[k] == v;
                            assert(!p(files[k]));
                        }
                    },
                }
            }
        },
        None => {
            let new = KnownFileView { path, parts: parts_of(path), hash };
            lemma_first_match_push(files, new, p);
            if first_match(files, p) is Some {
                let v = first_match(files, p)->0;
                let k = choose|k: int| 0 <= k < files.len() && #[trigger] files[k] == v;
                assert(files[k].parts != parts_of(path));
            }
        },
    }
}

impl KnownHashes {
    /// Nothing was indexed.
    pub fn new() -> (r: Self)
        ensures
            r@ == Seq::<KnownFileView>::empty(),
            known_valid(r@),
    {
        let r = KnownHashes { files: Vec::new() };
        proof {
            assert(r@ =~= Seq::<KnownFileView>::empty());
        }
        r
    }

    fn index(&self, wanted: &Vec<Part>) -> (r: Option<usize>)
        ensures
            match r {
                Some(i) => i < self.files@.len() && index_of_parts(self@, views(wanted@)) == Some(
                    i as int,
                ) && first_match(self@, |f: KnownFileView| f.parts == views(wanted@)) == Some(
                    self.files@[i as int]@,
                ),
                None => index_of_parts(self@, views(wanted@)) is None && first_match(
                    self@,
                    |f: KnownFileView| f.parts == views(wanted@),
                ) is None,
            },
    {
        let ghost p = |f: KnownFileView| f.parts == views(wanted@);
        let mut i: usize = 0;
        proof {
            lemma_index_of_parts(self@, views(wanted@));
        }
        while i < self.files.len()
            invariant
                i <= self.files@.len(),
                p == (|f: KnownFileView| f.parts == views(wanted@)),
                forall|j: int| 0 <= j < i ==> !p(#[trigger] self@[j]),
                match index_of_parts(self@, views(wanted@)) {
                    Some(k) => 0 <= k < self@.len() && self@[k].parts == views(wanted@) && forall|
                        j: int,
                    |
                        0 <= j < k ==> (#[trigger] self@[j]).parts != views(wanted@),
                    None => forall|j: int|
                        0 <= j < self@.len() ==> (#[trigger] self@[j]).parts != views(wanted@),
                },
            decreases self.files@.len() - i,
        {
            proof {
                assert(self@[i as int] == self.files@[i as int]@);
            }
            if same_parts(&self.files[i].parts, wanted) {
                proof {
                    lemma_first_match_at(self@, p, i as int);
                    if index_of_parts(self@, views(wanted@)) is Some {
                        let k = index_of_parts(self@, views(wanted@))->0;
                        if k < i {
                            assert(!p(self@[k]));
                        }
                    }
                }
                return Some(i);
            }
            i += 1;
        }
        proof {
            lemma_first_match(self@, p);
            if index_of_parts(self@, views(wanted@)) is Some {
                let k = index_of_parts(self@, views(wanted@))->0;
                assert(!p(self@[k]));
            }
        }
        None
    }

    /// Notes the hash of the content that was indexed of a file.
    pub fn insert(&mut self, path: &str, hash: String)
        ensures
            final(self)@ == with_hash(old(self)@, path@, hash@),
            known_valid(old(self)@) ==> known_valid(final(self)@),
    {
        proof {
            lemma_index_of_parts(self@, parts_of(path@));
        }
        let wanted: Vec<Part> = parts(path);
        match self.index(&wanted) {
            Some(i) => {
                let ghost before = self.files@;
                let ghost h = hash@;
                self.files[i].hash = hash;
                proof {
                    assert(self@ =~= views(before).update(
                        i as int,
                        KnownFileView { hash: h, ..views(before)[i as int] },
                    ));
                }
            },
            None => {
                let ghost before = self.files@;
                let file = KnownFile { path: path.to_owned(), parts: wanted, hash };
                let ghost v = file@;
                self.files.push(file);
                proof {
                    assert(self@ =~= views(before).push(v));
                }
            },
        }
    }

    /// The hash that is known for a path.
    pub fn get(&self, path: &str) -> (r: Option<String>)
        ensures
            opt_view(r) == known_hash(self@, path@),
    {
        let wanted: Vec<Part> = parts(path);
        match self.index(&wanted) {
            Some(i) => Some(self.files[i].hash.clone()),
            None => None,
        }
    }
}

/// The hash of a content that differs from what is known for a path; `None`
/// where it is known.
pub open spec fn real_change(files: Seq<KnownFileView>, path: Seq<char>, content: Seq<char>) -> Option<
    Seq<char>,
> {
    if known_hash(files, path) == Some(text_hash(content)) {
        None
    } else {
        Some(text_hash(content))
    }
}

/// Whether a file's content differs from what was indexed of it, and its new
/// hash. A file that was never seen counts as changed; one that was only
/// touched does not.
pub fn is_real_change(file_path: &str, content: &str, known_hashes: &KnownHashes) -> (r: Option<String>)
    ensures
        opt_view(r) == real_change(known_hashes@, file_path@, content@),
{
    let new_hash: String = hash_content(content);
    match known_hashes.get(file_path) {
        Some(existing) => if same_text(existing.as_str(), new_hash.as_str()) {
            None
        } else {
            Some(new_hash)
        },
        None => Some(new_hash),
    }
}

/// Once the content of a file was indexed, a touch of the file is no change,
/// however its path is written.
pub proof fn law_indexed_is_unchanged(
    files: Seq<KnownFileView>,
    path: Seq<char>,
    other: Seq<char>,
    content: Seq<char>,
)
    requires
        parts_of(other) == parts_of(path),
    ensures
        real_change(with_hash(files, path, text_hash(content)), other, content) is None,
{
    law_noted_hash_is_known(files, path, text_hash(content), other);
}

/// A file that was never seen always counts as changed.
pub proof fn law_unseen_is_changed(files: Seq<KnownFileView>, path: Seq<char>, content: Seq<char>)
    requires
        forall|i: int| 0 <= i < files.len() ==> (#[trigger] files[i]).parts != parts_of(path),
    ensures
        real_change(files, path, content) == Some(text_hash(content)),
{
    lemma_first_match(files, |f: KnownFileView| f.parts == parts_of(path));
}

/// A path is among some paths.
pub open spec fn is_among(paths: Seq<Seq<char>>, parts: Seq<PartView>) -> bool {
    exists|i: int| 0 <= i < paths.len() && parts_of(#[trigger] paths[i]) == parts
}

/// The paths of some files.
pub open spec fn paths_of(files: Seq<KnownFileView>) -> Seq<Seq<char>> {
    files.map_values(|f: KnownFileView| f.path)
}

/// The files that were indexed and are not there any more.
pub open spec fn gone(files: Seq<KnownFileView>, current: Seq<Seq<char>>) -> Seq<KnownFileView> {
    files.filter(|f: KnownFileView| !is_among(current, f.parts))
}

/// The paths of the files that were indexed and are not there any more.
pub fn deleted_files(known: &KnownHashes, current: &Vec<String>) -> (r: Vec<String>)
    ensures
        views(r@) == paths_of(gone(known@, views(current@))),
{
    let mut there: Vec<Vec<Part>> = Vec::new();
    let ghost paths = views(current@);
    let mut k: usize = 0;
    while k < current.len()
        invariant
            k <= current@.len(),
            paths == views(current@),
            there@.len() == k,
            forall|j: int| 0 <= j < k ==> views((#[trigger] there@[j])@) == parts_of(paths[j]),
        decreases current@.len() - k,
    {
        there.push(parts(current[k].as_str()));
        k += 1;
    }
    let ghost all = known@;
    let ghost p = |f: KnownFileView| !is_among(paths, f.parts);
    let mut r: Vec<String> = Vec::new();
    let mut i: usize = 0;
    proof {
        assert(all.take(0).filter(p) =~= Seq::<KnownFileView>::empty());
        assert(views(r@) =~= paths_of(all.take(0).filter(p)));
    }
    while i < known.files.len()
        invariant
            i <= known.files@.len(),
            all == known@,
            paths == views(current@),
            there@.len() == paths.len(),
            forall|j: int| 0 <= j < there@.len() ==> views((#[trigger] there@[j])@) == parts_of(paths[j]),
            p == (|f: KnownFileView| !is_among(paths, f.parts)),
            views(r@) == paths_of(all.take(i as int).filter(p)),
        decreases known.files@.len() - i,
    {
        proof {
            lemma_filter_next(all, p, i as int);
            assert(all[i as int] == known.files@[i as int]@);
        }
        if !listed(&there, &known.files[i].parts, Ghost(paths)) {
            let path: String = known.files[i].path.clone();
            let ghost before = r@;
            let ghost v = path@;
            r.push(path);
            proof {
                assert(views(r@) =~= views(before).push(v));
                assert(paths_of(all.take(i + 1).filter(p)) =~= paths_of(all.take(i as int).filter(p)).push(
                    v,
                ));
            }
        }
        i += 1;
    }
    proof {
        assert(all.take(all.len() as int) =~= all);
    }
    r
}

/// Whether one of some paths, given by their parts, has these parts.
fn listed(there: &Vec<Vec<Part>>, wanted: &Vec<Part>, Ghost(paths): Ghost<Seq<Seq<char>>>) -> (r: bool)
    requires
        there@.len() == paths.len(),
        forall|j: int| 0 <= j < there@.len() ==> views((#[trigger] there@[j])@) == parts_of(paths[j]),
    ensures
        r == is_among(paths, views(wanted@)),
{
    let mut i: usize = 0;
    while i < there.len()
        invariant
            i <= there@.len() == paths.len(),
            forall|j: int| 0 <= j < there@.len() ==> views((#[trigger] there@[j])@) == parts_of(paths[j]),
            forall|j: int| 0 <= j < i ==> parts_of(#[trigger] paths[j]) != views(wanted@),
        decreases there@.len() - i,
    {
        if same_parts(&there[i], wanted) {
            proof {
                assert(views(there@[i as int]@) == parts_of(paths[i as int]));
            }
            return true;
        }
        proof {
            assert(views(there@[i as int]@) == parts_of(paths[i as int]));
        }
        i += 1;
    }
    false
}

/// A file that is there is not taken for deleted, and every other one that was
/// indexed is.
pub proof fn law_deleted_are_the_missing(files: Seq<KnownFileView>, current: Seq<Seq<char>>, f: KnownFileView)
    requires
        files.contains(f),
    ensures
        gone(files, current).contains(f) <==> !is_among(current, f.parts),
{
    let p = |f: KnownFileView| !is_among(current, f.parts);
    if gone(files, current).contains(f) {
        let i = choose|i: int| 0 <= i < gone(files, current).len() && gone(files, current)[i] == f;
        crate::views::lemma_filter_from(files, p, i);
    }
    if p(f) {
        let i = choose|i: int| 0 <= i < files.len() && files[i] == f;
        files.lemma_filter_contains(p, i);
    }
}

/// The rows of the store of what was indexed.
#[derive(Debug)]
pub struct IndexedFile {
    pub file_path: String,
    pub content_hash: String,
}

/// What an [`IndexedFile`] holds.
pub struct IndexedFileView {
    pub file_path: Seq<char>,
    pub content_hash: Seq<char>,
}

impl View for IndexedFile {
    type V = IndexedFileView;

    open spec fn view(&self) -> IndexedFileView {
        IndexedFileView { file_path: self.file_path@, content_hash: self.content_hash@ }
    }
}

/// What is known from the first `n` rows.
pub open spec fn known_from(rows: Seq<IndexedFileView>, n: nat) -> Seq<KnownFileView>
    decreases n,
{
    if n == 0 {
        Seq::empty()
    } else {
        with_hash(
            known_from(rows, (n - 1) as nat),
            rows[n - 1].file_path,
            rows[n - 1].content_hash,
        )
    }
}

/// What is known from the rows of the store.
pub fn known_hashes(rows: &Vec<IndexedFile>) -> (r: KnownHashes)
    ensures
        r@ == known_from(views(rows@), rows@.len()),
        known_valid(r@),
{
    let mut r: KnownHashes = KnownHashes::new();
    let mut i: usize = 0;
    while i < rows.len()
        invariant
            i <= rows@.len(),
            r@ == known_from(views(rows@), i as nat),
            known_valid(r@),
        decreases rows@.len() - i,
    {
        proof {
            assert(views(rows@)[i as int] == rows@[i as int]@);
        }
        r.insert(rows[i].file_path.as_str(), rows[i].content_hash.clone());
        i += 1;
    }
    r
}

/// What the store says of a file is known, where no later row is about the
/// same file.
pub proof fn law_stored_is_known(rows: Seq<IndexedFileView>, n: nat, k: int)
    requires
        0 <= k < n <= rows.len(),
        forall|j: int|
            k < j < n ==> parts_of((#[trigger] rows[j]).file_path) != parts_of(rows[k].file_path),
    ensures
        known_hash(known_from(rows, n), rows[k].file_path) == Some(rows[k].content_hash),
    decreases n,
{
    let before = known_from(rows, (n - 1) as nat);
    let last = rows[n - 1];
    law_noted_hash_is_known(before, last.file_path, last.content_hash, rows[k].file_path);
    if k < n - 1 {
        law_stored_is_known(rows, (n - 1) as nat, k);
    }
}

} // verus!
