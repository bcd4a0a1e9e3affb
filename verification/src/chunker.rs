//! Markdown-aware chunking: a document is cut at its headings, and what is
//! still too long for the embedding model is cut at paragraphs, at sentences,
//! or wherever it must; frontmatter, a heading, a code block or a table is never
//! cut.

use vstd::prelude::*;
use crate::hashing::{hash_content, text_hash};
use crate::ids::{is_random_uuid, Uuid};
use crate::frontmatter::{
    find_frontmatter_end, frontmatter_block, frontmatter_end, lemma_frontmatter_end,
    lemma_frontmatter_end_take,
};
use crate::offsets::{byte_at, is_position, position_of, Indexed};
use crate::text::{is_white_space, string_of};
use crate::views::views;
use crate::words::{blank, is_blank};

verus! {

/// The elements of a document that must not be cut, and everything else.
#[derive(Clone, Copy, Debug, PartialEq, Eq, Structural)]
pub enum MarkdownKind {
    Heading,
    CodeBlock,
    Table,
    Other,
}

/// An event of a Markdown parser: where an element starts, or anything else,
/// with the range of bytes that it belongs to.
#[derive(Clone, Copy, Debug, PartialEq, Eq, Structural)]
pub struct MarkdownEvent {
    pub kind: MarkdownKind,
    pub start: usize,
    pub end: usize,
}

/// The events of a Markdown document, in order.
pub uninterp spec fn markdown_events(text: Seq<char>) -> Seq<MarkdownEvent>;

/// `pulldown_cmark::Parser` with tables enabled, and its offset iterator: the
/// starts of headings, code blocks and tables are told apart from all other
/// events. The events depend on the text alone.
#[verifier::external_body]
fn read_markdown(text: &str) -> (r: Vec<MarkdownEvent>)
    ensures
        r@ == markdown_events(text@),
{
    pulldown_cmark::Parser::new_ext(text, pulldown_cmark::Options::ENABLE_TABLES)
        .into_offset_iter()
        .map(|(event, range)| MarkdownEvent {
            kind: match event {
                pulldown_cmark::Event::Start(pulldown_cmark::Tag::Heading { .. }) => MarkdownKind::Heading,
                pulldown_cmark::Event::Start(pulldown_cmark::Tag::CodeBlock(_)) => MarkdownKind::CodeBlock,
                pulldown_cmark::Event::Start(pulldown_cmark::Tag::Table(_)) => MarkdownKind::Table,
                _ => MarkdownKind::Other,
            },
            start: range.start,
            end: range.end,
        })
        .collect()
}

/// An offset lies inside an element that must not be cut.
pub open spec fn cuts_element(e: MarkdownEvent, offset: int) -> bool {
    e.kind != MarkdownKind::Other && e.start < offset < e.end
}

/// An offset lies inside no element that must not be cut.
pub open spec fn cuts_nothing(events: Seq<MarkdownEvent>, offset: int) -> bool {
    forall|i: int| 0 <= i < events.len() ==> !cuts_element(#[trigger] events[i], offset)
}

/// Whether an offset lies inside no element that must not be cut.
fn is_safe(events: &Vec<MarkdownEvent>, offset: usize) -> (r: bool)
    ensures
        r == cuts_nothing(events@, offset as int),
{
    let mut i: usize = 0;
    while i < events.len()
        invariant
            i <= events@.len(),
            forall|j: int| 0 <= j < i ==> !cuts_element(#[trigger] events@[j], offset as int),
        decreases events@.len() - i,
    {
        let e: MarkdownEvent = events[i];
        if e.kind != MarkdownKind::Other && e.start < offset && offset < e.end {
            proof {
                assert(cuts_element(events@[i as int], offset as int));
            }
            return false;
        }
        i += 1;
    }
    true
}

/// Where an event cuts a document: at the start of a heading that lies beyond
/// the frontmatter and inside nothing that must not be cut.
pub open spec fn cut_position(content: Seq<char>, all: Seq<MarkdownEvent>, e: MarkdownEvent) -> Option<
    int,
> {
    if e.kind == MarkdownKind::Heading && cuts_nothing(all, e.start as int) {
        match position_of(content, e.start as int) {
            Some(p) => if frontmatter_end(content) <= p {
                Some(p)
            } else {
                None
            },
            None => None,
        }
    } else {
        None
    }
}

/// The positions at which the chunks of a document start, as far as the first
/// `n` events tell.
pub open spec fn starts_upto(content: Seq<char>, all: Seq<MarkdownEvent>, n: nat) -> Seq<int>
    decreases n,
{
    if n == 0 {
        seq![0int]
    } else {
        let before = starts_upto(content, all, (n - 1) as nat);
        match cut_position(content, all, all[n - 1]) {
            Some(p) => if before.last() < p {
                before.push(p)
            } else {
                before
            },
            None => before,
        }
    }
}

/// The positions between which the chunks of a document lie.
pub open spec fn bounds_of(content: Seq<char>, events: Seq<MarkdownEvent>) -> Seq<int> {
    starts_upto(content, events, events.len()).push(content.len() as int)
}

/// The texts between neighbouring positions.
pub open spec fn parts_at(content: Seq<char>, positions: Seq<int>) -> Seq<Seq<char>>
    decreases positions.len(),
{
    if positions.len() < 2 {
        Seq::empty()
    } else {
        parts_at(content, positions.drop_last()).push(
            content.subrange(positions[positions.len() - 2], positions.last()),
        )
    }
}

/// The texts that are not blank.
pub open spec fn not_blank(texts: Seq<Seq<char>>) -> Seq<Seq<char>> {
    texts.filter(|t: Seq<char>| !is_blank(t))
}

/// The texts of the chunks that a document's headings cut it into.
pub open spec fn structural_texts(content: Seq<char>, events: Seq<MarkdownEvent>) -> Seq<Seq<char>> {
    not_blank(parts_at(content, bounds_of(content, events)))
}

/// The positions as whole numbers.
pub open spec fn as_ints(s: Seq<usize>) -> Seq<int> {
    s.map_values(|n: usize| n as int)
}

fn find_bounds(indexed: &Indexed, events: &Vec<MarkdownEvent>) -> (r: Vec<usize>)
    requires
        indexed.wf(),
    ensures
        as_ints(r@) == bounds_of(indexed.chars@, events@),
{
    let ghost content = indexed.chars@;
    let floor: usize = find_frontmatter_end(&indexed.chars);
    let mut r: Vec<usize> = Vec::new();
    r.push(0);
    let mut last: usize = 0;
    let mut n: usize = 0;
    proof {
        assert(as_ints(r@) =~= starts_upto(content, events@, 0));
    }
    while n < events.len()
        invariant
            n <= events@.len(),
            indexed.wf(),
            content == indexed.chars@,
            floor == frontmatter_end(content),
            as_ints(r@) == starts_upto(content, events@, n as nat),
            r@.len() > 0,
            r@.last() == last,
        decreases events@.len() - n,
    {
        let e: MarkdownEvent = events[n];
        if e.kind == MarkdownKind::Heading && is_safe(events, e.start) {
            if let Some(p) = indexed.position(e.start) {
                if floor <= p && last < p {
                    let ghost kept = r@;
                    r.push(p);
                    last = p;
                    proof {
                        assert(as_ints(r@) =~= as_ints(kept).push(p as int));
                    }
                }
            }
        }
        n += 1;
    }
    let ghost kept = r@;
    r.push(indexed.chars.len());
    proof {
        assert(as_ints(r@) =~= as_ints(kept).push(content.len() as int));
    }
    r
}

/// Cuts a document at its headings, which are among its events.
pub fn structural_pieces(content: &str, events: &Vec<MarkdownEvent>) -> (r: Vec<String>)
    ensures
        views(r@) == structural_texts(content@, events@),
{
    let indexed: Indexed = Indexed::new(content);
    let bounds: Vec<usize> = find_bounds(&indexed, events);
    let ghost all = bounds_of(content@, events@);
    let ghost keep = |t: Seq<char>| !is_blank(t);
    let mut r: Vec<String> = Vec::new();
    let mut i: usize = 1;
    proof {
        law_bounds_span_document(content@, events@);
        assert(bounds@.len() == all.len());
        assert(parts_at(content@, all.take(1)) =~= Seq::<Seq<char>>::empty());
        assert(views(r@) =~= parts_at(content@, all.take(1)).filter(keep));
    }
    while i < bounds.len()
        invariant
            1 <= i <= bounds@.len(),
            indexed.chars@ == content@,
            as_ints(bounds@) == all,
            all == bounds_of(content@, events@),
            keep == (|t: Seq<char>| !is_blank(t)),
            views(r@) == parts_at(content@, all.take(i as int)).filter(keep),
        decreases bounds@.len() - i,
    {
        proof {
            law_bounds_span_document(content@, events@);
            let now = all.take(i + 1);
            assert(now.drop_last() =~= all.take(i as int));
            assert(now[now.len() - 2] == bounds@[i - 1]);
            assert(now.last() == bounds@[i as int]);
            assert(all[i - 1] <= all[i as int]);
            assert(0 <= all[i - 1] && all[i as int] <= content@.len());
            parts_at(content@, all.take(i as int)).lemma_filter_push(
                content@.subrange(all[i - 1], all[i as int]),
                keep,
            );
        }
        let text: String = string_of(&indexed.chars, bounds[i - 1], bounds[i]);
        if !blank(text.as_str()) {
            let ghost before = r@;
            let ghost v = text@;
            r.push(text);
            proof {
                assert(views(r@) =~= views(before).push(v));
            }
        }
        i += 1;
    }
    proof {
        assert(all.take(all.len() as int) =~= all);
    }
    r
}

/// Chunks start at the start of the document and at cuts, in order.
pub proof fn lemma_starts(content: Seq<char>, all: Seq<MarkdownEvent>, n: nat)
    requires
        n <= all.len(),
    ensures
        ({
            let s = starts_upto(content, all, n);
            &&& s.len() > 0
            &&& s[0] == 0
            &&& forall|i: int| 0 <= i < s.len() ==> 0 <= #[trigger] s[i] <= content.len()
            &&& forall|i: int, j: int| 0 <= i < j < s.len() ==> #[trigger] s[i] < #[trigger] s[j]
            &&& forall|i: int|
                0 < i < s.len() ==> exists|k: int|
                    0 <= k < n && cut_position(content, all, #[trigger] all[k]) == Some(#[trigger] s[i])
        }),
    decreases n,
{
    if n > 0 {
        let m = (n - 1) as nat;
        lemma_starts(content, all, m);
        let before = starts_upto(content, all, m);
        let s = starts_upto(content, all, n);
        let e = all[n - 1];
        if let Some(p) = cut_position(content, all, e) {
            assert(is_position(content, e.start as int, p));
        }
        assert forall|i: int, j: int| 0 <= i < j < s.len() implies #[trigger] s[i] < #[trigger] s[j] by {
            if j == before.len() && i < before.len() - 1 {
                assert(before[i] < before[before.len() - 1]);
            }
        }
        assert forall|i: int| 0 < i < s.len() implies exists|k: int|
            0 <= k < n && cut_position(content, all, #[trigger] all[k]) == Some(#[trigger] s[i]) by {
            if i < before.len() {
                let k = choose|k: int|
                    0 <= k < m && cut_position(content, all, #[trigger] all[k]) == Some(before[i]);
                assert(cut_position(content, all, all[k]) == Some(s[i]));
            } else {
                assert(cut_position(content, all, all[n - 1]) == Some(s[i]));
            }
        }
    }
}

/// A document is cut at the starts of headings only, and never inside its
/// frontmatter, a heading, a code block or a table.
pub proof fn law_cut_at_headings_only(content: Seq<char>, events: Seq<MarkdownEvent>, i: int)
    requires
        0 < i < bounds_of(content, events).len() - 1,
    ensures
        exists|k: int|
            0 <= k < events.len() && #[trigger] events[k].kind == MarkdownKind::Heading
                && events[k].start as int == byte_at(content, bounds_of(content, events)[i]),
        cuts_nothing(events, byte_at(content, bounds_of(content, events)[i]) as int),
        frontmatter_end(content) <= bounds_of(content, events)[i],
{
    lemma_starts(content, events, events.len());
    let s = starts_upto(content, events, events.len());
    assert(bounds_of(content, events)[i] == s[i]);
    let k = choose|k: int|
        0 <= k < events.len() && cut_position(content, events, #[trigger] events[k]) == Some(s[i]);
    assert(is_position(content, events[k].start as int, s[i]));
    assert(events[k].kind == MarkdownKind::Heading);
}

/// The first chunk starts where the document does, the last ends where it
/// does, and each ends after it starts, but for an empty last one.
pub proof fn law_bounds_span_document(content: Seq<char>, events: Seq<MarkdownEvent>)
    ensures
        ({
            let b = bounds_of(content, events);
            &&& b.len() >= 2
            &&& b[0] == 0
            &&& b.last() == content.len()
            &&& forall|i: int| 0 <= i < b.len() ==> 0 <= #[trigger] b[i] <= content.len()
            &&& forall|i: int, j: int| 0 <= i < j < b.len() ==> #[trigger] b[i] <= #[trigger] b[j]
            &&& forall|i: int, j: int| 0 <= i < j < b.len() - 1 ==> #[trigger] b[i] < #[trigger] b[j]
        }),
{
    lemma_starts(content, events, events.len());
    let s = starts_upto(content, events, events.len());
    let b = bounds_of(content, events);
    assert forall|i: int, j: int| 0 <= i < j < b.len() implies #[trigger] b[i] <= #[trigger] b[j] by {
        assert(b[i] == s[i]);
        if j < s.len() {
            assert(b[j] == s[j]);
        }
    }
    assert forall|i: int, j: int| 0 <= i < j < b.len() - 1 implies #[trigger] b[i] < #[trigger] b[j] by {
        assert(b[i] == s[i] && b[j] == s[j]);
    }
}

/// The texts one after the other.
pub open spec fn concatenated(texts: Seq<Seq<char>>) -> Seq<char>
    decreases texts.len(),
{
    if texts.len() == 0 {
        Seq::empty()
    } else {
        concatenated(texts.drop_last()) + texts.last()
    }
}

proof fn lemma_parts_concatenate(content: Seq<char>, positions: Seq<int>)
    requires
        positions.len() > 0,
        positions[0] == 0,
        forall|i: int| 0 <= i < positions.len() ==> 0 <= #[trigger] positions[i] <= content.len(),
        forall|i: int, j: int|
            0 <= i < j < positions.len() ==> #[trigger] positions[i] <= #[trigger] positions[j],
    ensures
        concatenated(parts_at(content, positions)) == content.take(positions.last()),
    decreases positions.len(),
{
    if positions.len() < 2 {
        assert(content.take(0) =~= Seq::<char>::empty());
    } else {
        let rest = positions.drop_last();
        assert forall|i: int| 0 <= i < rest.len() implies 0 <= #[trigger] rest[i] <= content.len() by {
            assert(rest[i] == positions[i]);
        }
        assert forall|i: int, j: int| 0 <= i < j < rest.len() implies #[trigger] rest[i]
            <= #[trigger] rest[j] by {
            assert(positions[i] <= positions[j]);
        }
        lemma_parts_concatenate(content, rest);
        let n = positions.len() as int;
        assert(positions[n - 2] <= positions[n - 1]);
        let parts = parts_at(content, positions);
        assert(parts.drop_last() =~= parts_at(content, rest));
        assert(content.take(rest.last()) + content.subrange(positions[n - 2], positions[n - 1])
            =~= content.take(positions.last()));
    }
}

/// Nothing but blank text is lost, whatever the events: the parts make up the
/// document, and the chunks are the parts that are not blank.
pub proof fn law_chunks_cover_document(content: Seq<char>, events: Seq<MarkdownEvent>)
    ensures
        concatenated(parts_at(content, bounds_of(content, events))) == content,
        structural_texts(content, events) == not_blank(
            parts_at(content, bounds_of(content, events)),
        ),
{
    law_bounds_span_document(content, events);
    lemma_parts_concatenate(content, bounds_of(content, events));
    assert(content.take(content.len() as int) =~= content);
}

proof fn lemma_first_part(content: Seq<char>, positions: Seq<int>)
    requires
        positions.len() >= 2,
        0 <= positions[0] <= positions[1] <= content.len(),
        !is_blank(content.subrange(positions[0], positions[1])),
    ensures
        not_blank(parts_at(content, positions)).len() > 0,
        not_blank(parts_at(content, positions))[0] == content.subrange(positions[0], positions[1]),
    decreases positions.len(),
{
    let rest = positions.drop_last();
    let keep = |t: Seq<char>| !is_blank(t);
    let n = positions.len() as int;
    parts_at(content, rest).lemma_filter_push(
        content.subrange(positions[n - 2], positions[n - 1]),
        keep,
    );
    if n > 2 {
        lemma_first_part(content, rest);
    } else {
        assert(parts_at(content, rest) =~= Seq::<Seq<char>>::empty());
        assert(parts_at(content, rest).filter(keep) =~= Seq::<Seq<char>>::empty());
    }
}

/// A text begins with the whole frontmatter of a file.
pub open spec fn holds_frontmatter(content: Seq<char>, text: Seq<char>) -> bool {
    let end = frontmatter_end(content);
    end <= text.len() && text.take(end) == content.take(end)
}

/// The frontmatter of a file is whole, and in its first chunk.
pub proof fn law_frontmatter_in_first_chunk(content: Seq<char>, events: Seq<MarkdownEvent>)
    requires
        frontmatter_block(content) is Some,
    ensures
        structural_texts(content, events).len() > 0,
        holds_frontmatter(content, structural_texts(content, events)[0]),
        exists|p: int|
            frontmatter_end(content) <= p <= content.len() && structural_texts(content, events)[0]
                == #[trigger] content.take(p),
{
    let b = bounds_of(content, events);
    let end = frontmatter_end(content);
    law_bounds_span_document(content, events);
    lemma_frontmatter_end(content);
    if b.len() > 2 {
        law_cut_at_headings_only(content, events, 1);
    }
    assert(end <= b[1]);
    let first = content.subrange(b[0], b[1]);
    assert(!is_blank(first)) by {
        assert(!is_white_space('-'));
        assert(first[0] == content[0] && first[1] == content[1]);
    }
    lemma_first_part(content, b);
    assert(first =~= content.take(b[1]));
    assert(first.take(end) =~= content.take(end));
}

/// A piece of a file that is embedded and searched on its own.
#[derive(Debug)]
pub struct Chunk {
    pub id: Uuid,
    pub file_path: String,
    pub content: String,
    /// Tells a change of content from a touch.
    pub content_hash: String,
    /// Where a converted file's chunk came from.
    pub source_original: Option<String>,
    pub source_page: Option<String>,
    pub source_section: Option<String>,
}

/// A chunk of a Markdown file holds this text.
pub open spec fn is_chunk(c: Chunk, path: Seq<char>, text: Seq<char>) -> bool {
    &&& is_random_uuid(c.id)
    &&& c.file_path@ == path
    &&& c.content@ == text
    &&& c.content_hash@ == text_hash(text)
    &&& c.source_original is None
    &&& c.source_page is None
    &&& c.source_section is None
}

/// The chunks of a Markdown file hold these texts.
pub open spec fn are_chunks(chunks: Seq<Chunk>, path: Seq<char>, texts: Seq<Seq<char>>) -> bool {
    &&& chunks.len() == texts.len()
    &&& forall|i: int| 0 <= i < chunks.len() ==> is_chunk(#[trigger] chunks[i], path, texts[i])
}

fn make_chunks(file_path: &str, texts: Vec<String>) -> (r: Vec<Chunk>)
    ensures
        are_chunks(r@, file_path@, views(texts@)),
{
    let mut r: Vec<Chunk> = Vec::new();
    let mut i: usize = 0;
    while i < texts.len()
        invariant
            i <= texts@.len(),
            r@.len() == i,
            forall|j: int|
                0 <= j < i ==> is_chunk(#[trigger] r@[j], file_path@, views(texts@)[j]),
        decreases texts@.len() - i,
    {
        let content: String = texts[i].clone();
        let content_hash: String = hash_content(content.as_str());
        r.push(
            Chunk {
                id: Uuid::new_v4(),
                file_path: file_path.to_owned(),
                content,
                content_hash,
                source_original: None,
                source_page: None,
                source_section: None,
            },
        );
        i += 1;
    }
    r
}

/// Something that cuts Markdown files into chunks.
pub trait MarkdownChunker {
    /// The texts of the chunks of a document.
    spec fn texts(&self, content: Seq<char>) -> Seq<Seq<char>>;

    /// The chunks of a file.
    fn chunk(&self, file_path: &str, content: &str) -> (r: Vec<Chunk>)
        ensures
            are_chunks(r@, file_path@, self.texts(content@)),
    ;
}

/// Cuts documents at their headings.
#[derive(Clone, Copy, Debug)]
pub struct StructuralMarkdownChunker;

impl MarkdownChunker for StructuralMarkdownChunker {
    open spec fn texts(&self, content: Seq<char>) -> Seq<Seq<char>> {
        structural_texts(content, markdown_events(content))
    }

    fn chunk(&self, file_path: &str, content: &str) -> (r: Vec<Chunk>) {
        let events: Vec<MarkdownEvent> = read_markdown(content);
        make_chunks(file_path, structural_pieces(content, &events))
    }
}

/// Something that counts the tokens of texts, as an embedding model does or
/// nearly so.
pub trait TokenCounter: Sized {
    /// The number of tokens of a text.
    spec fn tokens(&self, text: Seq<char>) -> nat;

    /// The number of tokens of a text.
    fn count(&self, text: &str) -> (r: usize)
        ensures
            r == self.tokens(text@),
    ;

    /// How far a text fits a budget from a position on: up to the last position
    /// before the first with which it would not.
    fn reach(&self, chars: &Vec<char>, from: usize, budget: usize) -> (r: usize)
        requires
            from <= chars@.len(),
        ensures
            from <= r <= chars@.len(),
            forall|i: int|
                from < i <= r ==> self.tokens(#[trigger] chars@.subrange(from as int, i)) <= budget,
            r < chars@.len() ==> self.tokens(chars@.subrange(from as int, r + 1)) > budget,
    ;
}

/// Estimates the number of tokens of a text as a quarter of its characters.
#[derive(Clone, Copy, Debug)]
pub struct HeuristicTokenCounter;

impl TokenCounter for HeuristicTokenCounter {
    open spec fn tokens(&self, text: Seq<char>) -> nat {
        text.len() / 4
    }

    fn count(&self, text: &str) -> (r: usize) {
        text.unicode_len() / 4
    }

    fn reach(&self, chars: &Vec<char>, from: usize, budget: usize) -> (r: usize) {
        let left: usize = chars.len() - from;
        if left / 4 <= budget {
            chars.len()
        } else {
            from + (4 * budget + 3)
        }
    }
}

/// How far a text fits a budget from `pos` on.
pub open spec fn reach_of<K: TokenCounter>(counter: K, t: Seq<char>, budget: nat, pos: int) -> int {
    first_position(
        |i: int| counter.tokens(t.subrange(pos, i)) > budget,
        pos + 1,
        t.len() as int + 1,
    ) - 1
}

/// A paragraph ends before `i`: two line feeds stand there.
pub open spec fn paragraph_ends(t: Seq<char>, i: int) -> bool {
    i >= 2 && t[i - 1] == '\n' && t[i - 2] == '\n'
}

/// A sentence ends before `i`: a full stop, an exclamation mark or a question
/// mark stands there, and white space after it.
pub open spec fn sentence_ends(t: Seq<char>, i: int) -> bool {
    i >= 2 && is_white_space(t[i - 1]) && (t[i - 2] == '.' || t[i - 2] == '!' || t[i - 2] == '?')
}

/// A text may be cut before its `i`-th character.
pub open spec fn may_cut(t: Seq<char>, events: Seq<MarkdownEvent>, i: int) -> bool {
    frontmatter_end(t) <= i && cuts_nothing(events, byte_at(t, i) as int)
}

/// The last position after `lo` and up to `hi` that meets `p`.
pub open spec fn last_position(p: spec_fn(int) -> bool, lo: int, hi: int) -> Option<int>
    decreases hi - lo,
{
    if hi <= lo {
        None
    } else if p(hi) {
        Some(hi)
    } else {
        last_position(p, lo, hi - 1)
    }
}

/// The first position from `lo` on that meets `p`, or `hi`.
pub open spec fn first_position(p: spec_fn(int) -> bool, lo: int, hi: int) -> int
    decreases hi - lo,
{
    if hi <= lo {
        hi
    } else if p(lo) {
        lo
    } else {
        first_position(p, lo + 1, hi)
    }
}

/// Where the piece of a text that starts at `pos` ends: at the end of the text
/// where the text fits the budget up to there; else at the last end of a paragraph that
/// fits, or of a sentence, or at the last position at all; and where no
/// position that fits may be cut, at the first one beyond that may.
pub open spec fn next_cut<K: TokenCounter>(
    counter: K,
    t: Seq<char>,
    events: Seq<MarkdownEvent>,
    budget: nat,
    pos: int,
) -> int {
    let hi = reach_of(counter, t, budget, pos);
    if hi >= t.len() {
        t.len() as int
    } else {
        let paragraph = last_position(|i: int| may_cut(t, events, i) && paragraph_ends(t, i), pos, hi);
        let sentence = last_position(|i: int| may_cut(t, events, i) && sentence_ends(t, i), pos, hi);
        let any = last_position(|i: int| may_cut(t, events, i), pos, hi);
        if paragraph is Some {
            paragraph->0
        } else if sentence is Some {
            sentence->0
        } else if any is Some {
            any->0
        } else {
            first_position(|i: int| may_cut(t, events, i), hi + 1, t.len() as int)
        }
    }
}

/// What the last position is, in terms of those that meet the predicate.
pub proof fn lemma_last_position(p: spec_fn(int) -> bool, lo: int, hi: int)
    ensures
        match last_position(p, lo, hi) {
            Some(i) => lo < i <= hi && p(i) && forall|j: int| i < j <= hi ==> !#[trigger] p(j),
            None => forall|j: int| lo < j <= hi ==> !#[trigger] p(j),
        },
    decreases hi - lo,
{
    if lo < hi && !p(hi) {
        lemma_last_position(p, lo, hi - 1);
    }
}

/// What the first position is, in terms of those that meet the predicate.
pub proof fn lemma_first_position(p: spec_fn(int) -> bool, lo: int, hi: int)
    requires
        lo <= hi,
    ensures
        lo <= first_position(p, lo, hi) <= hi,
        first_position(p, lo, hi) < hi ==> p(first_position(p, lo, hi)),
        forall|j: int| lo <= j < first_position(p, lo, hi) ==> !#[trigger] p(j),
    decreases hi - lo,
{
    if lo < hi && !p(lo) {
        lemma_first_position(p, lo + 1, hi);
    }
}

/// A text is cut after at least one character, at its end or where it may be
/// cut; and a piece exceeds the budget only where it could not be cut sooner.
pub proof fn law_next_cut<K: TokenCounter>(
    counter: K,
    t: Seq<char>,
    events: Seq<MarkdownEvent>,
    budget: nat,
    pos: int,
)
    requires
        0 <= pos < t.len(),
    ensures
        pos < next_cut(counter, t, events, budget, pos) <= t.len(),
        next_cut(counter, t, events, budget, pos) < t.len() ==> may_cut(
            t,
            events,
            next_cut(counter, t, events, budget, pos),
        ),
        counter.tokens(t.subrange(pos, next_cut(counter, t, events, budget, pos))) > budget ==> forall|i: int|
            pos < i < next_cut(counter, t, events, budget, pos) ==> !#[trigger] may_cut(t, events, i),
{
    let hi = reach_of(counter, t, budget, pos);
    let over = |i: int| counter.tokens(t.subrange(pos, i)) > budget;
    lemma_first_position(over, pos + 1, t.len() as int + 1);
    if hi < t.len() {
        let p = |i: int| may_cut(t, events, i) && paragraph_ends(t, i);
        let s = |i: int| may_cut(t, events, i) && sentence_ends(t, i);
        let a = |i: int| may_cut(t, events, i);
        lemma_last_position(p, pos, hi);
        lemma_last_position(s, pos, hi);
        lemma_last_position(a, pos, hi);
        lemma_first_position(a, hi + 1, t.len() as int);
        let cut = next_cut(counter, t, events, budget, pos);
        if counter.tokens(t.subrange(pos, cut)) > budget {
            if cut <= hi {
                assert(!over(cut));
            }
            assert forall|i: int| pos < i < cut implies !#[trigger] may_cut(t, events, i) by {
                assert(!a(i));
            }
        }
    } else {
        assert(!over(t.len() as int));
    }
}

/// The pieces of a text from `pos` on.
pub open spec fn split_from<K: TokenCounter>(
    counter: K,
    t: Seq<char>,
    events: Seq<MarkdownEvent>,
    budget: nat,
    pos: int,
) -> Seq<Seq<char>>
    decreases t.len() - pos,
    when 0 <= pos
    via split_from_decreases::<K>
{
    if pos >= t.len() {
        Seq::empty()
    } else {
        let cut = next_cut(counter, t, events, budget, pos);
        seq![t.subrange(pos, cut)] + split_from(counter, t, events, budget, cut)
    }
}

#[via_fn]
proof fn split_from_decreases<K: TokenCounter>(
    counter: K,
    t: Seq<char>,
    events: Seq<MarkdownEvent>,
    budget: nat,
    pos: int,
) {
    if pos < t.len() {
        law_next_cut(counter, t, events, budget, pos);
    }
}

/// The texts of the chunks that one structural chunk becomes under a budget.
pub open spec fn budgeted_texts<K: TokenCounter>(
    counter: K,
    t: Seq<char>,
    events: Seq<MarkdownEvent>,
    budget: nat,
) -> Seq<Seq<char>> {
    if counter.tokens(t) <= budget {
        seq![t]
    } else {
        not_blank(split_from(counter, t, events, budget, 0))
    }
}

/// Nothing is lost where a text is split.
pub proof fn law_split_loses_nothing<K: TokenCounter>(
    counter: K,
    t: Seq<char>,
    events: Seq<MarkdownEvent>,
    budget: nat,
    pos: int,
)
    requires
        0 <= pos <= t.len(),
    ensures
        concatenated(split_from(counter, t, events, budget, pos)) == t.skip(pos),
    decreases t.len() - pos,
{
    if pos < t.len() {
        law_next_cut(counter, t, events, budget, pos);
        let cut = next_cut(counter, t, events, budget, pos);
        law_split_loses_nothing(counter, t, events, budget, cut);
        lemma_concatenated_front(t.subrange(pos, cut), split_from(counter, t, events, budget, cut));
        assert(t.subrange(pos, cut) + t.skip(cut) =~= t.skip(pos));
    } else {
        assert(t.skip(pos) =~= Seq::<char>::empty());
    }
}

proof fn lemma_concatenated_front(first: Seq<char>, rest: Seq<Seq<char>>)
    ensures
        concatenated(seq![first] + rest) == first + concatenated(rest),
    decreases rest.len(),
{
    let all = seq![first] + rest;
    if rest.len() == 0 {
        assert(all.drop_last() =~= Seq::<Seq<char>>::empty());
        assert(all.last() == first);
        assert(concatenated(all.drop_last()) =~= Seq::<char>::empty());
        assert(concatenated(all) =~= first);
        assert(concatenated(rest) =~= Seq::<char>::empty());
        assert(first + Seq::<char>::empty() =~= first);
    } else {
        assert(all.drop_last() =~= seq![first] + rest.drop_last());
        lemma_concatenated_front(first, rest.drop_last());
        assert(all.last() == rest.last());
        assert((first + concatenated(rest.drop_last())) + rest.last() =~= first + (concatenated(
            rest.drop_last(),
        ) + rest.last()));
    }
}

/// A text is split into pieces that either fit the budget or hold no position
/// at which they may be cut: an oversized code block or table stays whole.
pub proof fn law_split_respects_budget<K: TokenCounter>(
    counter: K,
    t: Seq<char>,
    events: Seq<MarkdownEvent>,
    budget: nat,
    pos: int,
    k: int,
)
    requires
        0 <= pos <= t.len(),
        0 <= k < split_from(counter, t, events, budget, pos).len(),
    ensures
        exists|from: int, to: int|
            pos <= from < to <= t.len() && split_from(counter, t, events, budget, pos)[k] == #[trigger] t.subrange(
                from,
                to,
            ) && (to == t.len() || may_cut(t, events, to)) && (counter.tokens(t.subrange(from, to)) <= budget
                || forall|i: int| from < i < to ==> !#[trigger] may_cut(t, events, i)),
    decreases t.len() - pos,
{
    if pos < t.len() {
        law_next_cut(counter, t, events, budget, pos);
        let cut = next_cut(counter, t, events, budget, pos);
        let all = split_from(counter, t, events, budget, pos);
        let rest = split_from(counter, t, events, budget, cut);
        if k == 0 {
            assert(all[0] == t.subrange(pos, cut));
        } else {
            assert(all[k] == rest[k - 1]);
            law_split_respects_budget(counter, t, events, budget, cut, k - 1);
            let (from, to) = choose|from: int, to: int|
                cut <= from < to <= t.len() && rest[k - 1] == #[trigger] t.subrange(from, to) && (to
                    == t.len() || may_cut(t, events, to)) && (counter.tokens(t.subrange(from, to))
                    <= budget || forall|i: int| from < i < to ==> !#[trigger] may_cut(t, events, i));
            assert(all[k] == t.subrange(from, to));
        }
    }
}

/// Finds where the piece that starts at `pos` ends.
fn find_cut<K: TokenCounter>(
    counter: &K,
    indexed: &Indexed,
    events: &Vec<MarkdownEvent>,
    floor: usize,
    budget: usize,
    pos: usize,
) -> (r: usize)
    requires
        indexed.wf(),
        floor == frontmatter_end(indexed.chars@),
        pos < indexed.chars@.len(),
    ensures
        r as int == next_cut(*counter, indexed.chars@, events@, budget as nat, pos as int),
        pos < r <= indexed.chars@.len(),
{
    let ghost t = indexed.chars@;
    proof {
        law_next_cut(*counter, t, events@, budget as nat, pos as int);
    }
    let len: usize = indexed.chars.len();
    let hi: usize = counter.reach(&indexed.chars, pos, budget);
    proof {
        let over = |i: int| counter.tokens(t.subrange(pos as int, i)) > budget;
        lemma_first_position(over, pos + 1, t.len() as int + 1);
        let first = first_position(over, pos + 1, t.len() as int + 1);
        assert(first == hi + 1) by {
            if first <= hi {
                assert(over(first));
            }
            if hi + 1 < first {
                assert(!over(hi + 1));
            }
        }
        assert(reach_of(*counter, t, budget as nat, pos as int) == hi);
    }
    if hi >= len {
        return len;
    }
    let ghost p = |i: int| may_cut(t, events@, i) && paragraph_ends(t, i);
    let ghost s = |i: int| may_cut(t, events@, i) && sentence_ends(t, i);
    let ghost a = |i: int| may_cut(t, events@, i);
    let mut sentence: Option<usize> = None;
    let mut any: Option<usize> = None;
    let mut i: usize = hi;
    while i > pos
        invariant
            pos <= i <= hi < len,
            indexed.wf(),
            t == indexed.chars@,
            floor == frontmatter_end(t),
            len == t.len(),
            hi == reach_of(*counter, t, budget as nat, pos as int),
            p == (|i: int| may_cut(t, events@, i) && paragraph_ends(t, i)),
            s == (|i: int| may_cut(t, events@, i) && sentence_ends(t, i)),
            a == (|i: int| may_cut(t, events@, i)),
            last_position(p, pos as int, hi as int) == last_position(p, pos as int, i as int),
            match sentence {
                Some(c) => pos < c <= hi && last_position(s, pos as int, hi as int) == Some(c as int),
                None => last_position(s, pos as int, hi as int) == last_position(
                    s,
                    pos as int,
                    i as int,
                ),
            },
            match any {
                Some(c) => pos < c <= hi && last_position(a, pos as int, hi as int) == Some(c as int),
                None => last_position(a, pos as int, hi as int) == last_position(
                    a,
                    pos as int,
                    i as int,
                ),
            },
        decreases i,
    {
        proof {
            assert(indexed.offsets@[i as int] == byte_at(t, i as int));
        }
        let safe: bool = floor <= i && is_safe(events, indexed.offsets[i]);
        if safe {
            if i >= 2 {
                let last: char = indexed.chars[i - 1];
                let before: char = indexed.chars[i - 2];
                if last == '\n' && before == '\n' {
                    return i;
                }
                if sentence.is_none() && last.is_whitespace() && (before == '.' || before == '!'
                    || before == '?') {
                    sentence = Some(i);
                }
            }
            if any.is_none() {
                any = Some(i);
            }
        }
        i -= 1;
    }
    if let Some(c) = sentence {
        return c;
    }
    if let Some(c) = any {
        return c;
    }
    let mut j: usize = hi + 1;
    while j < len
        invariant
            hi < j <= len,
            indexed.wf(),
            t == indexed.chars@,
            floor == frontmatter_end(t),
            len == t.len(),
            a == (|i: int| may_cut(t, events@, i)),
            first_position(a, hi + 1, len as int) == first_position(a, j as int, len as int),
        ensures
            hi < j <= len,
            first_position(a, hi + 1, len as int) == j,
        decreases len - j,
    {
        proof {
            assert(indexed.offsets@[j as int] == byte_at(t, j as int));
        }
        if floor <= j && is_safe(events, indexed.offsets[j]) {
            break;
        }
        j += 1;
    }
    j
}

/// Splits a text that exceeds a budget; its events tell what must not be cut.
pub fn split_to_budget<K: TokenCounter>(
    counter: &K,
    text: &str,
    events: &Vec<MarkdownEvent>,
    budget: usize,
) -> (r: Vec<String>)
    ensures
        views(r@) == budgeted_texts(*counter, text@, events@, budget as nat),
{
    let indexed: Indexed = Indexed::new(text);
    let ghost t = text@;
    let mut r: Vec<String> = Vec::new();
    if counter.count(text) <= budget {
        let whole: String = text.to_owned();
        let ghost v = whole@;
        r.push(whole);
        proof {
            assert(views(r@) =~= seq![v]);
        }
        return r;
    }
    let floor: usize = find_frontmatter_end(&indexed.chars);
    let ghost all = split_from(*counter, t, events@, budget as nat, 0);
    let ghost keep = |t: Seq<char>| !is_blank(t);
    let ghost mut done: Seq<Seq<char>> = Seq::empty();
    let mut pos: usize = 0;
    proof {
        assert(views(r@) =~= done.filter(keep));
        assert(all =~= done + split_from(*counter, t, events@, budget as nat, 0));
    }
    while pos < indexed.chars.len()
        invariant
            pos <= indexed.chars@.len(),
            indexed.wf(),
            indexed.chars@ == t,
            t == text@,
            floor == frontmatter_end(t),
            keep == (|t: Seq<char>| !is_blank(t)),
            all == done + split_from(*counter, t, events@, budget as nat, pos as int),
            views(r@) == done.filter(keep),
        decreases indexed.chars@.len() - pos,
    {
        let cut: usize = find_cut(counter, &indexed, events, floor, budget, pos);
        let piece: String = string_of(&indexed.chars, pos, cut);
        let ghost before = done;
        proof {
            done = done.push(piece@);
            assert(all =~= done + split_from(*counter, t, events@, budget as nat, cut as int));
            before.lemma_filter_push(piece@, keep);
        }
        if !blank(piece.as_str()) {
            let ghost kept = r@;
            let ghost v = piece@;
            r.push(piece);
            proof {
                assert(views(r@) =~= views(kept).push(v));
            }
        }
        pos = cut;
    }
    proof {
        assert(all =~= done);
    }
    r
}

/// Cuts documents at their headings, and what exceeds the budget further.
#[derive(Clone, Copy, Debug)]
pub struct BudgetAwareMarkdownChunker<K: TokenCounter> {
    pub inner: StructuralMarkdownChunker,
    pub counter: K,
    pub budget: usize,
}

/// The texts that the first `n` structural chunks become.
pub open spec fn budgeted_all<K: TokenCounter>(
    counter: K,
    texts: Seq<Seq<char>>,
    budget: nat,
    n: nat,
) -> Seq<Seq<char>>
    decreases n,
{
    if n == 0 {
        Seq::empty()
    } else {
        budgeted_all(counter, texts, budget, (n - 1) as nat) + budgeted_texts(
            counter,
            texts[n - 1],
            markdown_events(texts[n - 1]),
            budget,
        )
    }
}

impl<K: TokenCounter> BudgetAwareMarkdownChunker<K> {
    /// A chunker under a budget of tokens for a chunk.
    pub fn new(inner: StructuralMarkdownChunker, counter: K, budget: usize) -> (r: Self)
        ensures
            r.counter == counter,
            r.budget == budget,
    {
        BudgetAwareMarkdownChunker { inner, counter, budget }
    }
}

impl<K: TokenCounter> MarkdownChunker for BudgetAwareMarkdownChunker<K> {
    open spec fn texts(&self, content: Seq<char>) -> Seq<Seq<char>> {
        let whole = structural_texts(content, markdown_events(content));
        budgeted_all(self.counter, whole, self.budget as nat, whole.len())
    }

    fn chunk(&self, file_path: &str, content: &str) -> (r: Vec<Chunk>) {
        let whole: Vec<Chunk> = self.inner.chunk(file_path, content);
        let ghost texts = structural_texts(content@, markdown_events(content@));
        let mut all: Vec<String> = Vec::new();
        let mut i: usize = 0;
        proof {
            assert(views(all@) =~= Seq::<Seq<char>>::empty());
        }
        while i < whole.len()
            invariant
                i <= whole@.len(),
                are_chunks(whole@, file_path@, texts),
                views(all@) == budgeted_all(self.counter, texts, self.budget as nat, i as nat),
            decreases whole@.len() - i,
        {
            let ghost before = all@;
            proof {
                assert(is_chunk(whole@[i as int], file_path@, texts[i as int]));
            }
            let text: &str = whole[i].content.as_str();
            if self.counter.count(text) <= self.budget {
                let copy: String = text.to_owned();
                let ghost v = copy@;
                all.push(copy);
                proof {
                    assert(views(all@) =~= views(before) + seq![v]);
                }
            } else {
                let inner: Vec<MarkdownEvent> = read_markdown(text);
                let mut pieces: Vec<String> = split_to_budget(&self.counter, text, &inner, self.budget);
                let ghost added = pieces@;
                all.append(&mut pieces);
                proof {
                    assert(views(all@) =~= views(before) + views(added));
                }
            }
            i += 1;
        }
        make_chunks(file_path, all)
    }
}

proof fn lemma_budgeted_first<K: TokenCounter>(
    counter: K,
    texts: Seq<Seq<char>>,
    budget: nat,
    n: nat,
)
    requires
        0 < n <= texts.len(),
        budgeted_texts(counter, texts[0], markdown_events(texts[0]), budget).len() > 0,
    ensures
        budgeted_all(counter, texts, budget, n).len() > 0,
        budgeted_all(counter, texts, budget, n)[0] == budgeted_texts(
            counter,
            texts[0],
            markdown_events(texts[0]),
            budget,
        )[0],
    decreases n,
{
    if n > 1 {
        lemma_budgeted_first(counter, texts, budget, (n - 1) as nat);
    } else {
        assert(budgeted_all(counter, texts, budget, 0) =~= Seq::<Seq<char>>::empty());
    }
}

/// Under a budget, too, the frontmatter of a file is whole, and in its first
/// chunk.
pub proof fn law_frontmatter_in_first_budgeted_chunk<K: TokenCounter>(
    chunker: BudgetAwareMarkdownChunker<K>,
    content: Seq<char>,
)
    requires
        frontmatter_block(content) is Some,
    ensures
        chunker.texts(content).len() > 0,
        holds_frontmatter(content, chunker.texts(content)[0]),
{
    let whole = structural_texts(content, markdown_events(content));
    let budget = chunker.budget as nat;
    let counter = chunker.counter;
    let end = frontmatter_end(content);
    law_frontmatter_in_first_chunk(content, markdown_events(content));
    let first = whole[0];
    let p = choose|p: int| end <= p <= content.len() && first == #[trigger] content.take(p);
    lemma_frontmatter_end_take(content, p);
    lemma_frontmatter_end(content);
    let events = markdown_events(first);
    let pieces = budgeted_texts(counter, first, events, budget);
    if counter.tokens(first) > budget {
        law_next_cut(counter, first, events, budget, 0);
        let cut = next_cut(counter, first, events, budget, 0);
        let split = split_from(counter, first, events, budget, 0);
        let piece = first.subrange(0, cut);
        assert(end <= cut);
        assert(split[0] == piece);
        assert(piece.take(end) =~= first.take(end));
        assert(!is_blank(piece)) by {
            assert(!is_white_space('-'));
            assert(piece[0] == content[0] && piece[1] == content[1]);
        }
        lemma_filter_first(split, |t: Seq<char>| !is_blank(t));
    }
    lemma_budgeted_first(counter, whole, budget, whole.len());
}

/// The first item is kept first where it meets the predicate.
proof fn lemma_filter_first(s: Seq<Seq<char>>, p: spec_fn(Seq<char>) -> bool)
    requires
        s.len() > 0,
        p(s[0]),
    ensures
        s.filter(p).len() > 0,
        s.filter(p)[0] == s[0],
    decreases s.len(),
{
    let rest = s.drop_last();
    assert(s =~= rest.push(s.last()));
    rest.lemma_filter_push(s.last(), p);
    if s.len() > 1 {
        lemma_filter_first(rest, p);
    } else {
        rest.lemma_filter_len(p);
    }
}

} // verus!
