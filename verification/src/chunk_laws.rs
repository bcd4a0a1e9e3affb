//! Laws of chunking: where documents are cut, and what the chunks hold.

use vstd::prelude::*;
use vstd::utf8::encode_utf8;
use crate::chunker::{
    are_chunks, bounds_of, budgeted_all, budgeted_texts, cut_position, cuts_element, cuts_nothing,
    is_chunk, law_bounds_span_document, law_cut_at_headings_only, law_split_respects_budget,
    lemma_last_position, lemma_starts, markdown_events, may_cut, next_cut, paragraph_ends, parts_at,
    reach_of, sentence_ends, split_from, starts_upto, structural_texts, BudgetAwareMarkdownChunker,
    Chunk, HeuristicTokenCounter, MarkdownChunker, MarkdownEvent, MarkdownKind,
    StructuralMarkdownChunker, TokenCounter,
};
use crate::frontmatter::frontmatter_end;
use crate::hashing::blake3_hex;
use crate::offsets::{byte_at, is_position, lemma_byte_at_grows, lemma_position_unique};
use crate::text::is_white_space;
use crate::views::{lemma_filter_from, lemma_filter_same};
use crate::words::is_blank;

verus! {

/// No heading, code block or table of the document is open at an offset.
pub open spec fn is_between_elements(events: Seq<MarkdownEvent>, offset: int) -> bool {
    forall|j: int|
        0 <= j < events.len() && ((#[trigger] events[j]).kind == MarkdownKind::Heading
            || events[j].kind == MarkdownKind::CodeBlock || events[j].kind == MarkdownKind::Table)
            ==> !(events[j].start < offset && offset < events[j].end)
}

/// Every heading is a cut: where the headings come in order, a chunk starts at
/// each heading that starts at a character beyond the frontmatter and inside no
/// other heading, code block or table.
pub proof fn law_every_heading_cuts(content: Seq<char>, events: Seq<MarkdownEvent>, k: int, p: int)
    requires
        forall|i: int, j: int|
            0 <= i < j < events.len() && (#[trigger] events[i]).kind == MarkdownKind::Heading && (
            #[trigger] events[j]).kind == MarkdownKind::Heading ==> events[i].start <= events[j].start,
        0 <= k < events.len(),
        events[k].kind == MarkdownKind::Heading,
        0 < p <= content.len(),
        byte_at(content, p) == events[k].start,
        frontmatter_end(content) <= p,
        is_between_elements(events, events[k].start as int),
    ensures
        bounds_of(content, events).contains(p),
{
    let e = events[k];
    assert(cuts_nothing(events, e.start as int)) by {
        assert forall|j: int| 0 <= j < events.len() implies !cuts_element(
            #[trigger] events[j],
            e.start as int,
        ) by {}
    }
    lemma_position_unique(content, e.start as int, p);
    assert(cut_position(content, events, e) == Some(p));
    let m = k as nat;
    lemma_starts(content, events, m);
    let before = starts_upto(content, events, m);
    let last = before.len() - 1;
    assert(before.last() <= p) by {
        if last > 0 {
            let j = choose|j: int|
                0 <= j < m && cut_position(content, events, #[trigger] events[j]) == Some(before[last]);
            assert(is_position(content, events[j].start as int, before[last]));
            assert(events[j].start <= events[k].start);
            if p < before[last] {
                lemma_byte_at_grows(content, p, before[last]);
            }
        } else {
            assert(before[0] == 0);
        }
    }
    let now = starts_upto(content, events, (k + 1) as nat);
    assert(now.contains(p)) by {
        if before.last() == p {
            assert(now == before);
            assert(now[last] == p);
        } else {
            assert(now[before.len() as int] == p);
        }
    }
    lemma_starts_stay(content, events, (k + 1) as nat, events.len(), p);
    let all = starts_upto(content, events, events.len());
    let i = choose|i: int| 0 <= i < all.len() && all[i] == p;
    assert(bounds_of(content, events)[i] == p);
}

proof fn lemma_starts_stay(content: Seq<char>, events: Seq<MarkdownEvent>, n: nat, m: nat, p: int)
    requires
        n <= m <= events.len(),
        starts_upto(content, events, n).contains(p),
    ensures
        starts_upto(content, events, m).contains(p),
    decreases m,
{
    if n < m {
        lemma_starts_stay(content, events, n, (m - 1) as nat, p);
        let before = starts_upto(content, events, (m - 1) as nat);
        let now = starts_upto(content, events, m);
        let i = choose|i: int| 0 <= i < before.len() && before[i] == p;
        assert(now[i] == p);
    }
}

/// No chunk starts inside a heading, a code block or a table, nor inside the
/// frontmatter.
pub proof fn law_no_element_is_cut(content: Seq<char>, events: Seq<MarkdownEvent>, i: int)
    requires
        0 < i < bounds_of(content, events).len() - 1,
    ensures
        is_between_elements(events, byte_at(content, bounds_of(content, events)[i]) as int),
        frontmatter_end(content) <= bounds_of(content, events)[i],
{
    law_cut_at_headings_only(content, events, i);
    let offset = byte_at(content, bounds_of(content, events)[i]) as int;
    assert(cuts_nothing(events, offset));
    assert forall|j: int|
        0 <= j < events.len() && ((#[trigger] events[j]).kind == MarkdownKind::Heading
            || events[j].kind == MarkdownKind::CodeBlock || events[j].kind
            == MarkdownKind::Table) implies !(events[j].start < offset && offset < events[j].end) by {
        assert(!cuts_element(events[j], offset));
    }
}

/// Something other than white space stands in a text.
pub open spec fn has_content(t: Seq<char>) -> bool {
    exists|i: int| 0 <= i < t.len() && !is_white_space(#[trigger] t[i])
}

/// The chunks are the sections between neighbouring cuts, in order and as they
/// stand in the document, without those that are white space throughout.
pub proof fn law_chunks_are_the_sections(content: Seq<char>, events: Seq<MarkdownEvent>)
    ensures
        ({
            let b = bounds_of(content, events);
            &&& structural_texts(content, events) == Seq::new(
                (b.len() - 1) as nat,
                |i: int| content.subrange(b[i], b[i + 1]),
            ).filter(|t: Seq<char>| has_content(t))
            &&& b[0] == 0
            &&& b.last() == content.len()
            &&& forall|i: int, j: int| 0 <= i < j < b.len() ==> #[trigger] b[i] <= #[trigger] b[j]
        }),
{
    law_bounds_span_document(content, events);
    let b = bounds_of(content, events);
    let sections = Seq::new((b.len() - 1) as nat, |i: int| content.subrange(b[i], b[i + 1]));
    lemma_parts(content, b);
    assert(parts_at(content, b) =~= sections);
    let p = |t: Seq<char>| !is_blank(t);
    let q = |t: Seq<char>| has_content(t);
    assert forall|i: int| 0 <= i < sections.len() implies p(#[trigger] sections[i]) == q(sections[i]) by {}
    lemma_filter_same(sections, p, q);
}

proof fn lemma_parts(content: Seq<char>, positions: Seq<int>)
    requires
        positions.len() >= 1,
    ensures
        parts_at(content, positions).len() == positions.len() - 1,
        forall|i: int|
            0 <= i < positions.len() - 1 ==> #[trigger] parts_at(content, positions)[i]
                == content.subrange(positions[i], positions[i + 1]),
    decreases positions.len(),
{
    if positions.len() >= 2 {
        lemma_parts(content, positions.drop_last());
    }
}

/// Each chunk of a file holds one of the texts, in order, under the file's path
/// and with the BLAKE3 hash of its own text.
pub proof fn law_chunks_carry_their_texts(chunks: Seq<Chunk>, path: Seq<char>, texts: Seq<Seq<char>>)
    requires
        are_chunks(chunks, path, texts),
    ensures
        chunks.len() == texts.len(),
        forall|i: int|
            0 <= i < chunks.len() ==> (#[trigger] chunks[i]).content@ == texts[i] && chunks[i].file_path@
                == path && chunks[i].content_hash@ == blake3_hex(encode_utf8(texts[i])),
{
    assert forall|i: int| 0 <= i < chunks.len() implies (#[trigger] chunks[i]).content@ == texts[i]
        && chunks[i].file_path@ == path && chunks[i].content_hash@ == blake3_hex(
        encode_utf8(texts[i]),
    ) by {
        assert(is_chunk(chunks[i], path, texts[i]));
    }
}

/// The offset of a position is the number of bytes that the text before it takes
/// in UTF-8.
pub proof fn law_offsets_count_bytes(s: Seq<char>, i: int)
    requires
        0 <= i <= s.len(),
    ensures
        byte_at(s, i) == encode_utf8(s.take(i)).len(),
{
    lemma_byte_at_take(s, i, i);
    crate::offsets::lemma_byte_len(s.take(i));
}

proof fn lemma_byte_at_take(s: Seq<char>, i: int, n: int)
    requires
        0 <= i <= n <= s.len(),
    ensures
        byte_at(s.take(n), i) == byte_at(s, i),
    decreases i,
{
    if i > 0 {
        lemma_byte_at_take(s, i - 1, n);
        assert(s.take(n)[i - 1] == s[i - 1]);
    }
}

/// A text that is too long is cut at the last end of a paragraph that fits; where
/// none fits, at the last end of a sentence; and where none of those fits, as
/// late as it may.
pub proof fn law_cut_prefers_paragraphs<K: TokenCounter>(
    counter: K,
    t: Seq<char>,
    events: Seq<MarkdownEvent>,
    budget: nat,
    pos: int,
    i: int,
)
    requires
        0 <= pos < t.len(),
        pos < i <= reach_of(counter, t, budget, pos),
        reach_of(counter, t, budget, pos) < t.len(),
        frontmatter_end(t) <= i,
        is_between_elements(events, byte_at(t, i) as int),
    ensures
        ({
            let cut = next_cut(counter, t, events, budget, pos);
            &&& cut <= reach_of(counter, t, budget, pos)
            &&& i >= 2 && t[i - 1] == '\n' && t[i - 2] == '\n' ==> i <= cut && t[cut - 1] == '\n'
                && t[cut - 2] == '\n'
            &&& i >= 2 && is_white_space(t[i - 1]) && (t[i - 2] == '.' || t[i - 2] == '!' || t[i - 2]
                == '?') && !(cut >= 2 && t[cut - 1] == '\n' && t[cut - 2] == '\n') ==> i <= cut
                && is_white_space(t[cut - 1]) && (t[cut - 2] == '.' || t[cut - 2] == '!' || t[cut - 2]
                == '?')
            &&& !(cut >= 2 && t[cut - 1] == '\n' && t[cut - 2] == '\n') && !(cut >= 2
                && is_white_space(t[cut - 1]) && (t[cut - 2] == '.' || t[cut - 2] == '!' || t[cut - 2]
                == '?')) ==> i <= cut
        }),
{
    let hi = reach_of(counter, t, budget, pos);
    let p = |j: int| may_cut(t, events, j) && paragraph_ends(t, j);
    let s = |j: int| may_cut(t, events, j) && sentence_ends(t, j);
    let a = |j: int| may_cut(t, events, j);
    lemma_last_position(p, pos, hi);
    lemma_last_position(s, pos, hi);
    lemma_last_position(a, pos, hi);
    assert(a(i)) by {
        assert forall|j: int| 0 <= j < events.len() implies !cuts_element(
            #[trigger] events[j],
            byte_at(t, i) as int,
        ) by {}
    }
    if paragraph_ends(t, i) {
        assert(p(i));
    }
    if sentence_ends(t, i) {
        assert(s(i));
    }
}

/// A chunk that fits the budget stays whole; of one that does not, every piece
/// fits the budget or holds no place at which it may be cut, and only pieces of
/// white space are dropped.
pub proof fn law_budgeted_pieces_fit<K: TokenCounter>(
    counter: K,
    t: Seq<char>,
    events: Seq<MarkdownEvent>,
    budget: nat,
    k: int,
)
    requires
        0 <= k < budgeted_texts(counter, t, events, budget).len(),
    ensures
        counter.tokens(t) <= budget ==> budgeted_texts(counter, t, events, budget) == seq![t],
        ({
            let piece = budgeted_texts(counter, t, events, budget)[k];
            counter.tokens(piece) <= budget || exists|from: int, to: int|
                0 <= from < to <= t.len() && piece == #[trigger] t.subrange(from, to) && forall|i: int|
                    from < i < to ==> i < frontmatter_end(t) || !is_between_elements(
                        events,
                        #[trigger] byte_at(t, i) as int,
                    )
        }),
{
    if counter.tokens(t) > budget {
        let split = split_from(counter, t, events, budget, 0);
        let keep = |t: Seq<char>| !is_blank(t);
        lemma_filter_from(split, keep, k);
        let piece = budgeted_texts(counter, t, events, budget)[k];
        let n = choose|n: int| 0 <= n < split.len() && split[n] == piece;
        law_split_respects_budget(counter, t, events, budget, 0, n);
        let (from, to) = choose|from: int, to: int|
            0 <= from < to <= t.len() && split[n] == #[trigger] t.subrange(from, to) && (to == t.len()
                || may_cut(t, events, to)) && (counter.tokens(t.subrange(from, to)) <= budget
                || forall|i: int| from < i < to ==> !#[trigger] may_cut(t, events, i));
        if counter.tokens(piece) > budget {
            assert forall|i: int| from < i < to implies i < frontmatter_end(t) || !is_between_elements(
                events,
                #[trigger] byte_at(t, i) as int,
            ) by {
                assert(!may_cut(t, events, i));
                if frontmatter_end(t) <= i && is_between_elements(events, byte_at(t, i) as int) {
                    assert forall|j: int| 0 <= j < events.len() implies !cuts_element(
                        #[trigger] events[j],
                        byte_at(t, i) as int,
                    ) by {}
                }
            }
            assert(piece == t.subrange(from, to));
        }
    }
}

/// A file is cut where its own Markdown says; under a budget, each of its chunks
/// becomes the pieces that it is split into, in order.
pub proof fn law_chunkers_follow_the_document<K: TokenCounter>(
    chunker: BudgetAwareMarkdownChunker<K>,
    content: Seq<char>,
    i: int,
    k: int,
)
    requires
        0 <= i < structural_texts(content, markdown_events(content)).len(),
        0 <= k < budgeted_texts(
            chunker.counter,
            structural_texts(content, markdown_events(content))[i],
            markdown_events(structural_texts(content, markdown_events(content))[i]),
            chunker.budget as nat,
        ).len(),
    ensures
        StructuralMarkdownChunker.texts(content) == structural_texts(content, markdown_events(content)),
        chunker.texts(content).contains(
            budgeted_texts(
                chunker.counter,
                structural_texts(content, markdown_events(content))[i],
                markdown_events(structural_texts(content, markdown_events(content))[i]),
                chunker.budget as nat,
            )[k],
        ),
{
    let whole = structural_texts(content, markdown_events(content));
    let n = whole.len();
    let budget = chunker.budget as nat;
    let pieces = budgeted_texts(chunker.counter, whole[i], markdown_events(whole[i]), budget);
    let at = lemma_pieces_stand(chunker.counter, whole, budget, n, i, k);
    assert(chunker.texts(content)[at] == pieces[k]);
}

proof fn lemma_pieces_stand<K: TokenCounter>(
    counter: K,
    texts: Seq<Seq<char>>,
    budget: nat,
    n: nat,
    i: int,
    k: int,
) -> (at: int)
    requires
        0 <= i < n <= texts.len(),
        0 <= k < budgeted_texts(counter, texts[i], markdown_events(texts[i]), budget).len(),
    ensures
        0 <= at < budgeted_all(counter, texts, budget, n).len(),
        budgeted_all(counter, texts, budget, n)[at] == budgeted_texts(
            counter,
            texts[i],
            markdown_events(texts[i]),
            budget,
        )[k],
    decreases n,
{
    let before = budgeted_all(counter, texts, budget, (n - 1) as nat);
    if i < n - 1 {
        lemma_pieces_stand(counter, texts, budget, (n - 1) as nat, i, k)
    } else {
        before.len() + k
    }
}

/// Where every chunk fits the budget, a budget changes nothing.
pub proof fn law_budget_changes_nothing_that_fits<K: TokenCounter>(
    chunker: BudgetAwareMarkdownChunker<K>,
    content: Seq<char>,
)
    requires
        forall|i: int|
            0 <= i < structural_texts(content, markdown_events(content)).len() ==> chunker.counter.tokens(
                #[trigger] structural_texts(content, markdown_events(content))[i],
            ) <= chunker.budget,
    ensures
        chunker.texts(content) == structural_texts(content, markdown_events(content)),
{
    let whole = structural_texts(content, markdown_events(content));
    lemma_all_fit(chunker.counter, whole, chunker.budget as nat, whole.len());
    assert(whole.take(whole.len() as int) =~= whole);
}

proof fn lemma_all_fit<K: TokenCounter>(
    counter: K,
    texts: Seq<Seq<char>>,
    budget: nat,
    n: nat,
)
    requires
        n <= texts.len(),
        forall|i: int| 0 <= i < texts.len() ==> counter.tokens(#[trigger] texts[i]) <= budget,
    ensures
        budgeted_all(counter, texts, budget, n) == texts.take(n as int),
    decreases n,
{
    if n > 0 {
        lemma_all_fit(counter, texts, budget, (n - 1) as nat);
        assert(counter.tokens(texts[n - 1]) <= budget);
        assert(texts.take(n as int) =~= texts.take(n - 1) + seq![texts[n - 1]]);
    } else {
        assert(texts.take(0) =~= Seq::<Seq<char>>::empty());
    }
}

/// A token is estimated for every four characters, and none for what is left.
pub proof fn law_four_characters_a_token(text: Seq<char>)
    ensures
        4 * HeuristicTokenCounter.tokens(text) <= text.len(),
        text.len() < 4 * HeuristicTokenCounter.tokens(text) + 4,
{
}

} // verus!
