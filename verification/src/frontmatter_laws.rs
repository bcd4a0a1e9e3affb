//! Laws of frontmatter: where it stands, what its values say, and what its keys
//! mean.

use vstd::prelude::*;
use vstd::utf8::encode_utf8;
use crate::frontmatter::{
    concept_texts, derived_name, field_texts, field_value, fingerprint_of, first_at,
    frontmatter_block, frontmatter_end, frontmatter_fields, item_text, item_texts, key_texts,
    lemma_first_at_unique, line_end, scope_of, sorted_keys, value_texts, without_mark, yaml_fields,
    FieldItemView, FieldRuleView, FieldValueView, FieldView,
};
use crate::hashing::blake3_hex;
use crate::order::{lemma_lex_is_ranking, lemma_ranked_same_items, lex_lt};
use crate::path_laws::{is_folder, is_name, law_file_in_folder, law_stem_and_extension};
use crate::paths::joined_path;
use crate::text::occurs_at;
use crate::views::{first_match, lemma_first_match};
use crate::words::joined;

verus! {

/// Frontmatter is what stands between the dashes that a file starts with and the
/// next line that starts with dashes; it ends with that line.
pub proof fn law_frontmatter_between_dashes(block: Seq<char>, tail: Seq<char>)
    requires
        forall|j: int|
            0 <= j < block.len() ==> (#[trigger] (block + "\n---"@ + tail).subrange(j, j + 4))
                != "\n---"@,
    ensures
        ({
            let content = "---"@ + block + "\n---"@ + tail;
            &&& frontmatter_block(content) == Some(block)
            &&& frontmatter_fields(content) == yaml_fields(block)
            &&& (forall|i: int| 0 <= i < tail.len() ==> (#[trigger] tail[i]) != '\n')
                ==> frontmatter_end(content) == content.len()
            &&& tail.len() > 0 && tail[0] == '\n' ==> frontmatter_end(content) == 3 + block.len() + 5
        }),
{
    reveal_strlit("---");
    reveal_strlit("\n---");
    let close = "\n---"@;
    let content = "---"@ + block + close + tail;
    let rest = block + close + tail;
    assert(content[0] == '-');
    assert(without_mark(content) == content);
    assert(content.subrange(0, 3) =~= "---"@);
    assert(occurs_at(content, "---"@, 0));
    assert(content.skip(3) =~= rest);
    let at = block.len() as int;
    assert(rest.subrange(at, at + 4) =~= close);
    assert(occurs_at(rest, close, at));
    assert forall|j: int| 0 <= j < at implies !occurs_at(rest, close, j) by {
        if occurs_at(rest, close, j) {
            assert((block + close + tail).subrange(j, j + 4) == close);
        }
    }
    assert(first_at(rest, close, at));
    let chosen = choose|a: int| first_at(rest, close, a);
    lemma_first_at_unique(rest, close, chosen, at);
    assert(rest.take(at) =~= block);
    let after = 3 + at + 4;
    assert(content.len() - without_mark(content).len() + 3 + block.len() + 4 == after);
    if forall|i: int| 0 <= i < tail.len() ==> (#[trigger] tail[i]) != '\n' {
        assert forall|i: int| after <= i < content.len() implies content[i] != '\n' by {
            assert(content[i] == tail[i - after]);
        }
        lemma_last_line(content, after);
    }
    if tail.len() > 0 && tail[0] == '\n' {
        assert(content[after] == '\n');
    }
}

proof fn lemma_last_line(text: Seq<char>, i: int)
    requires
        0 <= i <= text.len(),
        forall|j: int| i <= j < text.len() ==> text[j] != '\n',
    ensures
        line_end(text, i) == text.len(),
    decreases text.len() - i,
{
    if i < text.len() {
        assert(text[i] != '\n');
        lemma_last_line(text, i + 1);
    }
}

/// A file that does not start with dashes has no frontmatter, and so every
/// heading of it can cut it; neither has one whose dashes are never closed.
pub proof fn law_no_dashes_no_frontmatter(content: Seq<char>)
    ensures
        content.len() < 3 || content[0] != '-' && content[0] != '\u{feff}' ==> frontmatter_block(content)
            is None && frontmatter_fields(content) is None && frontmatter_end(content) == 0,
        (forall|j: int|
            0 <= j && j + 4 <= content.len() ==> #[trigger] content.subrange(j, j + 4) != "\n---"@)
            ==> frontmatter_block(content) is None && frontmatter_end(content) == 0,
{
    reveal_strlit("---");
    reveal_strlit("\n---");
    let text = without_mark(content);
    if content.len() < 3 || content[0] != '-' && content[0] != '\u{feff}' {
        if occurs_at(text, "---"@, 0) {
            assert(text.subrange(0, 3)[0] == text[0]);
        }
    }
    if forall|j: int|
        0 <= j && j + 4 <= content.len() ==> #[trigger] content.subrange(j, j + 4) != "\n---"@ {
        let rest = text.skip(3);
        let mark = content.len() - text.len();
        if frontmatter_block(content) is Some {
            let at = choose|at: int| first_at(rest, "\n---"@, at);
            assert(occurs_at(rest, "\n---"@, at));
            let j = mark + 3 + at;
            assert(content.subrange(j, j + 4) =~= rest.subrange(at, at + 4));
        }
    }
}

/// A text, a number or a truth value is one text; a list is the texts of its
/// items, one after the other; and anything else is none.
pub proof fn law_values_as_texts(
    text: Seq<char>,
    truth: bool,
    a: Seq<FieldItemView>,
    b: Seq<FieldItemView>,
    item: FieldItemView,
)
    ensures
        value_texts(FieldValueView::Scalar(FieldItemView::Text(text))) == seq![text],
        value_texts(FieldValueView::Scalar(FieldItemView::Number(text))) == seq![text],
        value_texts(FieldValueView::Scalar(FieldItemView::Truth(truth))) == seq![
            if truth {
                "true"@
            } else {
                "false"@
            },
        ],
        value_texts(FieldValueView::Scalar(FieldItemView::Other)).len() == 0,
        value_texts(FieldValueView::Sequence(seq![item])) == value_texts(FieldValueView::Scalar(item)),
        value_texts(FieldValueView::Sequence(a + b)) == value_texts(FieldValueView::Sequence(a))
            + value_texts(FieldValueView::Sequence(b)),
{
    lemma_one_item(FieldItemView::Text(text));
    lemma_one_item(FieldItemView::Number(text));
    lemma_one_item(FieldItemView::Truth(truth));
    lemma_one_item(FieldItemView::Other);
    lemma_items_join(a, b);
}

proof fn lemma_one_item(item: FieldItemView)
    ensures
        item_text(item) is Some ==> item_texts(seq![item]) == seq![item_text(item)->0],
        item_text(item) is None ==> item_texts(seq![item]).len() == 0,
{
    assert(seq![item].drop_last() =~= Seq::<FieldItemView>::empty());
    assert(item_texts(Seq::<FieldItemView>::empty()) =~= Seq::<Seq<char>>::empty());
    if item_text(item) is Some {
        assert(item_texts(seq![item]) =~= seq![item_text(item)->0]);
    }
}

proof fn lemma_items_join(a: Seq<FieldItemView>, b: Seq<FieldItemView>)
    ensures
        item_texts(a + b) == item_texts(a) + item_texts(b),
    decreases b.len(),
{
    if b.len() == 0 {
        assert(a + b =~= a);
        assert(item_texts(a) + item_texts(b) =~= item_texts(a));
    } else {
        lemma_items_join(a, b.drop_last());
        assert((a + b).drop_last() =~= a + b.drop_last());
        assert((a + b).last() == b.last());
        assert(item_texts(a + b) =~= item_texts(a) + item_texts(b));
    }
}

/// The value of a key is that of the first field with that key and no tag.
pub proof fn law_field_of_a_key(fields: Seq<FieldView>, key: Seq<char>, i: int)
    requires
        0 <= i < fields.len(),
        !fields[i].tagged,
        fields[i].key == Some(key),
        forall|j: int| 0 <= j < i ==> fields[j].tagged || (#[trigger] fields[j]).key != Some(key),
    ensures
        field_value(fields, key) == Some(fields[i].value),
        field_texts(fields, key) == value_texts(fields[i].value),
{
    let p = |f: FieldView| !f.tagged && f.key == Some(key);
    assert(p(fields[i]));
    assert forall|j: int| 0 <= j < i implies !p(#[trigger] fields[j]) by {}
    crate::views::lemma_first_match_at(fields, p, i);
}

/// A key that no field has without a tag has no value.
pub proof fn law_missing_key_has_no_value(fields: Seq<FieldView>, key: Seq<char>)
    requires
        forall|j: int|
            0 <= j < fields.len() ==> fields[j].tagged || (#[trigger] fields[j]).key != Some(key),
    ensures
        field_value(fields, key) is None,
        field_texts(fields, key).len() == 0,
{
    let p = |f: FieldView| !f.tagged && f.key == Some(key);
    lemma_first_match(fields, p);
    if first_match(fields, p) is Some {
        let v = first_match(fields, p)->0;
        let i = choose|i: int| 0 <= i < fields.len() && #[trigger] fields[i] == v;
        assert(fields[i].tagged || fields[i].key != Some(key));
    }
}

/// The texts of a concept are those of the fields whose keys mean it, one key
/// after the other, and of no others.
pub proof fn law_texts_of_a_concept(
    a: Seq<FieldRuleView>,
    b: Seq<FieldRuleView>,
    rule: FieldRuleView,
    fields: Seq<FieldView>,
    concept: Seq<char>,
)
    ensures
        concept_texts(a + b, fields, concept) == concept_texts(a, fields, concept) + concept_texts(
            b,
            fields,
            concept,
        ),
        rule.concept == Some(concept) ==> concept_texts(seq![rule], fields, concept) == field_texts(
            fields,
            rule.key,
        ),
        rule.concept != Some(concept) ==> concept_texts(seq![rule], fields, concept).len() == 0,
    decreases b.len(),
{
    assert(seq![rule].drop_last() =~= Seq::<FieldRuleView>::empty());
    let none = concept_texts(Seq::<FieldRuleView>::empty(), fields, concept);
    assert(none =~= Seq::<Seq<char>>::empty());
    assert(none + field_texts(fields, rule.key) =~= field_texts(fields, rule.key));
    if b.len() == 0 {
        assert(a + b =~= a);
        assert(concept_texts(a, fields, concept) + concept_texts(b, fields, concept)
            =~= concept_texts(a, fields, concept));
    } else {
        law_texts_of_a_concept(a, b.drop_last(), rule, fields, concept);
        assert((a + b).drop_last() =~= a + b.drop_last());
        assert((a + b).last() == b.last());
        assert(concept_texts(a + b, fields, concept) =~= concept_texts(a, fields, concept)
            + concept_texts(b, fields, concept));
    }
}

/// The keys of a block are exactly the keys of its fields that are texts.
pub proof fn law_keys_of_fields(fields: Seq<FieldView>, key: Seq<char>)
    ensures
        sorted_keys(fields).contains(key) <==> exists|i: int|
            0 <= i < fields.len() && (#[trigger] fields[i]).key == Some(key),
{
    let before = |a: Seq<char>, b: Seq<char>| lex_lt(a, b);
    lemma_lex_is_ranking();
    lemma_ranked_same_items(key_texts(fields), before, key);
    lemma_key_texts(fields, key);
}

proof fn lemma_key_texts(fields: Seq<FieldView>, key: Seq<char>)
    ensures
        key_texts(fields).contains(key) <==> exists|i: int|
            0 <= i < fields.len() && (#[trigger] fields[i]).key == Some(key),
    decreases fields.len(),
{
    if fields.len() > 0 {
        let rest = fields.drop_last();
        let before = key_texts(rest);
        let all = key_texts(fields);
        lemma_key_texts(rest, key);
        if all.contains(key) {
            let k = choose|k: int| 0 <= k < all.len() && all[k] == key;
            if k < before.len() {
                assert(before[k] == key);
                let i = choose|i: int| 0 <= i < rest.len() && (#[trigger] rest[i]).key == Some(key);
                assert(fields[i] == rest[i]);
            } else {
                assert(fields[fields.len() - 1].key == Some(key));
            }
        }
        if exists|i: int| 0 <= i < fields.len() && (#[trigger] fields[i]).key == Some(key) {
            let i = choose|i: int| 0 <= i < fields.len() && (#[trigger] fields[i]).key == Some(key);
            if i < rest.len() {
                assert(rest[i] == fields[i]);
                let k = choose|k: int| 0 <= k < before.len() && before[k] == key;
                assert(all[k] == key);
            } else {
                assert(all[all.len() - 1] == key);
            }
        }
    }
}

/// The fingerprint of a set of keys is the BLAKE3 hash of the keys, joined by
/// commas.
pub proof fn law_fingerprint_hashes_the_keys(keys: Seq<Seq<char>>)
    ensures
        fingerprint_of(keys) == blake3_hex(encode_utf8(joined(keys, ","@))),
{
}

/// What was learned of a file's frontmatter holds in the folder that it lies in
/// directly; and a file that names itself no other way is named after its stem.
pub proof fn law_scope_and_name_of_a_file(folder: Seq<char>, stem: Seq<char>, extension: Seq<char>)
    requires
        is_folder(folder),
        folder.last() != '/',
        stem.len() > 0,
        !extension.contains('.'),
        is_name(stem + seq!['.'] + extension),
    ensures
        scope_of(joined_path(folder, stem + seq!['.'] + extension)) == folder,
        derived_name(joined_path(folder, stem + seq!['.'] + extension)) == stem,
{
    law_file_in_folder(folder, stem + seq!['.'] + extension);
    law_stem_and_extension(stem, extension);
}

/// Frontmatter ends with the line of the dashes that close it, whatever else stands
/// in that line, and whatever follows.
pub proof fn law_frontmatter_ends_with_its_line(block: Seq<char>, line: Seq<char>, more: Seq<char>)
    requires
        forall|i: int| 0 <= i < line.len() ==> (#[trigger] line[i]) != '\n',
        forall|j: int|
            0 <= j < block.len() ==> (#[trigger] (block + "\n---"@ + (line.push('\n') + more)).subrange(
                j,
                j + 4,
            )) != "\n---"@,
    ensures
        frontmatter_end("---"@ + block + "\n---"@ + (line.push('\n') + more)) == 3 + block.len() + 4
            + line.len() + 1,
{
    let tail = line.push('\n') + more;
    law_frontmatter_between_dashes(block, tail);
    reveal_strlit("---");
    reveal_strlit("\n---");
    let content = "---"@ + block + "\n---"@ + tail;
    assert(content[0] == '-');
    assert(without_mark(content) == content);
    let from = 3 + block.len() as int + 4;
    assert forall|j: int| from <= j < from + line.len() implies content[j] != '\n' by {
        assert(content[j] == line[j - from]);
    }
    assert(content[from + line.len()] == '\n');
    lemma_line_ends_at(content, from, from + line.len());
}

proof fn lemma_line_ends_at(text: Seq<char>, i: int, end: int)
    requires
        0 <= i <= end < text.len(),
        text[end] == '\n',
        forall|j: int| i <= j < end ==> text[j] != '\n',
    ensures
        line_end(text, i) == end + 1,
    decreases end - i,
{
    if i < end {
        assert(text[i] != '\n');
        lemma_line_ends_at(text, i + 1, end);
    }
}

} // verus!
