//! Frontmatter: the block of keys and values at the start of a file, and what
//! was learned of the meaning of its keys.

use serde_yaml::Value;
use vstd::prelude::*;
use crate::hashing::{hash_content, text_hash};
use crate::ids::Uuid;
use crate::order::{
    insert_ranked, lemma_lex_is_ranking, lemma_lex_total, lemma_ranked, lemma_sorted_texts_unique,
    lex_lt, ranked,
};
use crate::paths::{file_name_of, file_stem, parent, parent_of, stem_of};
use crate::text::{chars_of, find_from, matches_at, occurs_at, same_text, string_of};
use crate::views::{
    first_match, lemma_first_match, lemma_first_match_at, opt_ref_view, opt_view, views,
};
use crate::words::{join, joined};

verus! {

/// A value of a frontmatter field that holds one thing.
#[derive(Debug)]
pub enum FieldItem {
    Text(String),
    /// A number, as it is printed.
    Number(String),
    /// A truth value.
    Truth(bool),
    /// Anything else: nothing, a mapping, a nested list, what carries a tag.
    Other,
}

/// What a [`FieldItem`] holds.
pub enum FieldItemView {
    Text(Seq<char>),
    Number(Seq<char>),
    Truth(bool),
    Other,
}

impl View for FieldItem {
    type V = FieldItemView;

    open spec fn view(&self) -> FieldItemView {
        match *self {
            FieldItem::Text(s) => FieldItemView::Text(s@),
            FieldItem::Number(s) => FieldItemView::Number(s@),
            FieldItem::Truth(b) => FieldItemView::Truth(b),
            FieldItem::Other => FieldItemView::Other,
        }
    }
}

/// The value of a frontmatter field.
#[derive(Debug)]
pub enum FieldValue {
    Scalar(FieldItem),
    Sequence(Vec<FieldItem>),
}

/// What a [`FieldValue`] holds.
pub enum FieldValueView {
    Scalar(FieldItemView),
    Sequence(Seq<FieldItemView>),
}

impl View for FieldValue {
    type V = FieldValueView;

    open spec fn view(&self) -> FieldValueView {
        match *self {
            FieldValue::Scalar(item) => FieldValueView::Scalar(item@),
            FieldValue::Sequence(items) => FieldValueView::Sequence(views(items@)),
        }
    }
}

/// A field of a frontmatter block.
#[derive(Debug)]
pub struct Field {
    /// The key, where it is a text.
    pub key: Option<String>,
    /// The key carries a tag.
    pub tagged: bool,
    pub value: FieldValue,
}

/// What a [`Field`] holds.
pub struct FieldView {
    pub key: Option<Seq<char>>,
    pub tagged: bool,
    pub value: FieldValueView,
}

impl View for Field {
    type V = FieldView;

    open spec fn view(&self) -> FieldView {
        FieldView { key: opt_view(self.key), tagged: self.tagged, value: self.value@ }
    }
}

/// No two fields have the same text as their key, but for keys with a tag.
pub open spec fn keys_differ(fields: Seq<FieldView>) -> bool {
    forall|i: int, j: int|
        0 <= i < j < fields.len() && !(#[trigger] fields[i]).tagged && !(
        #[trigger] fields[j]).tagged && fields[i].key is Some ==> fields[i].key != fields[j].key
}

/// No key with a tag has the text of another key.
pub open spec fn tagged_keys_differ(fields: Seq<FieldView>) -> bool {
    forall|i: int, j: int|
        0 <= i < j < fields.len() && ((#[trigger] fields[i]).tagged || (
        #[trigger] fields[j]).tagged) && fields[i].key is Some ==> fields[i].key != fields[j].key
}

/// The fields of the mapping that a YAML text writes, in order; `None` where
/// it is no YAML or writes something else.
pub uninterp spec fn yaml_fields(text: Seq<char>) -> Option<Seq<FieldView>>;

/// `serde_yaml::from_str`: reads a YAML value. `serde_yaml::Value::as_mapping`
/// and `as_str` look through tags; numbers are taken as they print. A mapping
/// holds no key twice, and keys with different tags differ. The result depends
/// on the text alone.
#[verifier::external_body]
fn read_yaml(text: &str) -> (r: Option<Vec<Field>>)
    ensures
        (match r {
            Some(fields) => Some(views(fields@)),
            None => None,
        }) == yaml_fields(text@),
        r matches Some(fields) ==> keys_differ(views(fields@)),
{
    let root: Value = serde_yaml::from_str(text).ok()?;
    let item = |v: &Value| match v {
        Value::String(s) => FieldItem::Text(s.clone()),
        Value::Number(n) => FieldItem::Number(n.to_string()),
        Value::Bool(b) => FieldItem::Truth(*b),
        _ => FieldItem::Other,
    };
    Some(root.as_mapping()?.iter().map(|(k, v)| Field {
        key: k.as_str().map(str::to_owned),
        tagged: matches!(k, Value::Tagged(_)),
        value: match v {
            Value::Sequence(items) => FieldValue::Sequence(items.iter().map(item).collect()),
            _ => FieldValue::Scalar(item(v)),
        },
    }).collect())
}

/// `text` without a byte order mark.
pub open spec fn without_mark(text: Seq<char>) -> Seq<char> {
    if text.len() > 0 && text[0] == '\u{feff}' {
        text.drop_first()
    } else {
        text
    }
}

/// `needle` stands in `hay` at `at` and nowhere before.
pub open spec fn first_at(hay: Seq<char>, needle: Seq<char>, at: int) -> bool {
    occurs_at(hay, needle, at) && forall|j: int| 0 <= j < at ==> !occurs_at(hay, needle, j)
}

/// The text between the `---` that a file starts with and the next line that
/// starts with `---`.
pub open spec fn frontmatter_block(content: Seq<char>) -> Option<Seq<char>> {
    let text = without_mark(content);
    if !occurs_at(text, "---"@, 0) {
        None
    } else {
        let rest = text.skip(3);
        if exists|at: int| first_at(rest, "\n---"@, at) {
            Some(rest.take(choose|at: int| first_at(rest, "\n---"@, at)))
        } else {
            None
        }
    }
}

/// The fields of a file's frontmatter.
pub open spec fn frontmatter_fields(content: Seq<char>) -> Option<Seq<FieldView>> {
    match frontmatter_block(content) {
        Some(block) => yaml_fields(block),
        None => None,
    }
}

/// Where the line ends that the `i`-th character stands in.
pub open spec fn line_end(text: Seq<char>, i: int) -> int
    decreases text.len() - i,
{
    if i >= text.len() {
        text.len() as int
    } else if text[i] == '\n' {
        i + 1
    } else {
        line_end(text, i + 1)
    }
}

/// Where a file's frontmatter ends: after the line of the dashes that close the
/// block; at the start where the file has none.
pub open spec fn frontmatter_end(content: Seq<char>) -> int {
    match frontmatter_block(content) {
        Some(block) => line_end(
            content,
            content.len() - without_mark(content).len() + 3 + block.len() + 4,
        ),
        None => 0,
    }
}

/// A text stands first at one place.
pub proof fn lemma_first_at_unique(hay: Seq<char>, needle: Seq<char>, a: int, b: int)
    requires
        first_at(hay, needle, a),
        first_at(hay, needle, b),
    ensures
        a == b,
{
    if a < b {
        assert(!occurs_at(hay, needle, a));
    }
    if b < a {
        assert(!occurs_at(hay, needle, b));
    }
}

/// Where the frontmatter block starts and ends.
fn find_block(chars: &Vec<char>) -> (r: Option<(usize, usize)>)
    ensures
        match r {
            Some((from, end)) => {
                &&& from == chars@.len() - without_mark(chars@).len() + 3
                &&& from <= end <= chars@.len() - 4
                &&& frontmatter_block(chars@) == Some(chars@.subrange(from as int, end as int))
            },
            None => frontmatter_block(chars@) is None,
        },
{
    let start: usize = if chars.len() > 0 && chars[0] == '\u{feff}' {
        1
    } else {
        0
    };
    let fence: Vec<char> = chars_of("---");
    let close: Vec<char> = chars_of("\n---");
    let ghost content = chars@;
    let ghost text = without_mark(content);
    proof {
        reveal_strlit("---");
        reveal_strlit("\n---");
        assert(text =~= content.skip(start as int));
    }
    if !matches_at(chars, &fence, start) {
        proof {
            if occurs_at(text, "---"@, 0) {
                assert(content.subrange(start as int, start + 3) =~= text.subrange(0, 3));
            }
        }
        return None;
    }
    proof {
        assert(content.subrange(start as int, start + 3) =~= text.subrange(0, 3));
        assert(occurs_at(text, "---"@, 0));
    }
    let from: usize = start + 3;
    let ghost rest = text.skip(3);
    proof {
        assert(rest =~= content.skip(from as int));
        assert forall|j: int| 0 <= j implies occurs_at(rest, "\n---"@, j) == occurs_at(
            content,
            "\n---"@,
            from + j,
        ) by {
            if j + 4 <= rest.len() {
                assert(rest.subrange(j, j + 4) =~= content.subrange(from + j, from + j + 4));
            }
        }
    }
    match find_from(chars, &close, from) {
        Some(end) => {
            proof {
                let at = end - from;
                assert(occurs_at(rest, "\n---"@, at));
                assert forall|j: int| 0 <= j < at implies !occurs_at(rest, "\n---"@, j) by {
                    assert(!occurs_at(content, "\n---"@, from + j));
                }
                assert(first_at(rest, "\n---"@, at));
                let chosen = choose|at: int| first_at(rest, "\n---"@, at);
                lemma_first_at_unique(rest, "\n---"@, chosen, at);
                assert(rest.take(at) =~= content.subrange(from as int, end as int));
            }
            Some((from, end))
        },
        None => {
            proof {
                if exists|at: int| first_at(rest, "\n---"@, at) {
                    let at = choose|at: int| first_at(rest, "\n---"@, at);
                    assert(occurs_at(content, "\n---"@, from + at));
                }
            }
            None
        },
    }
}

/// Cuts the frontmatter block out of a file's content.
pub fn extract_block(content: &str) -> (r: Option<String>)
    ensures
        opt_view(r) == frontmatter_block(content@),
{
    let chars: Vec<char> = chars_of(content);
    match find_block(&chars) {
        Some((from, end)) => Some(string_of(&chars, from, end)),
        None => None,
    }
}

/// Where a file's frontmatter ends, counted in characters.
pub fn find_frontmatter_end(chars: &Vec<char>) -> (r: usize)
    ensures
        r == frontmatter_end(chars@),
        r <= chars@.len(),
{
    match find_block(chars) {
        Some((_, end)) => {
            let len: usize = chars.len();
            let mut i: usize = end + 4;
            while i < len
                invariant
                    i <= len == chars@.len(),
                    frontmatter_end(chars@) == line_end(chars@, i as int),
                decreases len - i,
            {
                if chars[i] == '\n' {
                    return i + 1;
                }
                i += 1;
            }
            i
        },
        None => 0,
    }
}

/// A line ends within the text.
pub proof fn lemma_line_end(text: Seq<char>, i: int)
    requires
        0 <= i <= text.len(),
    ensures
        i <= line_end(text, i) <= text.len(),
    decreases text.len() - i,
{
    if i < text.len() && text[i] != '\n' {
        lemma_line_end(text, i + 1);
    }
}

proof fn lemma_line_end_take(text: Seq<char>, i: int, p: int)
    requires
        0 <= i <= text.len(),
        line_end(text, i) <= p <= text.len(),
    ensures
        line_end(text.take(p), i) == line_end(text, i),
    decreases text.len() - i,
{
    if i < text.len() {
        lemma_line_end(text, i);
        if text[i] != '\n' {
            lemma_line_end(text, i + 1);
            lemma_line_end_take(text, i + 1, p);
        } else {
            assert(text.take(p)[i] == '\n');
        }
        if i < p {
            assert(text.take(p)[i] == text[i]);
        }
    }
}

/// Frontmatter lies within the file, and is where a file starts with it not
/// blank.
pub proof fn lemma_frontmatter_end(content: Seq<char>)
    ensures
        0 <= frontmatter_end(content) <= content.len(),
        frontmatter_block(content) is Some ==> frontmatter_end(content) >= 7 && (content[0] == '-'
            || content[1] == '-'),
        frontmatter_block(content) is None ==> frontmatter_end(content) == 0,
{
    if frontmatter_block(content) is Some {
        reveal_strlit("---");
        reveal_strlit("\n---");
        let text = without_mark(content);
        let rest = text.skip(3);
        let at = choose|at: int| first_at(rest, "\n---"@, at);
        assert(first_at(rest, "\n---"@, at));
        assert(text.subrange(0, 3)[0] == text[0]);
        lemma_line_end(content, content.len() - text.len() + 3 + at + 4);
    }
}

/// The frontmatter of a file is that of any beginning of it that holds it
/// whole.
pub proof fn lemma_frontmatter_end_take(content: Seq<char>, p: int)
    requires
        frontmatter_block(content) is Some,
        frontmatter_end(content) <= p <= content.len(),
    ensures
        frontmatter_block(content.take(p)) == frontmatter_block(content),
        frontmatter_end(content.take(p)) == frontmatter_end(content),
{
    reveal_strlit("---");
    reveal_strlit("\n---");
    lemma_frontmatter_end(content);
    let cut = content.take(p);
    let text = without_mark(content);
    let mark = content.len() - text.len();
    let close = "\n---"@;
    let rest = text.skip(3);
    let at = choose|at: int| first_at(rest, close, at);
    assert(first_at(rest, close, at));
    lemma_line_end(content, mark + 3 + at + 4);
    assert(cut[0] == content[0]);
    let short = without_mark(cut);
    assert(short =~= text.take(p - mark));
    assert(short.subrange(0, 3) =~= text.subrange(0, 3));
    let ends = short.skip(3);
    assert(ends =~= rest.take(p - mark - 3));
    assert forall|j: int| 0 <= j <= at implies occurs_at(ends, close, j) == occurs_at(
        rest,
        close,
        j,
    ) by {
        assert(ends.subrange(j, j + 4) =~= rest.subrange(j, j + 4));
    }
    assert(first_at(ends, close, at));
    let chosen = choose|at: int| first_at(ends, close, at);
    lemma_first_at_unique(ends, close, chosen, at);
    assert(ends.take(at) =~= rest.take(at));
    lemma_line_end_take(content, mark + 3 + at + 4, p);
}

/// The keys among `fields` that are texts.
pub open spec fn key_texts(fields: Seq<FieldView>) -> Seq<Seq<char>>
    decreases fields.len(),
{
    if fields.len() == 0 {
        Seq::empty()
    } else {
        match fields.last().key {
            Some(key) => key_texts(fields.drop_last()).push(key),
            None => key_texts(fields.drop_last()),
        }
    }
}

/// The keys among `fields` that are texts, in order.
pub open spec fn sorted_keys(fields: Seq<FieldView>) -> Seq<Seq<char>> {
    ranked(key_texts(fields), |a: Seq<char>, b: Seq<char>| lex_lt(a, b))
}

/// The keys among `fields` that are texts, in order.
pub fn keys_of(fields: &Vec<Field>) -> (r: Vec<String>)
    ensures
        views(r@) == sorted_keys(views(fields@)),
{
    let ghost all = views(fields@);
    let ghost before = |a: Seq<char>, b: Seq<char>| lex_lt(a, b);
    let mut r: Vec<String> = Vec::new();
    let mut i: usize = 0;
    proof {
        assert(views(r@) =~= key_texts(all.take(0)));
    }
    while i < fields.len()
        invariant
            i <= fields@.len(),
            all == views(fields@),
            before == (|a: Seq<char>, b: Seq<char>| lex_lt(a, b)),
            views(r@) == ranked(key_texts(all.take(i as int)), before),
        decreases fields@.len() - i,
    {
        proof {
            assert(all.take(i + 1).drop_last() =~= all.take(i as int));
            assert(all.take(i + 1).last() == fields@[i as int]@);
        }
        if let Some(key) = &fields[i].key {
            let copy: String = key.clone();
            proof {
                let s = key_texts(all.take(i as int));
                assert(s.push(copy@).drop_last() =~= s);
                assert((|a: Seq<char>, b: Seq<char>| <String as crate::order::Ranked>::before(a, b)) =~= before);
            }
            insert_ranked(&mut r, copy);
        }
        i += 1;
    }
    proof {
        assert(all.take(all.len() as int) =~= all);
    }
    r
}

/// The keys of a file's frontmatter, in order; `None` where it has none.
pub fn parse_frontmatter_keys(content: &str) -> (r: Option<Vec<String>>)
    ensures
        (match r {
            Some(keys) => Some(views(keys@)),
            None => None,
        }) == (match frontmatter_fields(content@) {
            Some(fields) => Some(sorted_keys(fields)),
            None => None,
        }),
        r matches Some(keys) ==> (tagged_keys_differ(frontmatter_fields(content@)->0)
            ==> strictly_ascend(views(keys@))),
{
    match parse_frontmatter_values(content) {
        Some(fields) => {
            proof {
                if tagged_keys_differ(views(fields@)) {
                    law_keys_strictly_ascend(views(fields@));
                }
            }
            Some(keys_of(&fields))
        },
        None => None,
    }
}

/// Each of the texts comes before the next.
pub open spec fn strictly_ascend(texts: Seq<Seq<char>>) -> bool {
    forall|i: int, j: int|
        0 <= i < j < texts.len() ==> lex_lt(#[trigger] texts[i], #[trigger] texts[j])
}

proof fn lemma_key_texts_from(fields: Seq<FieldView>)
    requires
        keys_differ(fields),
        tagged_keys_differ(fields),
    ensures
        key_texts(fields).no_duplicates(),
        forall|i: int|
            0 <= i < key_texts(fields).len() ==> exists|k: int|
                0 <= k < fields.len() && (#[trigger] fields[k]).key == Some(
                    #[trigger] key_texts(fields)[i],
                ),
    decreases fields.len(),
{
    if fields.len() > 0 {
        let rest = fields.drop_last();
        assert forall|i: int, j: int|
            0 <= i < j < rest.len() && !(#[trigger] rest[i]).tagged && !(#[trigger] rest[j]).tagged
                && rest[i].key is Some implies rest[i].key != rest[j].key by {
            assert(fields[i] == rest[i] && fields[j] == rest[j]);
        }
        assert forall|i: int, j: int|
            0 <= i < j < rest.len() && ((#[trigger] rest[i]).tagged || (#[trigger] rest[j]).tagged)
                && rest[i].key is Some implies rest[i].key != rest[j].key by {
            assert(fields[i] == rest[i] && fields[j] == rest[j]);
        }
        lemma_key_texts_from(rest);
        let before = key_texts(rest);
        let all = key_texts(fields);
        let last = fields.len() - 1;
        assert forall|i: int| 0 <= i < before.len() implies exists|k: int|
            0 <= k < last && (#[trigger] fields[k]).key == Some(#[trigger] before[i]) by {
            let k = choose|k: int| 0 <= k < rest.len() && (#[trigger] rest[k]).key == Some(before[i]);
            assert(fields[k].key == Some(before[i]));
        }
        assert forall|i: int| 0 <= i < all.len() implies exists|k: int|
            0 <= k < fields.len() && (#[trigger] fields[k]).key == Some(#[trigger] all[i]) by {
            if i < before.len() {
                assert(all[i] == before[i]);
            } else {
                assert(fields[last].key == Some(all[i]));
            }
        }
        assert forall|i: int, j: int| 0 <= i < j < all.len() implies all[i] != all[j] by {
            if j == before.len() {
                assert(all[i] == before[i]);
                let k = choose|k: int|
                    0 <= k < last && (#[trigger] fields[k]).key == Some(before[i]);
                assert(fields[k].key != fields[last].key);
                assert(fields[last].key == Some(all[j]));
            } else {
                assert(all[i] == before[i] && all[j] == before[j]);
            }
        }
    }
}

/// The keys of a block are listed in strictly ascending order, and are exactly
/// the keys that are texts, unless one with a tag has the text of another.
pub proof fn law_keys_strictly_ascend(fields: Seq<FieldView>)
    requires
        keys_differ(fields),
        tagged_keys_differ(fields),
    ensures
        strictly_ascend(sorted_keys(fields)),
        sorted_keys(fields).to_multiset() == key_texts(fields).to_multiset(),
{
    let before = |a: Seq<char>, b: Seq<char>| lex_lt(a, b);
    let keys = sorted_keys(fields);
    lemma_lex_is_ranking();
    lemma_ranked(key_texts(fields), before);
    lemma_key_texts_from(fields);
    key_texts(fields).lemma_multiset_has_no_duplicates();
    keys.lemma_multiset_has_no_duplicates_conv();
    assert forall|i: int, j: int| 0 <= i < j < keys.len() implies lex_lt(
        #[trigger] keys[i],
        #[trigger] keys[j],
    ) by {
        assert(!before(keys[j], keys[i]));
        lemma_lex_total(keys[i], keys[j]);
    }
}

/// A byte order mark before a text makes no difference to its frontmatter.
pub proof fn law_mark_makes_no_difference(text: Seq<char>)
    requires
        text.len() > 0 ==> text[0] != '\u{feff}',
    ensures
        frontmatter_fields(seq!['\u{feff}'] + text) == frontmatter_fields(text),
{
    let marked = seq!['\u{feff}'] + text;
    assert(marked[0] == '\u{feff}');
    assert(marked.drop_first() =~= text);
    assert(without_mark(marked) == without_mark(text));
}

/// The fields of a file's frontmatter; `None` where it has none.
pub fn parse_frontmatter_values(content: &str) -> (r: Option<Vec<Field>>)
    ensures
        (match r {
            Some(fields) => Some(views(fields@)),
            None => None,
        }) == frontmatter_fields(content@),
        r matches Some(fields) ==> keys_differ(views(fields@)),
{
    match extract_block(content) {
        Some(block) => read_yaml(block.as_str()),
        None => None,
    }
}

/// The text of one item, where it has one.
pub open spec fn item_text(item: FieldItemView) -> Option<Seq<char>> {
    match item {
        FieldItemView::Text(s) => Some(s),
        FieldItemView::Number(s) => Some(s),
        FieldItemView::Truth(b) => Some(
            if b {
                "true"@
            } else {
                "false"@
            },
        ),
        FieldItemView::Other => None,
    }
}

/// The texts of the items that have one.
pub open spec fn item_texts(items: Seq<FieldItemView>) -> Seq<Seq<char>>
    decreases items.len(),
{
    if items.len() == 0 {
        Seq::empty()
    } else {
        match item_text(items.last()) {
            Some(s) => item_texts(items.drop_last()).push(s),
            None => item_texts(items.drop_last()),
        }
    }
}

/// The texts of a value: one of a text, a number or a truth value, those of the
/// items of a sequence, none of anything else.
pub open spec fn value_texts(value: FieldValueView) -> Seq<Seq<char>> {
    match value {
        FieldValueView::Scalar(item) => item_texts(seq![item]),
        FieldValueView::Sequence(items) => item_texts(items),
    }
}

fn item_string(item: &FieldItem) -> (r: Option<String>)
    ensures
        opt_view(r) == item_text(item@),
{
    match item {
        FieldItem::Text(s) => Some(s.clone()),
        FieldItem::Number(s) => Some(s.clone()),
        FieldItem::Truth(b) => Some(
            if *b {
                "true".to_owned()
            } else {
                "false".to_owned()
            },
        ),
        FieldItem::Other => None,
    }
}

/// The texts of a value.
pub fn frontmatter_value_as_strings(value: &FieldValue) -> (r: Vec<String>)
    ensures
        views(r@) == value_texts(value@),
{
    let mut r: Vec<String> = Vec::new();
    match value {
        FieldValue::Scalar(item) => {
            let ghost one = seq![item@];
            proof {
                assert(one.drop_last() =~= Seq::<FieldItemView>::empty());
                assert(views(r@) =~= item_texts(one.drop_last()));
            }
            if let Some(s) = item_string(item) {
                let ghost v = s@;
                r.push(s);
                proof {
                    assert(views(r@) =~= Seq::<Seq<char>>::empty().push(v));
                }
            }
        },
        FieldValue::Sequence(items) => {
            let ghost all = views(items@);
            let mut i: usize = 0;
            proof {
                assert(views(r@) =~= item_texts(all.take(0)));
            }
            while i < items.len()
                invariant
                    i <= items@.len(),
                    all == views(items@),
                    views(r@) == item_texts(all.take(i as int)),
                decreases items@.len() - i,
            {
                proof {
                    assert(all.take(i + 1).drop_last() =~= all.take(i as int));
                    assert(all.take(i + 1).last() == items@[i as int]@);
                }
                if let Some(s) = item_string(&items[i]) {
                    let ghost v = s@;
                    let ghost before = r@;
                    r.push(s);
                    proof {
                        assert(views(r@) =~= views(before).push(v));
                    }
                }
                i += 1;
            }
            proof {
                assert(all.take(all.len() as int) =~= all);
            }
        },
    }
    r
}

/// The fingerprint of a set of keys, which are given in order.
pub open spec fn fingerprint_of(keys: Seq<Seq<char>>) -> Seq<char> {
    text_hash(joined(keys, ","@))
}

/// The fingerprint of a set of keys. Values play no part in it.
pub fn key_fingerprint(keys: &Vec<String>) -> (r: String)
    ensures
        r@ == fingerprint_of(views(keys@)),
{
    hash_content(join(keys, ",").as_str())
}

/// Blocks with the same keys have the same fingerprint, whatever the order of
/// the keys and whatever the values.
pub proof fn law_fingerprint_of_key_set(a: Seq<FieldView>, b: Seq<FieldView>)
    requires
        key_texts(a).to_multiset() == key_texts(b).to_multiset(),
    ensures
        fingerprint_of(sorted_keys(a)) == fingerprint_of(sorted_keys(b)),
{
    let before = |x: Seq<char>, y: Seq<char>| lex_lt(x, y);
    lemma_lex_is_ranking();
    lemma_ranked(key_texts(a), before);
    lemma_ranked(key_texts(b), before);
    lemma_sorted_texts_unique(sorted_keys(a), sorted_keys(b));
}

/// The folder of a path, or nothing where it has none.
pub open spec fn scope_of(path: Seq<char>) -> Seq<char> {
    match parent_of(path) {
        Some(p) => p,
        None => Seq::empty(),
    }
}

/// The folder that a file lies in directly: the scope in which what was
/// learned of its frontmatter holds.
pub fn folder_scope(file_path: &str) -> (r: String)
    ensures
        r@ == scope_of(file_path@),
{
    match parent(file_path) {
        Some(p) => p,
        None => String::new(),
    }
}

/// The name of an entity that its file names no other way: the file's name
/// without its extension.
pub open spec fn derived_name(path: Seq<char>) -> Seq<char> {
    match file_name_of(path) {
        Some(name) => stem_of(name),
        None => path,
    }
}

/// The name of an entity that its file names no other way.
pub fn derive_name_from_path(file_path: &str) -> (r: String)
    ensures
        r@ == derived_name(file_path@),
{
    match file_stem(file_path) {
        Some(stem) => stem,
        None => file_path.to_owned(),
    }
}

/// What one frontmatter key means: a canonical concept (`id`, `kind`,
/// `status`, `depends_on`, ...), or nothing known.
#[derive(Debug)]
pub struct FieldRule {
    pub key: String,
    pub concept: Option<String>,
}

/// What a [`FieldRule`] holds.
pub struct FieldRuleView {
    pub key: Seq<char>,
    pub concept: Option<Seq<char>>,
}

impl View for FieldRule {
    type V = FieldRuleView;

    open spec fn view(&self) -> FieldRuleView {
        FieldRuleView { key: self.key@, concept: opt_view(self.concept) }
    }
}

impl Clone for FieldRule {
    fn clone(&self) -> (r: Self)
        ensures
            r@ == self@,
    {
        let concept: Option<String> = match &self.concept {
            Some(c) => Some(c.clone()),
            None => None,
        };
        FieldRule { key: self.key.clone(), concept }
    }
}

/// What was learned of the frontmatter of a shape in a folder.
#[derive(Debug)]
pub struct FrontmatterProfile {
    pub id: Uuid,
    pub folder_scope: String,
    pub key_fingerprint: String,
    pub field_mapping: Vec<FieldRule>,
    pub learned_at: String,
}

/// What a [`FrontmatterProfile`] holds.
#[verifier::ext_equal]
pub struct ProfileView {
    pub id: Uuid,
    pub folder_scope: Seq<char>,
    pub key_fingerprint: Seq<char>,
    pub field_mapping: Seq<FieldRuleView>,
    pub learned_at: Seq<char>,
}

impl View for FrontmatterProfile {
    type V = ProfileView;

    open spec fn view(&self) -> ProfileView {
        ProfileView {
            id: self.id,
            folder_scope: self.folder_scope@,
            key_fingerprint: self.key_fingerprint@,
            field_mapping: views(self.field_mapping@),
            learned_at: self.learned_at@,
        }
    }
}

/// A copy of a list of rules.
pub fn clone_rules(rules: &Vec<FieldRule>) -> (r: Vec<FieldRule>)
    ensures
        views(r@) == views(rules@),
{
    let mut r: Vec<FieldRule> = Vec::new();
    let mut i: usize = 0;
    while i < rules.len()
        invariant
            i <= rules@.len(),
            views(r@) =~= views(rules@).take(i as int),
        decreases rules@.len() - i,
    {
        let rule: FieldRule = rules[i].clone();
        let ghost before = r@;
        let ghost v = rule@;
        r.push(rule);
        proof {
            assert(views(r@) =~= views(before).push(v));
        }
        i += 1;
    }
    proof {
        assert(views(rules@).take(i as int) =~= views(rules@));
    }
    r
}

impl Clone for FrontmatterProfile {
    fn clone(&self) -> (r: Self)
        ensures
            r@ == self@,
    {
        FrontmatterProfile {
            id: self.id,
            folder_scope: self.folder_scope.clone(),
            key_fingerprint: self.key_fingerprint.clone(),
            field_mapping: clone_rules(&self.field_mapping),
            learned_at: self.learned_at.clone(),
        }
    }
}

/// The value of the field with this key, which must not carry a tag.
pub open spec fn field_value(fields: Seq<FieldView>, key: Seq<char>) -> Option<FieldValueView> {
    match first_match(fields, |f: FieldView| !f.tagged && f.key == Some(key)) {
        Some(f) => Some(f.value),
        None => None,
    }
}

/// The texts of the field with this key; none where there is no such field.
pub open spec fn field_texts(fields: Seq<FieldView>, key: Seq<char>) -> Seq<Seq<char>> {
    match field_value(fields, key) {
        Some(value) => value_texts(value),
        None => Seq::empty(),
    }
}

/// The texts of every field whose key means `concept`, in the order of the
/// rules.
pub open spec fn concept_texts(
    rules: Seq<FieldRuleView>,
    fields: Seq<FieldView>,
    concept: Seq<char>,
) -> Seq<Seq<char>>
    decreases rules.len(),
{
    if rules.len() == 0 {
        Seq::empty()
    } else {
        let before = concept_texts(rules.drop_last(), fields, concept);
        if rules.last().concept == Some(concept) {
            before + field_texts(fields, rules.last().key)
        } else {
            before
        }
    }
}

/// Every text of a field whose key means a concept is among the texts of that
/// concept.
pub proof fn law_every_field_counts(
    rules: Seq<FieldRuleView>,
    fields: Seq<FieldView>,
    concept: Seq<char>,
    i: int,
    text: Seq<char>,
)
    requires
        0 <= i < rules.len(),
        rules[i].concept == Some(concept),
        field_texts(fields, rules[i].key).contains(text),
    ensures
        concept_texts(rules, fields, concept).contains(text),
    decreases rules.len(),
{
    let before = concept_texts(rules.drop_last(), fields, concept);
    let last = field_texts(fields, rules.last().key);
    let all = concept_texts(rules, fields, concept);
    if i < rules.len() - 1 {
        law_every_field_counts(rules.drop_last(), fields, concept, i, text);
        let k = choose|k: int| 0 <= k < before.len() && before[k] == text;
        assert(all[k] == text);
    } else {
        let k = choose|k: int| 0 <= k < last.len() && last[k] == text;
        assert(all[before.len() + k] == text);
    }
}

/// The value of the field with this key.
pub fn get_field<'a>(fields: &'a Vec<Field>, key: &str) -> (r: Option<&'a FieldValue>)
    ensures
        opt_ref_view(r) == field_value(views(fields@), key@),
{
    let ghost all = views(fields@);
    let ghost p = |f: FieldView| !f.tagged && f.key == Some(key@);
    let mut i: usize = 0;
    while i < fields.len()
        invariant
            i <= fields@.len(),
            all == views(fields@),
            p == (|f: FieldView| !f.tagged && f.key == Some(key@)),
            forall|j: int| 0 <= j < i ==> !p(#[trigger] all[j]),
        decreases fields@.len() - i,
    {
        proof {
            assert(all[i as int] == fields@[i as int]@);
        }
        if !fields[i].tagged {
            if let Some(k) = &fields[i].key {
                if same_text(k.as_str(), key) {
                    proof {
                        lemma_first_match_at(all, p, i as int);
                    }
                    return Some(&fields[i].value);
                }
            }
        }
        i += 1;
    }
    proof {
        lemma_first_match(all, p);
    }
    None
}

/// The texts of the field with this key.
fn texts_of_field(fields: &Vec<Field>, key: &str) -> (r: Vec<String>)
    ensures
        views(r@) == field_texts(views(fields@), key@),
{
    match get_field(fields, key) {
        Some(value) => frontmatter_value_as_strings(value),
        None => {
            let none: Vec<String> = Vec::new();
            proof {
                assert(views(none@) =~= Seq::<Seq<char>>::empty());
            }
            none
        },
    }
}

/// The texts of every field whose key means `concept`, in the order of the
/// rules.
pub fn texts_of_concept(rules: &Vec<FieldRule>, fields: &Vec<Field>, concept: &str) -> (r: Vec<String>)
    ensures
        views(r@) == concept_texts(views(rules@), views(fields@), concept@),
{
    let ghost all = views(rules@);
    let mut r: Vec<String> = Vec::new();
    let mut i: usize = 0;
    proof {
        assert(views(r@) =~= concept_texts(all.take(0), views(fields@), concept@));
    }
    while i < rules.len()
        invariant
            i <= rules@.len(),
            all == views(rules@),
            views(r@) == concept_texts(all.take(i as int), views(fields@), concept@),
        decreases rules@.len() - i,
    {
        proof {
            assert(all.take(i + 1).drop_last() =~= all.take(i as int));
            assert(all.take(i + 1).last() == rules@[i as int]@);
        }
        if let Some(c) = &rules[i].concept {
            if same_text(c.as_str(), concept) {
                let mut texts: Vec<String> = texts_of_field(fields, rules[i].key.as_str());
                let ghost before = r@;
                let ghost added = texts@;
                r.append(&mut texts);
                proof {
                    assert(views(r@) =~= views(before) + views(added));
                }
            }
        }
        i += 1;
    }
    proof {
        assert(all.take(all.len() as int) =~= all);
    }
    r
}

} // verus!
