//! Embeddings that were computed before.

use vstd::prelude::*;
use crate::ids::Uuid;
use crate::scores::Score;
use crate::text::{lowercase, same_text};
use crate::words::{trim, trimmed};

verus! {

/// What texts are told apart by: neither case nor surrounding white space.
pub open spec fn text_key(text: Seq<char>) -> Seq<char> {
    lowercase(trimmed(text))
}

/// What texts are told apart by.
pub fn candidate_key(text: &str) -> (r: String)
    ensures
        r@ == text_key(text@),
{
    trim(text).as_str().to_lowercase()
}

/// The embedding of a text.
#[derive(Debug)]
pub struct TextEmbedding {
    pub key: String,
    pub embedding: Vec<Score>,
}

/// The embedding of a type's description.
#[derive(Debug)]
pub struct TypeEmbedding {
    pub type_id: Uuid,
    pub embedding: Vec<Score>,
}

/// The embedding of the last entry for `key`.
pub open spec fn text_lookup(entries: Seq<TextEmbedding>, key: Seq<char>) -> Option<Seq<Score>>
    decreases entries.len(),
{
    if entries.len() == 0 {
        None
    } else if entries.last().key@ == key {
        Some(entries.last().embedding@)
    } else {
        text_lookup(entries.drop_last(), key)
    }
}

/// The embedding of the last entry for `type_id`.
pub open spec fn type_lookup(entries: Seq<TypeEmbedding>, type_id: Uuid) -> Option<Seq<Score>>
    decreases entries.len(),
{
    if entries.len() == 0 {
        None
    } else if entries.last().type_id == type_id {
        Some(entries.last().embedding@)
    } else {
        type_lookup(entries.drop_last(), type_id)
    }
}

/// The embeddings of candidates' texts and of types' descriptions. Neither
/// changes: an embedding depends on its text alone, and a type keeps its
/// description.
#[derive(Debug)]
pub struct EmbeddingCache {
    pub texts: Vec<TextEmbedding>,
    pub types: Vec<TypeEmbedding>,
}

impl EmbeddingCache {
    /// The embedding that is known for a text.
    pub open spec fn text(&self, text: Seq<char>) -> Option<Seq<Score>> {
        text_lookup(self.texts@, text_key(text))
    }

    /// The embedding that is known for a type's description.
    pub open spec fn of_type(&self, type_id: Uuid) -> Option<Seq<Score>> {
        type_lookup(self.types@, type_id)
    }

    /// A cache without embeddings.
    pub fn new() -> (r: Self)
        ensures
            forall|text: Seq<char>| #[trigger] r.text(text) is None,
            forall|type_id: Uuid| #[trigger] r.of_type(type_id) is None,
    {
        EmbeddingCache { texts: Vec::new(), types: Vec::new() }
    }

    /// The embedding that is known for a text.
    pub fn text_embedding(&self, text: &str) -> (r: Option<Vec<Score>>)
        ensures
            match r {
                Some(e) => self.text(text@) == Some(e@),
                None => self.text(text@) is None,
            },
    {
        let key: String = candidate_key(text);
        let mut i: usize = self.texts.len();
        proof {
            assert(self.texts@.take(self.texts@.len() as int) =~= self.texts@);
        }
        while i > 0
            invariant
                i <= self.texts@.len(),
                key@ == text_key(text@),
                self.text(text@) == text_lookup(self.texts@.take(i as int), key@),
            decreases i,
        {
            proof {
                assert(self.texts@.take(i as int).drop_last() =~= self.texts@.take(i - 1));
                assert(self.texts@.take(i as int).last() == self.texts@[i - 1]);
            }
            if same_text(self.texts[i - 1].key.as_str(), key.as_str()) {
                return Some(copy_embedding(&self.texts[i - 1].embedding));
            }
            i -= 1;
        }
        None
    }

    /// The embedding that is known for a type's description.
    pub fn type_embedding(&self, type_id: Uuid) -> (r: Option<Vec<Score>>)
        ensures
            match r {
                Some(e) => self.of_type(type_id) == Some(e@),
                None => self.of_type(type_id) is None,
            },
    {
        let mut i: usize = self.types.len();
        proof {
            assert(self.types@.take(self.types@.len() as int) =~= self.types@);
        }
        while i > 0
            invariant
                i <= self.types@.len(),
                self.of_type(type_id) == type_lookup(self.types@.take(i as int), type_id),
            decreases i,
        {
            proof {
                assert(self.types@.take(i as int).drop_last() =~= self.types@.take(i - 1));
                assert(self.types@.take(i as int).last() == self.types@[i - 1]);
            }
            if self.types[i - 1].type_id == type_id {
                return Some(copy_embedding(&self.types[i - 1].embedding));
            }
            i -= 1;
        }
        None
    }

    /// Keeps the embedding of a text, for every text that differs from it in
    /// case and surrounding white space only.
    pub fn remember_text(&mut self, text: &str, embedding: Vec<Score>)
        ensures
            forall|other: Seq<char>| #[trigger]
                final(self).text(other) == (if text_key(other) == text_key(text@) {
                    Some(embedding@)
                } else {
                    old(self).text(other)
                }),
            final(self).types == old(self).types,
    {
        let ghost before = self.texts@;
        let entry = TextEmbedding { key: candidate_key(text), embedding };
        self.texts.push(entry);
        proof {
            assert(self.texts@.drop_last() =~= before);
        }
    }

    /// Keeps the embedding of a type's description.
    pub fn remember_type(&mut self, type_id: Uuid, embedding: Vec<Score>)
        ensures
            forall|other: Uuid| #[trigger]
                final(self).of_type(other) == (if other == type_id {
                    Some(embedding@)
                } else {
                    old(self).of_type(other)
                }),
            final(self).texts == old(self).texts,
    {
        let ghost before = self.types@;
        self.types.push(TypeEmbedding { type_id, embedding });
        proof {
            assert(self.types@.drop_last() =~= before);
        }
    }
}

fn copy_embedding(embedding: &Vec<Score>) -> (r: Vec<Score>)
    ensures
        r@ == embedding@,
{
    let mut r: Vec<Score> = Vec::new();
    let mut i: usize = 0;
    while i < embedding.len()
        invariant
            i <= embedding@.len(),
            r@ =~= embedding@.take(i as int),
        decreases embedding@.len() - i,
    {
        r.push(embedding[i]);
        i += 1;
    }
    proof {
        assert(embedding@.take(i as int) =~= embedding@);
    }
    r
}

} // verus!
