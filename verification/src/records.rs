//! The records of the ontology: entities, relations, their types, and what
//! can go wrong with them.

use vstd::prelude::*;
use crate::ids::{uuid_text, Uuid};
use crate::model::{ModelError, ModelErrorView};
use crate::order::{lex_lt, text_before, Ranked};
use crate::scores::Score;

verus! {

/// Status of a relation type.
#[derive(Clone, Copy, Debug, PartialEq, Eq, Structural)]
pub enum RelationTypeStatus {
    Candidate,
    Canonical,
}

/// A type of entity, with the number of entities that have it.
#[derive(Debug)]
pub struct EntityTypeRecord {
    pub id: Uuid,
    pub name: String,
    pub description: String,
    pub instance_count: u64,
}

/// What an [`EntityTypeRecord`] holds.
pub struct EntityTypeView {
    pub id: Uuid,
    pub name: Seq<char>,
    pub description: Seq<char>,
    pub instance_count: nat,
}

impl View for EntityTypeRecord {
    type V = EntityTypeView;

    open spec fn view(&self) -> EntityTypeView {
        EntityTypeView {
            id: self.id,
            name: self.name@,
            description: self.description@,
            instance_count: self.instance_count as nat,
        }
    }
}

impl Clone for EntityTypeRecord {
    fn clone(&self) -> (r: Self)
        ensures
            r@ == self@,
    {
        EntityTypeRecord {
            id: self.id,
            name: self.name.clone(),
            description: self.description.clone(),
            instance_count: self.instance_count,
        }
    }
}

/// A type of relation, with the number of relations that have it.
#[derive(Debug)]
pub struct RelationTypeRecord {
    pub id: Uuid,
    pub name: String,
    pub description: String,
    pub status: RelationTypeStatus,
    pub independent_hits: u32,
    pub instance_count: u64,
}

/// What a [`RelationTypeRecord`] holds.
pub struct RelationTypeView {
    pub id: Uuid,
    pub name: Seq<char>,
    pub description: Seq<char>,
    pub status: RelationTypeStatus,
    pub independent_hits: nat,
    pub instance_count: nat,
}

impl View for RelationTypeRecord {
    type V = RelationTypeView;

    open spec fn view(&self) -> RelationTypeView {
        RelationTypeView {
            id: self.id,
            name: self.name@,
            description: self.description@,
            status: self.status,
            independent_hits: self.independent_hits as nat,
            instance_count: self.instance_count as nat,
        }
    }
}

impl Clone for RelationTypeRecord {
    fn clone(&self) -> (r: Self)
        ensures
            r@ == self@,
    {
        RelationTypeRecord {
            id: self.id,
            name: self.name.clone(),
            description: self.description.clone(),
            status: self.status,
            independent_hits: self.independent_hits,
            instance_count: self.instance_count,
        }
    }
}

impl Ranked for EntityTypeRecord {
    open spec fn before(a: EntityTypeView, b: EntityTypeView) -> bool {
        lex_lt(a.name, b.name)
    }

    fn is_before(&self, other: &Self) -> (r: bool) {
        text_before(self.name.as_str(), other.name.as_str())
    }
}

impl Ranked for RelationTypeRecord {
    open spec fn before(a: RelationTypeView, b: RelationTypeView) -> bool {
        lex_lt(a.name, b.name)
    }

    fn is_before(&self, other: &Self) -> (r: bool) {
        text_before(self.name.as_str(), other.name.as_str())
    }
}

/// An entity.
#[derive(Debug)]
pub struct EntityRecord {
    pub id: Uuid,
    pub type_id: Uuid,
    pub canonical_name: String,
    /// Immutable after creation.
    pub first_seen_file: String,
    pub updated_at: String,
}

/// What an [`EntityRecord`] holds.
pub struct EntityView {
    pub id: Uuid,
    pub type_id: Uuid,
    pub canonical_name: Seq<char>,
    pub first_seen_file: Seq<char>,
    pub updated_at: Seq<char>,
}

impl View for EntityRecord {
    type V = EntityView;

    open spec fn view(&self) -> EntityView {
        EntityView {
            id: self.id,
            type_id: self.type_id,
            canonical_name: self.canonical_name@,
            first_seen_file: self.first_seen_file@,
            updated_at: self.updated_at@,
        }
    }
}

impl Clone for EntityRecord {
    fn clone(&self) -> (r: Self)
        ensures
            r@ == self@,
    {
        EntityRecord {
            id: self.id,
            type_id: self.type_id,
            canonical_name: self.canonical_name.clone(),
            first_seen_file: self.first_seen_file.clone(),
            updated_at: self.updated_at.clone(),
        }
    }
}

impl Ranked for EntityRecord {
    open spec fn before(a: EntityView, b: EntityView) -> bool {
        lex_lt(a.canonical_name, b.canonical_name)
    }

    fn is_before(&self, other: &Self) -> (r: bool) {
        text_before(self.canonical_name.as_str(), other.canonical_name.as_str())
    }
}

/// A relation between two entities.
#[derive(Clone, Copy, Debug, PartialEq, Eq, Structural)]
pub struct RelationRecord {
    pub id: Uuid,
    pub type_id: Uuid,
    pub source_entity_id: Uuid,
    pub target_entity_id: Uuid,
    pub confidence: Score,
    /// Never null: every relation cites evidence.
    pub evidence_chunk_id: Uuid,
}

/// What can go wrong in the ontology.
#[derive(Debug)]
pub enum OntologyError {
    EntityNotFound(Uuid),
    RelationTypeNotFound(String),
    JudgeUndecided,
    Model(ModelError),
    /// A row with this id is there already.
    IdTaken(Uuid),
    OpenFailed { path: String, reason: String },
}

/// What an [`OntologyError`] holds.
pub enum OntologyErrorView {
    EntityNotFound(Uuid),
    RelationTypeNotFound(Seq<char>),
    JudgeUndecided,
    Model(ModelErrorView),
    IdTaken(Uuid),
    OpenFailed { path: Seq<char>, reason: Seq<char> },
}

impl View for OntologyError {
    type V = OntologyErrorView;

    open spec fn view(&self) -> OntologyErrorView {
        match *self {
            OntologyError::EntityNotFound(id) => OntologyErrorView::EntityNotFound(id),
            OntologyError::RelationTypeNotFound(name) => OntologyErrorView::RelationTypeNotFound(name@),
            OntologyError::JudgeUndecided => OntologyErrorView::JudgeUndecided,
            OntologyError::Model(e) => OntologyErrorView::Model(e@),
            OntologyError::IdTaken(id) => OntologyErrorView::IdTaken(id),
            OntologyError::OpenFailed { path, reason } => OntologyErrorView::OpenFailed {
                path: path@,
                reason: reason@,
            },
        }
    }
}

/// The sentence that tells of an error.
pub open spec fn ontology_error_text(e: OntologyErrorView) -> Seq<char> {
    match e {
        OntologyErrorView::EntityNotFound(id) => "entity not found: "@ + uuid_text(id),
        OntologyErrorView::RelationTypeNotFound(name) => "relation type not found: "@ + name,
        OntologyErrorView::JudgeUndecided => "candidate in the ambiguous zone without a judge decision"@,
        OntologyErrorView::Model(e) => "model provider error: "@ + crate::model::model_error_text(e),
        OntologyErrorView::IdTaken(id) => "SQLite error: UNIQUE constraint failed: "@ + uuid_text(id),
        OntologyErrorView::OpenFailed { path, reason } => "failed to open database at "@ + path + ": "@
            + reason,
    }
}

impl OntologyError {
    /// The sentence that tells of the error.
    pub fn message(&self) -> (r: String)
        ensures
            r@ == ontology_error_text(self@),
    {
        match self {
            OntologyError::EntityNotFound(id) => {
                let mut r: String = "entity not found: ".to_owned();
                r.append(id.to_text().as_str());
                r
            },
            OntologyError::RelationTypeNotFound(name) => {
                let mut r: String = "relation type not found: ".to_owned();
                r.append(name.as_str());
                r
            },
            OntologyError::JudgeUndecided => "candidate in the ambiguous zone without a judge decision".to_owned(),
            OntologyError::Model(e) => {
                let mut r: String = "model provider error: ".to_owned();
                r.append(e.message().as_str());
                r
            },
            OntologyError::IdTaken(id) => {
                let mut r: String = "SQLite error: UNIQUE constraint failed: ".to_owned();
                r.append(id.to_text().as_str());
                r
            },
            OntologyError::OpenFailed { path, reason } => {
                let mut r: String = "failed to open database at ".to_owned();
                r.append(path.as_str());
                r.append(": ");
                r.append(reason.as_str());
                r
            },
        }
    }
}

} // verus!
