//! The type registry: entity types, the relation vocabulary, and the files
//! that each candidate relation type was seen in.

use vstd::prelude::*;
use crate::clock::{is_timestamp, now};
use crate::graph::{GraphView, InstanceGraph};
use crate::ids::{is_random_uuid, Uuid};
use crate::order::{insert_ranked, lex_lt, ranked};
use crate::records::{
    EntityTypeRecord, EntityTypeView, EntityView, OntologyError, OntologyErrorView, RelationRecord,
    RelationTypeRecord, RelationTypeStatus, RelationTypeView,
};
use crate::text::same_text;
use crate::views::{
    first_match, lemma_filter_next, lemma_first_match, lemma_first_match_at,
    opt_view, result_view, views,
};

verus! {

/// The number of independent files that a candidate relation type must be
/// seen in before it becomes canonical.
pub const PROMOTION_THRESHOLD: u32 = 3;

/// The canonical relation types that every project starts with; they never go
/// through promotion.
pub const SEED_RELATION_TYPES: [&'static str; 8] = [
    "depends_on",
    "supersedes",
    "implements",
    "causes",
    "owned_by",
    "conflicts_with",
    "documents",
    "configures",
];

/// The word that stands for a status.
pub open spec fn status_word(status: RelationTypeStatus) -> Seq<char> {
    match status {
        RelationTypeStatus::Candidate => "candidate"@,
        RelationTypeStatus::Canonical => "canonical"@,
    }
}

/// The word that stands for a status.
pub fn status_to_str(status: RelationTypeStatus) -> (r: &'static str)
    ensures
        r@ == status_word(status),
{
    match status {
        RelationTypeStatus::Candidate => "candidate",
        RelationTypeStatus::Canonical => "canonical",
    }
}

/// The status that a word stands for; any word but `canonical` stands for a
/// candidate.
pub fn status_from_str(s: &str) -> (r: RelationTypeStatus)
    ensures
        r == (if s@ == "canonical"@ {
            RelationTypeStatus::Canonical
        } else {
            RelationTypeStatus::Candidate
        }),
{
    if same_text(s, "canonical") {
        RelationTypeStatus::Canonical
    } else {
        RelationTypeStatus::Candidate
    }
}

/// An entity type as it is recorded.
#[derive(Debug)]
pub struct EntityTypeRow {
    pub id: Uuid,
    pub name: String,
    pub description: String,
    pub created_at: String,
}

/// What an [`EntityTypeRow`] holds.
pub struct EntityTypeRowView {
    pub id: Uuid,
    pub name: Seq<char>,
    pub description: Seq<char>,
    pub created_at: Seq<char>,
}

impl View for EntityTypeRow {
    type V = EntityTypeRowView;

    open spec fn view(&self) -> EntityTypeRowView {
        EntityTypeRowView {
            id: self.id,
            name: self.name@,
            description: self.description@,
            created_at: self.created_at@,
        }
    }
}

/// A relation type as it is recorded.
#[derive(Debug)]
pub struct RelationTypeRow {
    pub id: Uuid,
    pub name: String,
    pub description: String,
    pub status: RelationTypeStatus,
    pub created_at: String,
}

/// What a [`RelationTypeRow`] holds.
pub struct RelationTypeRowView {
    pub id: Uuid,
    pub name: Seq<char>,
    pub description: Seq<char>,
    pub status: RelationTypeStatus,
    pub created_at: Seq<char>,
}

impl View for RelationTypeRow {
    type V = RelationTypeRowView;

    open spec fn view(&self) -> RelationTypeRowView {
        RelationTypeRowView {
            id: self.id,
            name: self.name@,
            description: self.description@,
            status: self.status,
            created_at: self.created_at@,
        }
    }
}

/// A file that a relation type was seen in.
#[derive(Debug)]
pub struct TypeHit {
    pub type_id: Uuid,
    pub file_path: String,
}

/// What a [`TypeHit`] holds.
pub struct TypeHitView {
    pub type_id: Uuid,
    pub file_path: Seq<char>,
}

impl View for TypeHit {
    type V = TypeHitView;

    open spec fn view(&self) -> TypeHitView {
        TypeHitView { type_id: self.type_id, file_path: self.file_path@ }
    }
}

/// The types of a project, in the order in which they were recorded.
#[derive(Debug)]
pub struct TypeRegistry {
    pub entity_types: Vec<EntityTypeRow>,
    pub relation_types: Vec<RelationTypeRow>,
    pub hits: Vec<TypeHit>,
}

/// What a [`TypeRegistry`] holds.
#[verifier::ext_equal]
pub struct RegistryView {
    pub entity_types: Seq<EntityTypeRowView>,
    pub relation_types: Seq<RelationTypeRowView>,
    pub hits: Seq<TypeHitView>,
}

impl View for TypeRegistry {
    type V = RegistryView;

    open spec fn view(&self) -> RegistryView {
        RegistryView {
            entity_types: views(self.entity_types@),
            relation_types: views(self.relation_types@),
            hits: views(self.hits@),
        }
    }
}

/// An entity type with the number of its instances.
pub open spec fn entity_type_record(row: EntityTypeRowView, graph: GraphView) -> EntityTypeView {
    EntityTypeView {
        id: row.id,
        name: row.name,
        description: row.description,
        instance_count: graph.entity_count(row.id),
    }
}

/// A relation type with the number of its instances.
pub open spec fn relation_type_record(row: RelationTypeRowView, graph: GraphView) -> RelationTypeView {
    RelationTypeView {
        id: row.id,
        name: row.name,
        description: row.description,
        status: row.status,
        independent_hits: 0,
        instance_count: graph.relation_count(row.id),
    }
}

impl RegistryView {
    /// No two types share an id or a name, and no file counts twice for one
    /// type.
    pub open spec fn valid(self) -> bool {
        &&& forall|i: int, j: int|
            0 <= i < j < self.entity_types.len() ==> (#[trigger] self.entity_types[i]).id != (
            #[trigger] self.entity_types[j]).id && self.entity_types[i].name
                != self.entity_types[j].name
        &&& forall|i: int, j: int|
            0 <= i < j < self.relation_types.len() ==> (#[trigger] self.relation_types[i]).id != (
            #[trigger] self.relation_types[j]).id && self.relation_types[i].name
                != self.relation_types[j].name
        &&& self.hits.no_duplicates()
    }

    /// The entity type of this name.
    pub open spec fn entity_type(self, name: Seq<char>) -> Option<EntityTypeRowView> {
        first_match(self.entity_types, |t: EntityTypeRowView| t.name == name)
    }

    /// The relation type of this name.
    pub open spec fn relation_type(self, name: Seq<char>) -> Option<RelationTypeRowView> {
        first_match(self.relation_types, |t: RelationTypeRowView| t.name == name)
    }

    /// There is an entity type with this row's id or name.
    pub open spec fn has_entity_type(self, row: EntityTypeRowView) -> bool {
        exists|i: int|
            0 <= i < self.entity_types.len() && ((#[trigger] self.entity_types[i]).id == row.id
                || self.entity_types[i].name == row.name)
    }

    /// There is a relation type with this row's id or name.
    pub open spec fn has_relation_type(self, row: RelationTypeRowView) -> bool {
        exists|i: int|
            0 <= i < self.relation_types.len() && ((#[trigger] self.relation_types[i]).id == row.id
                || self.relation_types[i].name == row.name)
    }

    /// The registry with a row for an entity type, unless its id or name is
    /// taken.
    pub open spec fn adding_entity_type(self, row: EntityTypeRowView) -> RegistryView {
        if self.has_entity_type(row) {
            self
        } else {
            RegistryView { entity_types: self.entity_types.push(row), ..self }
        }
    }

    /// The registry with a row for a relation type, unless its id or name is
    /// taken.
    pub open spec fn adding_relation_type(self, row: RelationTypeRowView) -> RegistryView {
        if self.has_relation_type(row) {
            self
        } else {
            RegistryView { relation_types: self.relation_types.push(row), ..self }
        }
    }

    /// The registry after an entity type was looked for by name, and made
    /// where there was none; and that type.
    pub open spec fn with_entity_type(
        self,
        graph: GraphView,
        name: Seq<char>,
        description: Seq<char>,
        fresh: Uuid,
        at: Seq<char>,
    ) -> (RegistryView, Result<EntityTypeView, OntologyErrorView>) {
        let after = self.adding_entity_type(
            EntityTypeRowView { id: fresh, name, description, created_at: at },
        );
        match after.entity_type(name) {
            Some(row) => (after, Ok(entity_type_record(row, graph))),
            None => (after, Err(OntologyErrorView::IdTaken(fresh))),
        }
    }

    /// The registry after a relation type was looked for by name, and made a
    /// candidate where there was none; and that type.
    pub open spec fn with_candidate(
        self,
        graph: GraphView,
        name: Seq<char>,
        description: Seq<char>,
        fresh: Uuid,
        at: Seq<char>,
    ) -> (RegistryView, Result<RelationTypeView, OntologyErrorView>) {
        let after = self.adding_relation_type(
            RelationTypeRowView {
                id: fresh,
                name,
                description,
                status: RelationTypeStatus::Candidate,
                created_at: at,
            },
        );
        match after.relation_type(name) {
            Some(row) => (after, Ok(relation_type_record(row, graph))),
            None => (after, Err(OntologyErrorView::IdTaken(fresh))),
        }
    }

    /// The registry after the first `n` seeds were added.
    pub open spec fn seeded(self, ids: Seq<Uuid>, at: Seq<char>, n: nat) -> RegistryView
        decreases n,
    {
        if n == 0 {
            self
        } else {
            let i = n - 1;
            self.seeded(ids, at, (n - 1) as nat).adding_relation_type(seed_row(i, ids[i], at))
        }
    }

    /// The registry after a file was recorded for a relation type.
    pub open spec fn with_hit(self, type_id: Uuid, file: Seq<char>) -> RegistryView {
        let hit = TypeHitView { type_id, file_path: file };
        if self.hits.contains(hit) {
            self
        } else {
            RegistryView { hits: self.hits.push(hit), ..self }
        }
    }

    /// The number of files that are recorded for a relation type.
    pub open spec fn hit_count(self, type_id: Uuid) -> nat {
        self.hits.filter(|h: TypeHitView| h.type_id == type_id).len()
    }

    /// The registry after a relation type became canonical.
    pub open spec fn promoted(self, type_id: Uuid) -> RegistryView {
        RegistryView {
            relation_types: self.relation_types.map_values(
                |t: RelationTypeRowView|
                    if t.id == type_id {
                        RelationTypeRowView { status: RelationTypeStatus::Canonical, ..t }
                    } else {
                        t
                    },
            ),
            ..self
        }
    }

    /// The entity types with the numbers of their instances, ordered by name.
    pub open spec fn entity_type_list(self, graph: GraphView) -> Seq<EntityTypeView> {
        ranked(
            self.entity_types.map_values(|t: EntityTypeRowView| entity_type_record(t, graph)),
            |a: EntityTypeView, b: EntityTypeView| lex_lt(a.name, b.name),
        )
    }

    /// The relation types with the numbers of their instances, ordered by
    /// name.
    pub open spec fn relation_type_list(self, graph: GraphView) -> Seq<RelationTypeView> {
        ranked(
            self.relation_types.map_values(|t: RelationTypeRowView| relation_type_record(t, graph)),
            |a: RelationTypeView, b: RelationTypeView| lex_lt(a.name, b.name),
        )
    }
}

/// The row of one of the seeded relation types.
pub open spec fn seed_row(i: int, id: Uuid, at: Seq<char>) -> RelationTypeRowView {
    RelationTypeRowView {
        id,
        name: SEED_RELATION_TYPES@[i]@,
        description: "seeded canonical type: "@ + SEED_RELATION_TYPES@[i]@,
        status: RelationTypeStatus::Canonical,
        created_at: at,
    }
}

/// The number of entities of a type.
fn count_entities(graph: &InstanceGraph, type_id: Uuid) -> (r: u64)
    ensures
        r == graph@.entity_count(type_id),
{
    let ghost p = |e: EntityView| e.type_id == type_id;
    let mut n: u64 = 0;
    let mut i: usize = 0;
    proof {
        assert(graph@.entities.take(0).filter(p) =~= Seq::<EntityView>::empty());
    }
    while i < graph.entities.len()
        invariant
            i <= graph.entities.len(),
            n <= i,
            p == (|e: EntityView| e.type_id == type_id),
            n == graph@.entities.take(i as int).filter(p).len(),
        decreases graph.entities.len() - i,
    {
        proof {
            lemma_filter_next(graph@.entities, p, i as int);
        }
        if graph.entities[i].type_id == type_id {
            n += 1;
        }
        i += 1;
    }
    proof {
        assert(graph@.entities.take(graph@.entities.len() as int) =~= graph@.entities);
    }
    n
}

/// The number of relations of a type.
fn count_relations(graph: &InstanceGraph, type_id: Uuid) -> (r: u64)
    ensures
        r == graph@.relation_count(type_id),
{
    let ghost p = |e: RelationRecord| e.type_id == type_id;
    let mut n: u64 = 0;
    let mut i: usize = 0;
    proof {
        assert(graph@.relations.take(0).filter(p) =~= Seq::<RelationRecord>::empty());
    }
    while i < graph.relations.len()
        invariant
            i <= graph.relations.len(),
            n <= i,
            p == (|e: RelationRecord| e.type_id == type_id),
            n == graph@.relations.take(i as int).filter(p).len(),
        decreases graph.relations.len() - i,
    {
        proof {
            lemma_filter_next(graph@.relations, p, i as int);
        }
        if graph.relations[i].type_id == type_id {
            n += 1;
        }
        i += 1;
    }
    proof {
        assert(graph@.relations.take(graph@.relations.len() as int) =~= graph@.relations);
    }
    n
}

impl EntityTypeRow {
    /// The type with the number of its instances.
    fn record(&self, graph: &InstanceGraph) -> (r: EntityTypeRecord)
        ensures
            r@ == entity_type_record(self@, graph@),
    {
        EntityTypeRecord {
            id: self.id,
            name: self.name.clone(),
            description: self.description.clone(),
            instance_count: count_entities(graph, self.id),
        }
    }
}

impl RelationTypeRow {
    /// The type with the number of its instances.
    fn record(&self, graph: &InstanceGraph) -> (r: RelationTypeRecord)
        ensures
            r@ == relation_type_record(self@, graph@),
    {
        RelationTypeRecord {
            id: self.id,
            name: self.name.clone(),
            description: self.description.clone(),
            status: self.status,
            independent_hits: 0,
            instance_count: count_relations(graph, self.id),
        }
    }
}

impl TypeRegistry {
    /// A registry without types.
    pub fn new() -> (r: Self)
        ensures
            r@.entity_types.len() == 0,
            r@.relation_types.len() == 0,
            r@.hits.len() == 0,
            r@.valid(),
    {
        TypeRegistry { entity_types: Vec::new(), relation_types: Vec::new(), hits: Vec::new() }
    }

    /// Adds a row for an entity type, unless its id or name is taken.
    fn add_entity_type(&mut self, row: EntityTypeRow)
        ensures
            final(self)@ == old(self)@.adding_entity_type(row@),
    {
        let mut i: usize = 0;
        while i < self.entity_types.len()
            invariant
                i <= self.entity_types@.len(),
                *self == *old(self),
                forall|j: int|
                    0 <= j < i ==> (#[trigger] self@.entity_types[j]).id != row.id
                        && self@.entity_types[j].name != row.name@,
            decreases self.entity_types@.len() - i,
        {
            proof {
                assert(self@.entity_types[i as int] == self.entity_types@[i as int]@);
            }
            if self.entity_types[i].id == row.id || same_text(
                self.entity_types[i].name.as_str(),
                row.name.as_str(),
            ) {
                proof {
                    assert(self@.has_entity_type(row@));
                }
                return ;
            }
            i += 1;
        }
        let ghost before = self.entity_types@;
        let ghost added = row@;
        proof {
            assert(!self@.has_entity_type(row@));
        }
        self.entity_types.push(row);
        proof {
            assert(views(self.entity_types@) =~= views(before).push(added));
        }
    }

    /// Adds a row for a relation type, unless its id or name is taken.
    fn add_relation_type(&mut self, row: RelationTypeRow)
        ensures
            final(self)@ == old(self)@.adding_relation_type(row@),
    {
        let mut i: usize = 0;
        while i < self.relation_types.len()
            invariant
                i <= self.relation_types@.len(),
                *self == *old(self),
                forall|j: int|
                    0 <= j < i ==> (#[trigger] self@.relation_types[j]).id != row.id
                        && self@.relation_types[j].name != row.name@,
            decreases self.relation_types@.len() - i,
        {
            proof {
                assert(self@.relation_types[i as int] == self.relation_types@[i as int]@);
            }
            if self.relation_types[i].id == row.id || same_text(
                self.relation_types[i].name.as_str(),
                row.name.as_str(),
            ) {
                proof {
                    assert(self@.has_relation_type(row@));
                }
                return ;
            }
            i += 1;
        }
        let ghost before = self.relation_types@;
        let ghost added = row@;
        proof {
            assert(!self@.has_relation_type(row@));
        }
        self.relation_types.push(row);
        proof {
            assert(views(self.relation_types@) =~= views(before).push(added));
        }
    }

    /// The entity type of this name.
    pub fn find_entity_type(&self, graph: &InstanceGraph, name: &str) -> (r: Option<EntityTypeRecord>)
        ensures
            opt_view(r) == (match self@.entity_type(name@) {
                Some(row) => Some(entity_type_record(row, graph@)),
                None => None,
            }),
    {
        let ghost p = |t: EntityTypeRowView| t.name == name@;
        let mut i: usize = 0;
        while i < self.entity_types.len()
            invariant
                i <= self.entity_types@.len(),
                p == (|t: EntityTypeRowView| t.name == name@),
                forall|j: int| 0 <= j < i ==> !p(#[trigger] self@.entity_types[j]),
            decreases self.entity_types@.len() - i,
        {
            proof {
                assert(self@.entity_types[i as int] == self.entity_types@[i as int]@);
            }
            if same_text(self.entity_types[i].name.as_str(), name) {
                proof {
                    lemma_first_match_at(self@.entity_types, p, i as int);
                }
                return Some(self.entity_types[i].record(graph));
            }
            i += 1;
        }
        proof {
            lemma_first_match(self@.entity_types, p);
        }
        None
    }

    /// The relation type of this name.
    pub fn find_relation_type(&self, graph: &InstanceGraph, name: &str) -> (r: Option<
        RelationTypeRecord,
    >)
        ensures
            opt_view(r) == (match self@.relation_type(name@) {
                Some(row) => Some(relation_type_record(row, graph@)),
                None => None,
            }),
    {
        let ghost p = |t: RelationTypeRowView| t.name == name@;
        let mut i: usize = 0;
        while i < self.relation_types.len()
            invariant
                i <= self.relation_types@.len(),
                p == (|t: RelationTypeRowView| t.name == name@),
                forall|j: int| 0 <= j < i ==> !p(#[trigger] self@.relation_types[j]),
            decreases self.relation_types@.len() - i,
        {
            proof {
                assert(self@.relation_types[i as int] == self.relation_types@[i as int]@);
            }
            if same_text(self.relation_types[i].name.as_str(), name) {
                proof {
                    lemma_first_match_at(self@.relation_types, p, i as int);
                }
                return Some(self.relation_types[i].record(graph));
            }
            i += 1;
        }
        proof {
            lemma_first_match(self@.relation_types, p);
        }
        None
    }

    /// Looks for the entity type of this name, and makes it where there is
    /// none, with the id `fresh`.
    pub fn find_or_create_entity_type_as(
        &mut self,
        graph: &InstanceGraph,
        name: &str,
        description: &str,
        fresh: Uuid,
        at: &str,
    ) -> (r: Result<EntityTypeRecord, OntologyError>)
        ensures
            (final(self)@, result_view(r)) == old(self)@.with_entity_type(
                graph@,
                name@,
                description@,
                fresh,
                at@,
            ),
    {
        let row = EntityTypeRow {
            id: fresh,
            name: name.to_owned(),
            description: description.to_owned(),
            created_at: at.to_owned(),
        };
        self.add_entity_type(row);
        match self.find_entity_type(graph, name) {
            Some(record) => Ok(record),
            None => Err(OntologyError::IdTaken(fresh)),
        }
    }

    /// Looks for the entity type of this name, and makes it where there is
    /// none, with a fresh random id and the present time. Entity types are not
    /// promoted: the first mention makes one.
    pub fn find_or_create_entity_type(
        &mut self,
        graph: &InstanceGraph,
        name: &str,
        description: &str,
    ) -> (r: Result<EntityTypeRecord, OntologyError>)
        ensures
            exists|fresh: Uuid, at: Seq<char>|
                is_random_uuid(fresh) && is_timestamp(at) && (final(self)@, result_view(r)) == (
                #[trigger] old(self)@.with_entity_type(graph@, name@, description@, fresh, at)),
    {
        let fresh: Uuid = Uuid::new_v4();
        let at: String = now();
        self.find_or_create_entity_type_as(graph, name, description, fresh, at.as_str())
    }

    /// Adds the seeded relation types that are missing, the `i`-th with the id
    /// `ids[i]`.
    pub fn seed_canonical_vocabulary_as(&mut self, ids: &Vec<Uuid>, at: &str)
        requires
            ids@.len() >= 8,
        ensures
            final(self)@ == old(self)@.seeded(ids@, at@, 8),
    {
        let mut i: usize = 0;
        while i < 8
            invariant
                i <= 8,
                ids@.len() >= 8,
                self@ == old(self)@.seeded(ids@, at@, i as nat),
            decreases 8 - i,
        {
            let name: &'static str = SEED_RELATION_TYPES[i];
            let mut description: String = "seeded canonical type: ".to_owned();
            description.append(name);
            let row = RelationTypeRow {
                id: ids[i],
                name: name.to_owned(),
                description,
                status: RelationTypeStatus::Canonical,
                created_at: at.to_owned(),
            };
            proof {
                assert(row@ == seed_row(i as int, ids@[i as int], at@));
            }
            self.add_relation_type(row);
            i += 1;
        }
    }

    /// Adds the seeded relation types that are missing, with fresh random ids
    /// and the present time.
    pub fn seed_canonical_vocabulary(&mut self)
        ensures
            exists|ids: Seq<Uuid>, at: Seq<char>|
                ids.len() == 8 && is_timestamp(at) && (forall|i: int|
                    0 <= i < 8 ==> is_random_uuid(#[trigger] ids[i])) && final(self)@
                    == #[trigger] old(self)@.seeded(ids, at, 8),
    {
        let ids: Vec<Uuid> = crate::ids::fresh_ids(8);
        let at: String = now();
        self.seed_canonical_vocabulary_as(&ids, at.as_str());
    }

    /// Looks for the relation type of this name, and makes it a candidate
    /// where there is none, with the id `fresh`.
    pub fn register_candidate_type_as(
        &mut self,
        graph: &InstanceGraph,
        name: &str,
        description: &str,
        fresh: Uuid,
        at: &str,
    ) -> (r: Result<RelationTypeRecord, OntologyError>)
        ensures
            (final(self)@, result_view(r)) == old(self)@.with_candidate(
                graph@,
                name@,
                description@,
                fresh,
                at@,
            ),
    {
        let row = RelationTypeRow {
            id: fresh,
            name: name.to_owned(),
            description: description.to_owned(),
            status: RelationTypeStatus::Candidate,
            created_at: at.to_owned(),
        };
        self.add_relation_type(row);
        match self.find_relation_type(graph, name) {
            Some(record) => Ok(record),
            None => Err(OntologyError::IdTaken(fresh)),
        }
    }

    /// Looks for the relation type of this name, and makes it a candidate
    /// where there is none, with a fresh random id and the present time.
    pub fn register_candidate_type(
        &mut self,
        graph: &InstanceGraph,
        name: &str,
        description: &str,
    ) -> (r: Result<RelationTypeRecord, OntologyError>)
        ensures
            exists|fresh: Uuid, at: Seq<char>|
                is_random_uuid(fresh) && is_timestamp(at) && (final(self)@, result_view(r)) == (
                #[trigger] old(self)@.with_candidate(graph@, name@, description@, fresh, at)),
    {
        let fresh: Uuid = Uuid::new_v4();
        let at: String = now();
        self.register_candidate_type_as(graph, name, description, fresh, at.as_str())
    }

    /// Records that a relation type was seen in a file, which counts once
    /// however often it was seen there; and counts the files.
    pub fn record_independent_hit(&mut self, type_id: Uuid, file_path: &str) -> (r: u32)
        ensures
            final(self)@ == old(self)@.with_hit(type_id, file_path@),
            r == final(self)@.hit_count(type_id) % 0x1_0000_0000,
    {
        let ghost hit = TypeHitView { type_id, file_path: file_path@ };
        let mut known: bool = false;
        let mut i: usize = 0;
        while i < self.hits.len()
            invariant
                i <= self.hits@.len(),
                *self == *old(self),
                hit == (TypeHitView { type_id, file_path: file_path@ }),
                known == self@.hits.take(i as int).contains(hit),
            decreases self.hits@.len() - i,
        {
            let ghost was_known = known;
            if self.hits[i].type_id == type_id && same_text(self.hits[i].file_path.as_str(), file_path) {
                known = true;
            }
            proof {
                let s = self@.hits;
                assert(s[i as int] == self.hits@[i as int]@);
                assert(s.take(i + 1) =~= s.take(i as int).push(s[i as int]));
                if was_known {
                    let k = choose|k: int| 0 <= k < i && s.take(i as int)[k] == hit;
                    assert(s.take(i + 1)[k] == hit);
                }
                if known && !was_known {
                    assert(s.take(i + 1)[i as int] == hit);
                }
                if s.take(i + 1).contains(hit) {
                    let t = s.take(i + 1);
                    let k = choose|k: int| 0 <= k < t.len() && t[k] == hit;
                    if k < i {
                        assert(s.take(i as int)[k] == hit);
                    }
                }
            }
            i += 1;
        }
        proof {
            assert(self@.hits.take(self@.hits.len() as int) =~= self@.hits);
        }
        if !known {
            let ghost before = self.hits@;
            self.hits.push(TypeHit { type_id, file_path: file_path.to_owned() });
            proof {
                assert(views(self.hits@) =~= views(before).push(hit));
            }
        }
        self.count_hits(type_id)
    }

    /// The number of files that a relation type was seen in.
    pub fn count_hits(&self, type_id: Uuid) -> (r: u32)
        ensures
            r == self@.hit_count(type_id) % 0x1_0000_0000,
    {
        let ghost p = |h: TypeHitView| h.type_id == type_id;
        let mut n: u64 = 0;
        let mut i: usize = 0;
        proof {
            assert(self@.hits.take(0).filter(p) =~= Seq::<TypeHitView>::empty());
        }
        while i < self.hits.len()
            invariant
                i <= self.hits.len(),
                n <= i,
                p == (|h: TypeHitView| h.type_id == type_id),
                n == self@.hits.take(i as int).filter(p).len(),
            decreases self.hits.len() - i,
        {
            proof {
                lemma_filter_next(self@.hits, p, i as int);
            }
            if self.hits[i].type_id == type_id {
                n += 1;
            }
            i += 1;
        }
        proof {
            assert(self@.hits.take(self@.hits.len() as int) =~= self@.hits);
        }
        (n % 0x1_0000_0000) as u32
    }

    /// Makes a relation type canonical.
    pub fn promote_to_canonical(&mut self, type_id: Uuid)
        ensures
            final(self)@ == old(self)@.promoted(type_id),
    {
        let ghost start = self@;
        let ghost target = start.promoted(type_id).relation_types;
        let mut i: usize = 0;
        while i < self.relation_types.len()
            invariant
                i <= self.relation_types@.len(),
                self@.relation_types.len() == start.relation_types.len(),
                target == start.promoted(type_id).relation_types,
                self@.entity_types == start.entity_types,
                self@.hits == start.hits,
                forall|j: int| 0 <= j < i ==> #[trigger] self@.relation_types[j] == target[j],
                forall|j: int|
                    i <= j < self@.relation_types.len() ==> #[trigger] self@.relation_types[j]
                        == start.relation_types[j],
            decreases self.relation_types@.len() - i,
        {
            let ghost before = self.relation_types@;
            proof {
                assert(self@.relation_types[i as int] == start.relation_types[i as int]);
            }
            if self.relation_types[i].id == type_id {
                self.relation_types[i].status = RelationTypeStatus::Canonical;
            }
            proof {
                assert(self@.relation_types[i as int] == target[i as int]);
                assert forall|j: int| 0 <= j < self@.relation_types.len() && j != i implies
                    #[trigger] self@.relation_types[j] == views(before)[j] by {
                    assert(self.relation_types@[j] == before[j]);
                }
            }
            i += 1;
        }
        proof {
            assert(self@.relation_types =~= target);
            assert(self@ =~= start.promoted(type_id));
        }
    }

    /// The entity types with the numbers of their instances, ordered by name.
    pub fn list_entity_types(&self, graph: &InstanceGraph) -> (r: Vec<EntityTypeRecord>)
        ensures
            views(r@) == self@.entity_type_list(graph@),
    {
        let ghost all = self@.entity_types.map_values(
            |t: EntityTypeRowView| entity_type_record(t, graph@),
        );
        let ghost before = |a: EntityTypeView, b: EntityTypeView| lex_lt(a.name, b.name);
        let mut r: Vec<EntityTypeRecord> = Vec::new();
        let mut i: usize = 0;
        proof {
            assert(views(r@) =~= all.take(0));
        }
        while i < self.entity_types.len()
            invariant
                i <= self.entity_types@.len(),
                all == self@.entity_types.map_values(
                    |t: EntityTypeRowView| entity_type_record(t, graph@),
                ),
                before == (|a: EntityTypeView, b: EntityTypeView| lex_lt(a.name, b.name)),
                views(r@) == ranked(all.take(i as int), before),
            decreases self.entity_types@.len() - i,
        {
            let record: EntityTypeRecord = self.entity_types[i].record(graph);
            proof {
                assert(all[i as int] == record@);
                assert(all.take(i + 1).drop_last() =~= all.take(i as int));
                assert((|a: EntityTypeView, b: EntityTypeView|
                    <EntityTypeRecord as crate::order::Ranked>::before(a, b)) =~= before);
            }
            insert_ranked(&mut r, record);
            i += 1;
        }
        proof {
            assert(all.take(all.len() as int) =~= all);
        }
        r
    }

    /// The relation types with the numbers of their instances, ordered by
    /// name.
    pub fn list_relation_types(&self, graph: &InstanceGraph) -> (r: Vec<RelationTypeRecord>)
        ensures
            views(r@) == self@.relation_type_list(graph@),
    {
        let ghost all = self@.relation_types.map_values(
            |t: RelationTypeRowView| relation_type_record(t, graph@),
        );
        let ghost before = |a: RelationTypeView, b: RelationTypeView| lex_lt(a.name, b.name);
        let mut r: Vec<RelationTypeRecord> = Vec::new();
        let mut i: usize = 0;
        proof {
            assert(views(r@) =~= all.take(0));
        }
        while i < self.relation_types.len()
            invariant
                i <= self.relation_types@.len(),
                all == self@.relation_types.map_values(
                    |t: RelationTypeRowView| relation_type_record(t, graph@),
                ),
                before == (|a: RelationTypeView, b: RelationTypeView| lex_lt(a.name, b.name)),
                views(r@) == ranked(all.take(i as int), before),
            decreases self.relation_types@.len() - i,
        {
            let record: RelationTypeRecord = self.relation_types[i].record(graph);
            proof {
                assert(all[i as int] == record@);
                assert(all.take(i + 1).drop_last() =~= all.take(i as int));
                assert((|a: RelationTypeView, b: RelationTypeView|
                    <RelationTypeRecord as crate::order::Ranked>::before(a, b)) =~= before);
            }
            insert_ranked(&mut r, record);
            i += 1;
        }
        proof {
            assert(all.take(all.len() as int) =~= all);
        }
        r
    }
}

} // verus!
