//! The tools that agents call: what each answers, and what it answers where it
//! cannot.

use vstd::prelude::*;
use crate::graph::{are_related, is_shortest_path, name_matches, GraphView, InstanceGraph};
use crate::graph_laws::law_matching_in_order;
use crate::ids::{law_uuid_round_trip, parsed_uuid, uuid_text, Uuid};
use crate::offsets::byte_len;
use crate::reach::within;
use crate::records::{
    EntityRecord, EntityTypeRecord, EntityTypeView, EntityView, RelationRecord, RelationTypeRecord,
    RelationTypeView,
};
use crate::registry::{status_to_str, status_word, TypeRegistry};
use crate::scores::Score;
use crate::search::{ScoredChunk, ScoredChunkView};
use crate::text::{chars_of, fold, folded, is_letter_or_number, occurs_at, same_text};
use crate::views::{
    first_match, lemma_filter_next, lemma_first_match, lemma_first_match_at, opt_view, views,
};
use crate::words::{decimal, decimal_text, split_whitespace, words_of};

verus! {

/// Input of `search_hybrid`.
#[derive(Debug)]
pub struct SearchHybridInput {
    pub query: String,
    pub top_k: Option<u32>,
}

/// A chunk that was found.
#[derive(Debug)]
pub struct ScoredChunkDto {
    pub chunk_id: String,
    pub file_path: String,
    pub content: String,
    pub score: Score,
}

/// What a [`ScoredChunkDto`] holds.
pub struct ScoredChunkDtoView {
    pub chunk_id: Seq<char>,
    pub file_path: Seq<char>,
    pub content: Seq<char>,
    pub score: Score,
}

impl View for ScoredChunkDto {
    type V = ScoredChunkDtoView;

    open spec fn view(&self) -> ScoredChunkDtoView {
        ScoredChunkDtoView {
            chunk_id: self.chunk_id@,
            file_path: self.file_path@,
            content: self.content@,
            score: self.score,
        }
    }
}

/// Output of `search_hybrid`.
#[derive(Debug)]
pub struct SearchHybridOutput {
    pub chunks: Vec<ScoredChunkDto>,
}

/// Input of `query_by_concept`.
#[derive(Debug)]
pub struct QueryByConceptInput {
    pub concept: String,
}

/// An entity.
#[derive(Debug)]
pub struct EntityDto {
    pub id: String,
    pub canonical_name: String,
    pub type_id: String,
}

/// What an [`EntityDto`] holds.
pub struct EntityDtoView {
    pub id: Seq<char>,
    pub canonical_name: Seq<char>,
    pub type_id: Seq<char>,
}

impl View for EntityDto {
    type V = EntityDtoView;

    open spec fn view(&self) -> EntityDtoView {
        EntityDtoView {
            id: self.id@,
            canonical_name: self.canonical_name@,
            type_id: self.type_id@,
        }
    }
}

/// A relation.
#[derive(Debug)]
pub struct RelationDto {
    pub type_id: String,
    pub source_entity_id: String,
    pub target_entity_id: String,
    pub evidence_chunk_id: String,
}

/// What a [`RelationDto`] holds.
pub struct RelationDtoView {
    pub type_id: Seq<char>,
    pub source_entity_id: Seq<char>,
    pub target_entity_id: Seq<char>,
    pub evidence_chunk_id: Seq<char>,
}

impl View for RelationDto {
    type V = RelationDtoView;

    open spec fn view(&self) -> RelationDtoView {
        RelationDtoView {
            type_id: self.type_id@,
            source_entity_id: self.source_entity_id@,
            target_entity_id: self.target_entity_id@,
            evidence_chunk_id: self.evidence_chunk_id@,
        }
    }
}

/// Output of `query_by_concept`.
#[derive(Debug)]
pub struct QueryByConceptOutput {
    pub entity: EntityDto,
    pub direct_relations: Vec<RelationDto>,
}

/// Input of `get_related_entities`.
#[derive(Debug)]
pub struct GetRelatedEntitiesInput {
    pub entity_id: String,
    pub depth: Option<u32>,
}

/// A part of the graph.
#[derive(Debug)]
pub struct SubgraphDto {
    pub entities: Vec<EntityDto>,
}

/// Output of `get_related_entities`.
#[derive(Debug)]
pub struct GetRelatedEntitiesOutput {
    pub subgraph: SubgraphDto,
}

/// An entity type.
#[derive(Debug)]
pub struct EntityTypeDto {
    pub name: String,
    pub instance_count: u64,
}

/// What an [`EntityTypeDto`] holds.
pub struct EntityTypeDtoView {
    pub name: Seq<char>,
    pub instance_count: nat,
}

impl View for EntityTypeDto {
    type V = EntityTypeDtoView;

    open spec fn view(&self) -> EntityTypeDtoView {
        EntityTypeDtoView { name: self.name@, instance_count: self.instance_count as nat }
    }
}

/// A relation type.
#[derive(Debug)]
pub struct RelationTypeDto {
    pub name: String,
    pub status: String,
    pub instance_count: u64,
}

/// What a [`RelationTypeDto`] holds.
pub struct RelationTypeDtoView {
    pub name: Seq<char>,
    pub status: Seq<char>,
    pub instance_count: nat,
}

impl View for RelationTypeDto {
    type V = RelationTypeDtoView;

    open spec fn view(&self) -> RelationTypeDtoView {
        RelationTypeDtoView {
            name: self.name@,
            status: self.status@,
            instance_count: self.instance_count as nat,
        }
    }
}

/// Output of `get_ontology_schema`.
#[derive(Debug)]
pub struct GetOntologySchemaOutput {
    pub entity_types: Vec<EntityTypeDto>,
    pub relation_types: Vec<RelationTypeDto>,
}

/// Input of `explain_relation`.
#[derive(Debug)]
pub struct ExplainRelationInput {
    pub entity_id_a: String,
    pub entity_id_b: String,
}

/// A relation on a path.
#[derive(Debug)]
pub struct PathStepDto {
    pub type_id: String,
    pub from: String,
    pub to: String,
    pub evidence_chunk_id: String,
}

/// What a [`PathStepDto`] holds.
pub struct PathStepDtoView {
    pub type_id: Seq<char>,
    pub from: Seq<char>,
    pub to: Seq<char>,
    pub evidence_chunk_id: Seq<char>,
}

impl View for PathStepDto {
    type V = PathStepDtoView;

    open spec fn view(&self) -> PathStepDtoView {
        PathStepDtoView {
            type_id: self.type_id@,
            from: self.from@,
            to: self.to@,
            evidence_chunk_id: self.evidence_chunk_id@,
        }
    }
}

/// Output of `explain_relation`.
#[derive(Debug)]
pub struct ExplainRelationOutput {
    pub path: Vec<PathStepDto>,
}

/// Input of `query_ontological`.
#[derive(Debug)]
pub struct QueryOntologicalInput {
    pub question: String,
}

/// A chunk that backs an answer.
#[derive(Debug)]
pub struct EvidenceDto {
    pub chunk_id: String,
    pub excerpt: String,
}

/// What an [`EvidenceDto`] holds.
pub struct EvidenceDtoView {
    pub chunk_id: Seq<char>,
    pub excerpt: Seq<char>,
}

impl View for EvidenceDto {
    type V = EvidenceDtoView;

    open spec fn view(&self) -> EvidenceDtoView {
        EvidenceDtoView { chunk_id: self.chunk_id@, excerpt: self.excerpt@ }
    }
}

/// Output of `query_ontological`.
#[derive(Debug)]
pub struct QueryOntologicalOutput {
    pub mode: String,
    pub answer: String,
    pub evidence: Vec<EvidenceDto>,
}

/// What a [`QueryOntologicalOutput`] holds.
#[verifier::ext_equal]
pub struct OntologicalAnswerView {
    pub mode: Seq<char>,
    pub answer: Seq<char>,
    pub evidence: Seq<EvidenceDtoView>,
}

impl View for QueryOntologicalOutput {
    type V = OntologicalAnswerView;

    open spec fn view(&self) -> OntologicalAnswerView {
        OntologicalAnswerView {
            mode: self.mode@,
            answer: self.answer@,
            evidence: views(self.evidence@),
        }
    }
}

/// An entity as agents see it.
pub open spec fn entity_dto(e: EntityView) -> EntityDtoView {
    EntityDtoView {
        id: uuid_text(e.id),
        canonical_name: e.canonical_name,
        type_id: uuid_text(e.type_id),
    }
}

/// A relation as agents see it.
pub open spec fn relation_dto(r: RelationRecord) -> RelationDtoView {
    RelationDtoView {
        type_id: uuid_text(r.type_id),
        source_entity_id: uuid_text(r.source_entity_id),
        target_entity_id: uuid_text(r.target_entity_id),
        evidence_chunk_id: uuid_text(r.evidence_chunk_id),
    }
}

/// A relation on a path as agents see it.
pub open spec fn path_step_dto(r: RelationRecord) -> PathStepDtoView {
    PathStepDtoView {
        type_id: uuid_text(r.type_id),
        from: uuid_text(r.source_entity_id),
        to: uuid_text(r.target_entity_id),
        evidence_chunk_id: uuid_text(r.evidence_chunk_id),
    }
}

fn to_entity_dto(e: &EntityRecord) -> (r: EntityDto)
    ensures
        r@ == entity_dto(e@),
{
    EntityDto {
        id: e.id.to_text(),
        canonical_name: e.canonical_name.clone(),
        type_id: e.type_id.to_text(),
    }
}

/// The number of chunks that `search_hybrid` returns at most.
pub fn requested_chunks(input: &SearchHybridInput) -> (r: u32)
    ensures
        r == (match input.top_k {
            Some(k) => k,
            None => 10,
        }),
{
    match input.top_k {
        Some(k) => k,
        None => 10,
    }
}

/// A chunk that was found, as agents see it.
pub open spec fn scored_chunk_dto(c: ScoredChunkView) -> ScoredChunkDtoView {
    ScoredChunkDtoView {
        chunk_id: uuid_text(c.chunk.id),
        file_path: c.chunk.file_path,
        content: c.chunk.content,
        score: c.score,
    }
}

/// What `search_hybrid` answers with these chunks.
pub fn search_output(chunks: &Vec<ScoredChunk>) -> (r: SearchHybridOutput)
    ensures
        views(r.chunks@) == views(chunks@).map_values(|c: ScoredChunkView| scored_chunk_dto(c)),
{
    let ghost target = views(chunks@).map_values(|c: ScoredChunkView| scored_chunk_dto(c));
    let mut dtos: Vec<ScoredChunkDto> = Vec::new();
    let mut i: usize = 0;
    while i < chunks.len()
        invariant
            i <= chunks@.len(),
            target == views(chunks@).map_values(|c: ScoredChunkView| scored_chunk_dto(c)),
            views(dtos@) =~= target.take(i as int),
        decreases chunks@.len() - i,
    {
        let c: &ScoredChunk = &chunks[i];
        let dto = ScoredChunkDto {
            chunk_id: c.chunk.id.to_text(),
            file_path: c.chunk.file_path.clone(),
            content: c.chunk.content.clone(),
            score: c.score,
        };
        let ghost before = dtos@;
        let ghost v = dto@;
        dtos.push(dto);
        proof {
            assert(views(chunks@)[i as int] == chunks@[i as int]@);
            assert(v == target[i as int]);
            assert(views(dtos@) =~= views(before).push(v));
        }
        i += 1;
    }
    proof {
        assert(target.take(i as int) =~= target);
    }
    SearchHybridOutput { chunks: dtos }
}

/// The answer where no entity matches a concept.
pub open spec fn concept_not_found(concept: Seq<char>) -> Seq<char> {
    "ONTOLOGIA.CONCEITO_NAO_ENCONTRADO: nenhuma entidade casa com '"@ + concept + "'"@
}

/// The entity that a concept names, and its direct relations.
pub fn query_by_concept(instances: &InstanceGraph, input: &QueryByConceptInput) -> (r: Result<
    QueryByConceptOutput,
    String,
>)
    ensures
        ({
            let found = instances@.matching(input.concept@);
            match r {
                Ok(o) => found.len() > 0 && o.entity@ == entity_dto(found[0]) && views(
                    o.direct_relations@,
                ) == instances@.touching(found[0].id).map_values(|r: RelationRecord| relation_dto(r)),
                Err(m) => found.len() == 0 && m@ == concept_not_found(input.concept@),
            }
        }),
{
    let found: Vec<EntityRecord> = instances.find_entities_by_name(input.concept.as_str());
    if found.len() == 0 {
        let mut m: String =
            "ONTOLOGIA.CONCEITO_NAO_ENCONTRADO: nenhuma entidade casa com '".to_owned();
        m.append(input.concept.as_str());
        m.append("'");
        proof {
            assert(instances@.matching(input.concept@).len() == 0);
        }
        return Err(m);
    }
    proof {
        assert(instances@.matching(input.concept@)[0] == found@[0]@);
    }
    let entity: EntityDto = to_entity_dto(&found[0]);
    let relations: Vec<RelationRecord> = instances.direct_relations(found[0].id);
    let ghost target = relations@.map_values(|r: RelationRecord| relation_dto(r));
    let mut direct_relations: Vec<RelationDto> = Vec::new();
    let mut i: usize = 0;
    while i < relations.len()
        invariant
            i <= relations@.len(),
            target == relations@.map_values(|r: RelationRecord| relation_dto(r)),
            views(direct_relations@) =~= target.take(i as int),
        decreases relations@.len() - i,
    {
        let rel: RelationRecord = relations[i];
        let dto = RelationDto {
            type_id: rel.type_id.to_text(),
            source_entity_id: rel.source_entity_id.to_text(),
            target_entity_id: rel.target_entity_id.to_text(),
            evidence_chunk_id: rel.evidence_chunk_id.to_text(),
        };
        let ghost before = direct_relations@;
        let ghost v = dto@;
        direct_relations.push(dto);
        proof {
            assert(v == target[i as int]);
            assert(views(direct_relations@) =~= views(before).push(v));
        }
        i += 1;
    }
    proof {
        assert(target.take(i as int) =~= target);
    }
    Ok(QueryByConceptOutput { entity, direct_relations })
}

/// The answer where a text writes no identifier.
pub open spec fn invalid_entity_id(text: Seq<char>) -> Seq<char> {
    "invalid entity id: "@ + text
}

fn parse_entity_id(text: &str) -> (r: Result<Uuid, String>)
    ensures
        match r {
            Ok(id) => parsed_uuid(text@) == Some(id.bits as nat),
            Err(m) => parsed_uuid(text@) is None && m@ == invalid_entity_id(text@),
        },
{
    match Uuid::parse_str(text) {
        Some(id) => Ok(id),
        None => {
            let mut m: String = "invalid entity id: ".to_owned();
            m.append(text);
            Err(m)
        },
    }
}

/// The depth of a local subgraph.
pub open spec fn requested_depth(depth: Option<u32>) -> u32 {
    match depth {
        Some(d) => d,
        None => 1,
    }
}

/// The local subgraph around an entity; empty where nothing is related to it,
/// or it is not there.
pub fn get_related_entities(instances: &InstanceGraph, input: &GetRelatedEntitiesInput) -> (r: Result<
    GetRelatedEntitiesOutput,
    String,
>)
    ensures
        match parsed_uuid(input.entity_id@) {
            None => r is Err && r->Err_0@ == invalid_entity_id(input.entity_id@),
            Some(bits) => r is Ok && exists|related: Seq<EntityView>|
                #[trigger] are_related(
                    instances@,
                    Uuid { bits: bits as u128 },
                    requested_depth(input.depth),
                    related,
                ) && views(r->Ok_0.subgraph.entities@) == related.map_values(
                    |e: EntityView| entity_dto(e),
                ),
        },
{
    let id: Uuid = match parse_entity_id(input.entity_id.as_str()) {
        Ok(id) => id,
        Err(m) => {
            return Err(m);
        },
    };
    let depth: u32 = match input.depth {
        Some(d) => d,
        None => 1,
    };
    let related: Vec<EntityRecord> = instances.related_entities(id, depth);
    let ghost target = views(related@).map_values(|e: EntityView| entity_dto(e));
    let mut entities: Vec<EntityDto> = Vec::new();
    let mut i: usize = 0;
    while i < related.len()
        invariant
            i <= related@.len(),
            target == views(related@).map_values(|e: EntityView| entity_dto(e)),
            views(entities@) =~= target.take(i as int),
        decreases related@.len() - i,
    {
        let dto: EntityDto = to_entity_dto(&related[i]);
        let ghost before = entities@;
        let ghost v = dto@;
        entities.push(dto);
        proof {
            assert(views(related@)[i as int] == related@[i as int]@);
            assert(v == target[i as int]);
            assert(views(entities@) =~= views(before).push(v));
        }
        i += 1;
    }
    proof {
        assert(target.take(i as int) =~= target);
        assert(Uuid { bits: id.bits } == id);
        assert(depth == requested_depth(input.depth));
        assert(views(entities@) == target);
        let bits = parsed_uuid(input.entity_id@)->0;
        assert(Uuid { bits: bits as u128 } == id);
        assert(are_related(
            instances@,
            Uuid { bits: bits as u128 },
            requested_depth(input.depth),
            views(related@),
        ));
    }
    Ok(GetRelatedEntitiesOutput { subgraph: SubgraphDto { entities } })
}

/// An entity type as agents see it.
pub open spec fn entity_type_dto(t: EntityTypeView) -> EntityTypeDtoView {
    EntityTypeDtoView { name: t.name, instance_count: t.instance_count }
}

/// A relation type as agents see it.
pub open spec fn relation_type_dto(t: RelationTypeView) -> RelationTypeDtoView {
    RelationTypeDtoView {
        name: t.name,
        status: status_word(t.status),
        instance_count: t.instance_count,
    }
}

/// The types of a project, with the numbers of their instances.
pub fn get_ontology_schema(types: &TypeRegistry, instances: &InstanceGraph) -> (r: GetOntologySchemaOutput)
    ensures
        views(r.entity_types@) == types@.entity_type_list(instances@).map_values(
            |t: EntityTypeView| entity_type_dto(t),
        ),
        views(r.relation_types@) == types@.relation_type_list(instances@).map_values(
            |t: RelationTypeView| relation_type_dto(t),
        ),
{
    let entities: Vec<EntityTypeRecord> = types.list_entity_types(instances);
    let ghost entity_target = views(entities@).map_values(|t: EntityTypeView| entity_type_dto(t));
    let mut entity_types: Vec<EntityTypeDto> = Vec::new();
    let mut i: usize = 0;
    while i < entities.len()
        invariant
            i <= entities@.len(),
            entity_target == views(entities@).map_values(|t: EntityTypeView| entity_type_dto(t)),
            views(entity_types@) =~= entity_target.take(i as int),
        decreases entities@.len() - i,
    {
        let dto = EntityTypeDto {
            name: entities[i].name.clone(),
            instance_count: entities[i].instance_count,
        };
        let ghost before = entity_types@;
        let ghost v = dto@;
        entity_types.push(dto);
        proof {
            assert(views(entities@)[i as int] == entities@[i as int]@);
            assert(v == entity_target[i as int]);
            assert(views(entity_types@) =~= views(before).push(v));
        }
        i += 1;
    }
    let relations: Vec<RelationTypeRecord> = types.list_relation_types(instances);
    let ghost relation_target = views(relations@).map_values(
        |t: RelationTypeView| relation_type_dto(t),
    );
    let mut relation_types: Vec<RelationTypeDto> = Vec::new();
    let mut j: usize = 0;
    while j < relations.len()
        invariant
            j <= relations@.len(),
            relation_target == views(relations@).map_values(|t: RelationTypeView| relation_type_dto(t)),
            views(relation_types@) =~= relation_target.take(j as int),
        decreases relations@.len() - j,
    {
        let dto = RelationTypeDto {
            name: relations[j].name.clone(),
            status: status_to_str(relations[j].status).to_owned(),
            instance_count: relations[j].instance_count,
        };
        let ghost before = relation_types@;
        let ghost v = dto@;
        relation_types.push(dto);
        proof {
            assert(views(relations@)[j as int] == relations@[j as int]@);
            assert(v == relation_target[j as int]);
            assert(views(relation_types@) =~= views(before).push(v));
        }
        j += 1;
    }
    proof {
        assert(entity_target.take(i as int) =~= entity_target);
        assert(relation_target.take(j as int) =~= relation_target);
    }
    GetOntologySchemaOutput { entity_types, relation_types }
}

/// The longest path that `explain_relation` looks for.
pub const MAX_EXPLAINED_HOPS: u32 = 6;

/// A shortest path between two entities, with the evidence for each relation
/// on it.
pub fn explain_relation(instances: &InstanceGraph, input: &ExplainRelationInput) -> (r: Result<
    ExplainRelationOutput,
    String,
>)
    ensures
        match (parsed_uuid(input.entity_id_a@), parsed_uuid(input.entity_id_b@)) {
            (None, _) => r is Err && r->Err_0@ == invalid_entity_id(input.entity_id_a@),
            (Some(_), None) => r is Err && r->Err_0@ == invalid_entity_id(input.entity_id_b@),
            (Some(a), Some(b)) => {
                let from = Uuid { bits: a as u128 };
                let to = Uuid { bits: b as u128 };
                match r {
                    Ok(o) => exists|path: Seq<RelationRecord>|
                        #[trigger] is_shortest_path(instances@, from, to, MAX_EXPLAINED_HOPS, path)
                            && views(o.path@) == path.map_values(
                            |r: RelationRecord| path_step_dto(r),
                        ),
                    Err(m) => m@ == "ONTOLOGY.PATH_NOT_FOUND"@ && !within(
                        instances@.relations,
                        from,
                        to,
                        MAX_EXPLAINED_HOPS as nat,
                    ),
                }
            },
        },
{
    let a: Uuid = match parse_entity_id(input.entity_id_a.as_str()) {
        Ok(id) => id,
        Err(m) => {
            return Err(m);
        },
    };
    let b: Uuid = match parse_entity_id(input.entity_id_b.as_str()) {
        Ok(id) => id,
        Err(m) => {
            return Err(m);
        },
    };
    proof {
        assert(Uuid { bits: a.bits } == a);
        assert(Uuid { bits: b.bits } == b);
    }
    let found: Vec<RelationRecord> = match instances.find_path(a, b, MAX_EXPLAINED_HOPS) {
        Some(path) => path,
        None => {
            return Err("ONTOLOGY.PATH_NOT_FOUND".to_owned());
        },
    };
    let ghost target = found@.map_values(|r: RelationRecord| path_step_dto(r));
    let mut path: Vec<PathStepDto> = Vec::new();
    let mut i: usize = 0;
    while i < found.len()
        invariant
            i <= found@.len(),
            target == found@.map_values(|r: RelationRecord| path_step_dto(r)),
            views(path@) =~= target.take(i as int),
        decreases found@.len() - i,
    {
        let rel: RelationRecord = found[i];
        let dto = PathStepDto {
            type_id: rel.type_id.to_text(),
            from: rel.source_entity_id.to_text(),
            to: rel.target_entity_id.to_text(),
            evidence_chunk_id: rel.evidence_chunk_id.to_text(),
        };
        let ghost before = path@;
        let ghost v = dto@;
        path.push(dto);
        proof {
            assert(v == target[i as int]);
            assert(views(path@) =~= views(before).push(v));
        }
        i += 1;
    }
    proof {
        assert(target.take(i as int) =~= target);
        assert(views(path@) == target);
        let from = Uuid { bits: parsed_uuid(input.entity_id_a@)->0 as u128 };
        let to = Uuid { bits: parsed_uuid(input.entity_id_b@)->0 as u128 };
        assert(from == a && to == b);
        assert(is_shortest_path(instances@, from, to, MAX_EXPLAINED_HOPS, found@));
    }
    Ok(ExplainRelationOutput { path })
}

/// The similarity from which on a question is taken to be about a relation
/// type: 0.3.
pub open spec fn routing_threshold() -> Score {
    Score { bits: 0x3e99_999a }
}

/// The index of the highest of the first `n` scores; of equal ones, the first.
pub open spec fn best_of(scores: Seq<Score>, n: nat) -> int
    decreases n,
{
    if n <= 1 {
        0
    } else {
        let best = best_of(scores, (n - 1) as nat);
        if scores[best].lt(scores[n - 1]) {
            n - 1
        } else {
            best
        }
    }
}

fn find_best(scores: &Vec<Score>) -> (r: Option<usize>)
    ensures
        match r {
            Some(i) => i < scores@.len() && i as int == best_of(scores@, scores@.len()),
            None => scores@.len() == 0,
        },
{
    if scores.len() == 0 {
        return None;
    }
    let mut best: usize = 0;
    let mut i: usize = 1;
    while i < scores.len()
        invariant
            1 <= i <= scores@.len(),
            best < i,
            best as int == best_of(scores@, i as nat),
        decreases scores@.len() - i,
    {
        if scores[best].less(scores[i]) {
            best = i;
        }
        i += 1;
    }
    Some(best)
}

/// A character that can stand in the name of an entity.
pub open spec fn is_name_char(c: char) -> bool {
    is_letter_or_number(c) || c == '-' || c == '_'
}

/// The characters of a word that can stand in the name of an entity.
pub open spec fn cleaned(word: Seq<char>) -> Seq<char> {
    word.filter(|c: char| is_name_char(c))
}

/// The entity whose name has one of the first `n` words in it: the first match
/// of the first word that is at least three bytes long and has one.
pub open spec fn mentioned(g: GraphView, words: Seq<Seq<char>>, n: nat) -> Option<EntityView>
    decreases n,
{
    if n == 0 {
        None
    } else {
        match mentioned(g, words, (n - 1) as nat) {
            Some(e) => Some(e),
            None => {
                let name = cleaned(words[n - 1]);
                let found = g.matching(name);
                if byte_len(name) >= 3 && found.len() > 0 {
                    Some(found[0])
                } else {
                    None
                }
            },
        }
    }
}

/// The first entity whose name is `name`, but for case; nothing has no name.
pub open spec fn exactly_named(g: GraphView, name: Seq<char>) -> Option<EntityView> {
    if name.len() == 0 {
        None
    } else {
        first_match(
            g.matching(name),
            |e: EntityView| folded(e.canonical_name) == folded(name),
        )
    }
}

/// The entity that one of the first `n` words names: that of the first word
/// that is the name of one, but for case.
pub open spec fn named_in(g: GraphView, words: Seq<Seq<char>>, n: nat) -> Option<EntityView>
    decreases n,
{
    if n == 0 {
        None
    } else {
        match named_in(g, words, (n - 1) as nat) {
            Some(e) => Some(e),
            None => exactly_named(g, cleaned(words[n - 1])),
        }
    }
}

/// The entity that a question mentions: one that it names, or else one that
/// has a word of it in its name.
pub open spec fn mentioned_entity(g: GraphView, question: Seq<char>) -> Option<EntityView> {
    let words = words_of(question);
    match named_in(g, words, words.len()) {
        Some(e) => Some(e),
        None => mentioned(g, words, words.len()),
    }
}

fn clean(word: &str) -> (r: String)
    ensures
        r@ == cleaned(word@),
{
    let ghost p = |c: char| is_name_char(c);
    let mut r: String = String::new();
    proof {
        assert(r@ =~= word@.take(0).filter(p));
    }
    for c in it: word.chars()
        invariant
            it.seq() == word@,
            p == (|c: char| is_name_char(c)),
            r@ == word@.take(it.index() as int).filter(p),
    {
        proof {
            lemma_filter_next(word@, p, it.index() as int);
        }
        if c.is_alphanumeric() || c == '-' || c == '_' {
            r.push(c);
        }
    }
    proof {
        assert(word@.take(word@.len() as int) =~= word@);
    }
    r
}

/// The number of bytes of a text.
fn count_bytes(s: &str) -> (r: usize)
    ensures
        r == byte_len(s@),
{
    proof {
        crate::offsets::lemma_byte_len(s@);
    }
    s.as_bytes().len()
}

/// The first entity whose name is `name`, but for case.
fn find_exact(instances: &InstanceGraph, name: &str) -> (r: Option<EntityRecord>)
    ensures
        opt_view(r) == exactly_named(instances@, name@),
{
    if chars_of(name).len() == 0 {
        return None;
    }
    let found: Vec<EntityRecord> = instances.find_entities_by_name(name);
    let wanted: String = fold(name);
    let ghost all = instances@.matching(name@);
    let ghost p = |e: EntityView| folded(e.canonical_name) == folded(name@);
    let mut i: usize = 0;
    while i < found.len()
        invariant
            i <= found@.len(),
            views(found@) == all,
            wanted@ == folded(name@),
            p == (|e: EntityView| folded(e.canonical_name) == folded(name@)),
            forall|j: int| 0 <= j < i ==> !p(#[trigger] all[j]),
            all == instances@.matching(name@),
            name@.len() > 0,
        decreases found@.len() - i,
    {
        proof {
            assert(all[i as int] == found@[i as int]@);
        }
        let own: String = fold(found[i].canonical_name.as_str());
        if same_text(own.as_str(), wanted.as_str()) {
            proof {
                lemma_first_match_at(all, p, i as int);
            }
            return Some(found[i].clone());
        }
        i += 1;
    }
    proof {
        lemma_first_match(all, p);
        assert(first_match(all, p) is None);
    }
    None
}

/// The entity that a question names.
fn find_named(instances: &InstanceGraph, words: &Vec<String>) -> (r: Option<EntityRecord>)
    ensures
        opt_view(r) == named_in(instances@, views(words@), words@.len()),
{
    let ghost all = views(words@);
    let mut i: usize = 0;
    while i < words.len()
        invariant
            i <= words@.len(),
            views(words@) == all,
            named_in(instances@, all, i as nat) is None,
        decreases words@.len() - i,
    {
        proof {
            assert(all[i as int] == words@[i as int]@);
        }
        let name: String = clean(words[i].as_str());
        let found: Option<EntityRecord> = find_exact(instances, name.as_str());
        if found.is_some() {
            proof {
                lemma_named_stays(instances@, all, (i + 1) as nat, all.len());
            }
            return found;
        }
        i += 1;
    }
    None
}

/// The entity that a question mentions.
pub fn find_mentioned(instances: &InstanceGraph, question: &str) -> (r: Option<EntityRecord>)
    ensures
        opt_view(r) == mentioned_entity(instances@, question@),
{
    let words: Vec<String> = split_whitespace(question);
    let ghost all = words_of(question@);
    let named: Option<EntityRecord> = find_named(instances, &words);
    if named.is_some() {
        return named;
    }
    let mut i: usize = 0;
    while i < words.len()
        invariant
            i <= words@.len(),
            views(words@) == all,
            all == words_of(question@),
            named_in(instances@, all, all.len()) is None,
            mentioned(instances@, all, i as nat) is None,
        decreases words@.len() - i,
    {
        proof {
            assert(all[i as int] == words@[i as int]@);
        }
        let name: String = clean(words[i].as_str());
        if count_bytes(name.as_str()) >= 3 {
            let found: Vec<EntityRecord> = instances.find_entities_by_name(name.as_str());
            if found.len() > 0 {
                proof {
                    assert(instances@.matching(name@)[0] == found@[0]@);
                    lemma_mentioned_stays(instances@, all, (i + 1) as nat, all.len());
                }
                return Some(found[0].clone());
            }
            proof {
                assert(instances@.matching(name@).len() == 0);
            }
        }
        i += 1;
    }
    None
}

proof fn lemma_named_stays(g: GraphView, words: Seq<Seq<char>>, n: nat, m: nat)
    requires
        n <= m,
        named_in(g, words, n) is Some,
    ensures
        named_in(g, words, m) == named_in(g, words, n),
    decreases m,
{
    if n < m {
        lemma_named_stays(g, words, n, (m - 1) as nat);
    }
}

proof fn lemma_mentioned_stays(g: GraphView, words: Seq<Seq<char>>, n: nat, m: nat)
    requires
        n <= m,
        mentioned(g, words, n) is Some,
    ensures
        mentioned(g, words, m) == mentioned(g, words, n),
    decreases m,
{
    if n < m {
        lemma_mentioned_stays(g, words, n, (m - 1) as nat);
    }
}

/// The relations of one type that start or end at an entity.
pub open spec fn relations_of_type(g: GraphView, id: Uuid, type_id: Uuid) -> Seq<RelationRecord> {
    g.touching(id).filter(|r: RelationRecord| r.type_id == type_id)
}

/// The answer that the graph gives: how many relations of a type an entity
/// has, and the evidence for each.
pub open spec fn graph_answer(
    entity: EntityView,
    name: Seq<char>,
    relations: Seq<RelationRecord>,
) -> OntologicalAnswerView {
    OntologicalAnswerView {
        mode: "graph_traversal"@,
        answer: entity.canonical_name + " has "@ + decimal_text(relations.len())
            + " relation(s) of type '"@ + name + "'"@,
        evidence: relations.map_values(
            |r: RelationRecord|
                EvidenceDtoView {
                    chunk_id: uuid_text(r.evidence_chunk_id),
                    excerpt: "see evidence chunk via search_hybrid"@,
                },
        ),
    }
}

/// What the graph answers to a question: nothing, unless some relation type is
/// similar enough to the question, and the question mentions an entity.
pub open spec fn routed(
    g: GraphView,
    question: Seq<char>,
    types: Seq<RelationTypeView>,
    scores: Seq<Score>,
) -> Option<OntologicalAnswerView> {
    if scores.len() == 0 {
        None
    } else {
        let best = best_of(scores, scores.len());
        match mentioned_entity(g, question) {
            None => None,
            Some(entity) => {
                let relations = relations_of_type(g, entity.id, types[best].id);
                if routing_threshold().le(scores[best]) {
                    Some(graph_answer(entity, types[best].name, relations))
                } else {
                    None
                }
            },
        }
    }
}

/// What the graph answers to a question, given the similarity of each relation
/// type's description to it.
pub fn route_question(
    instances: &InstanceGraph,
    question: &str,
    types: &Vec<RelationTypeRecord>,
    scores: &Vec<Score>,
) -> (r: Option<QueryOntologicalOutput>)
    requires
        types@.len() == scores@.len(),
    ensures
        opt_view(r) == routed(instances@, question@, views(types@), scores@),
{
    let best: usize = match find_best(scores) {
        Some(i) => i,
        None => {
            return None;
        },
    };
    let entity: EntityRecord = match find_mentioned(instances, question) {
        Some(e) => e,
        None => {
            return None;
        },
    };
    let threshold = Score { bits: 0x3e99_999a };
    if !threshold.at_most(scores[best]) {
        return None;
    }
    let ghost type_id = types@[best as int].id;
    let all: Vec<RelationRecord> = instances.direct_relations(entity.id);
    let ghost p = |r: RelationRecord| r.type_id == type_id;
    let ghost show = |r: RelationRecord|
        EvidenceDtoView {
            chunk_id: uuid_text(r.evidence_chunk_id),
            excerpt: "see evidence chunk via search_hybrid"@,
        };
    let mut evidence: Vec<EvidenceDto> = Vec::new();
    let mut i: usize = 0;
    proof {
        assert(all@.take(0).filter(p) =~= Seq::<RelationRecord>::empty());
        assert(views(evidence@) =~= all@.take(0).filter(p).map_values(show));
    }
    while i < all.len()
        invariant
            i <= all@.len(),
            best < types@.len(),
            type_id == types@[best as int].id,
            p == (|r: RelationRecord| r.type_id == type_id),
            show == (|r: RelationRecord|
                EvidenceDtoView {
                    chunk_id: uuid_text(r.evidence_chunk_id),
                    excerpt: "see evidence chunk via search_hybrid"@,
                }),
            views(evidence@) == all@.take(i as int).filter(p).map_values(show),
        decreases all@.len() - i,
    {
        proof {
            lemma_filter_next(all@, p, i as int);
        }
        if all[i].type_id == types[best].id {
            let dto = EvidenceDto {
                chunk_id: all[i].evidence_chunk_id.to_text(),
                excerpt: "see evidence chunk via search_hybrid".to_owned(),
            };
            let ghost before = evidence@;
            let ghost v = dto@;
            evidence.push(dto);
            proof {
                assert(views(evidence@) =~= views(before).push(v));
                assert(all@.take(i + 1).filter(p).map_values(show) =~= all@.take(i as int).filter(
                    p,
                ).map_values(show).push(v));
            }
        }
        i += 1;
    }
    let ghost relations = relations_of_type(instances@, entity.id, type_id);
    proof {
        assert(all@.take(all@.len() as int) =~= all@);
        assert(relations == all@.filter(p));
        assert(views(evidence@).len() == relations.len());
    }
    let mut answer: String = entity.canonical_name.clone();
    answer.append(" has ");
    answer.append(decimal(evidence.len() as u64).as_str());
    answer.append(" relation(s) of type '");
    answer.append(types[best].name.as_str());
    answer.append("'");
    let output = QueryOntologicalOutput { mode: "graph_traversal".to_owned(), answer, evidence };
    proof {
        assert(output@ =~= graph_answer(entity@, types@[best as int]@.name, relations));
    }
    Some(output)
}

/// What is answered with chunks that were found by similarity alone.
pub open spec fn vector_answer(chunks: Seq<ScoredChunkView>) -> OntologicalAnswerView {
    OntologicalAnswerView {
        mode: "vector_fallback"@,
        answer: if chunks.len() > 0 {
            chunks[0].chunk.content
        } else {
            "nenhum resultado encontrado"@
        },
        evidence: chunks.map_values(
            |c: ScoredChunkView|
                EvidenceDtoView { chunk_id: uuid_text(c.chunk.id), excerpt: c.chunk.content },
        ),
    }
}

/// The number of chunks that a question is answered with where the graph gives
/// no answer.
pub const FALLBACK_CHUNKS: usize = 3;

/// What is answered with chunks that were found by similarity alone.
pub fn answer_from_chunks(chunks: &Vec<ScoredChunk>) -> (r: QueryOntologicalOutput)
    ensures
        r@ == vector_answer(views(chunks@)),
{
    let answer: String = if chunks.len() > 0 {
        chunks[0].chunk.content.clone()
    } else {
        "nenhum resultado encontrado".to_owned()
    };
    let ghost target = vector_answer(views(chunks@)).evidence;
    let mut evidence: Vec<EvidenceDto> = Vec::new();
    let mut i: usize = 0;
    while i < chunks.len()
        invariant
            i <= chunks@.len(),
            target == vector_answer(views(chunks@)).evidence,
            views(evidence@) =~= target.take(i as int),
        decreases chunks@.len() - i,
    {
        let dto = EvidenceDto {
            chunk_id: chunks[i].chunk.id.to_text(),
            excerpt: chunks[i].chunk.content.clone(),
        };
        let ghost before = evidence@;
        let ghost v = dto@;
        evidence.push(dto);
        proof {
            assert(views(chunks@)[i as int] == chunks@[i as int]@);
            assert(v == target[i as int]);
            assert(views(evidence@) =~= views(before).push(v));
        }
        i += 1;
    }
    proof {
        assert(target.take(i as int) =~= target);
    }
    QueryOntologicalOutput { mode: "vector_fallback".to_owned(), answer, evidence }
}

/// The best score is not exceeded, and is the first of its kind.
pub proof fn law_best_is_best(scores: Seq<Score>, n: nat, i: int)
    requires
        0 <= i < n <= scores.len(),
        forall|j: int| 0 <= j < n ==> !(#[trigger] scores[j]).is_nan(),
    ensures
        0 <= best_of(scores, n) < n,
        scores[i].le(scores[best_of(scores, n)]),
        scores[i].key() == scores[best_of(scores, n)].key() ==> best_of(scores, n) <= i,
    decreases n,
{
    assert(!scores[i].is_nan());
    if n > 1 {
        let m = (n - 1) as nat;
        if i < m {
            law_best_is_best(scores, m, i);
        } else {
            law_best_is_best(scores, m, 0);
        }
        assert(!scores[best_of(scores, m)].is_nan());
        assert(!scores[n - 1].is_nan());
    }
}

/// The graph answers exactly where a relation type is similar enough and an
/// entity is mentioned, and gives evidence for each relation that it counts.
pub proof fn law_graph_answers_where_routed(
    g: GraphView,
    question: Seq<char>,
    types: Seq<RelationTypeView>,
    scores: Seq<Score>,
)
    requires
        types.len() == scores.len(),
    ensures
        routed(g, question, types, scores) is Some <==> scores.len() > 0 && routing_threshold().le(
            scores[best_of(scores, scores.len())],
        ) && mentioned_entity(g, question) is Some,
        routed(g, question, types, scores) matches Some(answer) ==> {
            &&& answer.mode == "graph_traversal"@
            &&& answer.evidence.len() == relations_of_type(
                g,
                mentioned_entity(g, question)->0.id,
                types[best_of(scores, scores.len())].id,
            ).len()
        },
{
}

proof fn lemma_matching_has(g: GraphView, name: Seq<char>, e: EntityView)
    requires
        g.entities.contains(e),
        name_matches(e, name),
    ensures
        g.matching(name).contains(e),
{
    let m = |e: EntityView| name_matches(e, name);
    let i = choose|i: int| 0 <= i < g.entities.len() && g.entities[i] == e;
    assert(m(g.entities[i]));
    g.entities.lemma_filter_contains(m, i);
    law_matching_in_order(g, name);
    let kept = g.entities.filter(m);
    kept.to_multiset_ensures();
    g.matching(name).to_multiset_ensures();
    assert(kept.to_multiset().count(e) > 0);
}

proof fn lemma_named_source(g: GraphView, words: Seq<Seq<char>>, n: nat)
    requires
        n <= words.len(),
    ensures
        named_in(g, words, n) matches Some(found) ==> exists|k: int|
            0 <= k < n && folded(found.canonical_name) == folded(cleaned(#[trigger] words[k])),
    decreases n,
{
    if n > 0 {
        lemma_named_source(g, words, (n - 1) as nat);
        let name = cleaned(words[n - 1]);
        lemma_first_match(
            g.matching(name),
            |e: EntityView| folded(e.canonical_name) == folded(name),
        );
    }
}

/// A word that is the name of an entity, but for case, wins over every word
/// that is only part of a name.
pub proof fn law_exact_name_wins(g: GraphView, question: Seq<char>, i: int, e: EntityView)
    requires
        0 <= i < words_of(question).len(),
        g.entities.contains(e),
        cleaned(words_of(question)[i]).len() > 0,
        folded(e.canonical_name) == folded(cleaned(words_of(question)[i])),
    ensures
        mentioned_entity(g, question) matches Some(found) && exists|k: int|
            0 <= k <= i && folded(found.canonical_name) == folded(
                cleaned(#[trigger] words_of(question)[k]),
            ),
{
    let words = words_of(question);
    let name = cleaned(words[i]);
    let all = g.matching(name);
    let p = |e: EntityView| folded(e.canonical_name) == folded(name);
    assert(name_matches(e, name)) by {
        assert(occurs_at(folded(e.canonical_name), folded(name), 0)) by {
            assert(folded(name).subrange(0, folded(name).len() as int) =~= folded(name));
        }
    }
    lemma_matching_has(g, name, e);
    lemma_first_match(all, p);
    let k = choose|k: int| 0 <= k < all.len() && all[k] == e;
    assert(p(all[k]));
    assert(exactly_named(g, name) is Some);
    assert(named_in(g, words, (i + 1) as nat) is Some);
    lemma_named_source(g, words, (i + 1) as nat);
    lemma_named_stays(g, words, (i + 1) as nat, words.len());
}

/// An identifier that one tool answers with is one that another takes.
pub proof fn law_answered_ids_are_accepted(e: EntityView)
    ensures
        parsed_uuid(entity_dto(e).id) == Some(e.id.bits as nat),
        parsed_uuid(entity_dto(e).type_id) == Some(e.type_id.bits as nat),
{
    law_uuid_round_trip(e.id);
    law_uuid_round_trip(e.type_id);
}

} // verus!
