//! Laws of what becomes of candidates: under which name and type an entity is
//! recorded, and what the distance and the judge decide.

use vstd::prelude::*;
use crate::chunk_run::{canonical_only, nearest_type_of, type_names, ChunkRunView};
use crate::engine::{default_zone, founded_type, CandidateStepView, EngineView, OutcomeView};
use crate::graph::GraphView;
use crate::graph_laws::{law_entity_is_found_or_made, law_with_entity_valid};
use crate::ids::Uuid;
use crate::model::{CandidateView, JudgeDecision};
use crate::order::{lemma_ranked_comes_from, lex_lt};
use crate::records::{
    EntityTypeView, OntologyErrorView, RelationRecord, RelationTypeStatus, RelationTypeView,
};
use crate::registry::{relation_type_record, RegistryView, RelationTypeRowView};
use crate::registry_laws::{law_entity_type_is_found_or_made, law_listed_relation_types};
use crate::scores::{law_nearest_is_nearest, nearest_of, Score};
use crate::text::{ascii_lower, same_ignoring_ascii_case};
use crate::views::lemma_filter_from;

verus! {

/// An outcome says that a candidate joined a type: there is an entity of the
/// candidate's own name and of the type, and it is in the graph.
pub open spec fn joined(
    after: EngineView,
    outcome: OutcomeView,
    candidate: CandidateView,
    nearest: Option<EntityTypeView>,
) -> bool {
    outcome matches OutcomeView::Merged { entity, .. } ==> nearest is Some && entity.canonical_name
        == candidate.raw_name && entity.type_id == nearest->0.id && after.instances.entities.contains(
        entity,
    )
}

/// An outcome says that a candidate founded a type: the type has the name of the
/// candidate's hint, or else its own, and there is an entity of the candidate's
/// own name and of that type; both are there.
pub open spec fn founded(after: EngineView, outcome: OutcomeView, candidate: CandidateView) -> bool {
    outcome matches OutcomeView::NewType { entity, entity_type, .. } ==> {
        &&& entity.canonical_name == candidate.raw_name
        &&& entity.type_id == entity_type.id
        &&& after.instances.entities.contains(entity)
        &&& entity_type.name == (match candidate.raw_type_hint {
            Some(hint) => hint,
            None => candidate.raw_name,
        })
        &&& exists|k: int|
            0 <= k < after.types.entity_types.len() && (#[trigger] after.types.entity_types[k]).id
                == entity_type.id && after.types.entity_types[k].name == entity_type.name
    }
}

/// The engine's files, types and entities that a candidate meets.
proof fn lemma_merging(
    engine: EngineView,
    judge_called: bool,
    type_id: Uuid,
    candidate: CandidateView,
    file: Seq<char>,
    fresh: Uuid,
    at: Seq<char>,
)
    ensures
        ({
            let (after, r) = engine.merging(judge_called, type_id, candidate, file, fresh, at);
            &&& after.types == engine.types
            &&& r matches Ok(outcome) ==> outcome is Merged && outcome->Merged_judge_called
                == judge_called && outcome->Merged_entity.canonical_name == candidate.raw_name
                && outcome->Merged_entity.type_id == type_id && after.instances.entities.contains(
                outcome->Merged_entity,
            )
            &&& (forall|i: int|
                0 <= i < engine.instances.entities.len() ==> (
                #[trigger] engine.instances.entities[i]).id != fresh) ==> r is Ok
        }),
{
    law_entity_is_found_or_made(engine.instances, type_id, candidate.raw_name, file, fresh, at);
}

proof fn lemma_founding(
    engine: EngineView,
    candidate: CandidateView,
    file: Seq<char>,
    fresh_type: Uuid,
    fresh: Uuid,
    at: Seq<char>,
)
    ensures
        ({
            let (after, r) = engine.founding(candidate, file, fresh_type, fresh, at);
            let name = match candidate.raw_type_hint {
                Some(hint) => hint,
                None => candidate.raw_name,
            };
            &&& r matches Ok((entity, t)) ==> entity.canonical_name == candidate.raw_name
                && entity.type_id == t.id && after.instances.entities.contains(entity) && t.name == name
                && exists|k: int|
                0 <= k < after.types.entity_types.len() && (#[trigger] after.types.entity_types[k]).id
                    == t.id && after.types.entity_types[k].name == t.name
            &&& (forall|i: int|
                0 <= i < engine.instances.entities.len() ==> (
                #[trigger] engine.instances.entities[i]).id != fresh) && (forall|i: int|
                0 <= i < engine.types.entity_types.len() ==> (
                #[trigger] engine.types.entity_types[i]).id != fresh_type) ==> r is Ok
            &&& r is Ok && (forall|i: int|
                0 <= i < engine.types.entity_types.len() ==> (
                #[trigger] engine.types.entity_types[i]).name != name) ==> r->Ok_0.1.id == fresh_type
                && r->Ok_0.1.description == "type inferred from '"@ + candidate.raw_name + "'"@
        }),
{
    let name = match candidate.raw_type_hint {
        Some(hint) => hint,
        None => candidate.raw_name,
    };
    let text = "type inferred from '"@ + candidate.raw_name + "'"@;
    law_entity_type_is_found_or_made(engine.types, engine.instances, name, text, fresh_type, at);
    let (types, t) = engine.types.with_entity_type(engine.instances, name, text, fresh_type, at);
    let (after, r) = engine.founding(candidate, file, fresh_type, fresh, at);
    assert(founded_type(candidate) == name);
    if t is Ok {
        law_entity_is_found_or_made(
            engine.instances,
            t->Ok_0.id,
            candidate.raw_name,
            file,
            fresh,
            at,
        );
        assert(after.types == types);
        if r is Ok {
            let k = choose|k: int|
                0 <= k < types.entity_types.len() && (#[trigger] types.entity_types[k]).id == t->Ok_0.id
                    && types.entity_types[k].name == name && types.entity_types[k].description
                    == t->Ok_0.description;
            assert(after.types.entity_types[k].id == t->Ok_0.id);
        }
    }
}

/// However a candidate is taken in, by its distance or by the judge, its entity
/// is recorded under the candidate's own name: as one of the nearest type where
/// it is merged, and of the founded type where it founds one.
pub proof fn law_entities_keep_their_names(
    engine: EngineView,
    candidate: CandidateView,
    distance: Score,
    decision: JudgeDecision,
    nearest: Option<EntityTypeView>,
    file: Seq<char>,
    fresh_type: Uuid,
    fresh: Uuid,
    at: Seq<char>,
)
    ensures
        ({
            let (after, step) = engine.classified(
                candidate,
                distance,
                nearest,
                file,
                fresh_type,
                fresh,
                at,
            );
            step matches CandidateStepView::Done(Ok(outcome)) ==> joined(
                after,
                outcome,
                candidate,
                nearest,
            ) && founded(after, outcome, candidate)
        }),
        ({
            let (after, r) = engine.judged(
                candidate,
                decision,
                nearest,
                file,
                fresh_type,
                fresh,
                at,
            );
            r matches Ok(outcome) ==> joined(after, outcome, candidate, nearest) && founded(
                after,
                outcome,
                candidate,
            )
        }),
{
    if nearest is Some {
        lemma_merging(engine, false, nearest->0.id, candidate, file, fresh, at);
        lemma_merging(engine, true, nearest->0.id, candidate, file, fresh, at);
    }
    lemma_founding(engine, candidate, file, fresh_type, fresh, at);
    let (base, f) = engine.founding(candidate, file, fresh_type, fresh, at);
    let (near, step) = engine.classified(
        candidate,
        distance,
        nearest,
        file,
        fresh_type,
        fresh,
        at,
    );
    let (far, r) = engine.judged(candidate, decision, nearest, file, fresh_type, fresh, at);
    if f is Ok {
        let t = f->Ok_0.1;
        let k = choose|k: int|
            0 <= k < base.types.entity_types.len() && (#[trigger] base.types.entity_types[k]).id == t.id
                && base.types.entity_types[k].name == t.name;
        if step is Done && step->Done_0 is Ok && step->Done_0->Ok_0 is NewType {
            assert(near.types == base.types);
            assert(near.types.entity_types[k].id == t.id);
        }
        if r is Ok && r->Ok_0 is NewType {
            assert(far.types == base.types);
            assert(far.types.entity_types[k].id == t.id);
        }
    }
}

/// Two candidates of different names that are merged one after the other are two
/// entities, and both are in the graph.
pub proof fn law_merged_candidates_stay_apart(
    engine: EngineView,
    one: CandidateView,
    other: CandidateView,
    distance: Score,
    nearest: Option<EntityTypeView>,
    file: Seq<char>,
    ids: Seq<Uuid>,
    at: Seq<char>,
)
    requires
        engine.instances.valid(),
        one.raw_name != other.raw_name,
        ({
            let (after, step) = engine.classified(one, distance, nearest, file, ids[0], ids[1], at);
            let (_, next) = after.classified(other, distance, nearest, file, ids[2], ids[3], at);
            step is Done && step->Done_0 is Ok && step->Done_0->Ok_0 is Merged && next is Done
                && next->Done_0 is Ok && next->Done_0->Ok_0 is Merged
        }),
    ensures
        ({
            let (after, step) = engine.classified(one, distance, nearest, file, ids[0], ids[1], at);
            let (last, next) = after.classified(other, distance, nearest, file, ids[2], ids[3], at);
            let a = step->Done_0->Ok_0->Merged_entity;
            let b = next->Done_0->Ok_0->Merged_entity;
            &&& a.canonical_name == one.raw_name
            &&& b.canonical_name == other.raw_name
            &&& a.id != b.id
            &&& last.instances.entities.contains(a)
            &&& last.instances.entities.contains(b)
        }),
{
    let (after, step) = engine.classified(one, distance, nearest, file, ids[0], ids[1], at);
    let (last, next) = after.classified(other, distance, nearest, file, ids[2], ids[3], at);
    let t = nearest->0.id;
    lemma_merging(engine, false, t, one, file, ids[1], at);
    lemma_merging(after, false, t, other, file, ids[3], at);
    lemma_founding(engine, one, file, ids[0], ids[1], at);
    lemma_founding(after, other, file, ids[2], ids[3], at);
    law_with_entity_valid(engine.instances, t, one.raw_name, file, ids[1], at);
    law_with_entity_valid(after.instances, t, other.raw_name, file, ids[3], at);
    law_entity_is_found_or_made(after.instances, t, other.raw_name, file, ids[3], at);
    let a = step->Done_0->Ok_0->Merged_entity;
    let b = next->Done_0->Ok_0->Merged_entity;
    let i = choose|i: int| 0 <= i < after.instances.entities.len() && after.instances.entities[i] == a;
    assert(last.instances.entities[i] == a);
    let j = choose|j: int| 0 <= j < last.instances.entities.len() && last.instances.entities[j] == b;
    assert(i != j);
    if i < j {
        assert(last.instances.entities[i].id != last.instances.entities[j].id);
    } else {
        assert(last.instances.entities[j].id != last.instances.entities[i].id);
    }
}

/// The distance decides: at most the lower bound, a candidate is merged into the
/// nearest type; from the upper bound on, it founds a type; and in between the
/// judge is told the nearest type, and nothing changes.
pub proof fn law_distance_decides(
    engine: EngineView,
    candidate: CandidateView,
    distance: Score,
    nearest: Option<EntityTypeView>,
    file: Seq<char>,
    fresh_type: Uuid,
    fresh: Uuid,
    at: Seq<char>,
)
    requires
        forall|i: int|
            0 <= i < engine.instances.entities.len() ==> (#[trigger] engine.instances.entities[i]).id
                != fresh,
        forall|i: int|
            0 <= i < engine.types.entity_types.len() ==> (#[trigger] engine.types.entity_types[i]).id
                != fresh_type,
    ensures
        ({
            let (after, step) = engine.classified(
                candidate,
                distance,
                nearest,
                file,
                fresh_type,
                fresh,
                at,
            );
            let low = distance.le(engine.zone.low_distance_max);
            let high = engine.zone.high_distance_min.le(distance);
            &&& low && nearest is Some ==> step is Done && step->Done_0 is Ok && step->Done_0->Ok_0
                is Merged && !step->Done_0->Ok_0->Merged_judge_called && after.types == engine.types
            &&& low && nearest is None ==> step is Done && step->Done_0 is Err && after == engine
            &&& !low && high ==> step is Done && step->Done_0 is Ok && step->Done_0->Ok_0 is NewType
                && !step->Done_0->Ok_0->NewType_judge_called
            &&& !low && !high ==> after == engine && step is Judge && step->Judge_0.len() == (
            if nearest is Some {
                1nat
            } else {
                0nat
            }) && (nearest is Some ==> step->Judge_0[0].name == nearest->0.name
                && step->Judge_0[0].description == nearest->0.description)
        }),
{
    if nearest is Some {
        lemma_merging(engine, false, nearest->0.id, candidate, file, fresh, at);
    }
    lemma_founding(engine, candidate, file, fresh_type, fresh, at);
}

/// The judge decides what was not decided by the distance: to merge, to found a
/// type, or to refuse, which changes nothing but the counts; and one who merges
/// where there is no type is undecided.
pub proof fn law_judge_decides(
    engine: EngineView,
    candidate: CandidateView,
    nearest: Option<EntityTypeView>,
    file: Seq<char>,
    fresh_type: Uuid,
    fresh: Uuid,
    at: Seq<char>,
)
    requires
        forall|i: int|
            0 <= i < engine.instances.entities.len() ==> (#[trigger] engine.instances.entities[i]).id
                != fresh,
        forall|i: int|
            0 <= i < engine.types.entity_types.len() ==> (#[trigger] engine.types.entity_types[i]).id
                != fresh_type,
    ensures
        ({
            let (after, r) = engine.judged(
                candidate,
                JudgeDecision::Merge,
                nearest,
                file,
                fresh_type,
                fresh,
                at,
            );
            &&& nearest is Some ==> r is Ok && r->Ok_0 is Merged && r->Ok_0->Merged_judge_called
                && after.types == engine.types
            &&& nearest is None ==> r == Err::<OutcomeView, OntologyErrorView>(
                OntologyErrorView::JudgeUndecided,
            ) && after == engine
        }),
        ({
            let (_, r) = engine.judged(
                candidate,
                JudgeDecision::NewType,
                nearest,
                file,
                fresh_type,
                fresh,
                at,
            );
            r is Ok && r->Ok_0 is NewType && r->Ok_0->NewType_judge_called
        }),
        ({
            let (after, r) = engine.judged(
                candidate,
                JudgeDecision::Reject,
                nearest,
                file,
                fresh_type,
                fresh,
                at,
            );
            &&& r is Ok && r->Ok_0 is Rejected
            &&& after.types == engine.types && after.instances == engine.instances
            &&& r->Ok_0->Rejected_reason == "judge() rejected candidate '"@ + candidate.raw_name + "'"@
        }),
{
    if nearest is Some {
        lemma_merging(engine, true, nearest->0.id, candidate, file, fresh, at);
    }
    lemma_founding(engine, candidate, file, fresh_type, fresh, at);
}

/// Every candidate that is taken in or refused is counted once, and as one for
/// the judge exactly where the judge was asked.
pub proof fn law_candidates_are_counted(
    engine: EngineView,
    candidate: CandidateView,
    distance: Score,
    decision: JudgeDecision,
    nearest: Option<EntityTypeView>,
    file: Seq<char>,
    fresh_type: Uuid,
    fresh: Uuid,
    at: Seq<char>,
)
    requires
        engine.metrics.total < u64::MAX,
        engine.metrics.fallback < u64::MAX,
    ensures
        ({
            let (after, step) = engine.classified(
                candidate,
                distance,
                nearest,
                file,
                fresh_type,
                fresh,
                at,
            );
            &&& step is Done && step->Done_0 is Ok ==> after.metrics.total == engine.metrics.total + 1
            &&& step is Judge ==> after.metrics.total == engine.metrics.total
            &&& after.metrics.fallback == engine.metrics.fallback
        }),
        ({
            let (after, r) = engine.judged(
                candidate,
                decision,
                nearest,
                file,
                fresh_type,
                fresh,
                at,
            );
            r is Ok ==> after.metrics.total == engine.metrics.total + 1 && after.metrics.fallback
                == engine.metrics.fallback + 1
        }),
{
}

/// A candidate is measured by its hint, or else by its name, against all types;
/// it is refused exactly where its name is a reserved one, but for the case of
/// ASCII letters.
pub proof fn law_next_candidate(run: ChunkRunView, types: Seq<EntityTypeView>)
    requires
        run.next < run.candidates.len(),
    ensures
        ({
            let candidate = run.candidates[run.next as int];
            let reserved = exists|i: int|
                0 <= i < run.reserved.len() && ascii_lower(#[trigger] run.reserved[i])
                    == ascii_lower(candidate.raw_name);
            let step = run.step(types);
            &&& reserved <==> step is Refuse
            &&& !reserved && types.len() == 0 ==> step is Unmeasured
            &&& !reserved && types.len() > 0 ==> step is Measure && step->types == types && step->probe
                == (match candidate.raw_type_hint {
                Some(hint) => hint,
                None => candidate.raw_name,
            })
        }),
{
    let candidate = run.candidates[run.next as int];
    assert forall|i: int| 0 <= i < run.reserved.len() implies (ascii_lower(
        #[trigger] run.reserved[i],
    ) == ascii_lower(candidate.raw_name))
        == same_ignoring_ascii_case(run.reserved[i], candidate.raw_name) by {}
}

/// The nearest type is one whose distance no other one is below, and its own
/// distance comes with it.
pub proof fn law_nearest_type(types: Seq<EntityTypeView>, distances: Seq<Score>)
    requires
        types.len() == distances.len(),
        types.len() > 0,
        forall|j: int| 0 <= j < distances.len() ==> !(#[trigger] distances[j]).is_nan(),
    ensures
        exists|i: int|
            0 <= i < types.len() && nearest_type_of(types, distances).1 == Some(#[trigger] types[i])
                && nearest_type_of(types, distances).0 == distances[i] && forall|j: int|
                0 <= j < distances.len() ==> distances[i].le(#[trigger] distances[j]),
{
    let i = nearest_of(distances, distances.len());
    law_nearest_is_nearest(distances, distances.len(), 0);
    assert forall|j: int| 0 <= j < distances.len() implies distances[i].le(#[trigger] distances[j]) by {
        law_nearest_is_nearest(distances, distances.len(), j);
    }
    assert(nearest_type_of(types, distances).1 == Some(types[i]));
}

/// Each candidate of a chunk has one outcome, in order, and nothing else of the
/// run changes.
pub proof fn law_outcomes_come_in_order(run: ChunkRunView, outcome: OutcomeView)
    requires
        run.valid(),
        run.next < run.candidates.len(),
    ensures
        run.with_outcome(outcome).valid(),
        run.with_outcome(outcome).next == run.next + 1,
        run.with_outcome(outcome).outcomes.len() == run.outcomes.len() + 1,
        run.with_outcome(outcome).outcomes[run.next as int] == outcome,
        forall|i: int|
            0 <= i < run.outcomes.len() ==> run.with_outcome(outcome).outcomes[i]
                == #[trigger] run.outcomes[i],
        run.with_outcome(outcome).candidates == run.candidates,
        run.with_outcome(outcome).reserved == run.reserved,
{
}

/// A model is told the name of a relation type exactly where the type is
/// canonical, and a name is reserved wherever some relation type has it.
pub proof fn law_vocabulary_is_canonical(types: RegistryView, g: GraphView, name: Seq<char>)
    ensures
        type_names(canonical_only(types.relation_type_list(g))).contains(name) <==> exists|i: int|
            0 <= i < types.relation_types.len() && (#[trigger] types.relation_types[i]).name == name
                && types.relation_types[i].status == RelationTypeStatus::Canonical,
        type_names(types.relation_type_list(g)).contains(name) <==> exists|i: int|
            0 <= i < types.relation_types.len() && (#[trigger] types.relation_types[i]).name == name,
{
    let list = types.relation_type_list(g);
    let p = |t: RelationTypeView| t.status == RelationTypeStatus::Canonical;
    let told = canonical_only(list);
    if type_names(told).contains(name) {
        let k = choose|k: int| 0 <= k < type_names(told).len() && type_names(told)[k] == name;
        lemma_filter_from(list, p, k);
        let n = choose|n: int| 0 <= n < list.len() && list[n] == told[k];
        let i = lemma_listed_row(types, g, n);
        assert(types.relation_types[i].name == name);
    }
    if type_names(list).contains(name) {
        let k = choose|k: int| 0 <= k < type_names(list).len() && type_names(list)[k] == name;
        let i = lemma_listed_row(types, g, k);
        assert(types.relation_types[i].name == name);
    }
    if exists|i: int|
        0 <= i < types.relation_types.len() && (#[trigger] types.relation_types[i]).name == name {
        let i = choose|i: int|
            0 <= i < types.relation_types.len() && (#[trigger] types.relation_types[i]).name == name;
        let k = lemma_listed(types, g, i);
        assert(type_names(list)[k] == name);
    }
    if exists|i: int|
        0 <= i < types.relation_types.len() && (#[trigger] types.relation_types[i]).name == name
            && types.relation_types[i].status == RelationTypeStatus::Canonical {
        let i = choose|i: int|
            0 <= i < types.relation_types.len() && (#[trigger] types.relation_types[i]).name == name
                && types.relation_types[i].status == RelationTypeStatus::Canonical;
        let k = lemma_listed(types, g, i);
        assert(p(list[k]));
        list.lemma_filter_contains(p, k);
        let n = choose|n: int| 0 <= n < told.len() && told[n] == list[k];
        assert(type_names(told)[n] == name);
    }
}

proof fn lemma_listed_row(types: RegistryView, g: GraphView, k: int) -> (i: int)
    requires
        0 <= k < types.relation_type_list(g).len(),
    ensures
        0 <= i < types.relation_types.len(),
        types.relation_type_list(g)[k].name == types.relation_types[i].name,
        types.relation_type_list(g)[k].status == types.relation_types[i].status,
{
    let rows = types.relation_types.map_values(
        |t: RelationTypeRowView| relation_type_record(t, g),
    );
    let before = |a: RelationTypeView, b: RelationTypeView| lex_lt(a.name, b.name);
    let from = lemma_ranked_comes_from(rows, before);
    assert(types.relation_type_list(g)[k] == rows[from[k]]);
    from[k]
}

proof fn lemma_listed(types: RegistryView, g: GraphView, i: int) -> (k: int)
    requires
        0 <= i < types.relation_types.len(),
    ensures
        0 <= k < types.relation_type_list(g).len(),
        types.relation_type_list(g)[k].name == types.relation_types[i].name,
        types.relation_type_list(g)[k].status == types.relation_types[i].status,
{
    law_listed_relation_types(types, g);
    let list = types.relation_type_list(g);
    let k = choose|k: int|
        0 <= k < list.len() && (#[trigger] list[k]).id == types.relation_types[i].id && list[k].name
            == types.relation_types[i].name && list[k].description
            == types.relation_types[i].description && list[k].status == types.relation_types[i].status
            && list[k].instance_count == g.relations.filter(
            |x: RelationRecord| x.type_id == types.relation_types[i].id,
        ).len();
    k
}

/// An entity of an outcome was there before, as it is, or is new: then it was first
/// seen in the file at hand, and has the fresh id and the time that were given.
pub open spec fn is_old_or_new(
    engine: EngineView,
    outcome: OutcomeView,
    file: Seq<char>,
    fresh: Uuid,
    at: Seq<char>,
) -> bool {
    match outcome {
        OutcomeView::Merged { entity, .. } => engine.instances.entities.contains(entity) || (
        entity.first_seen_file == file && entity.id == fresh && entity.updated_at == at),
        OutcomeView::NewType { entity, .. } => engine.instances.entities.contains(entity) || (
        entity.first_seen_file == file && entity.id == fresh && entity.updated_at == at),
        OutcomeView::Rejected { .. } => true,
    }
}

/// Entities that candidates bring are first seen in the file at hand, and those
/// that were there stay as they were; no relation changes.
pub proof fn law_new_entities_are_seen_in_the_file(
    engine: EngineView,
    candidate: CandidateView,
    distance: Score,
    decision: JudgeDecision,
    nearest: Option<EntityTypeView>,
    file: Seq<char>,
    fresh_type: Uuid,
    fresh: Uuid,
    at: Seq<char>,
)
    ensures
        ({
            let (after, step) = engine.classified(
                candidate,
                distance,
                nearest,
                file,
                fresh_type,
                fresh,
                at,
            );
            &&& step matches CandidateStepView::Done(Ok(outcome)) ==> is_old_or_new(
                engine,
                outcome,
                file,
                fresh,
                at,
            )
            &&& after.instances.relations == engine.instances.relations
            &&& engine.instances.entities.is_prefix_of(after.instances.entities)
            &&& after.instances.entities.len() <= engine.instances.entities.len() + 1
        }),
        ({
            let (after, r) = engine.judged(
                candidate,
                decision,
                nearest,
                file,
                fresh_type,
                fresh,
                at,
            );
            &&& r matches Ok(outcome) ==> is_old_or_new(engine, outcome, file, fresh, at)
            &&& after.instances.relations == engine.instances.relations
            &&& engine.instances.entities.is_prefix_of(after.instances.entities)
            &&& after.instances.entities.len() <= engine.instances.entities.len() + 1
        }),
{
    if nearest is Some {
        law_entity_is_found_or_made(
            engine.instances,
            nearest->0.id,
            candidate.raw_name,
            file,
            fresh,
            at,
        );
    }
    let text = "type inferred from '"@ + candidate.raw_name + "'"@;
    let name = founded_type(candidate);
    let (_, t) = engine.types.with_entity_type(engine.instances, name, text, fresh_type, at);
    if t is Ok {
        law_entity_is_found_or_made(
            engine.instances,
            t->Ok_0.id,
            candidate.raw_name,
            file,
            fresh,
            at,
        );
    }
}

/// A candidate that founds a type whose name no type has gives it the fresh id,
/// and a description that says what it was inferred from.
pub proof fn law_founded_type_is_described(
    engine: EngineView,
    candidate: CandidateView,
    nearest: Option<EntityTypeView>,
    file: Seq<char>,
    fresh_type: Uuid,
    fresh: Uuid,
    at: Seq<char>,
)
    requires
        forall|i: int|
            0 <= i < engine.types.entity_types.len() ==> (#[trigger] engine.types.entity_types[i]).name
                != (match candidate.raw_type_hint {
                Some(hint) => hint,
                None => candidate.raw_name,
            }),
    ensures
        engine.judged(
            candidate,
            JudgeDecision::NewType,
            nearest,
            file,
            fresh_type,
            fresh,
            at,
        ).1 matches Ok(outcome) ==> outcome is NewType && outcome->NewType_entity_type.id == fresh_type
            && outcome->NewType_entity_type.description == "type inferred from '"@ + candidate.raw_name
            + "'"@,
{
    lemma_founding(engine, candidate, file, fresh_type, fresh, at);
}

/// By default a candidate is merged up to a distance of 0.15, founds a type from
/// 0.35 on, and is judged in between: the single-precision numbers with the bits
/// `0x3e19999a` and `0x3eb33333`.
pub proof fn law_default_distances(
    engine: EngineView,
    candidate: CandidateView,
    distance: Score,
    nearest: EntityTypeView,
    file: Seq<char>,
    fresh_type: Uuid,
    fresh: Uuid,
    at: Seq<char>,
)
    requires
        engine.zone == default_zone(),
        distance.bits <= 0x7f80_0000,
        forall|i: int|
            0 <= i < engine.instances.entities.len() ==> (#[trigger] engine.instances.entities[i]).id
                != fresh,
        forall|i: int|
            0 <= i < engine.types.entity_types.len() ==> (#[trigger] engine.types.entity_types[i]).id
                != fresh_type,
    ensures
        ({
            let (_, step) = engine.classified(
                candidate,
                distance,
                Some(nearest),
                file,
                fresh_type,
                fresh,
                at,
            );
            &&& distance.bits <= 0x3e19_999a <==> step is Done && step->Done_0 is Ok
                && step->Done_0->Ok_0 is Merged
            &&& distance.bits >= 0x3eb3_3333 <==> step is Done && step->Done_0 is Ok
                && step->Done_0->Ok_0 is NewType
            &&& 0x3e19_999a < distance.bits < 0x3eb3_3333 <==> step is Judge
        }),
{
    law_distance_decides(
        engine,
        candidate,
        distance,
        Some(nearest),
        file,
        fresh_type,
        fresh,
        at,
    );
}

} // verus!
