//! Laws of the ontology engine.

use vstd::prelude::*;
use crate::engine::{
    founded_description, founded_type, CandidateStepView, EngineView, OutcomeView, Zone,
};
use crate::graph_laws::law_with_entity_valid;
use crate::ids::Uuid;
use crate::model::{CandidateView, JudgeDecision};
use crate::records::{EntityTypeView, OntologyErrorView, RelationTypeStatus, RelationTypeView};
use crate::registry::{RegistryView, RelationTypeRowView, TypeHitView, PROMOTION_THRESHOLD};
use crate::registry_laws::{
    keeps_relation_types, law_hit_counts_once, law_promoted, law_registry_stays_valid,
    law_types_never_leave,
};
use crate::scores::Score;
use crate::views::{lemma_filter_from, lemma_first_match, lemma_first_match_push};

verus! {

/// The judge is asked of candidates in the ambiguous zone, and of no others;
/// and asking changes nothing.
pub proof fn law_judge_only_when_ambiguous(
    engine: EngineView,
    candidate: CandidateView,
    distance: Score,
    nearest: Option<EntityTypeView>,
    file: Seq<char>,
    fresh_type: Uuid,
    fresh: Uuid,
    at: Seq<char>,
)
    ensures
        ({
            let (after, step) = engine.classified(
                candidate,
                distance,
                nearest,
                file,
                fresh_type,
                fresh,
                at,
            );
            &&& step is Judge <==> engine.zone.zone_of(distance) == Zone::Ambiguous
            &&& step is Judge ==> after == engine
            &&& after.metrics.fallback == engine.metrics.fallback
        }),
{
}

/// An outcome says that the judge was called if and only if it was, and is
/// counted accordingly.
pub proof fn law_judge_called_is_true(
    engine: EngineView,
    candidate: CandidateView,
    distance: Score,
    decision: JudgeDecision,
    nearest: Option<EntityTypeView>,
    file: Seq<char>,
    fresh_type: Uuid,
    fresh: Uuid,
    at: Seq<char>,
)
    ensures
        ({
            let (after, step) = engine.classified(
                candidate,
                distance,
                nearest,
                file,
                fresh_type,
                fresh,
                at,
            );
            match step {
                CandidateStepView::Done(Ok(OutcomeView::Merged { judge_called, .. })) => !judge_called
                    && after.metrics == engine.metrics.recorded(false),
                CandidateStepView::Done(Ok(OutcomeView::NewType { judge_called, .. })) => !judge_called
                    && after.metrics == engine.metrics.recorded(false),
                CandidateStepView::Done(Ok(OutcomeView::Rejected { .. })) => false,
                _ => true,
            }
        }),
        ({
            let (after, outcome) = engine.judged(
                candidate,
                decision,
                nearest,
                file,
                fresh_type,
                fresh,
                at,
            );
            match outcome {
                Ok(OutcomeView::Merged { judge_called, .. }) => judge_called && decision
                    == JudgeDecision::Merge && after.metrics == engine.metrics.recorded(true),
                Ok(OutcomeView::NewType { judge_called, .. }) => judge_called && decision
                    == JudgeDecision::NewType && after.metrics == engine.metrics.recorded(true),
                Ok(OutcomeView::Rejected { .. }) => decision == JudgeDecision::Reject && after.metrics
                    == engine.metrics.recorded(true),
                Err(_) => after.metrics == engine.metrics,
            }
        }),
{
}

/// A candidate that the judge refuses leaves no trace but in the counts.
pub proof fn law_refused_leaves_no_trace(
    engine: EngineView,
    candidate: CandidateView,
    nearest: Option<EntityTypeView>,
    file: Seq<char>,
    fresh_type: Uuid,
    fresh: Uuid,
    at: Seq<char>,
)
    ensures
        ({
            let (after, _) = engine.judged(
                candidate,
                JudgeDecision::Reject,
                nearest,
                file,
                fresh_type,
                fresh,
                at,
            );
            &&& after.types == engine.types
            &&& after.instances == engine.instances
            &&& after.profiles == engine.profiles
        }),
{
}

/// Whatever becomes of a candidate, the types and the graph stay valid.
pub proof fn law_candidates_keep_validity(
    engine: EngineView,
    candidate: CandidateView,
    distance: Score,
    decision: JudgeDecision,
    nearest: Option<EntityTypeView>,
    file: Seq<char>,
    fresh_type: Uuid,
    fresh: Uuid,
    at: Seq<char>,
)
    requires
        engine.types.valid(),
        engine.instances.valid(),
    ensures
        ({
            let after = engine.classified(
                candidate,
                distance,
                nearest,
                file,
                fresh_type,
                fresh,
                at,
            ).0;
            after.types.valid() && after.instances.valid()
        }),
        ({
            let after = engine.judged(
                candidate,
                decision,
                nearest,
                file,
                fresh_type,
                fresh,
                at,
            ).0;
            after.types.valid() && after.instances.valid()
        }),
{
    if nearest is Some {
        law_with_entity_valid(
            engine.instances,
            nearest->0.id,
            candidate.raw_name,
            file,
            fresh,
            at,
        );
    }
    let name = founded_type(candidate);
    let text = founded_description(candidate);
    law_registry_stays_valid(engine.types, engine.instances, name, text, fresh_type, at);
    let (_, t) = engine.types.with_entity_type(engine.instances, name, text, fresh_type, at);
    if t is Ok {
        law_with_entity_valid(engine.instances, t->Ok_0.id, candidate.raw_name, file, fresh, at);
    }
}

/// Seeing a relation type in a file keeps the registry valid, removes no type,
/// and takes no canonical status away.
pub proof fn law_promotion_keeps_types(
    engine: EngineView,
    name: Seq<char>,
    description: Seq<char>,
    file: Seq<char>,
    fresh: Uuid,
    at: Seq<char>,
)
    requires
        engine.types.valid(),
    ensures
        engine.promoting(name, description, file, fresh, at).0.types.valid(),
        keeps_relation_types(
            engine.types,
            engine.promoting(name, description, file, fresh, at).0.types,
        ),
        engine.promoting(name, description, file, fresh, at).0.instances == engine.instances,
{
    law_registry_stays_valid(engine.types, engine.instances, name, description, fresh, at);
    law_types_never_leave(engine.types, engine.instances, name, description, fresh, at);
    let (types, r) = engine.types.with_candidate(engine.instances, name, description, fresh, at);
    if r is Ok {
        let id = r->Ok_0.id;
        law_registry_stays_valid(types, engine.instances, name, file, id, at);
        law_types_never_leave(types, engine.instances, name, file, id, at);
        let hit = types.with_hit(id, file);
        law_registry_stays_valid(hit, engine.instances, name, file, id, at);
        law_types_never_leave(hit, engine.instances, name, file, id, at);
    }
}

/// A candidate relation type becomes canonical exactly when the number of
/// independent files that it was seen in reaches the threshold.
pub proof fn law_promotion_at_threshold(
    engine: EngineView,
    name: Seq<char>,
    description: Seq<char>,
    file: Seq<char>,
    fresh: Uuid,
    at: Seq<char>,
)
    requires
        engine.types.valid(),
        engine.types.relation_type(name) is Some,
        engine.types.relation_type(name)->0.status == RelationTypeStatus::Candidate,
        engine.types.hit_count(engine.types.relation_type(name)->0.id) < 0xffff_ffff,
    ensures
        ({
            let row = engine.types.relation_type(name)->0;
            let (after, r) = engine.promoting(name, description, file, fresh, at);
            let hits = engine.types.with_hit(row.id, file).hit_count(row.id);
            &&& r is Ok
            &&& r->Ok_0.id == row.id
            &&& r->Ok_0.status == RelationTypeStatus::Canonical <==> hits >= PROMOTION_THRESHOLD
            &&& after.types.relation_type(name) is Some
            &&& after.types.relation_type(name)->0.status == r->Ok_0.status
            &&& after.types.hit_count(row.id) == hits
        }),
{
    let row = engine.types.relation_type(name)->0;
    let p = |t: RelationTypeRowView| t.name == name;
    lemma_first_match(engine.types.relation_types, p);
    let new = RelationTypeRowView {
        id: fresh,
        name,
        description,
        status: RelationTypeStatus::Candidate,
        created_at: at,
    };
    let i = choose|i: int|
        0 <= i < engine.types.relation_types.len() && #[trigger] engine.types.relation_types[i] == row;
    assert(engine.types.relation_types[i].name == new.name);
    assert(engine.types.has_relation_type(new));
    law_hit_counts_once(engine.types, row.id, file);
    let hit = engine.types.with_hit(row.id, file);
    law_registry_stays_valid(engine.types, engine.instances, name, file, row.id, at);
    assert(hit.relation_type(name) == Some(row));
    law_promoted(hit, name);
}

/// A relation type that nobody knew is a candidate after it was first seen,
/// and the file counts for it.
pub proof fn law_first_sight_is_candidate(
    engine: EngineView,
    name: Seq<char>,
    description: Seq<char>,
    file: Seq<char>,
    fresh: Uuid,
    at: Seq<char>,
)
    requires
        engine.types.relation_type(name) is None,
        forall|i: int|
            0 <= i < engine.types.relation_types.len() ==> (#[trigger] engine.types.relation_types[i]).id
                != fresh,
        engine.types.hit_count(fresh) == 0,
    ensures
        ({
            let (after, r) = engine.promoting(name, description, file, fresh, at);
            &&& r is Ok
            &&& r->Ok_0.status == RelationTypeStatus::Candidate
            &&& after.types.relation_type(name) is Some
            &&& after.types.relation_type(name)->0.status == RelationTypeStatus::Candidate
            &&& after.types.relation_type(name)->0.id == fresh
            &&& after.types.hit_count(fresh) <= 1
        }),
{
    let p = |t: RelationTypeRowView| t.name == name;
    lemma_first_match(engine.types.relation_types, p);
    let new = RelationTypeRowView {
        id: fresh,
        name,
        description,
        status: RelationTypeStatus::Candidate,
        created_at: at,
    };
    assert(!engine.types.has_relation_type(new)) by {
        if engine.types.has_relation_type(new) {
            let i = choose|i: int|
                0 <= i < engine.types.relation_types.len() && ((
                #[trigger] engine.types.relation_types[i]).id == new.id
                    || engine.types.relation_types[i].name == new.name);
            assert(!p(engine.types.relation_types[i]));
        }
    }
    let types = engine.types.adding_relation_type(new);
    lemma_first_match_push(engine.types.relation_types, new, p);
    assert(types.relation_type(name) == Some(new));
    assert(types.hits == engine.types.hits);
    assert(types.hit_count(fresh) == 0);
    law_hit_counts_once(types, fresh, file);
}

/// What is canonical stays as it is when it is seen again, and no file is
/// counted for it.
pub proof fn law_canonical_is_settled(
    engine: EngineView,
    name: Seq<char>,
    description: Seq<char>,
    file: Seq<char>,
    fresh: Uuid,
    at: Seq<char>,
)
    requires
        engine.types.relation_type(name) is Some,
        engine.types.relation_type(name)->0.status == RelationTypeStatus::Canonical,
    ensures
        engine.promoting(name, description, file, fresh, at).0 == engine,
        engine.promoting(name, description, file, fresh, at).1 is Ok,
{
    let p = |t: RelationTypeRowView| t.name == name;
    lemma_first_match(engine.types.relation_types, p);
    let row = engine.types.relation_type(name)->0;
    let i = choose|i: int|
        0 <= i < engine.types.relation_types.len() && #[trigger] engine.types.relation_types[i] == row;
    let new = RelationTypeRowView {
        id: fresh,
        name,
        description,
        status: RelationTypeStatus::Candidate,
        created_at: at,
    };
    assert(engine.types.relation_types[i].name == new.name);
    assert(engine.types.has_relation_type(new));
}

/// A relation type was seen in a file.
pub struct Sighting {
    pub description: Seq<char>,
    pub file: Seq<char>,
    /// The id for the type, should it be new.
    pub fresh: Uuid,
    pub at: Seq<char>,
}

impl EngineView {
    /// The engine after the first `n` sightings of a relation type.
    pub open spec fn after_sightings(self, name: Seq<char>, seen: Seq<Sighting>, n: nat) -> EngineView
        decreases n, 0nat,
    {
        if n == 0 {
            self
        } else {
            self.sighting(name, seen, (n - 1) as nat).0
        }
    }

    /// What the sighting after the first `n` does, and what it returns.
    pub open spec fn sighting(self, name: Seq<char>, seen: Seq<Sighting>, n: nat) -> (
        EngineView,
        Result<RelationTypeView, OntologyErrorView>,
    )
        decreases n, 1nat,
    {
        let s = seen[n as int];
        self.after_sightings(name, seen, n).promoting(name, s.description, s.file, s.fresh, s.at)
    }
}

/// The different files among the first `n` sightings.
pub open spec fn files_seen(seen: Seq<Sighting>, n: nat) -> Set<Seq<char>>
    decreases n,
{
    if n == 0 {
        Set::empty()
    } else {
        files_seen(seen, (n - 1) as nat).insert(seen[n - 1].file)
    }
}

/// The relation type as the first `n` sightings of it leave it, the first of
/// which founded it.
pub open spec fn as_sighted(types: RegistryView, name: Seq<char>, seen: Seq<Sighting>, n: nat) -> bool {
    let row = types.relation_type(name)->0;
    let files = files_seen(seen, n);
    &&& types.valid()
    &&& files.finite()
    &&& types.relation_type(name) is Some
    &&& row.id == seen[0].fresh
    &&& row.name == name
    &&& row.description == seen[0].description
    &&& (row.status == RelationTypeStatus::Canonical) == (files.len() >= PROMOTION_THRESHOLD)
    &&& row.status == RelationTypeStatus::Candidate ==> types.hit_count(row.id) == files.len()
        && forall|f: Seq<char>|
        types.hits.contains(TypeHitView { type_id: row.id, file_path: f }) == #[trigger] files.contains(f)
}

proof fn lemma_hit_noted(types: RegistryView, id: Uuid, file: Seq<char>, f: Seq<char>)
    ensures
        types.with_hit(id, file).hits.contains(TypeHitView { type_id: id, file_path: f }) == (
        types.hits.contains(TypeHitView { type_id: id, file_path: f }) || f == file),
{
    let hit = TypeHitView { type_id: id, file_path: file };
    let wanted = TypeHitView { type_id: id, file_path: f };
    let after = types.with_hit(id, file);
    if !types.hits.contains(hit) {
        assert(after.hits[types.hits.len() as int] == hit);
        if types.hits.contains(wanted) {
            let i = choose|i: int| 0 <= i < types.hits.len() && types.hits[i] == wanted;
            assert(after.hits[i] == wanted);
        }
        if after.hits.contains(wanted) && f != file {
            let i = choose|i: int| 0 <= i < after.hits.len() && after.hits[i] == wanted;
            assert(types.hits[i] == wanted);
        }
    }
}

proof fn lemma_known_row(engine: EngineView, name: Seq<char>, row: RelationTypeRowView)
    requires
        engine.types.relation_type(name) is Some,
        row.name == name,
    ensures
        engine.types.relation_type(name)->0.name == name,
        engine.types.has_relation_type(row),
{
    lemma_first_match(engine.types.relation_types, |t: RelationTypeRowView| t.name == name);
    let v = engine.types.relation_type(name)->0;
    let i = choose|i: int|
        0 <= i < engine.types.relation_types.len() && #[trigger] engine.types.relation_types[i] == v;
    assert(engine.types.relation_types[i].name == row.name);
}

/// The first sighting of a type that nobody knew.
proof fn lemma_first_sighting(engine: EngineView, name: Seq<char>, seen: Seq<Sighting>)
    requires
        seen.len() > 0,
        engine.types.valid(),
        engine.types.relation_type(name) is None,
        forall|i: int|
            0 <= i < engine.types.hits.len() ==> (#[trigger] engine.types.hits[i]).type_id
                != seen[0].fresh,
        engine.sighting(name, seen, 0).1 is Ok,
    ensures
        as_sighted(engine.sighting(name, seen, 0).0.types, name, seen, 1),
        engine.sighting(name, seen, 0).1->Ok_0.id == seen[0].fresh,
        engine.sighting(name, seen, 0).1->Ok_0.name == name,
        engine.sighting(name, seen, 0).1->Ok_0.description == seen[0].description,
        engine.sighting(name, seen, 0).1->Ok_0.status == RelationTypeStatus::Candidate,
{
    let s = seen[0];
    let p = |t: RelationTypeRowView| t.name == name;
    let new = RelationTypeRowView {
        id: s.fresh,
        name,
        description: s.description,
        status: RelationTypeStatus::Candidate,
        created_at: s.at,
    };
    let types = engine.types.adding_relation_type(new);
    law_registry_stays_valid(engine.types, engine.instances, name, s.description, s.fresh, s.at);
    lemma_first_match_push(engine.types.relation_types, new, p);
    assert(types.relation_type(name) == Some(new));
    let of_type = |h: TypeHitView| h.type_id == s.fresh;
    let counted = types.hits.filter(of_type);
    if counted.len() > 0 {
        lemma_filter_from(types.hits, of_type, 0);
        let i = choose|i: int| 0 <= i < types.hits.len() && types.hits[i] == counted[0];
        assert(engine.types.hits[i].type_id != s.fresh);
    }
    assert(types.hit_count(s.fresh) == 0);
    law_hit_counts_once(types, s.fresh, s.file);
    law_registry_stays_valid(types, engine.instances, name, s.file, s.fresh, s.at);
    let hit = types.with_hit(s.fresh, s.file);
    assert(hit.relation_types == types.relation_types);
    assert(!types.hits.contains(TypeHitView { type_id: s.fresh, file_path: s.file }));
    assert(files_seen(seen, 1) =~= Set::<Seq<char>>::empty().insert(s.file)) by {
        assert(files_seen(seen, 0) =~= Set::<Seq<char>>::empty());
    }
    assert forall|f: Seq<char>|
        hit.hits.contains(TypeHitView { type_id: s.fresh, file_path: f }) == #[trigger] files_seen(
            seen,
            1,
        ).contains(f) by {
        lemma_hit_noted(types, s.fresh, s.file, f);
        if types.hits.contains(TypeHitView { type_id: s.fresh, file_path: f }) {
            let i = choose|i: int|
                0 <= i < types.hits.len() && types.hits[i] == (TypeHitView {
                    type_id: s.fresh,
                    file_path: f,
                });
            assert(engine.types.hits[i].type_id != s.fresh);
        }
    }
}

/// A later sighting.
proof fn lemma_next_sighting(engine: EngineView, name: Seq<char>, seen: Seq<Sighting>, n: nat)
    requires
        0 < n < seen.len(),
        as_sighted(engine.after_sightings(name, seen, n).types, name, seen, n),
    ensures
        engine.sighting(name, seen, n).1 is Ok,
        as_sighted(engine.sighting(name, seen, n).0.types, name, seen, n + 1),
        engine.sighting(name, seen, n).1->Ok_0.id == seen[0].fresh,
        engine.sighting(name, seen, n).1->Ok_0.name == name,
        engine.sighting(name, seen, n).1->Ok_0.description == seen[0].description,
        (engine.sighting(name, seen, n).1->Ok_0.status == RelationTypeStatus::Canonical) == (files_seen(
            seen,
            n + 1,
        ).len() >= PROMOTION_THRESHOLD),
{
    let before = engine.after_sightings(name, seen, n);
    let s = seen[n as int];
    let row = before.types.relation_type(name)->0;
    let new = RelationTypeRowView {
        id: s.fresh,
        name,
        description: s.description,
        status: RelationTypeStatus::Candidate,
        created_at: s.at,
    };
    lemma_known_row(before, name, new);
    let files = files_seen(seen, n);
    let after_files = files_seen(seen, n + 1);
    assert(after_files == files.insert(s.file));
    if row.status == RelationTypeStatus::Candidate {
        let hit = before.types.with_hit(row.id, s.file);
        law_hit_counts_once(before.types, row.id, s.file);
        assert(before.types.hits.contains(TypeHitView { type_id: row.id, file_path: s.file })
            == files.contains(s.file));
        assert(hit.hit_count(row.id) == after_files.len());
        law_registry_stays_valid(before.types, before.instances, name, s.file, row.id, s.at);
        assert(hit.relation_type(name) == Some(row));
        assert forall|f: Seq<char>|
            hit.hits.contains(TypeHitView { type_id: row.id, file_path: f })
                == #[trigger] after_files.contains(f) by {
            lemma_hit_noted(before.types, row.id, s.file, f);
            assert(before.types.hits.contains(TypeHitView { type_id: row.id, file_path: f })
                == files.contains(f));
        }
        law_promoted(hit, name);
        law_registry_stays_valid(hit, before.instances, name, s.file, row.id, s.at);
    }
}

proof fn lemma_sightings(engine: EngineView, name: Seq<char>, seen: Seq<Sighting>, n: nat)
    requires
        0 < n <= seen.len(),
        engine.types.valid(),
        engine.types.relation_type(name) is None,
        forall|i: int|
            0 <= i < engine.types.hits.len() ==> (#[trigger] engine.types.hits[i]).type_id
                != seen[0].fresh,
        engine.sighting(name, seen, 0).1 is Ok,
    ensures
        as_sighted(engine.after_sightings(name, seen, n).types, name, seen, n),
    decreases n,
{
    if n == 1 {
        lemma_first_sighting(engine, name, seen);
    } else {
        lemma_sightings(engine, name, seen, (n - 1) as nat);
        lemma_next_sighting(engine, name, seen, (n - 1) as nat);
    }
}

/// However often a relation type that nobody knew is seen, it is canonical
/// exactly from the sighting on with which it was seen in three different
/// files. It stays one type, under the id that it was founded with, and keeps
/// its first description. Only the first sighting can fail, where the id drawn
/// for the type is taken.
pub proof fn law_promotion_over_sightings(
    engine: EngineView,
    name: Seq<char>,
    seen: Seq<Sighting>,
    n: nat,
)
    requires
        n < seen.len(),
        engine.types.valid(),
        engine.types.relation_type(name) is None,
        forall|i: int|
            0 <= i < engine.types.hits.len() ==> (#[trigger] engine.types.hits[i]).type_id
                != seen[0].fresh,
        engine.sighting(name, seen, 0).1 is Ok,
    ensures
        ({
            let (after, r) = engine.sighting(name, seen, n);
            let types = after.types;
            &&& r is Ok
            &&& r->Ok_0.id == seen[0].fresh
            &&& r->Ok_0.name == name
            &&& r->Ok_0.description == seen[0].description
            &&& r->Ok_0.status == RelationTypeStatus::Canonical <==> files_seen(seen, n + 1).len() >= 3
            &&& types.relation_type(name) is Some
            &&& types.relation_type(name)->0.id == seen[0].fresh
            &&& types.relation_type(name)->0.description == seen[0].description
            &&& types.relation_type(name)->0.status == r->Ok_0.status
            &&& forall|i: int, j: int|
                0 <= i < types.relation_types.len() && 0 <= j < types.relation_types.len() && (
                #[trigger] types.relation_types[i]).name == name && (
                #[trigger] types.relation_types[j]).name == name ==> i == j
        }),
{
    if n == 0 {
        lemma_first_sighting(engine, name, seen);
    } else {
        lemma_sightings(engine, name, seen, n);
        lemma_next_sighting(engine, name, seen, n);
    }
}

proof fn lemma_files_grow(seen: Seq<Sighting>, m: nat, n: nat)
    requires
        m <= n <= seen.len(),
    ensures
        files_seen(seen, n).finite(),
        files_seen(seen, m).len() <= files_seen(seen, n).len(),
    decreases n,
{
    if n > 0 {
        let k = (n - 1) as nat;
        lemma_files_grow(
            seen,
            if m < n {
                m
            } else {
                k
            },
            k,
        );
    }
}

/// A relation type that became canonical is so at every later sighting.
pub proof fn law_canonical_stays(
    engine: EngineView,
    name: Seq<char>,
    seen: Seq<Sighting>,
    m: nat,
    n: nat,
)
    requires
        m <= n < seen.len(),
        engine.types.valid(),
        engine.types.relation_type(name) is None,
        forall|i: int|
            0 <= i < engine.types.hits.len() ==> (#[trigger] engine.types.hits[i]).type_id
                != seen[0].fresh,
        engine.sighting(name, seen, 0).1 is Ok,
        engine.sighting(name, seen, m).1->Ok_0.status == RelationTypeStatus::Canonical,
    ensures
        engine.sighting(name, seen, n).1 is Ok,
        engine.sighting(name, seen, n).1->Ok_0.status == RelationTypeStatus::Canonical,
{
    law_promotion_over_sightings(engine, name, seen, m);
    law_promotion_over_sightings(engine, name, seen, n);
    lemma_files_grow(seen, m + 1, n + 1);
}

} // verus!
