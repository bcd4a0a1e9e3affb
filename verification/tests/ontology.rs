//! Types, entities, relations, and what becomes of candidates.

use kern::chunk_run::{ChunkRun, ChunkStep};
use kern::embedding_cache::{candidate_key, EmbeddingCache};
use kern::engine::{
    AmbiguousZoneConfig, CandidateStep, ClassificationOutcome, OntologyEngine, Zone,
};
use kern::graph::InstanceGraph;
use kern::ids::Uuid;
use kern::metrics::FallbackMetrics;
use kern::model::{CandidateEntity, JudgeDecision, ModelError};
use kern::profiles::ProfileStore;
use kern::records::{EntityTypeRecord, OntologyError, RelationRecord, RelationTypeStatus};
use kern::registry::{TypeRegistry, PROMOTION_THRESHOLD, SEED_RELATION_TYPES};
use kern::scores::{nearest, Score};
use kern::supply::IdSource;

fn score(x: f32) -> Score {
    Score { bits: x.to_bits() }
}

fn engine() -> OntologyEngine {
    OntologyEngine::new(
        TypeRegistry::new(),
        InstanceGraph::new(),
        ProfileStore::new(),
        AmbiguousZoneConfig::default(),
    )
}

fn candidate(name: &str, hint: Option<&str>) -> CandidateEntity {
    CandidateEntity { raw_name: name.to_string(), raw_type_hint: hint.map(|h| h.to_string()) }
}

fn relation(type_id: Uuid, from: Uuid, to: Uuid) -> RelationRecord {
    RelationRecord {
        id: Uuid::new_v4(),
        type_id,
        source_entity_id: from,
        target_entity_id: to,
        confidence: score(1.0),
        evidence_chunk_id: Uuid::new_v4(),
    }
}

fn make_type(e: &mut OntologyEngine, name: &str, description: &str) -> EntityTypeRecord {
    e.types.find_or_create_entity_type(&e.instances, name, description).unwrap()
}

#[test]
fn seed_seeds_the_8_canonical_types() {
    let graph = InstanceGraph::new();
    let mut repo = TypeRegistry::new();
    repo.seed_canonical_vocabulary();
    for name in SEED_RELATION_TYPES {
        let record = repo.find_relation_type(&graph, name).unwrap();
        assert_eq!(record.status, RelationTypeStatus::Canonical);
        assert_eq!(record.description, format!("seeded canonical type: {name}"));
    }
    assert_eq!(repo.relation_types.len(), 8);
}

#[test]
fn seed_is_idempotent() {
    let graph = InstanceGraph::new();
    let mut repo = TypeRegistry::new();
    repo.seed_canonical_vocabulary();
    let first: Vec<Uuid> = repo.relation_types.iter().map(|t| t.id).collect();
    repo.seed_canonical_vocabulary();
    let record = repo.find_relation_type(&graph, "depends_on").unwrap();
    assert_eq!(record.status, RelationTypeStatus::Canonical);
    let second: Vec<Uuid> = repo.relation_types.iter().map(|t| t.id).collect();
    assert_eq!(first, second);
}

#[test]
fn instance_count_reflects_real_entities_and_relations() {
    let mut types = TypeRegistry::new();
    let mut instances = InstanceGraph::new();
    types.seed_canonical_vocabulary();
    let entity_type = types.find_or_create_entity_type(&instances, "Crate", "a crate").unwrap();
    assert_eq!(entity_type.instance_count, 0);
    let a = instances.find_or_create_entity(entity_type.id, "kern-a", "a.md").unwrap();
    instances.find_or_create_entity(entity_type.id, "kern-b", "b.md").unwrap();
    let refreshed = types.find_or_create_entity_type(&instances, "Crate", "a crate").unwrap();
    assert_eq!(refreshed.instance_count, 2);
    let listed = types.list_entity_types(&instances);
    assert_eq!(listed.iter().find(|t| t.name == "Crate").unwrap().instance_count, 2);

    let depends_on = types.find_relation_type(&instances, "depends_on").unwrap();
    assert_eq!(depends_on.instance_count, 0);
    let b = instances.find_or_create_entity(entity_type.id, "kern-b", "b.md").unwrap();
    instances.record_relation(relation(depends_on.id, a.id, b.id));
    let refreshed = types.find_relation_type(&instances, "depends_on").unwrap();
    assert_eq!(refreshed.instance_count, 1);
}

#[test]
fn register_candidate_is_get_or_create() {
    let graph = InstanceGraph::new();
    let mut repo = TypeRegistry::new();
    let first =
        repo.register_candidate_type(&graph, "relates_loosely_to", "emergent test type").unwrap();
    assert_eq!(first.status, RelationTypeStatus::Candidate);
    let second = repo
        .register_candidate_type(&graph, "relates_loosely_to", "description ignored on the 2nd call")
        .unwrap();
    assert_eq!(first.id, second.id, "get-or-create shouldn't duplicate");
    assert_eq!(second.description, "emergent test type");
}

#[test]
fn promotion_to_canonical_after_threshold_of_independent_files() {
    let graph = InstanceGraph::new();
    let mut repo = TypeRegistry::new();
    let candidate = repo.register_candidate_type(&graph, "influences", "emergent type").unwrap();
    let mut last_count = 0;
    for i in 0..PROMOTION_THRESHOLD {
        last_count = repo.record_independent_hit(candidate.id, &format!("doc-{i}.md"));
    }
    assert_eq!(last_count, PROMOTION_THRESHOLD);
    let repeated = repo.record_independent_hit(candidate.id, "doc-0.md");
    assert_eq!(repeated, PROMOTION_THRESHOLD, "the same file doesn't count twice");
    repo.promote_to_canonical(candidate.id);
    let promoted = repo.find_relation_type(&graph, "influences").unwrap();
    assert_eq!(promoted.status, RelationTypeStatus::Canonical);
}

#[test]
fn find_or_create_entity_does_not_duplicate_and_preserves_first_seen_file() {
    let mut repo = InstanceGraph::new();
    let type_id = Uuid::new_v4();
    let first = repo.find_or_create_entity(type_id, "kern-ontology", "arch.md").unwrap();
    let second = repo.find_or_create_entity(type_id, "kern-ontology", "other-file.md").unwrap();
    assert_eq!(first.id, second.id, "same entity, shouldn't duplicate");
    assert_eq!(second.first_seen_file, "arch.md", "first_seen_file is immutable after creation");
    assert!(first.updated_at.parse::<u64>().unwrap() > 1_600_000_000);
}

#[test]
fn a_taken_id_is_refused() {
    let mut repo = InstanceGraph::new();
    let (t, id) = (Uuid { bits: 1 }, Uuid { bits: 2 });
    repo.find_or_create_entity_as(t, "a", "a.md", id, "0").unwrap();
    match repo.find_or_create_entity_as(t, "b", "b.md", id, "0") {
        Err(OntologyError::IdTaken(taken)) => assert_eq!(taken, id),
        other => panic!("expected IdTaken, got {other:?}"),
    }
    let mut types = TypeRegistry::new();
    types.find_or_create_entity_type_as(&repo, "X", "x", id, "0").unwrap();
    assert!(types.find_or_create_entity_type_as(&repo, "Y", "y", id, "0").is_err());
    types.register_candidate_type_as(&repo, "x", "x", id, "0").unwrap();
    assert!(types.register_candidate_type_as(&repo, "y", "y", id, "0").is_err());
}

#[test]
fn relations_require_evidence_and_related_entities_walks_the_graph() {
    let mut repo = InstanceGraph::new();
    let type_id = Uuid::new_v4();
    let a = repo.find_or_create_entity(type_id, "kern-ingest", "a.md").unwrap();
    let b = repo.find_or_create_entity(type_id, "kern-model", "b.md").unwrap();
    let c = repo.find_or_create_entity(type_id, "kern-vector", "c.md").unwrap();
    repo.record_relation(relation(type_id, a.id, b.id));
    repo.record_relation(relation(type_id, b.id, c.id));
    let depth1 = repo.related_entities(a.id, 1);
    assert_eq!(depth1.len(), 1);
    assert_eq!(depth1[0].id, b.id);
    let depth2 = repo.related_entities(a.id, 2);
    assert_eq!(depth2.len(), 2, "depth 2 should reach c via b");
    assert!(depth2.iter().any(|e| e.id == c.id));
    assert!(repo.related_entities(a.id, 0).is_empty(), "nothing is within no hops");
    assert_eq!(repo.related_entities(a.id, u32::MAX).len(), 2);
    assert!(repo.related_entities(Uuid { bits: 7 }, 3).is_empty());
}

#[test]
fn record_relation_is_idempotent_across_repeated_indexing_passes() {
    let mut repo = InstanceGraph::new();
    let type_id = Uuid::new_v4();
    let source = repo.find_or_create_entity(type_id, "TASK-010b", "a.md").unwrap();
    let target = repo.find_or_create_entity(type_id, "TASK-010a", "a.md").unwrap();
    repo.record_relation(relation(type_id, source.id, target.id));
    repo.record_relation(relation(type_id, source.id, target.id));
    assert_eq!(repo.direct_relations(source.id).len(), 1);
    // The other direction is another relation.
    repo.record_relation(relation(type_id, target.id, source.id));
    assert_eq!(repo.direct_relations(source.id).len(), 2);
}

#[test]
fn find_entities_by_name_is_case_insensitive_and_by_substring() {
    let mut repo = InstanceGraph::new();
    let type_id = Uuid::new_v4();
    repo.find_or_create_entity(type_id, "kern-ontology", "a.md").unwrap();
    repo.find_or_create_entity(type_id, "kern-vector", "b.md").unwrap();
    let found = repo.find_entities_by_name("ONTOLOGY");
    assert_eq!(found.len(), 1);
    assert_eq!(found[0].canonical_name, "kern-ontology");
    assert_eq!(repo.find_entities_by_name("kern").len(), 2);
    repo.find_or_create_entity(type_id, "ÁREA", "c.md").unwrap();
    assert_eq!(repo.find_entities_by_name("área").len(), 1);
    assert!(repo.find_entities_by_name("k_rn").is_empty(), "no wildcards");
    let names: Vec<String> =
        repo.find_entities_by_name("").into_iter().map(|e| e.canonical_name).collect();
    assert_eq!(names, vec!["kern-ontology", "kern-vector", "ÁREA"], "ordered by name");
}

#[test]
fn find_path_finds_the_shortest_path() {
    let mut repo = InstanceGraph::new();
    let type_id = Uuid::new_v4();
    let a = repo.find_or_create_entity(type_id, "a", "a.md").unwrap();
    let b = repo.find_or_create_entity(type_id, "b", "b.md").unwrap();
    let c = repo.find_or_create_entity(type_id, "c", "c.md").unwrap();
    let d = repo.find_or_create_entity(type_id, "d", "d.md").unwrap();
    repo.record_relation(relation(type_id, a.id, b.id));
    repo.record_relation(relation(type_id, b.id, c.id));
    let path = repo.find_path(a.id, c.id, 5);
    assert!(path.is_some());
    assert_eq!(path.unwrap().len(), 2, "a->b->c is 2 hops");
    // Relations are followed either way, and a detour is not taken.
    repo.record_relation(relation(type_id, a.id, d.id));
    repo.record_relation(relation(type_id, c.id, d.id));
    repo.record_relation(relation(type_id, c.id, c.id));
    let back = repo.find_path(c.id, a.id, 5).unwrap();
    assert_eq!(back.len(), 2);
    assert_eq!(repo.find_path(a.id, a.id, 5).unwrap().len(), 0);
    assert!(repo.find_path(a.id, c.id, 1).is_none());
    assert!(repo.find_path(a.id, b.id, 0).is_none());
    assert!(repo.find_path(a.id, a.id, 0).is_some());
}

#[test]
fn what_is_related_is_connected_from_both_ends() {
    let mut repo = InstanceGraph::new();
    let type_id = Uuid::new_v4();
    let a = repo.find_or_create_entity(type_id, "a", "a.md").unwrap();
    let b = repo.find_or_create_entity(type_id, "b", "b.md").unwrap();
    let c = repo.find_or_create_entity(type_id, "c", "c.md").unwrap();
    repo.record_relation(relation(type_id, a.id, b.id));
    repo.record_relation(relation(type_id, b.id, c.id));
    for depth in 1..4 {
        let forth = repo.related_entities(a.id, depth).iter().any(|e| e.id == c.id);
        let back = repo.related_entities(c.id, depth).iter().any(|e| e.id == a.id);
        assert_eq!(forth, depth >= 2);
        assert_eq!(back, forth);
        assert_eq!(repo.find_path(a.id, c.id, depth).is_some(), forth);
    }
    // A new type changes no path.
    repo.retype_entity(b.id, Uuid::new_v4()).unwrap();
    assert_eq!(repo.find_path(a.id, c.id, 5).unwrap().len(), 2);
}

#[test]
fn find_path_returns_none_without_a_connection() {
    let mut repo = InstanceGraph::new();
    let type_id = Uuid::new_v4();
    let a = repo.find_or_create_entity(type_id, "a", "a.md").unwrap();
    let isolated = repo.find_or_create_entity(type_id, "isolated", "z.md").unwrap();
    assert!(repo.find_path(a.id, isolated.id, 5).is_none());
}

#[test]
fn list_types_returns_registered_types() {
    let graph = InstanceGraph::new();
    let mut types = TypeRegistry::new();
    types.seed_canonical_vocabulary();
    types.find_or_create_entity_type(&graph, "Crate", "a crate").unwrap();
    let entity_types = types.list_entity_types(&graph);
    assert_eq!(entity_types.len(), 1);
    assert_eq!(entity_types[0].name, "Crate");
    let relation_types = types.list_relation_types(&graph);
    assert_eq!(relation_types.len(), SEED_RELATION_TYPES.len());
    let names: Vec<&str> = relation_types.iter().map(|t| t.name.as_str()).collect();
    let mut sorted = names.clone();
    sorted.sort();
    assert_eq!(names, sorted, "ordered by name");
}

#[test]
fn retyping_keeps_everything_but_the_type() {
    let mut repo = InstanceGraph::new();
    let (t, u) = (Uuid { bits: 1 }, Uuid { bits: 2 });
    let a = repo.find_or_create_entity(t, "a", "a.md").unwrap();
    let b = repo.find_or_create_entity(t, "b", "b.md").unwrap();
    repo.record_relation(relation(t, b.id, a.id));
    let retyped = repo.retype_entity(a.id, u).unwrap();
    assert_eq!((retyped.id, retyped.type_id), (a.id, u));
    assert_eq!(retyped.first_seen_file, "a.md");
    assert_eq!(repo.entity(b.id).unwrap().type_id, t);
    assert_eq!(repo.direct_relations(a.id).len(), 1);
    match repo.retype_entity(Uuid { bits: 99 }, u) {
        Err(OntologyError::EntityNotFound(id)) => assert_eq!(id, Uuid { bits: 99 }),
        other => panic!("expected EntityNotFound, got {other:?}"),
    }
}

#[test]
fn low_distance_merges_without_calling_judge() {
    let mut e = engine();
    let existing = make_type(&mut e, "Crate", "a crate from the kern workspace");
    let mut ids = IdSource::random();
    let step = e.process_candidate(
        &candidate("kern-ontology", Some("Crate")),
        score(0.05),
        Some(&existing),
        "docs/a.md",
        &mut ids,
        "0",
    );
    match step {
        CandidateStep::Done(Ok(ClassificationOutcome::Merged { judge_called, entity })) => {
            assert!(!judge_called, "low distance shouldn't call judge()");
            assert_eq!(entity.type_id, existing.id);
        }
        other => panic!("expected Merged, got {other:?}"),
    }
}

#[test]
fn high_distance_creates_new_type_without_calling_judge() {
    let mut e = engine();
    let mut ids = IdSource::given(vec![Uuid { bits: 11 }, Uuid { bits: 12 }]);
    let step = e.process_candidate(
        &candidate("kern-mcp", Some("Crate")),
        score(0.9),
        None,
        "docs/b.md",
        &mut ids,
        "7",
    );
    match step {
        CandidateStep::Done(Ok(ClassificationOutcome::NewType { judge_called, entity, entity_type })) => {
            assert!(!judge_called, "high distance shouldn't call judge()");
            assert_eq!(entity_type.name, "Crate");
            assert_eq!(entity_type.description, "type inferred from 'kern-mcp'");
            assert_eq!(entity_type.id, Uuid { bits: 11 });
            assert_eq!(entity.id, Uuid { bits: 12 });
            assert_eq!(entity.updated_at, "7");
        }
        other => panic!("expected NewType, got {other:?}"),
    }
}

#[test]
fn ambiguous_zone_calls_judge_and_applies_the_decision() {
    for decision in [JudgeDecision::Merge, JudgeDecision::NewType, JudgeDecision::Reject] {
        let mut e = engine();
        let existing = make_type(&mut e, "Crate", "a Rust crate from the workspace");
        let mut ids = IdSource::random();
        let c = candidate("kern-cli", Some("Crate"));
        let step =
            e.process_candidate(&c, score(0.25), Some(&existing), "docs/c.md", &mut ids, "0");
        match step {
            CandidateStep::Judge(hint) => {
                assert_eq!(hint.len(), 1);
                assert_eq!(hint[0].name, "Crate");
            }
            other => panic!("expected Judge, got {other:?}"),
        }
        assert_eq!(e.metrics.total(), 0);
        let outcome =
            e.apply_judgement(&c, decision, Some(&existing), "docs/c.md", &mut ids, "0").unwrap();
        let judge_was_called = matches!(
            outcome,
            ClassificationOutcome::Merged { judge_called: true, .. }
                | ClassificationOutcome::NewType { judge_called: true, .. }
                | ClassificationOutcome::Rejected { .. }
        );
        assert!(judge_was_called, "ambiguous zone should have called judge(): {outcome:?}");
        if let ClassificationOutcome::Rejected { reason } = outcome {
            assert_eq!(reason, "judge() rejected candidate 'kern-cli'");
        }
        assert_eq!((e.metrics.total(), e.metrics.fallback_total()), (1, 1));
    }
}

#[test]
fn a_missing_nearest_type_is_an_error() {
    let mut e = engine();
    let mut ids = IdSource::random();
    let c = candidate("x", None);
    match e.process_candidate(&c, score(0.1), None, "a.md", &mut ids, "0") {
        CandidateStep::Done(Err(OntologyError::RelationTypeNotFound(m))) => {
            assert_eq!(m, "low distance reported without a nearest type")
        }
        other => panic!("expected an error, got {other:?}"),
    }
    match e.apply_judgement(&c, JudgeDecision::Merge, None, "a.md", &mut ids, "0") {
        Err(OntologyError::JudgeUndecided) => {}
        other => panic!("expected JudgeUndecided, got {other:?}"),
    }
    assert_eq!(e.metrics.total(), 0);
    match e.process_candidate(&c, score(0.2), None, "a.md", &mut ids, "0") {
        CandidateStep::Judge(hint) => assert!(hint.is_empty()),
        other => panic!("expected Judge, got {other:?}"),
    }
}

#[test]
fn zones_have_their_documented_edges() {
    let zone = AmbiguousZoneConfig::default();
    assert_eq!(f32::from_bits(zone.low_distance_max.bits), 0.15);
    assert_eq!(f32::from_bits(zone.high_distance_min.bits), 0.35);
    assert_eq!(zone.classify(score(0.15)), Zone::Low);
    assert_eq!(zone.classify(score(0.151)), Zone::Ambiguous);
    assert_eq!(zone.classify(score(0.35)), Zone::High);
    assert_eq!(zone.classify(score(-0.5)), Zone::Low);
    assert_eq!(zone.classify(score(f32::NAN)), Zone::Ambiguous);
}

#[test]
fn scores_compare_as_floats_do() {
    let samples = [
        0.0, -0.0, 1.0, -1.0, 0.15, 1e-45, -1e-45, f32::MAX, f32::MIN, f32::INFINITY,
        f32::NEG_INFINITY, f32::NAN,
    ];
    for a in samples {
        for b in samples {
            assert_eq!(score(a).less(score(b)), a < b, "{a} < {b}");
            assert_eq!(score(a).at_most(score(b)), a <= b, "{a} <= {b}");
        }
    }
    assert_eq!(nearest(&vec![score(0.4), score(0.2), score(0.2)]), Some(1));
    assert_eq!(nearest(&Vec::new()), None);
}

#[test]
fn evaluate_promotion_promotes_after_threshold_via_engine() {
    let mut e = engine();
    let mut ids = IdSource::random();
    let mut last = None;
    for i in 0..PROMOTION_THRESHOLD {
        last = Some(
            e.evaluate_promotion("influences", "emergent type", &format!("doc-{i}.md"), &mut ids, "0")
                .unwrap(),
        );
    }
    assert_eq!(last.unwrap().status, RelationTypeStatus::Canonical);
    // Once canonical it is settled.
    let again =
        e.evaluate_promotion("influences", "emergent type", "doc-9.md", &mut ids, "0").unwrap();
    assert_eq!(again.status, RelationTypeStatus::Canonical);
    assert_eq!(e.types.count_hits(again.id), PROMOTION_THRESHOLD);
}

#[test]
fn evaluate_promotion_does_not_promote_before_threshold() {
    let mut e = engine();
    let mut ids = IdSource::random();
    let record =
        e.evaluate_promotion("influences", "emergent type", "doc-0.md", &mut ids, "0").unwrap();
    assert_eq!(record.status, RelationTypeStatus::Candidate);
    for _ in 0..5 {
        let again =
            e.evaluate_promotion("influences", "emergent type", "doc-0.md", &mut ids, "0").unwrap();
        assert_eq!(again.status, RelationTypeStatus::Candidate, "one file, however often");
    }
}

#[test]
fn taxa_comeca_em_zero_sem_processar_nada() {
    let m = FallbackMetrics::new();
    let (n, d) = m.fallback_rate();
    assert_eq!(n as f64 / d as f64, 0.0);
    assert_eq!(m.total(), 0);
}

#[test]
fn taxa_reflete_proporcao_de_fallback() {
    let mut m = FallbackMetrics::new();
    m.record(false);
    m.record(false);
    m.record(true);
    m.record(false);
    assert_eq!(m.total(), 4);
    assert_eq!(m.fallback_total(), 1);
    let (n, d) = m.fallback_rate();
    assert!((n as f64 / d as f64 - 0.25).abs() < f64::EPSILON);
}

#[test]
fn fallback_metric_reflects_real_calls_to_judge() {
    let mut e = engine();
    assert_eq!(e.metrics.fallback_rate(), (0, 1));
    let existing = make_type(&mut e, "Crate", "a crate");
    let mut ids = IdSource::random();
    for name in ["kern-a", "kern-b"] {
        e.process_candidate(
            &candidate(name, Some("Crate")),
            score(0.05),
            Some(&existing),
            "docs/x.md",
            &mut ids,
            "0",
        );
    }
    assert_eq!(e.metrics.total(), 2);
    assert_eq!(e.metrics.fallback_total(), 0);
    assert_eq!(e.metrics.fallback_rate(), (0, 2));
}

/// Counts the embeddings that are computed; every text has the same one.
struct Embedder {
    cache: EmbeddingCache,
    calls: usize,
}

impl Embedder {
    fn text(&mut self, text: &str) -> Vec<Score> {
        if let Some(known) = self.cache.text_embedding(text) {
            return known;
        }
        self.calls += 1;
        self.cache.remember_text(text, vec![score(1.0)]);
        vec![score(1.0)]
    }

    fn of_type(&mut self, t: &EntityTypeRecord) -> Vec<Score> {
        if let Some(known) = self.cache.type_embedding(t.id) {
            return known;
        }
        self.calls += 1;
        self.cache.remember_type(t.id, vec![score(1.0)]);
        vec![score(1.0)]
    }
}

fn process_chunk(
    e: &mut OntologyEngine,
    embedder: &mut Embedder,
    candidates: Vec<CandidateEntity>,
    file: &str,
) -> Vec<ClassificationOutcome> {
    let mut ids = IdSource::random();
    let mut run = ChunkRun::new(e.reserved_names(), candidates);
    loop {
        let (types, distances) = match run.step(e) {
            ChunkStep::Finished => return run.outcomes,
            ChunkStep::Refuse(reason) => {
                run.refuse(reason);
                continue;
            }
            ChunkStep::Unmeasured => (Vec::new(), Vec::new()),
            ChunkStep::Measure { probe, types } => {
                let mine = embedder.text(&probe);
                let distances = types
                    .iter()
                    .map(|t| {
                        let theirs = embedder.of_type(t);
                        score(if mine == theirs { 0.0 } else { 1.0 })
                    })
                    .collect();
                (types, distances)
            }
        };
        let asked = run.classify(e, &types, &distances, file, &mut ids, "0").unwrap();
        assert!(asked.is_none(), "the judge should not be called");
    }
}

#[test]
fn type_description_embeddings_are_cached_across_candidates_and_chunks() {
    let mut e = engine();
    let mut embedder = Embedder { cache: EmbeddingCache::new(), calls: 0 };
    for name in ["TypeA", "TypeB", "TypeC", "TypeD"] {
        make_type(&mut e, name, &format!("description of {name}"));
    }
    let first = vec![candidate("alpha", None), candidate("beta", None)];
    process_chunk(&mut e, &mut embedder, first, "docs/a.md");
    let second = vec![candidate("gamma", None), candidate("delta", None), candidate("epsilon", None)];
    process_chunk(&mut e, &mut embedder, second, "docs/b.md");
    assert_eq!(embedder.calls, 9);
}

#[test]
fn candidate_embeddings_are_cached_by_normalized_text() {
    let mut e = engine();
    let mut embedder = Embedder { cache: EmbeddingCache::new(), calls: 0 };
    for name in ["TypeA", "TypeB"] {
        make_type(&mut e, name, &format!("description of {name}"));
    }
    let first = vec![candidate("alpha", None), candidate("alpha", None)];
    process_chunk(&mut e, &mut embedder, first, "docs/a.md");
    let second = vec![candidate("ALPHA", None), candidate("beta", None)];
    process_chunk(&mut e, &mut embedder, second, "docs/b.md");
    assert_eq!(embedder.calls, 4);
    assert_eq!(candidate_key("  ÁLPHA \n"), "álpha");
}

#[test]
fn entity_type_list_cache_is_invalidated_when_a_new_type_is_created() {
    let mut e = engine();
    let mut embedder = Embedder { cache: EmbeddingCache::new(), calls: 0 };
    let round1 = process_chunk(&mut e, &mut embedder, vec![candidate("widget", None)], "docs/a.md");
    assert!(matches!(round1[0], ClassificationOutcome::NewType { .. }));
    let round2 = process_chunk(&mut e, &mut embedder, vec![candidate("widget", None)], "docs/b.md");
    assert!(matches!(round2[0], ClassificationOutcome::Merged { .. }));
    assert_eq!(e.types.list_entity_types(&e.instances).len(), 1);
}

#[test]
fn candidate_colliding_with_a_reserved_relation_type_name_is_rejected() {
    let mut e = engine();
    e.types.seed_canonical_vocabulary();
    let mut embedder = Embedder { cache: EmbeddingCache::new(), calls: 0 };
    let candidates = vec![candidate("depends_on", None), candidate("TASK-010b", None)];
    let outcomes = process_chunk(&mut e, &mut embedder, candidates, "docs/a.md");
    assert_eq!(outcomes.len(), 2);
    match &outcomes[0] {
        ClassificationOutcome::Rejected { reason } => assert_eq!(
            reason,
            "candidate 'depends_on' collides with a reserved relation-type name — likely the \
             model extracted the field name itself rather than a domain entity"
        ),
        other => panic!("'depends_on' should be rejected, got {other:?}"),
    }
    assert!(matches!(outcomes[1], ClassificationOutcome::NewType { .. }));
    assert_eq!(embedder.calls, 0);
    let shouting = process_chunk(&mut e, &mut embedder, vec![candidate("DEPENDS_ON", None)], "b.md");
    assert!(matches!(shouting[0], ClassificationOutcome::Rejected { .. }));
}

#[test]
fn a_type_is_canonical_from_its_third_file_on() {
    let mut e = engine();
    let mut ids = IdSource::random();
    let files = ["a.md", "a.md", "b.md", "a.md", "c.md", "c.md", "d.md"];
    let mut first: Option<Uuid> = None;
    for (k, file) in files.iter().enumerate() {
        let record =
            e.evaluate_promotion("influences", &format!("d{k}"), file, &mut ids, "0").unwrap();
        let expected =
            if k < 4 { RelationTypeStatus::Candidate } else { RelationTypeStatus::Canonical };
        assert_eq!(record.status, expected);
        assert_eq!(record.description, "d0");
        assert_eq!(record.id, *first.get_or_insert(record.id));
    }
    assert_eq!(e.types.relation_types.len(), 1);
}

#[test]
fn a_model_is_told_the_canonical_types_only() {
    let mut e = engine();
    e.types.seed_canonical_vocabulary();
    let mut ids = IdSource::random();
    e.evaluate_promotion("influences", "d", "a.md", &mut ids, "0").unwrap();
    assert_eq!(e.vocabulary().canonical_types.len(), 8);
    assert!(!e.vocabulary().canonical_types.contains(&"influences".to_string()));
    assert!(e.reserved_names().contains(&"influences".to_string()), "reserved all the same");
    e.evaluate_promotion("influences", "d", "b.md", &mut ids, "0").unwrap();
    e.evaluate_promotion("influences", "d", "c.md", &mut ids, "0").unwrap();
    assert!(e.vocabulary().canonical_types.contains(&"influences".to_string()));
}

#[test]
fn process_chunk_with_no_existing_types_creates_new_type() {
    let mut e = engine();
    let mut embedder = Embedder { cache: EmbeddingCache::new(), calls: 0 };
    let outcomes =
        process_chunk(&mut e, &mut embedder, vec![candidate("kern-vector", Some("Crate"))], "v.md");
    assert!(!outcomes.is_empty());
    assert!(outcomes.iter().all(|o| matches!(o, ClassificationOutcome::NewType { .. })));
}

#[test]
fn a_judge_that_is_asked_decides_the_candidate() {
    let mut e = engine();
    make_type(&mut e, "Crate", "a crate");
    let mut ids = IdSource::random();
    let mut run = ChunkRun::new(e.reserved_names(), vec![candidate("x", None)]);
    let types = e.types.list_entity_types(&e.instances);
    let distances = vec![score(0.2)];
    let hint = run.classify(&mut e, &types, &distances, "a.md", &mut ids, "0").unwrap();
    assert_eq!(hint.unwrap()[0].name, "Crate");
    assert!(run.outcomes.is_empty());
    run.judge(&mut e, JudgeDecision::Merge, &types, &distances, "a.md", &mut ids, "0").unwrap();
    assert!(matches!(run.outcomes[0], ClassificationOutcome::Merged { judge_called: true, .. }));
    assert!(matches!(run.step(&e), ChunkStep::Finished));
}

#[test]
fn ontology_errors_tell_what_happened() {
    let id = Uuid { bits: 0x67e5_5044_10b1_426f_9247_bb68_0e5f_e0c8 };
    let text = "67e55044-10b1-426f-9247-bb680e5fe0c8";
    assert_eq!(OntologyError::EntityNotFound(id).message(), format!("entity not found: {text}"));
    assert_eq!(
        OntologyError::RelationTypeNotFound("x".to_string()).message(),
        "relation type not found: x"
    );
    assert_eq!(
        OntologyError::JudgeUndecided.message(),
        "candidate in the ambiguous zone without a judge decision"
    );
    assert_eq!(
        OntologyError::Model(ModelError::Http("x".to_string())).message(),
        "model provider error: HTTP request to backend failed: x"
    );
    assert!(OntologyError::IdTaken(id).message().ends_with(text));
    assert_eq!(
        OntologyError::OpenFailed { path: "p".to_string(), reason: "r".to_string() }.message(),
        "failed to open database at p: r"
    );
}
