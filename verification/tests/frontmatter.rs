//! Frontmatter: reading it, learning what its keys mean, and ingesting it.

use kern::engine::{AmbiguousZoneConfig, OntologyEngine};
use kern::frontmatter::{
    derive_name_from_path, extract_block, folder_scope, frontmatter_value_as_strings, get_field,
    key_fingerprint, keys_of, parse_frontmatter_keys, parse_frontmatter_values, texts_of_concept,
    Field, FieldItem, FieldRule, FieldValue, FrontmatterProfile,
};
use kern::graph::InstanceGraph;
use kern::hashing::hash_content;
use kern::ids::Uuid;
use kern::ingest::{FrontmatterIngestOutcome, RELATION_CONCEPTS};
use kern::learning::{rules_for, ProfileStep};
use kern::profiles::{ProfileRow, ProfileStore};
use kern::records::OntologyError;
use kern::registry::TypeRegistry;
use kern::rows::{row_to_entity, row_to_relation_type};
use kern::supply::IdSource;

#[test]
fn parse_extracts_sorted_keys_from_frontmatter() {
    let content = "---\nid: TASK-0042\nkind: task\nstatus: in_progress\n---\n\n# body\n";
    let keys = parse_frontmatter_keys(content).unwrap();
    assert_eq!(keys, vec!["id", "kind", "status"]);
}

#[test]
fn parse_returns_none_without_frontmatter() {
    assert!(parse_frontmatter_keys("# just a title\nno frontmatter\n").is_none());
}

#[test]
fn parse_values_reads_scalars_and_sequences() {
    let content =
        "---\nid: TASK-0042\nkind: task\ndepends_on: [TASK-0001, TASK-0002]\n---\n\n# body\n";
    let values = parse_frontmatter_values(content).unwrap();
    let id = get_field(&values, "id").unwrap();
    assert_eq!(frontmatter_value_as_strings(id), vec!["TASK-0042"]);
    let depends_on = get_field(&values, "depends_on").unwrap();
    assert_eq!(frontmatter_value_as_strings(depends_on), vec!["TASK-0001", "TASK-0002"]);
}

#[test]
fn value_as_strings_wraps_a_lone_scalar_in_a_single_item_list() {
    let value = FieldValue::Scalar(FieldItem::Text("TASK-0001".to_string()));
    assert_eq!(frontmatter_value_as_strings(&value), vec!["TASK-0001"]);
}

#[test]
fn value_as_strings_is_empty_for_an_empty_sequence() {
    let content = "---\nid: TASK-0042\ndepends_on: []\n---\n";
    let values = parse_frontmatter_values(content).unwrap();
    let depends_on = get_field(&values, "depends_on").unwrap();
    assert!(frontmatter_value_as_strings(depends_on).is_empty());
}

#[test]
fn scalars_are_texts_and_other_values_are_none() {
    let content = "---\nn: 42\nf: 1.5\nb: true\nz: null\nm: {a: 1}\nl: [x, 7, true, [y]]\n---\n";
    let values = parse_frontmatter_values(content).unwrap();
    let texts = |key: &str| frontmatter_value_as_strings(get_field(&values, key).unwrap());
    assert_eq!(texts("n"), vec!["42"]);
    assert_eq!(texts("f"), vec!["1.5"]);
    assert_eq!(texts("b"), vec!["true"]);
    assert!(texts("z").is_empty());
    assert!(texts("m").is_empty());
    assert_eq!(texts("l"), vec!["x", "7", "true"]);
    let no = FieldValue::Scalar(FieldItem::Truth(false));
    assert_eq!(frontmatter_value_as_strings(&no), vec!["false"]);
    assert!(get_field(&values, "missing").is_none());
}

#[test]
fn keys_that_are_not_texts_are_left_out() {
    let content = "---\n1: one\n!t tagged: two\nplain: three\n---\n";
    assert_eq!(parse_frontmatter_keys(content).unwrap(), vec!["plain", "tagged"]);
    let values = parse_frontmatter_values(content).unwrap();
    assert!(get_field(&values, "tagged").is_none(), "a tagged key is not found by its text");
    assert!(get_field(&values, "plain").is_some());
    // A tag makes another key of the same text.
    let twice = "---\na: 1\n!t a: 2\n---\n";
    assert_eq!(parse_frontmatter_keys(twice).unwrap(), vec!["a", "a"]);
}

#[test]
fn no_block_no_mapping_no_frontmatter() {
    assert_eq!(extract_block("\u{feff}---\na: 1\n---\n"), Some("\na: 1".to_string()));
    assert_eq!(extract_block("---\na: 1\n"), None);
    assert_eq!(extract_block(" ---\na: 1\n---\n"), None);
    assert_eq!(extract_block("---\na: 1\n----\nb"), Some("\na: 1".to_string()));
    assert!(parse_frontmatter_keys("---\n- a\n- b\n---\n").is_none());
    assert!(parse_frontmatter_keys("---\na: [\n---\n").is_none());
    assert!(parse_frontmatter_keys("---\na: 1\na: 2\n---\n").is_none());
}

#[test]
fn fingerprint_ignores_key_order() {
    let a = key_fingerprint(&vec!["id".to_string(), "kind".to_string()]);
    let b = key_fingerprint(&vec!["kind".to_string(), "id".to_string()]);
    let a2 = key_fingerprint(&vec!["id".to_string(), "kind".to_string()]);
    assert_eq!(a, a2);
    assert_ne!(a, b, "keys in different order without prior normalization give different fingerprints — it's parse_frontmatter_keys's responsibility to sort beforehand");
    assert_eq!(a, hash_content("id,kind"));
    let forth = parse_frontmatter_keys("---\nkind: task\nid: A\n---\n").unwrap();
    assert_eq!(key_fingerprint(&forth), a);
}

#[test]
fn fingerprint_ignores_values_only_looks_at_keys() {
    let keys1 = parse_frontmatter_keys("---\nid: A\nkind: task\n---\n").unwrap();
    let keys2 = parse_frontmatter_keys("---\nid: B\nkind: adr\n---\n").unwrap();
    assert_eq!(
        key_fingerprint(&keys1),
        key_fingerprint(&keys2),
        "same set of keys, different values — fingerprint should be equal"
    );
}

#[test]
fn scope_is_the_immediate_directory_not_recursive() {
    let a = folder_scope(".specify/specs/feat.md");
    let b = folder_scope(".specify/specs/archive/feat.md");
    assert_eq!(a, ".specify/specs");
    assert_eq!(b, ".specify/specs/archive");
    assert_ne!(a, b, "subfolders are different scopes, never the same (hotspot #4)");
    assert_eq!(folder_scope("feat.md"), "");
    assert_eq!(folder_scope("/"), "");
}

#[test]
fn a_file_without_a_name_of_its_own_is_named_after_its_path() {
    assert_eq!(derive_name_from_path("docs/specs/TASK-0001.md"), "TASK-0001");
    assert_eq!(derive_name_from_path("docs/.hidden"), ".hidden");
    assert_eq!(derive_name_from_path(".."), "..");
}

fn engine() -> OntologyEngine {
    OntologyEngine::new(
        TypeRegistry::new(),
        InstanceGraph::new(),
        ProfileStore::new(),
        AmbiguousZoneConfig::default(),
    )
}

/// Stands in for the model: a key means the concept of its own name.
fn concepts(keys: &[String]) -> Vec<Option<String>> {
    let known = ["id", "kind", "status"];
    keys.iter()
        .map(|k| {
            let is_concept = known.contains(&k.as_str()) || RELATION_CONCEPTS.contains(&k.as_str());
            if is_concept {
                Some(k.clone())
            } else {
                None
            }
        })
        .collect()
}

fn profile(e: &mut OntologyEngine, file: &str, content: &str) -> Option<FrontmatterProfile> {
    match e.learn_or_reuse_frontmatter_profile(file, content).unwrap() {
        ProfileStep::NoFrontmatter => None,
        ProfileStep::Known(profile) => Some(profile),
        ProfileStep::Ask(shape) => {
            let answers = concepts(&shape.keys);
            Some(e.learn_profile(&shape, &answers, &mut IdSource::random(), "0").unwrap())
        }
    }
}

fn ingest(e: &mut OntologyEngine, file: &str, content: &str) -> Option<FrontmatterIngestOutcome> {
    let learned = profile(e, file, content)?;
    let mut ids = IdSource::random();
    e.process_frontmatter(file, content, Uuid::new_v4(), &learned, &mut ids, "0").unwrap()
}

#[test]
fn file_without_frontmatter_returns_none() {
    let e = engine();
    let step = e
        .learn_or_reuse_frontmatter_profile("docs/freeform.md", "# No frontmatter\njust prose.\n")
        .unwrap();
    assert!(matches!(step, ProfileStep::NoFrontmatter));
}

#[test]
fn second_occurrence_of_the_same_shape_reuses_the_cached_profile() {
    let mut e = engine();
    let content = "---\nid: TASK-0001\nkind: task\ndepends_on: [TASK-0000]\n---\n\n# Task\n";
    let first = profile(&mut e, ".specify/specs/a.md", content).unwrap();
    let second = match e.learn_or_reuse_frontmatter_profile(".specify/specs/b.md", content).unwrap() {
        ProfileStep::Known(p) => p,
        other => panic!("should reuse the cached profile on the second occurrence: {other:?}"),
    };
    assert_eq!(first.id, second.id);
    let rule = first.field_mapping.iter().find(|r| r.key == "id").unwrap();
    assert_eq!(rule.concept.as_deref(), Some("id"));
    assert_eq!(second.field_mapping.len(), 3);
    // Another folder is another scope.
    let elsewhere = e.learn_or_reuse_frontmatter_profile(".specify/a.md", content).unwrap();
    assert!(matches!(elsewhere, ProfileStep::Ask(_)));
}

#[test]
fn process_frontmatter_creates_a_real_entity_from_id_and_kind() {
    let mut e = engine();
    let content = "---\nid: TASK-0042\nkind: task\ndepends_on: []\n---\n\n# Task\n";
    let outcome = ingest(&mut e, "docs/specs/TASK-0042.md", content).unwrap();
    assert_eq!(outcome.entity.canonical_name, "TASK-0042");
    assert_eq!(outcome.relations_created, 0);
    let entity_types = e.types.list_entity_types(&e.instances);
    let task_type = entity_types.iter().find(|t| t.name == "task").unwrap();
    assert_eq!(task_type.instance_count, 1);
    assert_eq!(task_type.description, "frontmatter kind 'task'");
}

#[test]
fn process_frontmatter_creates_a_real_relation_between_two_known_entities() {
    let mut e = engine();
    ingest(
        &mut e,
        "docs/specs/TASK-0001.md",
        "---\nid: TASK-0001\nkind: task\n---\n\n# First task\n",
    )
    .unwrap();
    let outcome = ingest(
        &mut e,
        "docs/specs/TASK-0002.md",
        "---\nid: TASK-0002\nkind: task\ndepends_on: [TASK-0001]\n---\n\n# Second task\n",
    )
    .unwrap();
    assert_eq!(outcome.relations_created, 1);
    let task_0001 = e.instances.find_entities_by_name("TASK-0001");
    assert_eq!(task_0001.len(), 1, "TASK-0001 should exist as one entity");
    let relations = e.instances.direct_relations(outcome.entity.id);
    assert_eq!(relations.len(), 1);
    assert_eq!(relations[0].target_entity_id, task_0001[0].id);
    assert_eq!(f32::from_bits(relations[0].confidence.bits), 1.0);
    let relation_types = e.types.list_relation_types(&e.instances);
    let used_type = relation_types.iter().find(|t| t.id == relations[0].type_id).unwrap();
    assert_eq!(used_type.name, "depends_on");
    assert_eq!(used_type.instance_count, 1);
}

#[test]
fn process_frontmatter_forward_reference_creates_a_placeholder_target() {
    let mut e = engine();
    let outcome = ingest(
        &mut e,
        "docs/specs/TASK-0002.md",
        "---\nid: TASK-0002\nkind: task\ndepends_on: [TASK-9999]\n---\n\n# Depends on something not seen yet\n",
    )
    .unwrap();
    assert_eq!(outcome.relations_created, 1);
    assert_eq!(e.instances.find_entities_by_name("TASK-9999").len(), 1);
    let entity_types = e.types.list_entity_types(&e.instances);
    assert!(entity_types.iter().any(|t| t.name == "unresolved-reference"));
}

#[test]
fn process_frontmatter_retypes_placeholder_when_real_file_is_later_ingested() {
    let mut e = engine();
    let task_0002 = ingest(
        &mut e,
        "docs/specs/TASK-0002.md",
        "---\nid: TASK-0002\nkind: task\ndepends_on: [TASK-0001]\n---\n\n# Second task\n",
    )
    .unwrap();
    let before = e.instances.find_entities_by_name("TASK-0001");
    assert_eq!(before.len(), 1);
    let task_0001 = ingest(
        &mut e,
        "docs/specs/TASK-0001.md",
        "---\nid: TASK-0001\nkind: task\n---\n\n# First task\n",
    )
    .unwrap();
    assert_eq!(task_0001.entity.id, before[0].id);
    assert_ne!(task_0001.entity.type_id, before[0].type_id);
    assert_eq!(task_0001.entity.first_seen_file, "docs/specs/TASK-0002.md");
    let entity_types = e.types.list_entity_types(&e.instances);
    assert_eq!(entity_types.iter().find(|t| t.name == "task").unwrap().instance_count, 2);
    let unresolved = entity_types.iter().find(|t| t.name == "unresolved-reference").unwrap();
    assert_eq!(unresolved.instance_count, 0);
    let relations = e.instances.direct_relations(task_0002.entity.id);
    assert_eq!(relations.len(), 1);
    assert_eq!(relations[0].target_entity_id, task_0001.entity.id);
}

#[test]
fn process_frontmatter_returns_none_without_frontmatter() {
    let mut e = engine();
    assert!(ingest(&mut e, "docs/notes.md", "# just prose\nno frontmatter here\n").is_none());
}

#[test]
fn ingesting_a_file_again_changes_nothing() {
    let mut e = engine();
    let file = "docs/specs/TASK-0002.md";
    let content = "---\nid: TASK-0002\nkind: task\ndepends_on: [TASK-0001, task-0002]\nimplements: SPEC-1\n---\n";
    let first = ingest(&mut e, file, content).unwrap();
    assert_eq!(first.relations_created, 3);
    let before = (e.instances.entities.len(), e.instances.relations.len(), e.types.entity_types.len());
    let again = ingest(&mut e, file, content).unwrap();
    assert_eq!(again.relations_created, 3);
    assert_eq!(again.entity.id, first.entity.id);
    let after = (e.instances.entities.len(), e.instances.relations.len(), e.types.entity_types.len());
    assert_eq!(before, after);
    assert_eq!(before, (3, 3, 2));
}

#[test]
fn a_file_without_id_and_kind_gets_defaults() {
    let mut e = engine();
    let outcome = ingest(&mut e, "docs/specs/notes.md", "---\nstatus: done\n---\n").unwrap();
    assert_eq!(outcome.entity.canonical_name, "notes");
    let entity_types = e.types.list_entity_types(&e.instances);
    assert_eq!(entity_types[0].name, "spec-item");
}

#[test]
fn fields_are_ingested_by_what_their_keys_mean() {
    let text = |s: &str| FieldValue::Scalar(FieldItem::Text(s.to_string()));
    let field = |key: &str, value: FieldValue| Field { key: Some(key.to_string()), tagged: false, value };
    let fields = vec![field("ref", text("X-1")), field("needs", text("X-2"))];
    assert_eq!(keys_of(&fields), vec!["needs", "ref"]);
    let rule = |key: &str, concept: &str| FieldRule {
        key: key.to_string(),
        concept: Some(concept.to_string()),
    };
    let rules = vec![rule("ref", "id"), rule("needs", "depends_on")];
    assert_eq!(texts_of_concept(&rules, &fields, "id"), vec!["X-1"]);
    assert!(texts_of_concept(&rules, &fields, "kind").is_empty());
    let mut e = engine();
    let mut ids = IdSource::given((1..=6).map(|bits| Uuid { bits }).collect());
    let outcome =
        e.ingest_fields("f.md", &rules, &fields, Uuid { bits: 77 }, &mut ids, "5").unwrap();
    assert_eq!(outcome.entity.id, Uuid { bits: 2 });
    assert_eq!(e.types.relation_types[0].id, Uuid { bits: 3 });
    assert_eq!(e.types.relation_types[0].description, "frontmatter relation 'depends_on'");
    assert_eq!(e.instances.entities[1].id, Uuid { bits: 5 });
    assert_eq!(e.instances.relations[0].id, Uuid { bits: 6 });
    assert_eq!(e.instances.relations[0].evidence_chunk_id, Uuid { bits: 77 });
}

#[test]
fn where_two_keys_mean_one_thing_both_count() {
    let keys = vec!["a".to_string(), "b".to_string(), "b".to_string()];
    let answers = vec![Some("id".to_string()), None, Some("id".to_string())];
    let rules = rules_for(&keys, &answers);
    assert_eq!(rules.len(), 2, "one rule for each key");
    let text = |s: &str| FieldValue::Scalar(FieldItem::Text(s.to_string()));
    let field = |key: &str, value: FieldValue| Field { key: Some(key.to_string()), tagged: false, value };
    let fields = vec![field("a", text("1")), field("b", text("2"))];
    assert_eq!(texts_of_concept(&rules, &fields, "id"), vec!["1", "2"]);
}

#[test]
fn every_field_that_means_a_relation_gives_its_relations() {
    let mut e = engine();
    e.types.seed_canonical_vocabulary();
    let content = "---\nid: T-1\nneeds: A\nrequires: B\n---\n";
    let fields = parse_frontmatter_values(content).unwrap();
    let rule = |key: &str, concept: &str| FieldRule {
        key: key.to_string(),
        concept: Some(concept.to_string()),
    };
    let rules = vec![rule("id", "id"), rule("needs", "depends_on"), rule("requires", "depends_on")];
    let evidence = Uuid { bits: 9 };
    let outcome = e
        .ingest_fields("docs/T-1.md", &rules, &fields, evidence, &mut IdSource::random(), "0")
        .unwrap();
    assert_eq!(outcome.relations_created, 2);
    let depends_on = e.types.find_relation_type(&e.instances, "depends_on").unwrap();
    let relations = e.instances.direct_relations(outcome.entity.id);
    assert_eq!(relations.len(), 2);
    for (r, name) in relations.iter().zip(["A", "B"]) {
        assert_eq!(r.type_id, depends_on.id);
        assert_eq!(r.source_entity_id, outcome.entity.id);
        assert_eq!(r.target_entity_id, e.instances.find_entities_by_name(name)[0].id);
        assert_eq!(r.confidence.bits, 1.0f32.to_bits());
        assert_eq!(r.evidence_chunk_id, evidence);
    }
}

#[test]
fn a_mark_makes_no_difference() {
    let plain = "---\nb: 1\na: 2\n---\n";
    let marked = format!("\u{feff}{plain}");
    assert_eq!(parse_frontmatter_keys(plain).unwrap(), vec!["a", "b"]);
    assert_eq!(parse_frontmatter_keys(&marked).unwrap(), vec!["a", "b"]);
    assert_eq!(parse_frontmatter_values(&marked).unwrap().len(), 2);
}

#[test]
fn the_order_of_the_keys_does_not_matter() {
    let keys = ["depends_on", "id", "implements", "kind", "status"];
    let said = |order: Vec<usize>| {
        let names = order.iter().map(|i| keys[*i].to_string()).collect();
        let answers =
            order.iter().map(|i| if *i == 4 { None } else { Some(keys[*i].to_string()) }).collect();
        let mut pairs: Vec<(String, Option<String>)> =
            rules_for(&names, &answers).into_iter().map(|r| (r.key, r.concept)).collect();
        pairs.sort();
        pairs
    };
    let forwards = said(vec![0, 1, 2, 3, 4]);
    assert_eq!(forwards.len(), 5);
    assert_eq!(forwards[0], ("depends_on".to_string(), Some("depends_on".to_string())));
    assert_eq!(forwards[4], ("status".to_string(), None));
    assert_eq!(said(vec![4, 2, 0, 3, 1]), forwards);
}

#[test]
fn a_profile_is_read_back_as_it_was_saved() {
    let mut store = ProfileStore::new();
    let profile = FrontmatterProfile {
        id: Uuid { bits: 5 },
        folder_scope: "docs".to_string(),
        key_fingerprint: "f".to_string(),
        field_mapping: vec![
            FieldRule { key: "a \"q\" é".to_string(), concept: Some("id".to_string()) },
            FieldRule { key: "b".to_string(), concept: None },
        ],
        learned_at: "9".to_string(),
    };
    store.save(&profile).unwrap();
    assert_eq!(store.rows[0].field_mapping, "{\"a \\\"q\\\" é\":\"id\",\"b\":null}");
    let found = store.find("docs", "f").unwrap().unwrap();
    assert_eq!(found.id, profile.id);
    assert_eq!(found.learned_at, "9");
    assert_eq!(found.field_mapping[0].key, "a \"q\" é");
    assert_eq!(found.field_mapping[0].concept.as_deref(), Some("id"));
    assert_eq!(found.field_mapping[1].concept, None);
    assert!(store.find("docs", "g").unwrap().is_none());
    // A later profile for the shape takes the place of the earlier one.
    let newer = FrontmatterProfile { id: Uuid { bits: 6 }, ..profile.clone() };
    store.save(&newer).unwrap();
    assert_eq!(store.rows.len(), 1);
    assert_eq!(store.find("docs", "f").unwrap().unwrap().id, Uuid { bits: 6 });
}

#[test]
fn a_stored_mapping_that_is_no_json_is_an_error() {
    let store = ProfileStore {
        rows: vec![ProfileRow {
            id: "not an id".to_string(),
            folder_scope: "docs".to_string(),
            key_fingerprint: "f".to_string(),
            field_mapping: "{".to_string(),
            learned_at: String::new(),
        }],
    };
    match store.find("docs", "f") {
        Err(OntologyError::OpenFailed { path, reason }) => {
            assert_eq!(path, "frontmatter_profiles.field_mapping");
            assert!(!reason.is_empty());
        }
        other => panic!("expected OpenFailed, got {other:?}"),
    }
}

#[test]
fn rows_are_read_with_ids_and_statuses_as_text() {
    let id = Uuid::new_v4();
    let entity = row_to_entity(
        &id.to_text(),
        "garbage",
        "n".to_string(),
        "f".to_string(),
        "1".to_string(),
    );
    assert_eq!((entity.id, entity.type_id), (id, Uuid::nil()));
    let t = row_to_relation_type(&id.to_text(), "n".to_string(), String::new(), "odd", String::new());
    assert_eq!(kern::registry::status_to_str(t.status), "candidate");
}

#[test]
fn identifiers_print_and_parse_as_uuids_do() {
    let id = Uuid::new_v4();
    let theirs = uuid::Uuid::from_u128(id.bits);
    assert_eq!(id.to_text(), theirs.to_string());
    assert_eq!(theirs.get_version_num(), 4);
    assert_eq!(Uuid::parse_str(&id.to_text()), Some(id));
    assert_eq!(Uuid::parse_str(&theirs.simple().to_string()), Some(id));
    assert_eq!(Uuid::parse_str(&theirs.urn().to_string().to_uppercase()), Some(id));
    assert_eq!(Uuid::parse_str(&theirs.braced().to_string()), Some(id));
    assert_eq!(Uuid::parse_str("67e55044-10b1-426f-9247-bb680e5fe0c"), None);
    assert_eq!(Uuid::parse_str("g7e5504410b1426f9247bb680e5fe0c8"), None);
    assert_eq!(Uuid::parse_or_nil("x"), Uuid::nil());
    assert_ne!(Uuid::new_v4(), Uuid::new_v4());
}
