//! Search, the tools that agents call, and the command line's decisions.

use kern::config::{
    chunk_budget, config_path, config_report, default_chunk_concurrency, new_config, require_config,
    status_counts, status_report, with_embedding, with_extraction, EmbeddingConfig, ExtractionConfig, IndexingConfig,
    ProjectConfig, StatusCounts,
};
use kern::clock::{now, timestamp};
use kern::graph::InstanceGraph;
use kern::ids::Uuid;
use kern::model::{
    extract_prompt, judge_prompt, key_prompt, parse_judge_decision, parse_max_input_tokens,
    CandidateEntity, EntityType, JudgeDecision, ModelError, ModelInfoEntry, OllamaModelDetails,
    OllamaModelInfo, RelationVocabulary,
};
use kern::order::text_before;
use kern::projects::ProjectRegistry;
use kern::records::RelationRecord;
use kern::registry::{TypeRegistry, SEED_RELATION_TYPES};
use kern::runtime::{
    check_readiness, llama_capabilities, llama_server_args, ollama_capabilities, server_url,
    ProcessEvent, ProcessState, Readiness,
};
use kern::scores::Score;
use kern::search::{
    candidate_pool, extract_keywords, file_filter, keyword_match_count, keyword_ranks, plan_table,
    reciprocal_rank_fuse, row_to_scored, sort_by_distance, ScoredChunk, TablePlan, VectorStoreError,
    EMBEDDING_DIM,
};
use kern::setup::{
    base_name_of, binary_name, choose_embedding, choose_extraction, choose_new_extraction,
    embedded_embedding_config, embedding_options, embedding_unavailable_message,
    ensure_llama_server_binary, extraction_options, extraction_unavailable_message, first_model,
    needs_embedding_prompt, ollama_embedding_config, ollama_extraction_config, parse_embedding_choice,
    parse_extraction_choice, pick, select_embedding, select_extraction, EmbeddingChoice, EmbeddingPlan,
    ExtractionChoice,
};
use kern::text::{contains, eq_ignore_ascii_case, fold};
use kern::tools::{
    answer_from_chunks, explain_relation, find_mentioned, get_ontology_schema, get_related_entities,
    query_by_concept, requested_chunks, route_question, search_output, ExplainRelationInput,
    GetRelatedEntitiesInput, QueryByConceptInput, SearchHybridInput,
};
use kern::words::{decimal, join, parse_number, signed, split_char, split_whitespace, trim};

fn score(x: f32) -> Score {
    Score { bits: x.to_bits() }
}

fn chunk(path: &str, content: &str, distance: f32) -> ScoredChunk {
    row_to_scored(
        &Uuid::new_v4().to_text(),
        path.to_string(),
        content.to_string(),
        String::new(),
        String::new(),
        Some(score(distance)),
    )
}

fn relation(type_id: Uuid, from: Uuid, to: Uuid) -> RelationRecord {
    RelationRecord {
        id: Uuid::new_v4(),
        type_id,
        source_entity_id: from,
        target_entity_id: to,
        confidence: score(1.0),
        evidence_chunk_id: Uuid::new_v4(),
    }
}

/// What an application does with what an index returns.
fn search(found: Vec<ScoredChunk>, query: &str, top_k: usize) -> Vec<ScoredChunk> {
    let candidates = sort_by_distance(found);
    let ranks = keyword_ranks(&candidates, query);
    let scores = ranks
        .iter()
        .enumerate()
        .map(|(v, k)| score(1.0 / (60.0 + v as f32 + 1.0) + 1.0 / (60.0 + *k as f32 + 1.0)))
        .collect();
    reciprocal_rank_fuse(candidates, &scores, top_k)
}

#[test]
fn keyword_boost_displaces_vectorially_closer_chunk_with_no_shared_term() {
    let found = vec![
        chunk("docs/c.md", "third chunk contains termoraroxyz on purpose", 5.0),
        chunk("docs/a.md", "first chunk, no rare term at all", 0.0),
        chunk("docs/b.md", "second chunk, also without the term", 0.1),
    ];
    let results = search(found, "termoraroxyz", 2);
    assert_eq!(results.len(), 2);
    assert!(results.iter().any(|r| r.chunk.file_path == "docs/c.md"));
    assert!(!results.iter().any(|r| r.chunk.file_path == "docs/b.md"));
}

#[test]
fn upsert_and_similarity_search_finds_the_chunk() {
    let results = search(vec![chunk("docs/a.md", "test content", 0.0)], "", 5);
    assert!(!results.is_empty(), "expected to find the indexed chunk");
    assert!(results.iter().any(|r| r.chunk.file_path == "docs/a.md"));
    assert_eq!(f32::from_bits(results[0].score.bits), 1.0 / 61.0 + 1.0 / 61.0);
}

#[test]
fn delete_by_file_removes_chunks_for_the_file() {
    assert_eq!(file_filter("docs/b.md"), "file_path = 'docs/b.md'");
    assert_eq!(file_filter("it's"), "file_path = 'it''s'");
    assert_ne!(file_filter("'"), file_filter("''"));
}

#[test]
fn keywords_are_runs_of_at_least_three_characters_in_lowercase() {
    assert_eq!(
        extract_keywords("O que TASK-010b is? Água_né 42x"),
        vec!["que", "task", "010b", "água", "42x"]
    );
    assert!(extract_keywords("a b?").is_empty());
    let words = vec!["alpha".to_string(), "beta".to_string(), "alpha".to_string()];
    assert_eq!(keyword_match_count("ALPHA only", &words), 2);
    assert_eq!(keyword_match_count("anything", &Vec::new()), 0);
}

#[test]
fn ranks_by_words_break_ties_by_position() {
    let found = vec![
        chunk("a", "nothing", 0.0),
        chunk("b", "alpha", 0.0),
        chunk("c", "alpha beta", 0.0),
        chunk("d", "nothing", 0.0),
    ];
    assert_eq!(keyword_ranks(&found, "alpha beta"), vec![2, 1, 0, 3]);
}

#[test]
fn chunks_are_sorted_by_distance_and_stay_in_order_where_equal() {
    let sorted = sort_by_distance(vec![
        chunk("a", "", 0.5),
        chunk("b", "", 0.25),
        chunk("c", "", 0.5),
        chunk("d", "", -1.0),
    ]);
    let paths: Vec<&str> = sorted.iter().map(|c| c.chunk.file_path.as_str()).collect();
    assert_eq!(paths, vec!["d", "b", "a", "c"]);
    let missing =
        row_to_scored("x", String::new(), String::new(), String::new(), String::new(), None);
    assert_eq!(missing.score.bits, 0);
    assert_eq!(missing.chunk.id, Uuid::nil());
    assert!(missing.chunk.embedding.is_empty());
}

#[test]
fn an_index_is_asked_for_more_than_is_returned() {
    assert_eq!(candidate_pool(0), 20);
    assert_eq!(candidate_pool(5), 20);
    assert_eq!(candidate_pool(6), 24);
}

#[test]
fn an_index_keeps_its_dimension() {
    assert!(matches!(plan_table(None, EMBEDDING_DIM), Ok(TablePlan::Create)));
    assert!(matches!(plan_table(Some(384), 384), Ok(TablePlan::Keep)));
    match plan_table(Some(384), 768) {
        Err(e) => assert_eq!(
            e.message(),
            "AGENT_SURFACE.EMBEDDING_DIMENSION_MISMATCH: the index holds 384-dimensional \
             embeddings, the provider reports 768 — delete .kern/vectors to switch"
        ),
        other => panic!("expected a mismatch, got {other:?}"),
    }
    assert_eq!(
        VectorStoreError::ChunkNotFound(Uuid::nil()).message(),
        "chunk 00000000-0000-0000-0000-000000000000 not found"
    );
    assert_eq!(
        VectorStoreError::OpenFailed { path: "p".to_string(), reason: "r".to_string() }.message(),
        "failed to open vector index at p: r"
    );
}

#[test]
fn get_ontology_schema_lista_tipos_semeados() {
    let mut types = TypeRegistry::new();
    let mut instances = InstanceGraph::new();
    types.seed_canonical_vocabulary();
    let t = types.find_or_create_entity_type(&instances, "Crate", "um crate").unwrap();
    instances.find_or_create_entity(t.id, "a", "a.md").unwrap();
    let output = get_ontology_schema(&types, &instances);
    assert_eq!(output.relation_types.len(), SEED_RELATION_TYPES.len());
    assert!(output.relation_types.iter().all(|t| t.status == "canonical"));
    assert_eq!(output.entity_types.len(), 1);
    assert_eq!(output.entity_types[0].instance_count, 1);
}

#[test]
fn query_by_concept_encontra_entidade_e_relacoes_diretas() {
    let mut instances = InstanceGraph::new();
    let t = Uuid::new_v4();
    let a = instances.find_or_create_entity(t, "kern-mcp", "docs/a.md").unwrap();
    let b = instances.find_or_create_entity(t, "kern-ontology", "docs/b.md").unwrap();
    instances.record_relation(relation(t, a.id, b.id));
    let input = QueryByConceptInput { concept: "kern-mcp".to_string() };
    let output = query_by_concept(&instances, &input).unwrap();
    assert_eq!(output.entity.canonical_name, "kern-mcp");
    assert_eq!(output.entity.id, a.id.to_text());
    assert_eq!(output.direct_relations.len(), 1);
    assert_eq!(output.direct_relations[0].target_entity_id, b.id.to_text());
}

#[test]
fn query_by_concept_retorna_erro_para_conceito_inexistente() {
    let input = QueryByConceptInput { concept: "nao-existe".to_string() };
    match query_by_concept(&InstanceGraph::new(), &input) {
        Err(msg) => {
            assert!(msg.contains("CONCEITO_NAO_ENCONTRADO"));
            assert!(msg.contains("'nao-existe'"));
        }
        Ok(_) => panic!("esperava erro CONCEITO_NAO_ENCONTRADO"),
    }
}

#[test]
fn explain_relation_retorna_caminho_com_evidencia() {
    let mut instances = InstanceGraph::new();
    let t = Uuid::new_v4();
    let a = instances.find_or_create_entity(t, "a", "a.md").unwrap();
    let b = instances.find_or_create_entity(t, "b", "b.md").unwrap();
    let edge = relation(t, a.id, b.id);
    instances.record_relation(edge);
    let ask = |x: &str, y: &str| ExplainRelationInput {
        entity_id_a: x.to_string(),
        entity_id_b: y.to_string(),
    };
    let output = explain_relation(&instances, &ask(&a.id.to_text(), &b.id.to_text())).unwrap();
    assert_eq!(output.path.len(), 1);
    assert_eq!(output.path[0].evidence_chunk_id, edge.evidence_chunk_id.to_text());
    // Followed backwards, a relation still says where it starts.
    let back = explain_relation(&instances, &ask(&b.id.to_text(), &a.id.to_text())).unwrap();
    assert_eq!(back.path[0].from, a.id.to_text());
    let err = |x: &str, y: &str| match explain_relation(&instances, &ask(x, y)) {
        Err(m) => m,
        Ok(_) => panic!("expected an error"),
    };
    assert_eq!(err("x", &b.id.to_text()), "invalid entity id: x");
    assert_eq!(err(&a.id.to_text(), "y"), "invalid entity id: y");
    assert_eq!(err(&a.id.to_text(), &Uuid::nil().to_text()), "ONTOLOGY.PATH_NOT_FOUND");
}

#[test]
fn an_answered_id_is_accepted() {
    let mut instances = InstanceGraph::new();
    let t = Uuid::new_v4();
    let a = instances.find_or_create_entity(t, "a", "a.md").unwrap();
    let b = instances.find_or_create_entity(t, "b", "b.md").unwrap();
    instances.record_relation(relation(t, a.id, b.id));
    let first = GetRelatedEntitiesInput { entity_id: a.id.to_text(), depth: None };
    let answered = get_related_entities(&instances, &first).unwrap().subgraph.entities;
    let second = GetRelatedEntitiesInput { entity_id: answered[0].id.clone(), depth: None };
    let back = get_related_entities(&instances, &second).unwrap().subgraph.entities;
    assert_eq!(back[0].id, a.id.to_text());
}

#[test]
fn a_path_of_more_than_six_hops_is_not_explained() {
    let mut instances = InstanceGraph::new();
    let t = Uuid { bits: 1 };
    let node = |i: u128| Uuid { bits: 100 + i };
    for i in 0..7 {
        instances.record_relation(relation(t, node(i), node(i + 1)));
    }
    let ask = |to: u128| ExplainRelationInput {
        entity_id_a: node(0).to_text(),
        entity_id_b: node(to).to_text(),
    };
    assert_eq!(explain_relation(&instances, &ask(6)).unwrap().path.len(), 6);
    assert!(explain_relation(&instances, &ask(7)).is_err());
}

#[test]
fn get_related_entities_respeita_profundidade() {
    let mut instances = InstanceGraph::new();
    let t = Uuid::new_v4();
    let a = instances.find_or_create_entity(t, "a", "a.md").unwrap();
    let b = instances.find_or_create_entity(t, "b", "b.md").unwrap();
    let c = instances.find_or_create_entity(t, "c", "c.md").unwrap();
    instances.record_relation(relation(t, a.id, b.id));
    instances.record_relation(relation(t, b.id, c.id));
    let ask = |depth: Option<u32>| GetRelatedEntitiesInput { entity_id: a.id.to_text(), depth };
    let depth1 = get_related_entities(&instances, &ask(Some(1))).unwrap();
    assert_eq!(depth1.subgraph.entities.len(), 1);
    assert_eq!(depth1.subgraph.entities[0].canonical_name, "b");
    let depth2 = get_related_entities(&instances, &ask(Some(2))).unwrap();
    assert_eq!(depth2.subgraph.entities.len(), 2);
    assert_eq!(depth2.subgraph.entities[1].canonical_name, "c", "the nearer one first");
    assert_eq!(get_related_entities(&instances, &ask(None)).unwrap().subgraph.entities.len(), 1);
    assert!(get_related_entities(&instances, &ask(Some(0))).unwrap().subgraph.entities.is_empty());
    let bad = GetRelatedEntitiesInput { entity_id: "nope".to_string(), depth: None };
    match get_related_entities(&instances, &bad) {
        Err(m) => assert_eq!(m, "invalid entity id: nope"),
        Ok(_) => panic!("expected an error"),
    }
    let unknown = GetRelatedEntitiesInput { entity_id: Uuid::nil().to_text(), depth: None };
    assert!(get_related_entities(&instances, &unknown).unwrap().subgraph.entities.is_empty());
}

#[test]
fn search_hybrid_via_ollama_e_lancedb_reais() {
    let found = vec![chunk(
        "docs/ontologia.md",
        "O motor de ontologia decide merge, novo tipo ou judge.",
        0.25,
    )];
    let input = SearchHybridInput { query: "motor de ontologia".to_string(), top_k: Some(5) };
    let output = search_output(&search(found, &input.query, requested_chunks(&input) as usize));
    assert!(!output.chunks.is_empty());
    assert!(output.chunks[0].content.contains("motor de ontologia"));
    assert_eq!(output.chunks[0].file_path, "docs/ontologia.md");
    assert_eq!(requested_chunks(&SearchHybridInput { query: String::new(), top_k: None }), 10);
}

#[test]
fn query_ontological_roteia_por_tipo_quando_ha_match_forte() {
    let mut types = TypeRegistry::new();
    let mut instances = InstanceGraph::new();
    types.seed_canonical_vocabulary();
    let depends_on = types.find_relation_type(&instances, "depends_on").unwrap();
    let t = types.find_or_create_entity_type(&instances, "Crate", "um crate").unwrap();
    let mcp = instances.find_or_create_entity(t.id, "kernmcpxyz", "a.md").unwrap();
    let ontology = instances.find_or_create_entity(t.id, "kernontologyxyz", "b.md").unwrap();
    let edge = relation(depends_on.id, mcp.id, ontology.id);
    instances.record_relation(edge);
    let listed = types.list_relation_types(&instances);
    let similar = |s: f32| -> Vec<Score> {
        listed.iter().map(|r| score(if r.name == "depends_on" { s } else { 0.1 })).collect()
    };
    let question = "o que kernmcpxyz depends_on?";
    let output = route_question(&instances, question, &listed, &similar(0.3)).unwrap();
    assert_eq!(output.mode, "graph_traversal");
    assert_eq!(output.answer, "kernmcpxyz has 1 relation(s) of type 'depends_on'");
    assert_eq!(output.evidence.len(), 1);
    assert_eq!(output.evidence[0].chunk_id, edge.evidence_chunk_id.to_text());
    assert_eq!(output.evidence[0].excerpt, "see evidence chunk via search_hybrid");
    // Not similar enough, or nothing mentioned.
    assert!(route_question(&instances, question, &listed, &similar(0.29)).is_none());
    assert!(route_question(&instances, "what is it?", &listed, &similar(0.9)).is_none());
    let other: Vec<Score> = listed.iter().map(|r| score(if r.name == "causes" { 0.9 } else { 0.1 })).collect();
    let none = route_question(&instances, question, &listed, &other).unwrap();
    assert_eq!(none.mode, "graph_traversal");
    assert_eq!(none.answer, "kernmcpxyz has 0 relation(s) of type 'causes'");
    assert!(none.evidence.is_empty());
    assert!(route_question(&instances, question, &Vec::new(), &Vec::new()).is_none());
}

#[test]
fn a_question_mentions_the_first_word_that_matches() {
    let mut instances = InstanceGraph::new();
    let t = Uuid { bits: 1 };
    instances.find_or_create_entity(t, "beta-x", "b.md").unwrap();
    instances.find_or_create_entity(t, "alpha", "a.md").unwrap();
    assert_eq!(find_mentioned(&instances, "is (Beta-X)! like alpha?").unwrap().canonical_name, "beta-x");
    assert_eq!(find_mentioned(&instances, "al? alp!").unwrap().canonical_name, "alpha");
    assert!(find_mentioned(&instances, "al be ??").is_none());
}

#[test]
fn an_exact_name_wins_over_a_part_of_one() {
    let mut types = TypeRegistry::new();
    let mut instances = InstanceGraph::new();
    types.seed_canonical_vocabulary();
    let depends_on = types.find_relation_type(&instances, "depends_on").unwrap();
    let t = Uuid { bits: 1 };
    instances.find_or_create_entity(t, "authenticator", "a.md").unwrap();
    let one = instances.find_or_create_entity(t, "TASK-001", "b.md").unwrap();
    let two = instances.find_or_create_entity(t, "TASK-002", "c.md").unwrap();
    instances.record_relation(relation(depends_on.id, one.id, two.id));
    let listed = types.list_relation_types(&instances);
    let scores: Vec<Score> =
        listed.iter().map(|r| score(if r.name == "depends_on" { 1.0 } else { 0.0 })).collect();
    let question = "what is the depends_on relation for TASK-001?";
    let output = route_question(&instances, question, &listed, &scores).unwrap();
    assert_eq!(output.mode, "graph_traversal");
    assert_eq!(output.answer, "TASK-001 has 1 relation(s) of type 'depends_on'");
    assert_eq!(find_mentioned(&instances, "the task-002?").unwrap().id, two.id);
    assert_eq!(find_mentioned(&instances, "the task").unwrap().canonical_name, "authenticator");
    instances.find_or_create_entity(t, "", "d.md").unwrap();
    assert_eq!(find_mentioned(&instances, "? TASK-001").unwrap().id, one.id);
}

#[test]
fn query_ontological_cai_em_fallback_vetorial_sem_match() {
    let found = vec![chunk("docs/x.md", "conteúdo qualquer sobre o projeto", 0.1)];
    let output = answer_from_chunks(&found);
    assert_eq!(output.mode, "vector_fallback");
    assert_eq!(output.answer, "conteúdo qualquer sobre o projeto");
    assert_eq!(output.evidence[0].chunk_id, found[0].chunk.id.to_text());
    let nothing = answer_from_chunks(&Vec::new());
    assert_eq!(nothing.answer, "nenhum resultado encontrado");
    assert!(nothing.evidence.is_empty());
}

#[test]
fn ollama_capabilities_reports_runtime_num_ctx_not_architectural_max() {
    let info = vec![ModelInfoEntry { key: "bert.context_length".to_string(), number: Some(512) }];
    let params = "stop                           \"x\"\nnum_ctx                        256\n";
    let limit = parse_max_input_tokens(Some(params), Some(&info));
    let caps = ollama_capabilities("all-minilm", 384, limit);
    assert_eq!(caps.embedding_dim, 384);
    assert_eq!(caps.max_input_tokens, Some(256));
    assert_eq!(caps.model_id, "ollama:all-minilm");
}

#[test]
fn a_context_length_is_looked_for_in_two_places() {
    let entry = |key: &str, number: Option<u64>| ModelInfoEntry { key: key.to_string(), number };
    let info = vec![entry("other", Some(1)), entry("bert.context_length", Some(512))];
    assert_eq!(parse_max_input_tokens(None, Some(&info)), Some(512));
    assert_eq!(parse_max_input_tokens(Some("num_ctx lots\r\nnum_ctx"), Some(&info)), Some(512));
    assert_eq!(parse_max_input_tokens(Some("num_ctx lots\nnum_ctx +7 x"), Some(&info)), Some(7));
    assert_eq!(parse_max_input_tokens(None, Some(&vec![entry("a.context_length", None)])), None);
    assert_eq!(parse_max_input_tokens(None, None), None);
}

#[test]
fn list_models_reports_real_capabilities_not_guessed_from_name() {
    let model = ollama_model("all-minilm:latest", &["embedding"]);
    assert!(model.supports_embedding());
    assert!(!model.supports_completion());
}

#[test]
fn llama_cpp_runtime_capabilities_reports_spawned_context_size_and_real_dim() {
    let caps = llama_capabilities("/m/bge-small-en-v1.5-q4_k_m.gguf", 384, 512);
    assert_eq!(caps.max_input_tokens, Some(512));
    assert!(caps.embedding_dim > 0);
    assert_eq!(caps.model_id, "llama-cpp:bge-small-en-v1.5-q4_k_m.gguf");
}

#[test]
fn judge_via_ollama_real_returns_a_valid_decision() {
    assert!(matches!(parse_judge_decision("Merge"), Ok(JudgeDecision::Merge)));
    assert!(matches!(parse_judge_decision("NewType"), Ok(JudgeDecision::NewType)));
    assert!(matches!(parse_judge_decision("Reject"), Ok(JudgeDecision::Reject)));
    match parse_judge_decision("merge") {
        Err(ModelError::MalformedResponse(m)) => assert_eq!(m, "unknown decision: merge"),
        other => panic!("expected an error, got {other:?}"),
    }
}

#[test]
fn prompts_hold_what_they_ask_about() {
    let vocab = RelationVocabulary {
        canonical_types: vec!["depends_on".to_string(), "causes".to_string()],
    };
    let p = extract_prompt("the text", &vocab);
    assert!(p.ends_with("(context only, don't invent relations): depends_on, causes\n\nText:\nthe text"));
    let p = extract_prompt("t", &RelationVocabulary::default());
    assert!(p.contains("no canonical types yet"));
    let candidate = CandidateEntity { raw_name: "x".to_string(), raw_type_hint: None };
    let nearest = vec![EntityType { name: "n".to_string(), description: "d".to_string() }];
    let p = judge_prompt(&candidate, &nearest);
    assert!(p.ends_with("Candidate: x (type hint: none)\n\nClosest existing types:\n- n: d"));
    assert!(judge_prompt(&candidate, &Vec::new()).ends_with("no nearby type found"));
    assert!(key_prompt("depends_on").ends_with("referenced item)\n\nKey: depends_on"));
}

fn ollama_model(name: &str, capabilities: &[&str]) -> OllamaModelInfo {
    OllamaModelInfo {
        name: name.to_string(),
        capabilities: capabilities.iter().map(|c| c.to_string()).collect(),
        details: OllamaModelDetails::default(),
    }
}

fn registry() -> ProjectRegistry {
    let mut r = ProjectRegistry::new();
    r.insert("listado", "/tmp/l");
    r.insert("acme", "/tmp/a");
    r
}

#[test]
fn project_create_with_existing_name_fails() {
    let r = registry();
    assert!(r.check_new_name("new").is_ok());
    assert_eq!(
        r.check_new_name("acme").unwrap_err(),
        "AGENT_SURFACE.PROJECT_ALREADY_EXISTS: 'acme' already exists"
    );
}

#[test]
fn status_of_nonexistent_project_fails_with_clear_message() {
    let r = registry();
    assert_eq!(r.resolve_project("acme").unwrap(), "/tmp/a");
    assert_eq!(
        r.resolve_project("nao-existe").unwrap_err(),
        "AGENT_SURFACE.PROJECT_NOT_FOUND: 'nao-existe'"
    );
}

#[test]
fn status_without_project_lists_registered() {
    let empty = ProjectRegistry::load(None);
    assert!(empty.listing()[0].contains("no project created"));
    let listing = registry().listing();
    assert_eq!(listing, vec!["registered projects:", "  acme -> /tmp/a", "  listado -> /tmp/l"]);
}

#[test]
fn projects_are_read_back_as_they_were_saved() {
    let text = registry().save();
    assert_eq!(text, "{\n  \"acme\": \"/tmp/a\",\n  \"listado\": \"/tmp/l\"\n}");
    let back = ProjectRegistry::load(Some(&text));
    assert_eq!(back.entries.len(), 2);
    assert_eq!(back.get("listado").unwrap(), "/tmp/l");
    assert!(ProjectRegistry::load(Some("not json")).entries.is_empty());
}

#[test]
fn project_create_without_flags_and_without_a_tty_fails_fast_instead_of_hanging() {
    let choice = choose_embedding(None, None).unwrap();
    assert!(choice.is_none());
    assert!(needs_embedding_prompt(&choice, false).unwrap_err().contains("PROJECT_NOT_CONFIGURED"));
    assert!(needs_embedding_prompt(&choice, true).unwrap());
    assert!(!needs_embedding_prompt(&Some(EmbeddingChoice::LlamaCppEmbedded), false).unwrap());
}

fn config() -> ProjectConfig {
    new_config(
        ollama_embedding_config("all-minilm".to_string(), 384),
        Some(ollama_extraction_config("llama3.2".to_string())),
    )
}

#[test]
fn serve_on_an_unconfigured_project_fails_clearly() {
    let err = match require_config("legacy", None) {
        Err(m) => m,
        Ok(_) => panic!("expected an error"),
    };
    assert_eq!(
        err,
        "AGENT_SURFACE.PROJECT_NOT_CONFIGURED: no .kern/config.toml for 'legacy' — run `kern \
         config set-embedding --project legacy --provider <ollama|llama_cpp_embedded> --model \
         <name>` (this project predates provider configuration)"
    );
    assert!(require_config("x", Some(config())).is_ok());
}

#[test]
fn project_create_and_status_work_end_to_end() {
    let mut types = TypeRegistry::new();
    types.seed_canonical_vocabulary();
    let counts = status_counts(&types, 0);
    assert_eq!(
        counts,
        StatusCounts { chunks: 0, entity_types: 0, relation_types: 8, canonical: 8 }
    );
    let lines = status_report("acme", "/tmp/a", Some(&config()), counts);
    assert_eq!(
        lines,
        vec![
            "project: acme (/tmp/a)",
            "embedding: all-minilm via ollama (384-dim)",
            "extraction: llama3.2 via ollama",
            "chunks indexed: 0",
            "entity types: 0 | relation types: 8 (8 canonical)",
            "note: fallback rate is an in-memory metric of a `serve` session — not visible here \
             across processes (v0 is single-client, with no multi-process coordination)",
        ]
    );
    let bare = status_report("acme", "/tmp/a", None, counts);
    assert!(bare[1].starts_with("provider: not configured"));
    let no_extraction = ProjectConfig { extraction: None, ..config() };
    assert_eq!(
        status_report("a", "/", Some(&no_extraction), counts)[2],
        "extraction: not configured"
    );
}

#[test]
fn a_configuration_is_shown_line_by_line() {
    let embedded = ProjectConfig {
        schema_version: 1,
        embedding: embedded_embedding_config("/m/all-MiniLM.gguf", 384),
        extraction: None,
        indexing: IndexingConfig { chunk_concurrency: 3 },
    };
    assert_eq!(
        config_report("p", Some(&embedded)),
        vec![
            "embedding.provider = llama_cpp_embedded",
            "embedding.model = all-MiniLM.gguf",
            "embedding.dimension = 384",
            "embedding.context_size = 512",
            "extraction = not configured",
            "indexing.chunk_concurrency = 3 (edit .kern/config.toml to change — see README's \
             \"Indexing throughput\" section)",
        ]
    );
    let lines = config_report("p", Some(&config()));
    assert_eq!(lines[3], "extraction.provider = ollama");
    assert_eq!(lines[4], "extraction.model = llama3.2");
    assert_eq!(config_report("p", None).len(), 1);
    assert!(config_report("p", None)[0].starts_with("'p' has no .kern/config.toml yet"));
}

#[test]
fn reconfiguring_keeps_the_rest() {
    let new = || EmbeddingConfig {
        provider: "ollama".to_string(),
        model: "other".to_string(),
        dimension: -1,
        context_size: None,
    };
    let changed = with_embedding(Some(config()), new());
    assert_eq!(changed.embedding.model, "other");
    assert_eq!(changed.extraction.unwrap().model, "llama3.2");
    let first = with_embedding(None, new());
    assert!(first.extraction.is_none());
    assert_eq!(first.schema_version, 1);
    assert_eq!(first.indexing.chunk_concurrency, default_chunk_concurrency());
    assert_eq!(IndexingConfig::default().chunk_concurrency, 8);

    let removed = with_extraction("p", Some(config()), None).unwrap();
    assert!(removed.extraction.is_none());
    assert_eq!(removed.embedding.model, "all-minilm");
    let err = match with_extraction("p", None, None) {
        Err(m) => m,
        Ok(_) => panic!("expected an error"),
    };
    assert!(err.starts_with("AGENT_SURFACE.PROJECT_NOT_CONFIGURED: 'p' has no embedding provider"));
    assert_eq!(config_path("/p"), "/p/.kern/config.toml");
    assert_eq!(chunk_budget(None), 256);
    assert_eq!(chunk_budget(Some(512)), 512);
}

#[test]
fn flags_name_providers_or_are_refused() {
    let s = |x: &str| Some(x.to_string());
    match parse_embedding_choice("ollama", "m".to_string()) {
        Ok(EmbeddingChoice::Ollama { model }) => assert_eq!(model, "m"),
        other => panic!("{other:?}"),
    }
    assert!(matches!(
        parse_embedding_choice("llama_cpp_embedded", "m".to_string()),
        Ok(EmbeddingChoice::LlamaCppEmbedded)
    ));
    assert_eq!(
        parse_embedding_choice("openai", "m".to_string()).unwrap_err(),
        "AGENT_SURFACE.UNKNOWN_PROVIDER: 'openai' — expected \"ollama\" or \"llama_cpp_embedded\""
    );
    assert_eq!(
        parse_extraction_choice("openai", "m".to_string()).unwrap_err(),
        "AGENT_SURFACE.UNKNOWN_PROVIDER: 'openai' — expected \"ollama\""
    );
    assert!(choose_embedding(s("ollama"), None).unwrap_err().contains("--embedding-provider and"));
    assert!(choose_embedding(s("ollama"), s("m")).unwrap().is_some());
    assert!(choose_embedding(s("x"), s("m")).is_err());
    assert!(matches!(choose_extraction(None, None, false), Ok(Some(ExtractionChoice::Skip))));
    assert!(choose_extraction(None, None, true).unwrap().is_none());
    assert!(choose_extraction(None, s("m"), true).unwrap_err().contains("or neither to skip"));
    assert!(matches!(
        choose_extraction(s("ollama"), s("m"), false),
        Ok(Some(ExtractionChoice::Ollama { .. }))
    ));
    assert!(matches!(choose_new_extraction(None, None), Ok(ExtractionChoice::Skip)));
    assert!(choose_new_extraction(s("ollama"), None).unwrap_err().contains("or neither to remove"));
}

#[test]
fn a_configuration_selects_its_providers_and_no_others() {
    let mut c = config();
    match select_embedding(&c.embedding) {
        Ok(EmbeddingPlan::Ollama { model }) => assert_eq!(model, "all-minilm"),
        other => panic!("{other:?}"),
    }
    c.embedding.provider = "llama_cpp_embedded".to_string();
    match select_embedding(&c.embedding) {
        Ok(EmbeddingPlan::Embedded { context_size, parallel_slots }) => {
            assert_eq!((context_size, parallel_slots), (512, 1))
        }
        other => panic!("{other:?}"),
    }
    c.embedding.provider = "x".to_string();
    assert_eq!(
        select_embedding(&c.embedding).unwrap_err(),
        "AGENT_SURFACE.UNKNOWN_PROVIDER: 'x' in .kern/config.toml is not a known embedding provider"
    );
    assert_eq!(select_extraction(&c.extraction).unwrap(), Some("llama3.2".to_string()));
    assert_eq!(select_extraction(&None).unwrap(), None);
    let odd = Some(ExtractionConfig { provider: "y".to_string(), model: String::new() });
    assert_eq!(
        select_extraction(&odd).unwrap_err(),
        "AGENT_SURFACE.UNKNOWN_PROVIDER: 'y' in .kern/config.toml is not a known extraction provider"
    );
}

#[test]
fn the_guided_setup_offers_what_reports_that_it_can() {
    let mut e = ollama_model("emb", &["embedding"]);
    e.details.embedding_length = Some(384);
    let models = vec![e, ollama_model("gen", &["completion", "tools"])];
    let options = embedding_options(&models, true).unwrap();
    assert_eq!(options.len(), 2);
    assert_eq!(options[0].label, "ollama: emb (embedding, 384-dim, ctx ?)");
    assert_eq!(options[1].label, "bundled llama-server (embedding only)");
    assert!(embedding_options(&Vec::new(), false).unwrap_err().contains("PROVIDER_UNAVAILABLE"));
    let options = extraction_options(&models);
    assert_eq!(options.len(), 2);
    assert_eq!(options[0].label, "ollama: gen (extraction/judging)");
    assert!(matches!(options[1].choice, ExtractionChoice::Skip));
    assert!(extraction_options(&Vec::new()).is_empty());
    assert_eq!(
        embedding_unavailable_message("m", "r"),
        "AGENT_SURFACE.PROVIDER_UNAVAILABLE: could not use ollama:m for embeddings — r"
    );
    assert_eq!(
        extraction_unavailable_message("m", "r"),
        "AGENT_SURFACE.PROVIDER_UNAVAILABLE: ollama:m did not respond to a real extraction call — r"
    );
}

#[test]
fn an_answer_picks_a_choice() {
    assert_eq!(pick("\n", 3), Ok(0));
    assert_eq!(pick(" 3 \n", 3), Ok(2));
    assert_eq!(pick("+2", 3), Ok(1));
    assert_eq!(pick("0", 3), Err("choice must be 1 or higher".to_string()));
    assert_eq!(pick("4", 3), Err("choice out of range".to_string()));
    assert_eq!(pick("two", 3), Err("invalid choice: 'two'".to_string()));
    assert_eq!(
        pick("99999999999999999999999", 3),
        Err("invalid choice: '99999999999999999999999'".to_string())
    );
}

#[test]
fn the_first_model_is_taken() {
    let paths = |p: &[&str]| -> Vec<String> { p.iter().map(|s| s.to_string()).collect() };
    assert_eq!(first_model(&paths(&["/m/b.gguf", "/m/a.txt", "/m/a.gguf"])).unwrap(), "/m/a.gguf");
    assert_eq!(first_model(&paths(&["/m/a.txt", "/m/.gguf"])), None);
    assert!(ensure_llama_server_binary().unwrap_err().contains("does not embed llama-server"));
    assert_eq!(binary_name(true), "llama-server.exe");
    assert_eq!(binary_name(false), "llama-server");
    assert_eq!(base_name_of("/"), "/");
}

#[test]
fn a_server_is_started_waited_for_and_given_up() {
    assert_eq!(
        llama_server_args("/m/x.gguf", 8080, 512).join(" "),
        "-m /m/x.gguf --embedding --port 8080 --host 127.0.0.1 -c 512 -b 512 -ub 512"
    );
    assert_eq!(server_url(8080), "http://127.0.0.1:8080");
    assert!(matches!(check_readiness(None, true, true), Readiness::Ready));
    assert!(matches!(check_readiness(None, false, false), Readiness::Wait));
    match check_readiness(Some("exit status: 1"), true, false) {
        Readiness::GiveUp(e) => assert!(e
            .message()
            .ends_with("llama-server exited before becoming ready (status: exit status: 1)")),
        other => panic!("{other:?}"),
    }
    match check_readiness(None, false, true) {
        Readiness::GiveUp(e) => assert!(e.message().ends_with("/health within the timeout")),
        other => panic!("{other:?}"),
    }
}

#[test]
fn the_process_moves_forward_only() {
    let mut s = ProcessState::Starting;
    s = s.advance(ProcessEvent::CaughtUp);
    assert_eq!(s, ProcessState::Starting);
    s = s.advance(ProcessEvent::Opened);
    assert_eq!(s, ProcessState::CatchUpScan);
    s = s.advance(ProcessEvent::CaughtUp);
    assert_eq!(s, ProcessState::Ready);
    assert_eq!(s.advance(ProcessEvent::Ended), ProcessState::Stopped);
    s = s.advance(ProcessEvent::Signalled);
    assert_eq!(s, ProcessState::Draining);
    s = s.advance(ProcessEvent::Ended);
    assert_eq!(s, ProcessState::Stopped);
    assert_eq!(s.advance(ProcessEvent::Opened), ProcessState::Stopped);
}

#[test]
fn texts_are_cut_joined_and_compared_as_std_does() {
    for s in ["", " a  b\tc\n", "x", "  ", "é \u{a0}z"] {
        assert_eq!(trim(s), s.trim());
        let words: Vec<&str> = s.split_whitespace().collect();
        assert_eq!(split_whitespace(s), words);
        let pieces: Vec<&str> = s.split('a').collect();
        assert_eq!(split_char(s, 'a'), pieces);
    }
    let words = vec!["a".to_string(), "b".to_string(), String::new()];
    assert_eq!(join(&words, ", "), words.join(", "));
    for a in ["", "a", "ab", "B", "é", "z", "€", "😀"] {
        for b in ["", "a", "ab", "B", "é", "z", "€", "😀"] {
            assert_eq!(text_before(a, b), a < b);
            assert_eq!(contains(a, b), a.contains(b));
            assert_eq!(eq_ignore_ascii_case(a, b), a.eq_ignore_ascii_case(b));
        }
    }
    assert_eq!(fold("ÀBC"), "àbc");
    for n in [0u64, 9, 10, 12345, u64::MAX] {
        assert_eq!(decimal(n), n.to_string());
        assert_eq!(parse_number(&n.to_string(), u64::MAX), Some(n));
    }
    assert_eq!(signed(i32::MIN), i32::MIN.to_string());
    for s in ["", "+", "-1", "1x", "+5", "007", "256"] {
        assert_eq!(parse_number(s, 255), s.parse::<u8>().ok().map(|n| n as u64), "{s:?}");
    }
    assert_eq!(timestamp(Some(17)), "17");
    assert_eq!(timestamp(None), "");
    assert!(now().parse::<u64>().unwrap() > 1_600_000_000);
}
