//! Per-project configuration: the embedding provider that a project is pinned
//! to, the extraction provider where there is one, and how they are reported.

use vstd::prelude::*;
use crate::paths::{join_path, joined_path};
use crate::records::RelationTypeStatus;
use crate::registry::{RelationTypeRowView, TypeRegistry};
use crate::views::{lemma_filter_next, opt_ref_view, opt_view, views};
use crate::words::{decimal, decimal_text, signed, signed_text};

verus! {

/// The configuration of a project.
#[derive(Debug)]
pub struct ProjectConfig {
    pub schema_version: u32,
    pub embedding: EmbeddingConfig,
    pub extraction: Option<ExtractionConfig>,
    pub indexing: IndexingConfig,
}

/// How a project is indexed.
#[derive(Clone, Copy, Debug, PartialEq, Eq, Structural)]
pub struct IndexingConfig {
    /// How many chunks are embedded at once.
    pub chunk_concurrency: usize,
}

/// The embedding provider that a project is pinned to.
#[derive(Debug)]
pub struct EmbeddingConfig {
    /// `ollama` or `llama_cpp_embedded`.
    pub provider: String,
    pub model: String,
    /// As the provider reported it.
    pub dimension: i32,
    /// For `llama_cpp_embedded` only.
    pub context_size: Option<u32>,
}

/// The extraction provider of a project.
#[derive(Debug)]
pub struct ExtractionConfig {
    pub provider: String,
    pub model: String,
}

/// What an [`EmbeddingConfig`] holds.
pub struct EmbeddingConfigView {
    pub provider: Seq<char>,
    pub model: Seq<char>,
    pub dimension: i32,
    pub context_size: Option<u32>,
}

impl View for EmbeddingConfig {
    type V = EmbeddingConfigView;

    open spec fn view(&self) -> EmbeddingConfigView {
        EmbeddingConfigView {
            provider: self.provider@,
            model: self.model@,
            dimension: self.dimension,
            context_size: self.context_size,
        }
    }
}

/// What an [`ExtractionConfig`] holds.
pub struct ExtractionConfigView {
    pub provider: Seq<char>,
    pub model: Seq<char>,
}

impl View for ExtractionConfig {
    type V = ExtractionConfigView;

    open spec fn view(&self) -> ExtractionConfigView {
        ExtractionConfigView { provider: self.provider@, model: self.model@ }
    }
}

/// What a [`ProjectConfig`] holds.
pub struct ProjectConfigView {
    pub schema_version: u32,
    pub embedding: EmbeddingConfigView,
    pub extraction: Option<ExtractionConfigView>,
    pub indexing: IndexingConfig,
}

impl View for ProjectConfig {
    type V = ProjectConfigView;

    open spec fn view(&self) -> ProjectConfigView {
        ProjectConfigView {
            schema_version: self.schema_version,
            embedding: self.embedding@,
            extraction: opt_view(self.extraction),
            indexing: self.indexing,
        }
    }
}

/// How many chunks are embedded at once where the configuration does not say:
/// somewhat more than a local backend works on, so that it is kept busy.
pub fn default_chunk_concurrency() -> (r: usize)
    ensures
        r == 8,
{
    8
}

impl Default for IndexingConfig {
    fn default() -> (r: Self)
        ensures
            r.chunk_concurrency == 8,
    {
        IndexingConfig { chunk_concurrency: default_chunk_concurrency() }
    }
}

/// The file that holds a project's configuration.
pub open spec fn config_path_of(root: Seq<char>) -> Seq<char> {
    joined_path(joined_path(root, ".kern"@), "config.toml"@)
}

/// The file that holds a project's configuration.
pub fn config_path(project_root: &str) -> (r: String)
    ensures
        r@ == config_path_of(project_root@),
{
    join_path(join_path(project_root, ".kern").as_str(), "config.toml")
}

/// The configuration of a project that is set up.
pub fn new_config(embedding: EmbeddingConfig, extraction: Option<ExtractionConfig>) -> (r: ProjectConfig)
    ensures
        r@ == (ProjectConfigView {
            schema_version: 1,
            embedding: embedding@,
            extraction: opt_view(extraction),
            indexing: IndexingConfig { chunk_concurrency: 8 },
        }),
{
    ProjectConfig { schema_version: 1, embedding, extraction, indexing: IndexingConfig::default() }
}

/// The configuration after the embedding provider was set. A project without
/// one gets one, and the rest of an existing one stays.
pub fn with_embedding(existing: Option<ProjectConfig>, embedding: EmbeddingConfig) -> (r: ProjectConfig)
    ensures
        r@ == (match existing {
            Some(c) => ProjectConfigView { embedding: embedding@, ..c@ },
            None => ProjectConfigView {
                schema_version: 1,
                embedding: embedding@,
                extraction: None,
                indexing: IndexingConfig { chunk_concurrency: 8 },
            },
        }),
{
    match existing {
        Some(c) => ProjectConfig {
            schema_version: c.schema_version,
            embedding,
            extraction: c.extraction,
            indexing: c.indexing,
        },
        None => new_config(embedding, None),
    }
}

/// The answer where a project has no embedding provider yet.
pub open spec fn needs_embedding_text(project: Seq<char>) -> Seq<char> {
    "AGENT_SURFACE.PROJECT_NOT_CONFIGURED: '"@ + project
        + "' has no embedding provider configured yet — run `kern config set-embedding` first"@
}

/// The configuration after the extraction provider was set or removed, which
/// takes a project that has an embedding provider.
pub fn with_extraction(
    project: &str,
    existing: Option<ProjectConfig>,
    extraction: Option<ExtractionConfig>,
) -> (r: Result<ProjectConfig, String>)
    ensures
        match existing {
            Some(c) => r is Ok && r->Ok_0@ == (ProjectConfigView {
                extraction: opt_view(extraction),
                ..c@
            }),
            None => r is Err && r->Err_0@ == needs_embedding_text(project@),
        },
{
    match existing {
        Some(c) => Ok(
            ProjectConfig {
                schema_version: c.schema_version,
                embedding: c.embedding,
                extraction,
                indexing: c.indexing,
            },
        ),
        None => {
            let mut m: String = "AGENT_SURFACE.PROJECT_NOT_CONFIGURED: '".to_owned();
            m.append(project);
            m.append(
                "' has no embedding provider configured yet — run `kern config set-embedding` first",
            );
            Err(m)
        },
    }
}

/// The answer where a project that is to be served has no configuration.
pub open spec fn not_configured_text(project: Seq<char>) -> Seq<char> {
    "AGENT_SURFACE.PROJECT_NOT_CONFIGURED: no .kern/config.toml for '"@ + project
        + "' — run `kern config set-embedding --project "@ + project
        + " --provider <ollama|llama_cpp_embedded> --model <name>` (this project predates provider configuration)"@
}

/// The configuration that a project is served with.
pub fn require_config(project: &str, loaded: Option<ProjectConfig>) -> (r: Result<ProjectConfig, String>)
    ensures
        match loaded {
            Some(c) => r == Ok::<ProjectConfig, String>(c),
            None => r is Err && r->Err_0@ == not_configured_text(project@),
        },
{
    match loaded {
        Some(c) => Ok(c),
        None => {
            let mut m: String =
                "AGENT_SURFACE.PROJECT_NOT_CONFIGURED: no .kern/config.toml for '".to_owned();
            m.append(project);
            m.append("' — run `kern config set-embedding --project ");
            m.append(project);
            m.append(
                " --provider <ollama|llama_cpp_embedded> --model <name>` (this project predates provider configuration)",
            );
            Err(m)
        },
    }
}

/// The largest chunk that is embedded, in tokens: what the provider takes, or
/// a cautious guess where it cannot tell.
pub fn chunk_budget(max_input_tokens: Option<usize>) -> (r: usize)
    ensures
        r == (match max_input_tokens {
            Some(n) => n,
            None => 256,
        }),
{
    match max_input_tokens {
        Some(n) => n,
        None => 256,
    }
}

/// The lines that show an extraction provider.
pub open spec fn extraction_lines(extraction: Option<ExtractionConfigView>) -> Seq<Seq<char>> {
    match extraction {
        Some(e) => seq!["extraction.provider = "@ + e.provider, "extraction.model = "@ + e.model],
        None => seq!["extraction = not configured"@],
    }
}

/// The lines that show a project's configuration.
pub open spec fn config_lines(project: Seq<char>, config: Option<ProjectConfigView>) -> Seq<Seq<char>> {
    match config {
        Some(c) => seq![
            "embedding.provider = "@ + c.embedding.provider,
            "embedding.model = "@ + c.embedding.model,
            "embedding.dimension = "@ + signed_text(c.embedding.dimension as int),
        ] + (match c.embedding.context_size {
            Some(n) => seq!["embedding.context_size = "@ + decimal_text(n as nat)],
            None => Seq::empty(),
        }) + extraction_lines(c.extraction) + seq![
            "indexing.chunk_concurrency = "@ + decimal_text(c.indexing.chunk_concurrency as nat)
                + " (edit .kern/config.toml to change — see README's \"Indexing throughput\" section)"@,
        ],
        None => seq![
            "'"@ + project
                + "' has no .kern/config.toml yet — run `kern config set-embedding --project "@
                + project + " --provider <ollama|llama_cpp_embedded> --model <name>`"@,
        ],
    }
}

/// Appends a line made of a label and a value.
fn push_line(lines: &mut Vec<String>, label: &str, value: &str)
    ensures
        views(final(lines)@) == views(old(lines)@).push(label@ + value@),
{
    let mut line: String = label.to_owned();
    line.append(value);
    let ghost before = lines@;
    let ghost v = line@;
    lines.push(line);
    proof {
        assert(views(lines@) =~= views(before).push(v));
    }
}

/// The lines that show a project's configuration.
pub fn config_report(project: &str, config: Option<&ProjectConfig>) -> (r: Vec<String>)
    ensures
        views(r@) == config_lines(project@, opt_ref_view(config)),
{
    let mut lines: Vec<String> = Vec::new();
    let ghost target = config_lines(project@, opt_ref_view(config));
    match config {
        Some(c) => {
            push_line(&mut lines, "embedding.provider = ", c.embedding.provider.as_str());
            push_line(&mut lines, "embedding.model = ", c.embedding.model.as_str());
            push_line(&mut lines, "embedding.dimension = ", signed(c.embedding.dimension).as_str());
            if let Some(n) = c.embedding.context_size {
                push_line(&mut lines, "embedding.context_size = ", decimal(n as u64).as_str());
            }
            match &c.extraction {
                Some(e) => {
                    push_line(&mut lines, "extraction.provider = ", e.provider.as_str());
                    push_line(&mut lines, "extraction.model = ", e.model.as_str());
                },
                None => {
                    push_line(&mut lines, "extraction = not configured", "");
                    proof {
                        reveal_strlit("");
                        assert("extraction = not configured"@ + ""@ =~= "extraction = not configured"@);
                    }
                },
            }
            let mut value: String = decimal(c.indexing.chunk_concurrency as u64);
            value.append(
                " (edit .kern/config.toml to change — see README's \"Indexing throughput\" section)",
            );
            push_line(&mut lines, "indexing.chunk_concurrency = ", value.as_str());
            proof {
                assert("indexing.chunk_concurrency = "@ + value@ =~= "indexing.chunk_concurrency = "@
                    + decimal_text(c.indexing.chunk_concurrency as nat)
                    + " (edit .kern/config.toml to change — see README's \"Indexing throughput\" section)"@);
                assert(views(lines@) =~= target);
            }
        },
        None => {
            let mut line: String = project.to_owned();
            line.append("' has no .kern/config.toml yet — run `kern config set-embedding --project ");
            line.append(project);
            line.append(" --provider <ollama|llama_cpp_embedded> --model <name>`");
            push_line(&mut lines, "'", line.as_str());
            proof {
                assert("'"@ + line@ =~= "'"@ + project@
                    + "' has no .kern/config.toml yet — run `kern config set-embedding --project "@
                    + project@ + " --provider <ollama|llama_cpp_embedded> --model <name>`"@);
                assert(views(lines@) =~= target);
            }
        },
    }
    lines
}

/// The numbers that a status report tells.
#[derive(Clone, Copy, Debug, PartialEq, Eq, Structural)]
pub struct StatusCounts {
    pub chunks: usize,
    pub entity_types: usize,
    pub relation_types: usize,
    pub canonical: usize,
}

/// The numbers of a project with some types and some indexed chunks.
pub fn status_counts(types: &TypeRegistry, chunks: usize) -> (r: StatusCounts)
    ensures
        r.chunks == chunks,
        r.entity_types == types@.entity_types.len(),
        r.relation_types == types@.relation_types.len(),
        r.canonical == types@.relation_types.filter(
            |t: RelationTypeRowView| t.status == RelationTypeStatus::Canonical,
        ).len(),
{
    let ghost all = types@.relation_types;
    let ghost p = |t: RelationTypeRowView| t.status == RelationTypeStatus::Canonical;
    let mut canonical: usize = 0;
    let mut i: usize = 0;
    proof {
        assert(all.take(0).filter(p) =~= Seq::<RelationTypeRowView>::empty());
    }
    while i < types.relation_types.len()
        invariant
            i <= types.relation_types.len(),
            canonical <= i,
            all == types@.relation_types,
            p == (|t: RelationTypeRowView| t.status == RelationTypeStatus::Canonical),
            canonical == all.take(i as int).filter(p).len(),
        decreases types.relation_types.len() - i,
    {
        proof {
            lemma_filter_next(all, p, i as int);
            assert(all[i as int] == types.relation_types@[i as int]@);
        }
        if types.relation_types[i].status == RelationTypeStatus::Canonical {
            canonical += 1;
        }
        i += 1;
    }
    proof {
        assert(all.take(all.len() as int) =~= all);
    }
    StatusCounts {
        chunks,
        entity_types: types.entity_types.len(),
        relation_types: types.relation_types.len(),
        canonical,
    }
}

/// The lines that show a project's providers.
pub open spec fn provider_lines(project: Seq<char>, config: Option<ProjectConfigView>) -> Seq<Seq<char>> {
    match config {
        Some(c) => seq![
            "embedding: "@ + c.embedding.model + " via "@ + c.embedding.provider + " ("@ + signed_text(
                c.embedding.dimension as int,
            ) + "-dim)"@,
            match c.extraction {
                Some(e) => "extraction: "@ + e.model + " via "@ + e.provider,
                None => "extraction: not configured"@,
            },
        ],
        None => seq![
            "provider: not configured — run `kern config set-embedding --project "@ + project
                + " --provider <ollama|llama_cpp_embedded> --model <name>`"@,
        ],
    }
}

/// The lines of a project's status report.
pub open spec fn status_lines(
    project: Seq<char>,
    root: Seq<char>,
    config: Option<ProjectConfigView>,
    counts: StatusCounts,
) -> Seq<Seq<char>> {
    seq!["project: "@ + project + " ("@ + root + ")"@] + provider_lines(project, config) + seq![
        "chunks indexed: "@ + decimal_text(counts.chunks as nat),
        "entity types: "@ + decimal_text(counts.entity_types as nat) + " | relation types: "@
            + decimal_text(counts.relation_types as nat) + " ("@ + decimal_text(
            counts.canonical as nat,
        ) + " canonical)"@,
        "note: fallback rate is an in-memory metric of a `serve` session — not visible here across processes (v0 is single-client, with no multi-process coordination)"@,
    ]
}

/// The lines of a project's status report.
pub fn status_report(
    project: &str,
    root: &str,
    config: Option<&ProjectConfig>,
    counts: StatusCounts,
) -> (r: Vec<String>)
    ensures
        views(r@) == status_lines(project@, root@, opt_ref_view(config), counts),
{
    let ghost target = status_lines(project@, root@, opt_ref_view(config), counts);
    let mut lines: Vec<String> = Vec::new();
    let mut head: String = project.to_owned();
    head.append(" (");
    head.append(root);
    head.append(")");
    push_line(&mut lines, "project: ", head.as_str());
    proof {
        assert("project: "@ + head@ =~= "project: "@ + project@ + " ("@ + root@ + ")"@);
    }
    match config {
        Some(c) => {
            let mut line: String = c.embedding.model.clone();
            line.append(" via ");
            line.append(c.embedding.provider.as_str());
            line.append(" (");
            line.append(signed(c.embedding.dimension).as_str());
            line.append("-dim)");
            push_line(&mut lines, "embedding: ", line.as_str());
            proof {
                assert("embedding: "@ + line@ =~= "embedding: "@ + c.embedding.model@ + " via "@
                    + c.embedding.provider@ + " ("@ + signed_text(c.embedding.dimension as int)
                    + "-dim)"@);
            }
            match &c.extraction {
                Some(e) => {
                    let mut text: String = e.model.clone();
                    text.append(" via ");
                    text.append(e.provider.as_str());
                    push_line(&mut lines, "extraction: ", text.as_str());
                    proof {
                        assert("extraction: "@ + text@ =~= "extraction: "@ + e.model@ + " via "@
                            + e.provider@);
                    }
                },
                None => {
                    push_line(&mut lines, "extraction: not configured", "");
                    proof {
                        reveal_strlit("");
                        assert("extraction: not configured"@ + ""@ =~= "extraction: not configured"@);
                    }
                },
            }
        },
        None => {
            let mut line: String = project.to_owned();
            line.append(" --provider <ollama|llama_cpp_embedded> --model <name>`");
            push_line(
                &mut lines,
                "provider: not configured — run `kern config set-embedding --project ",
                line.as_str(),
            );
            proof {
                assert("provider: not configured — run `kern config set-embedding --project "@ + line@
                    =~= "provider: not configured — run `kern config set-embedding --project "@
                    + project@ + " --provider <ollama|llama_cpp_embedded> --model <name>`"@);
            }
        },
    }
    push_line(&mut lines, "chunks indexed: ", decimal(counts.chunks as u64).as_str());
    let mut types: String = decimal(counts.entity_types as u64);
    types.append(" | relation types: ");
    types.append(decimal(counts.relation_types as u64).as_str());
    types.append(" (");
    types.append(decimal(counts.canonical as u64).as_str());
    types.append(" canonical)");
    push_line(&mut lines, "entity types: ", types.as_str());
    push_line(
        &mut lines,
        "note: fallback rate is an in-memory metric of a `serve` session — not visible here across processes (v0 is single-client, with no multi-process coordination)",
        "",
    );
    proof {
        reveal_strlit("");
        assert("entity types: "@ + types@ =~= "entity types: "@ + decimal_text(
            counts.entity_types as nat,
        ) + " | relation types: "@ + decimal_text(counts.relation_types as nat) + " ("@
            + decimal_text(counts.canonical as nat) + " canonical)"@);
        let note =
            "note: fallback rate is an in-memory metric of a `serve` session — not visible here across processes (v0 is single-client, with no multi-process coordination)"@;
        assert(note + ""@ =~= note);
        assert(views(lines@) =~= target);
    }
    lines
}

} // verus!
