//! Choosing model providers: what flags, answers and a project's configuration
//! mean, and what is said where they do not fit.

use vstd::prelude::*;
use crate::config::{
    EmbeddingConfig, EmbeddingConfigView, ExtractionConfig, ExtractionConfigView,
};
use crate::model::OllamaModelInfo;
use crate::paths::{extension, extension_of, file_name, file_name_of};
use crate::scan::{sort_paths, sorted_paths};
use crate::text::same_text;
use crate::views::{lemma_filter_next, opt_view, views};
use crate::words::{decimal, decimal_text, parse_number, parsed_number, trim, trimmed};

verus! {

/// The context size that the bundled `llama-server` is started with: what the
/// bundled model takes at most.
pub const BUNDLED_MODEL_CONTEXT_SIZE: u32 = 512;

/// The embedding provider that was chosen.
#[derive(Debug)]
pub enum EmbeddingChoice {
    Ollama { model: String },
    LlamaCppEmbedded,
}

/// What an [`EmbeddingChoice`] holds.
pub enum EmbeddingChoiceView {
    Ollama { model: Seq<char> },
    LlamaCppEmbedded,
}

impl View for EmbeddingChoice {
    type V = EmbeddingChoiceView;

    open spec fn view(&self) -> EmbeddingChoiceView {
        match *self {
            EmbeddingChoice::Ollama { model } => EmbeddingChoiceView::Ollama { model: model@ },
            EmbeddingChoice::LlamaCppEmbedded => EmbeddingChoiceView::LlamaCppEmbedded,
        }
    }
}

impl Clone for EmbeddingChoice {
    fn clone(&self) -> (r: Self)
        ensures
            r@ == self@,
    {
        match self {
            EmbeddingChoice::Ollama { model } => EmbeddingChoice::Ollama { model: model.clone() },
            EmbeddingChoice::LlamaCppEmbedded => EmbeddingChoice::LlamaCppEmbedded,
        }
    }
}

/// The extraction provider that was chosen, if any.
#[derive(Debug)]
pub enum ExtractionChoice {
    Ollama { model: String },
    Skip,
}

/// What an [`ExtractionChoice`] holds.
pub enum ExtractionChoiceView {
    Ollama { model: Seq<char> },
    Skip,
}

impl View for ExtractionChoice {
    type V = ExtractionChoiceView;

    open spec fn view(&self) -> ExtractionChoiceView {
        match *self {
            ExtractionChoice::Ollama { model } => ExtractionChoiceView::Ollama { model: model@ },
            ExtractionChoice::Skip => ExtractionChoiceView::Skip,
        }
    }
}

impl Clone for ExtractionChoice {
    fn clone(&self) -> (r: Self)
        ensures
            r@ == self@,
    {
        match self {
            ExtractionChoice::Ollama { model } => ExtractionChoice::Ollama { model: model.clone() },
            ExtractionChoice::Skip => ExtractionChoice::Skip,
        }
    }
}

/// The view of a choice, or of what is said in its place.
pub open spec fn choice_view<T: View>(r: Result<T, String>) -> Result<T::V, Seq<char>> {
    match r {
        Ok(t) => Ok(t@),
        Err(m) => Err(m@),
    }
}

/// The view of an optional choice, or of what is said in its place.
pub open spec fn optional_choice_view<T: View>(r: Result<Option<T>, String>) -> Result<
    Option<T::V>,
    Seq<char>,
> {
    match r {
        Ok(t) => Ok(opt_view(t)),
        Err(m) => Err(m@),
    }
}

/// The embedding provider that two flags name.
pub open spec fn embedding_choice(provider: Seq<char>, model: Seq<char>) -> Result<
    EmbeddingChoiceView,
    Seq<char>,
> {
    if provider == "ollama"@ {
        Ok(EmbeddingChoiceView::Ollama { model })
    } else if provider == "llama_cpp_embedded"@ {
        Ok(EmbeddingChoiceView::LlamaCppEmbedded)
    } else {
        Err(
            "AGENT_SURFACE.UNKNOWN_PROVIDER: '"@ + provider
                + "' — expected \"ollama\" or \"llama_cpp_embedded\""@,
        )
    }
}

/// The embedding provider that two flags name.
pub fn parse_embedding_choice(provider: &str, model: String) -> (r: Result<EmbeddingChoice, String>)
    ensures
        choice_view(r) == embedding_choice(provider@, model@),
{
    if same_text(provider, "ollama") {
        Ok(EmbeddingChoice::Ollama { model })
    } else if same_text(provider, "llama_cpp_embedded") {
        Ok(EmbeddingChoice::LlamaCppEmbedded)
    } else {
        let mut m: String = "AGENT_SURFACE.UNKNOWN_PROVIDER: '".to_owned();
        m.append(provider);
        m.append("' — expected \"ollama\" or \"llama_cpp_embedded\"");
        Err(m)
    }
}

/// The extraction provider that two flags name.
pub open spec fn extraction_choice(provider: Seq<char>, model: Seq<char>) -> Result<
    ExtractionChoiceView,
    Seq<char>,
> {
    if provider == "ollama"@ {
        Ok(ExtractionChoiceView::Ollama { model })
    } else {
        Err("AGENT_SURFACE.UNKNOWN_PROVIDER: '"@ + provider + "' — expected \"ollama\""@)
    }
}

/// The extraction provider that two flags name.
pub fn parse_extraction_choice(provider: &str, model: String) -> (r: Result<ExtractionChoice, String>)
    ensures
        choice_view(r) == extraction_choice(provider@, model@),
{
    if same_text(provider, "ollama") {
        Ok(ExtractionChoice::Ollama { model })
    } else {
        let mut m: String = "AGENT_SURFACE.UNKNOWN_PROVIDER: '".to_owned();
        m.append(provider);
        m.append("' — expected \"ollama\"");
        Err(m)
    }
}

/// What the embedding flags of a new project mean: a provider, the guided
/// setup where there are none, and nothing where one of them is missing.
pub open spec fn embedding_flags(provider: Option<Seq<char>>, model: Option<Seq<char>>) -> Result<
    Option<EmbeddingChoiceView>,
    Seq<char>,
> {
    match (provider, model) {
        (Some(p), Some(m)) => match embedding_choice(p, m) {
            Ok(choice) => Ok(Some(choice)),
            Err(e) => Err(e),
        },
        (None, None) => Ok(None),
        _ => Err(
            "AGENT_SURFACE.INCOMPLETE_PROVIDER_FLAGS: pass both --embedding-provider and --embedding-model together, or neither for the guided setup"@,
        ),
    }
}

/// What the embedding flags of a new project mean.
pub fn choose_embedding(provider: Option<String>, model: Option<String>) -> (r: Result<
    Option<EmbeddingChoice>,
    String,
>)
    ensures
        optional_choice_view(r) == embedding_flags(opt_view(provider), opt_view(model)),
{
    match (provider, model) {
        (Some(p), Some(m)) => match parse_embedding_choice(p.as_str(), m) {
            Ok(choice) => Ok(Some(choice)),
            Err(e) => Err(e),
        },
        (None, None) => Ok(None),
        _ => Err(
            "AGENT_SURFACE.INCOMPLETE_PROVIDER_FLAGS: pass both --embedding-provider and --embedding-model together, or neither for the guided setup".to_owned(),
        ),
    }
}

/// What the extraction flags of a new project mean: a provider; where there
/// are none, the guided setup at a terminal and no extraction elsewhere; and
/// nothing where one of them is missing.
pub open spec fn extraction_flags(
    provider: Option<Seq<char>>,
    model: Option<Seq<char>>,
    at_terminal: bool,
) -> Result<Option<ExtractionChoiceView>, Seq<char>> {
    match (provider, model) {
        (Some(p), Some(m)) => match extraction_choice(p, m) {
            Ok(choice) => Ok(Some(choice)),
            Err(e) => Err(e),
        },
        (None, None) => if at_terminal {
            Ok(None)
        } else {
            Ok(Some(ExtractionChoiceView::Skip))
        },
        _ => Err(
            "AGENT_SURFACE.INCOMPLETE_PROVIDER_FLAGS: pass both --extraction-provider and --extraction-model together, or neither to skip extraction"@,
        ),
    }
}

/// What the extraction flags of a new project mean.
pub fn choose_extraction(provider: Option<String>, model: Option<String>, at_terminal: bool) -> (r: Result<
    Option<ExtractionChoice>,
    String,
>)
    ensures
        optional_choice_view(r) == extraction_flags(opt_view(provider), opt_view(model), at_terminal),
{
    match (provider, model) {
        (Some(p), Some(m)) => match parse_extraction_choice(p.as_str(), m) {
            Ok(choice) => Ok(Some(choice)),
            Err(e) => Err(e),
        },
        (None, None) => if at_terminal {
            Ok(None)
        } else {
            Ok(Some(ExtractionChoice::Skip))
        },
        _ => Err(
            "AGENT_SURFACE.INCOMPLETE_PROVIDER_FLAGS: pass both --extraction-provider and --extraction-model together, or neither to skip extraction".to_owned(),
        ),
    }
}

/// What the flags that reconfigure extraction mean: a provider, or its removal
/// where there are none.
pub open spec fn set_extraction_flags(provider: Option<Seq<char>>, model: Option<Seq<char>>) -> Result<
    ExtractionChoiceView,
    Seq<char>,
> {
    match (provider, model) {
        (Some(p), Some(m)) => extraction_choice(p, m),
        (None, None) => Ok(ExtractionChoiceView::Skip),
        _ => Err(
            "AGENT_SURFACE.INCOMPLETE_PROVIDER_FLAGS: pass both --provider and --model together, or neither to remove extraction"@,
        ),
    }
}

/// What the flags that reconfigure extraction mean.
pub fn choose_new_extraction(provider: Option<String>, model: Option<String>) -> (r: Result<
    ExtractionChoice,
    String,
>)
    ensures
        choice_view(r) == set_extraction_flags(opt_view(provider), opt_view(model)),
{
    match (provider, model) {
        (Some(p), Some(m)) => parse_extraction_choice(p.as_str(), m),
        (None, None) => Ok(ExtractionChoice::Skip),
        _ => Err(
            "AGENT_SURFACE.INCOMPLETE_PROVIDER_FLAGS: pass both --provider and --model together, or neither to remove extraction".to_owned(),
        ),
    }
}

/// Whether the guided setup has to ask for the embedding provider; where
/// nobody can be asked, that is said, rather than waited for.
pub fn needs_embedding_prompt(choice: &Option<EmbeddingChoice>, at_terminal: bool) -> (r: Result<
    bool,
    String,
>)
    ensures
        match choice {
            Some(_) => r == Ok::<bool, String>(false),
            None => if at_terminal {
                r == Ok::<bool, String>(true)
            } else {
                r is Err && r->Err_0@
                    == "AGENT_SURFACE.PROJECT_NOT_CONFIGURED: no --embedding-provider/--embedding-model given and stdin isn't a terminal — pass both flags explicitly, or run this interactively for the guided setup"@
            },
        },
{
    match choice {
        Some(_) => Ok(false),
        None => if at_terminal {
            Ok(true)
        } else {
            Err(
                "AGENT_SURFACE.PROJECT_NOT_CONFIGURED: no --embedding-provider/--embedding-model given and stdin isn't a terminal — pass both flags explicitly, or run this interactively for the guided setup".to_owned(),
            )
        },
    }
}

/// The last part of a path, or the path.
pub open spec fn base_name(path: Seq<char>) -> Seq<char> {
    match file_name_of(path) {
        Some(name) => name,
        None => path,
    }
}

/// The last part of a path, or the path.
pub fn base_name_of(path: &str) -> (r: String)
    ensures
        r@ == base_name(path@),
{
    match file_name(path) {
        Some(name) => name,
        None => path.to_owned(),
    }
}

/// The configuration of an Ollama embedding model that reported a dimension.
pub fn ollama_embedding_config(model: String, embedding_dim: usize) -> (r: EmbeddingConfig)
    ensures
        r@ == (EmbeddingConfigView {
            provider: "ollama"@,
            model: model@,
            dimension: embedding_dim as i32,
            context_size: None,
        }),
{
    EmbeddingConfig {
        provider: "ollama".to_owned(),
        model,
        dimension:
            #[verifier::truncate]
            (embedding_dim as i32),
        context_size: None,
    }
}

/// The configuration of a bundled embedding model that reported a dimension.
pub fn embedded_embedding_config(model_path: &str, embedding_dim: usize) -> (r: EmbeddingConfig)
    ensures
        r@ == (EmbeddingConfigView {
            provider: "llama_cpp_embedded"@,
            model: base_name(model_path@),
            dimension: embedding_dim as i32,
            context_size: Some(BUNDLED_MODEL_CONTEXT_SIZE),
        }),
{
    EmbeddingConfig {
        provider: "llama_cpp_embedded".to_owned(),
        model: base_name_of(model_path),
        dimension:
            #[verifier::truncate]
            (embedding_dim as i32),
        context_size: Some(BUNDLED_MODEL_CONTEXT_SIZE),
    }
}

/// The configuration of an Ollama extraction model.
pub fn ollama_extraction_config(model: String) -> (r: ExtractionConfig)
    ensures
        r@ == (ExtractionConfigView { provider: "ollama"@, model: model@ }),
{
    ExtractionConfig { provider: "ollama".to_owned(), model }
}

/// What is said where an Ollama model cannot be used for embeddings.
pub open spec fn embedding_unavailable(model: Seq<char>, reason: Seq<char>) -> Seq<char> {
    "AGENT_SURFACE.PROVIDER_UNAVAILABLE: could not use ollama:"@ + model + " for embeddings — "@ + reason
}

/// What is said where an Ollama model cannot be used for embeddings.
pub fn embedding_unavailable_message(model: &str, reason: &str) -> (r: String)
    ensures
        r@ == embedding_unavailable(model@, reason@),
{
    let mut m: String = "AGENT_SURFACE.PROVIDER_UNAVAILABLE: could not use ollama:".to_owned();
    m.append(model);
    m.append(" for embeddings — ");
    m.append(reason);
    m
}

/// What is said where an Ollama model cannot be used for extraction.
pub open spec fn extraction_unavailable(model: Seq<char>, reason: Seq<char>) -> Seq<char> {
    "AGENT_SURFACE.PROVIDER_UNAVAILABLE: ollama:"@ + model
        + " did not respond to a real extraction call — "@ + reason
}

/// What is said where an Ollama model cannot be used for extraction.
pub fn extraction_unavailable_message(model: &str, reason: &str) -> (r: String)
    ensures
        r@ == extraction_unavailable(model@, reason@),
{
    let mut m: String = "AGENT_SURFACE.PROVIDER_UNAVAILABLE: ollama:".to_owned();
    m.append(model);
    m.append(" did not respond to a real extraction call — ");
    m.append(reason);
    m
}

/// What a project's configuration has to be served with.
#[derive(Debug)]
pub enum EmbeddingPlan {
    Ollama { model: String },
    Embedded { context_size: u32, parallel_slots: u32 },
}

/// What an [`EmbeddingPlan`] holds.
pub enum EmbeddingPlanView {
    Ollama { model: Seq<char> },
    Embedded { context_size: u32, parallel_slots: u32 },
}

impl View for EmbeddingPlan {
    type V = EmbeddingPlanView;

    open spec fn view(&self) -> EmbeddingPlanView {
        match *self {
            EmbeddingPlan::Ollama { model } => EmbeddingPlanView::Ollama { model: model@ },
            EmbeddingPlan::Embedded { context_size, parallel_slots } => EmbeddingPlanView::Embedded {
                context_size,
                parallel_slots,
            },
        }
    }
}

/// The embedding provider that a configuration names.
pub open spec fn embedding_plan(c: EmbeddingConfigView) -> Result<EmbeddingPlanView, Seq<char>> {
    if c.provider == "ollama"@ {
        Ok(EmbeddingPlanView::Ollama { model: c.model })
    } else if c.provider == "llama_cpp_embedded"@ {
        Ok(
            EmbeddingPlanView::Embedded {
                context_size: match c.context_size {
                    Some(n) => n,
                    None => BUNDLED_MODEL_CONTEXT_SIZE,
                },
                parallel_slots: 1,
            },
        )
    } else {
        Err(
            "AGENT_SURFACE.UNKNOWN_PROVIDER: '"@ + c.provider
                + "' in .kern/config.toml is not a known embedding provider"@,
        )
    }
}

/// The embedding provider that a configuration names. There is no other one to
/// fall back to: embeddings of another dimension would not fit the index.
pub fn select_embedding(config: &EmbeddingConfig) -> (r: Result<EmbeddingPlan, String>)
    ensures
        choice_view(r) == embedding_plan(config@),
{
    if same_text(config.provider.as_str(), "ollama") {
        Ok(EmbeddingPlan::Ollama { model: config.model.clone() })
    } else if same_text(config.provider.as_str(), "llama_cpp_embedded") {
        let context_size: u32 = match config.context_size {
            Some(n) => n,
            None => BUNDLED_MODEL_CONTEXT_SIZE,
        };
        Ok(EmbeddingPlan::Embedded { context_size, parallel_slots: 1 })
    } else {
        let mut m: String = "AGENT_SURFACE.UNKNOWN_PROVIDER: '".to_owned();
        m.append(config.provider.as_str());
        m.append("' in .kern/config.toml is not a known embedding provider");
        Err(m)
    }
}

/// The extraction model that a configuration names, where it names one.
pub open spec fn extraction_plan(c: Option<ExtractionConfigView>) -> Result<Option<Seq<char>>, Seq<char>> {
    match c {
        None => Ok(None),
        Some(e) => if e.provider == "ollama"@ {
            Ok(Some(e.model))
        } else {
            Err(
                "AGENT_SURFACE.UNKNOWN_PROVIDER: '"@ + e.provider
                    + "' in .kern/config.toml is not a known extraction provider"@,
            )
        },
    }
}

/// The extraction model that a configuration names, where it names one.
pub fn select_extraction(config: &Option<ExtractionConfig>) -> (r: Result<Option<String>, String>)
    ensures
        optional_choice_view(r) == extraction_plan(opt_view(*config)),
{
    match config {
        None => Ok(None),
        Some(e) => if same_text(e.provider.as_str(), "ollama") {
            Ok(Some(e.model.clone()))
        } else {
            let mut m: String = "AGENT_SURFACE.UNKNOWN_PROVIDER: '".to_owned();
            m.append(e.provider.as_str());
            m.append("' in .kern/config.toml is not a known extraction provider");
            Err(m)
        },
    }
}

/// A choice that the guided setup offers.
#[derive(Debug)]
pub struct EmbeddingOption {
    pub label: String,
    pub choice: EmbeddingChoice,
}

/// What an [`EmbeddingOption`] holds.
pub struct EmbeddingOptionView {
    pub label: Seq<char>,
    pub choice: EmbeddingChoiceView,
}

impl View for EmbeddingOption {
    type V = EmbeddingOptionView;

    open spec fn view(&self) -> EmbeddingOptionView {
        EmbeddingOptionView { label: self.label@, choice: self.choice@ }
    }
}

/// A number, or a question mark where it is not known.
pub open spec fn number_or_question(n: Option<u64>) -> Seq<char> {
    match n {
        Some(k) => decimal_text(k as nat),
        None => "?"@,
    }
}

fn number_label(n: Option<u64>) -> (r: String)
    ensures
        r@ == number_or_question(n),
{
    match n {
        Some(k) => decimal(k),
        None => "?".to_owned(),
    }
}

/// An Ollama model as the guided setup offers it for embeddings.
pub open spec fn embedding_option(m: OllamaModelInfo) -> EmbeddingOptionView {
    EmbeddingOptionView {
        label: "ollama: "@ + m.name@ + " (embedding, "@ + number_or_question(m.details.embedding_length)
            + "-dim, ctx "@ + number_or_question(m.details.context_length) + ")"@,
        choice: EmbeddingChoiceView::Ollama { model: m.name@ },
    }
}

/// The bundled model as the guided setup offers it.
pub open spec fn bundled_option() -> EmbeddingOptionView {
    EmbeddingOptionView {
        label: "bundled llama-server (embedding only)"@,
        choice: EmbeddingChoiceView::LlamaCppEmbedded,
    }
}

/// What the guided setup offers for embeddings: the models that report that
/// they embed, and the bundled one where it is there.
pub open spec fn embedding_options_of(models: Seq<OllamaModelInfo>, bundled: bool) -> Seq<
    EmbeddingOptionView,
> {
    let listed = models.filter(|m: OllamaModelInfo| m.reports("embedding"@)).map_values(
        |m: OllamaModelInfo| embedding_option(m),
    );
    if bundled {
        listed.push(bundled_option())
    } else {
        listed
    }
}

/// What the guided setup offers for embeddings.
pub fn embedding_options(models: &Vec<OllamaModelInfo>, bundled: bool) -> (r: Result<
    Vec<EmbeddingOption>,
    String,
>)
    ensures
        ({
            let options = embedding_options_of(models@, bundled);
            match r {
                Ok(o) => options.len() > 0 && views(o@) == options,
                Err(m) => options.len() == 0 && m@
                    == "AGENT_SURFACE.PROVIDER_UNAVAILABLE: no local embedding backend found — run `ollama pull all-minilm`, or download the kern-<target>-with-embedding-model release tarball for the bundled path"@,
            }
        }),
{
    let ghost p = |m: OllamaModelInfo| m.reports("embedding"@);
    let ghost show = |m: OllamaModelInfo| embedding_option(m);
    let mut options: Vec<EmbeddingOption> = Vec::new();
    let mut i: usize = 0;
    proof {
        assert(models@.take(0).filter(p) =~= Seq::<OllamaModelInfo>::empty());
        assert(views(options@) =~= models@.take(0).filter(p).map_values(show));
    }
    while i < models.len()
        invariant
            i <= models@.len(),
            p == (|m: OllamaModelInfo| m.reports("embedding"@)),
            show == (|m: OllamaModelInfo| embedding_option(m)),
            views(options@) == models@.take(i as int).filter(p).map_values(show),
        decreases models@.len() - i,
    {
        proof {
            lemma_filter_next(models@, p, i as int);
        }
        if models[i].supports_embedding() {
            let mut label: String = "ollama: ".to_owned();
            label.append(models[i].name.as_str());
            label.append(" (embedding, ");
            label.append(number_label(models[i].details.embedding_length).as_str());
            label.append("-dim, ctx ");
            label.append(number_label(models[i].details.context_length).as_str());
            label.append(")");
            let option = EmbeddingOption {
                label,
                choice: EmbeddingChoice::Ollama { model: models[i].name.clone() },
            };
            let ghost before = options@;
            let ghost v = option@;
            options.push(option);
            proof {
                assert(v == embedding_option(models@[i as int]));
                assert(views(options@) =~= views(before).push(v));
                assert(models@.take(i + 1).filter(p).map_values(show) =~= models@.take(i as int).filter(
                    p,
                ).map_values(show).push(v));
            }
        }
        i += 1;
    }
    proof {
        assert(models@.take(models@.len() as int) =~= models@);
    }
    if bundled {
        let option = EmbeddingOption {
            label: "bundled llama-server (embedding only)".to_owned(),
            choice: EmbeddingChoice::LlamaCppEmbedded,
        };
        let ghost before = options@;
        let ghost v = option@;
        options.push(option);
        proof {
            assert(views(options@) =~= views(before).push(v));
        }
    }
    proof {
        assert(views(options@) == embedding_options_of(models@, bundled));
    }
    if options.len() == 0 {
        return Err(
            "AGENT_SURFACE.PROVIDER_UNAVAILABLE: no local embedding backend found — run `ollama pull all-minilm`, or download the kern-<target>-with-embedding-model release tarball for the bundled path".to_owned(),
        );
    }
    Ok(options)
}

/// A choice that the guided setup offers for extraction.
#[derive(Debug)]
pub struct ExtractionOption {
    pub label: String,
    pub choice: ExtractionChoice,
}

/// What an [`ExtractionOption`] holds.
pub struct ExtractionOptionView {
    pub label: Seq<char>,
    pub choice: ExtractionChoiceView,
}

impl View for ExtractionOption {
    type V = ExtractionOptionView;

    open spec fn view(&self) -> ExtractionOptionView {
        ExtractionOptionView { label: self.label@, choice: self.choice@ }
    }
}

/// An Ollama model as the guided setup offers it for extraction.
pub open spec fn extraction_option(m: OllamaModelInfo) -> ExtractionOptionView {
    ExtractionOptionView {
        label: "ollama: "@ + m.name@ + " (extraction/judging)"@,
        choice: ExtractionChoiceView::Ollama { model: m.name@ },
    }
}

/// The offer to do without extraction.
pub open spec fn skip_option() -> ExtractionOptionView {
    ExtractionOptionView {
        label: "skip extraction for this project"@,
        choice: ExtractionChoiceView::Skip,
    }
}

/// What the guided setup offers for extraction: the models that report that
/// they complete, and then to do without; nothing where there is no such
/// model.
pub open spec fn extraction_options_of(models: Seq<OllamaModelInfo>) -> Seq<ExtractionOptionView> {
    let listed = models.filter(|m: OllamaModelInfo| m.reports("completion"@)).map_values(
        |m: OllamaModelInfo| extraction_option(m),
    );
    if listed.len() > 0 {
        listed.push(skip_option())
    } else {
        listed
    }
}

/// What the guided setup offers for extraction.
pub fn extraction_options(models: &Vec<OllamaModelInfo>) -> (r: Vec<ExtractionOption>)
    ensures
        views(r@) == extraction_options_of(models@),
{
    let ghost p = |m: OllamaModelInfo| m.reports("completion"@);
    let ghost show = |m: OllamaModelInfo| extraction_option(m);
    let mut options: Vec<ExtractionOption> = Vec::new();
    let mut i: usize = 0;
    proof {
        assert(models@.take(0).filter(p) =~= Seq::<OllamaModelInfo>::empty());
        assert(views(options@) =~= models@.take(0).filter(p).map_values(show));
    }
    while i < models.len()
        invariant
            i <= models@.len(),
            p == (|m: OllamaModelInfo| m.reports("completion"@)),
            show == (|m: OllamaModelInfo| extraction_option(m)),
            views(options@) == models@.take(i as int).filter(p).map_values(show),
        decreases models@.len() - i,
    {
        proof {
            lemma_filter_next(models@, p, i as int);
        }
        if models[i].supports_completion() {
            let mut label: String = "ollama: ".to_owned();
            label.append(models[i].name.as_str());
            label.append(" (extraction/judging)");
            let option = ExtractionOption {
                label,
                choice: ExtractionChoice::Ollama { model: models[i].name.clone() },
            };
            let ghost before = options@;
            let ghost v = option@;
            options.push(option);
            proof {
                assert(v == extraction_option(models@[i as int]));
                assert(views(options@) =~= views(before).push(v));
                assert(models@.take(i + 1).filter(p).map_values(show) =~= models@.take(i as int).filter(
                    p,
                ).map_values(show).push(v));
            }
        }
        i += 1;
    }
    proof {
        assert(models@.take(models@.len() as int) =~= models@);
        assert(views(options@).len() == options@.len());
    }
    if options.len() > 0 {
        let option = ExtractionOption {
            label: "skip extraction for this project".to_owned(),
            choice: ExtractionChoice::Skip,
        };
        let ghost before = options@;
        let ghost v = option@;
        options.push(option);
        proof {
            assert(views(options@) =~= views(before).push(v));
        }
    }
    options
}

/// What an answer to a numbered list of `count` choices picks: the first for
/// an empty answer, or the one of that number.
pub open spec fn picked(answer: Seq<char>, count: nat) -> Result<nat, Seq<char>> {
    let text = trimmed(answer);
    let wanted = if text.len() == 0 {
        Ok(1nat)
    } else {
        match parsed_number(text, usize::MAX as nat) {
            Some(n) => Ok(n),
            None => Err("invalid choice: '"@ + text + "'"@),
        }
    };
    match wanted {
        Err(m) => Err(m),
        Ok(n) => if n == 0 {
            Err("choice must be 1 or higher"@)
        } else if n > count {
            Err("choice out of range"@)
        } else {
            Ok((n - 1) as nat)
        },
    }
}

/// What an answer to a numbered list of `count` choices picks.
pub fn pick(answer: &str, count: usize) -> (r: Result<usize, String>)
    ensures
        match r {
            Ok(i) => i < count && picked(answer@, count as nat) == Ok::<nat, Seq<char>>(i as nat),
            Err(m) => picked(answer@, count as nat) == Err::<nat, Seq<char>>(m@),
        },
{
    let text: String = trim(answer);
    let wanted: u64;
    if text.as_str().is_empty() {
        wanted = 1;
    } else {
        match parse_number(text.as_str(), usize::MAX as u64) {
            Some(n) => {
                wanted = n;
            },
            None => {
                let mut m: String = "invalid choice: '".to_owned();
                m.append(text.as_str());
                m.append("'");
                return Err(m);
            },
        }
    }
    if wanted == 0 {
        return Err("choice must be 1 or higher".to_owned());
    }
    if wanted > count as u64 {
        return Err("choice out of range".to_owned());
    }
    Ok((wanted - 1) as usize)
}

/// The file is a model's weights.
pub open spec fn is_model_file(path: Seq<char>) -> bool {
    match file_name_of(path) {
        Some(name) => extension_of(name) == Some("gguf"@),
        None => false,
    }
}

/// The model among some files: the first in the order of their paths.
pub open spec fn first_model_of(paths: Seq<Seq<char>>) -> Option<Seq<char>> {
    let models = sorted_paths(paths.filter(|p: Seq<char>| is_model_file(p)));
    if models.len() > 0 {
        Some(models[0])
    } else {
        None
    }
}

/// The model among some files.
pub fn first_model(paths: &Vec<String>) -> (r: Option<String>)
    ensures
        opt_view(r) == first_model_of(views(paths@)),
{
    let ghost all = views(paths@);
    let ghost p = |p: Seq<char>| is_model_file(p);
    let mut models: Vec<String> = Vec::new();
    let mut i: usize = 0;
    proof {
        assert(views(models@) =~= all.take(0).filter(p));
    }
    while i < paths.len()
        invariant
            i <= paths@.len(),
            all == views(paths@),
            p == (|p: Seq<char>| is_model_file(p)),
            views(models@) == all.take(i as int).filter(p),
        decreases paths@.len() - i,
    {
        proof {
            lemma_filter_next(all, p, i as int);
            assert(all[i as int] == paths@[i as int]@);
        }
        let is_model: bool = match extension(paths[i].as_str()) {
            Some(e) => same_text(e.as_str(), "gguf"),
            None => false,
        };
        if is_model {
            let path: String = paths[i].clone();
            let ghost before = models@;
            let ghost v = path@;
            models.push(path);
            proof {
                assert(views(models@) =~= views(before).push(v));
            }
        }
        i += 1;
    }
    proof {
        assert(all.take(all.len() as int) =~= all);
    }
    let sorted: Vec<String> = sort_paths(&models);
    if sorted.len() > 0 {
        proof {
            assert(views(sorted@)[0] == sorted@[0]@);
        }
        Some(sorted[0].clone())
    } else {
        proof {
            assert(views(sorted@).len() == 0);
        }
        None
    }
}

/// The bundled `llama-server`, which this build does not hold.
pub fn ensure_llama_server_binary() -> (r: Result<String, String>)
    ensures
        r is Err,
        r->Err_0@
            == "this build does not embed llama-server (bundled-llama-server feature disabled — only CI release builds enable it)"@,
{
    Err(
        "this build does not embed llama-server (bundled-llama-server feature disabled — only CI release builds enable it)".to_owned(),
    )
}

/// The name of the `llama-server` executable.
pub fn binary_name(windows: bool) -> (r: &'static str)
    ensures
        r@ == (if windows {
            "llama-server.exe"@
        } else {
            "llama-server"@
        }),
{
    if windows {
        "llama-server.exe"
    } else {
        "llama-server"
    }
}

} // verus!
