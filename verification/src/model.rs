//! Model providers: what the library asks of them and what it makes of their
//! answers.

use vstd::prelude::*;
use crate::text::{chars_of, matches_at, occurs_at, same_text};
use crate::views::{first_match, lemma_first_match, lemma_first_match_at, opt_text, opt_view, views};
use crate::words::{
    decimal, decimal_text, join, joined, parse_number, parsed_number, pieces_of, split_char,
    split_whitespace, words_of,
};

verus! {

/// What can go wrong in a call to a model provider.
#[derive(Debug)]
pub enum ModelError {
    BackendUnavailable(String),
    MalformedResponse(String),
    /// The request did not get through.
    Http(String),
    /// The backend answered, and refused this particular input.
    RequestRejected { status: u16, body: String },
}

/// What a [`ModelError`] holds.
pub enum ModelErrorView {
    BackendUnavailable(Seq<char>),
    MalformedResponse(Seq<char>),
    Http(Seq<char>),
    RequestRejected { status: u16, body: Seq<char> },
}

impl View for ModelError {
    type V = ModelErrorView;

    open spec fn view(&self) -> ModelErrorView {
        match *self {
            ModelError::BackendUnavailable(s) => ModelErrorView::BackendUnavailable(s@),
            ModelError::MalformedResponse(s) => ModelErrorView::MalformedResponse(s@),
            ModelError::Http(s) => ModelErrorView::Http(s@),
            ModelError::RequestRejected { status, body } => ModelErrorView::RequestRejected {
                status,
                body: body@,
            },
        }
    }
}

/// The sentence that tells of an error.
pub open spec fn model_error_text(e: ModelErrorView) -> Seq<char> {
    match e {
        ModelErrorView::BackendUnavailable(s) => "inference subprocess unavailable: "@ + s,
        ModelErrorView::MalformedResponse(s) => "malformed inference response: "@ + s,
        ModelErrorView::Http(s) => "HTTP request to backend failed: "@ + s,
        ModelErrorView::RequestRejected { status, body } => "backend rejected the request (status "@
            + decimal_text(status as nat) + "): "@ + body,
    }
}

impl ModelError {
    /// The sentence that tells of the error.
    pub fn message(&self) -> (r: String)
        ensures
            r@ == model_error_text(self@),
    {
        match self {
            ModelError::BackendUnavailable(s) => {
                let mut r: String = "inference subprocess unavailable: ".to_owned();
                r.append(s.as_str());
                r
            },
            ModelError::MalformedResponse(s) => {
                let mut r: String = "malformed inference response: ".to_owned();
                r.append(s.as_str());
                r
            },
            ModelError::Http(s) => {
                let mut r: String = "HTTP request to backend failed: ".to_owned();
                r.append(s.as_str());
                r
            },
            ModelError::RequestRejected { status, body } => {
                let mut r: String = "backend rejected the request (status ".to_owned();
                r.append(decimal(*status as u64).as_str());
                r.append("): ");
                r.append(body.as_str());
                r
            },
        }
    }
}

/// What a response's status and body mean: nothing wrong for a success, a
/// refusal of this input for any other status that the backend answers with.
pub fn check_status(status: u16, body: &str) -> (r: Result<(), ModelError>)
    ensures
        200 <= status < 300 <==> r is Ok,
        r matches Err(e) ==> e@ == (ModelErrorView::RequestRejected { status, body: body@ }),
{
    if 200 <= status && status < 300 {
        Ok(())
    } else {
        Err(ModelError::RequestRejected { status, body: body.to_owned() })
    }
}

/// A provider's own description of the embedding model that it runs.
#[derive(Debug)]
pub struct EmbeddingCapabilities {
    pub model_id: String,
    pub embedding_dim: usize,
    /// `None` where the backend cannot tell.
    pub max_input_tokens: Option<usize>,
}

/// Candidate entity extracted from a chunk, before classification.
#[derive(Debug)]
pub struct CandidateEntity {
    pub raw_name: String,
    pub raw_type_hint: Option<String>,
}

/// What a [`CandidateEntity`] holds.
pub struct CandidateView {
    pub raw_name: Seq<char>,
    pub raw_type_hint: Option<Seq<char>>,
}

impl View for CandidateEntity {
    type V = CandidateView;

    open spec fn view(&self) -> CandidateView {
        CandidateView { raw_name: self.raw_name@, raw_type_hint: opt_view(self.raw_type_hint) }
    }
}

/// The relation types that a project knows.
#[derive(Debug)]
pub struct RelationVocabulary {
    pub canonical_types: Vec<String>,
}

impl Default for RelationVocabulary {
    fn default() -> (r: Self)
        ensures
            r.canonical_types@.len() == 0,
    {
        RelationVocabulary { canonical_types: Vec::new() }
    }
}

/// An existing entity type that a candidate may belong to.
#[derive(Debug)]
pub struct EntityType {
    pub name: String,
    pub description: String,
}

/// What an [`EntityType`] holds.
pub struct EntityTypeHintView {
    pub name: Seq<char>,
    pub description: Seq<char>,
}

impl View for EntityType {
    type V = EntityTypeHintView;

    open spec fn view(&self) -> EntityTypeHintView {
        EntityTypeHintView { name: self.name@, description: self.description@ }
    }
}

/// What a judge makes of a candidate in the ambiguous zone.
#[derive(Clone, Copy, Debug, PartialEq, Eq, Structural)]
pub enum JudgeDecision {
    Merge,
    NewType,
    Reject,
}

/// The decision that a judge's word stands for.
pub open spec fn judge_decision(word: Seq<char>) -> Result<JudgeDecision, ModelErrorView> {
    if word == "Merge"@ {
        Ok(JudgeDecision::Merge)
    } else if word == "NewType"@ {
        Ok(JudgeDecision::NewType)
    } else if word == "Reject"@ {
        Ok(JudgeDecision::Reject)
    } else {
        Err(ModelErrorView::MalformedResponse("unknown decision: "@ + word))
    }
}

/// Reads a judge's word: `Merge`, `NewType` or `Reject`, and nothing else.
pub fn parse_judge_decision(word: &str) -> (r: Result<JudgeDecision, ModelError>)
    ensures
        match r {
            Ok(d) => judge_decision(word@) == Ok::<JudgeDecision, ModelErrorView>(d),
            Err(e) => judge_decision(word@) == Err::<JudgeDecision, ModelErrorView>(e@),
        },
{
    if same_text(word, "Merge") {
        Ok(JudgeDecision::Merge)
    } else if same_text(word, "NewType") {
        Ok(JudgeDecision::NewType)
    } else if same_text(word, "Reject") {
        Ok(JudgeDecision::Reject)
    } else {
        let mut m: String = "unknown decision: ".to_owned();
        m.append(word);
        Err(ModelError::MalformedResponse(m))
    }
}

/// The three words are read as the three decisions.
pub proof fn law_judge_words()
    ensures
        judge_decision("Merge"@) == Ok::<JudgeDecision, ModelErrorView>(JudgeDecision::Merge),
        judge_decision("NewType"@) == Ok::<JudgeDecision, ModelErrorView>(JudgeDecision::NewType),
        judge_decision("Reject"@) == Ok::<JudgeDecision, ModelErrorView>(JudgeDecision::Reject),
{
    reveal_strlit("Merge");
    reveal_strlit("NewType");
    reveal_strlit("Reject");
    assert("Merge"@.len() == 5);
    assert("NewType"@.len() == 7);
    assert("Reject"@.len() == 6);
}

/// The question that asks a model for the candidates in a chunk.
pub open spec fn extract_prompt_text(chunk: Seq<char>, types: Seq<Seq<char>>) -> Seq<char> {
    "Extract candidate entities (concepts, components, artifacts) mentioned in the text below. Known canonical relation types (context only, don't invent relations): "@
        + (if types.len() == 0 {
        "no canonical types yet"@
    } else {
        joined(types, ", "@)
    }) + "\n\nText:\n"@ + chunk
}

/// The question that asks a model for the candidates in a chunk.
pub fn extract_prompt(chunk: &str, vocab: &RelationVocabulary) -> (r: String)
    ensures
        r@ == extract_prompt_text(chunk@, views(vocab.canonical_types@)),
{
    let mut r: String =
        "Extract candidate entities (concepts, components, artifacts) mentioned in the text below. Known canonical relation types (context only, don't invent relations): ".to_owned();
    if vocab.canonical_types.len() == 0 {
        r.append("no canonical types yet");
    } else {
        r.append(join(&vocab.canonical_types, ", ").as_str());
    }
    r.append("\n\nText:\n");
    r.append(chunk);
    r
}

/// One existing type as a judge sees it.
pub open spec fn type_line(t: EntityTypeHintView) -> Seq<char> {
    "- "@ + t.name + ": "@ + t.description
}

/// The question that asks a model to judge a candidate.
pub open spec fn judge_prompt_text(candidate: CandidateView, nearest: Seq<EntityTypeHintView>) -> Seq<char> {
    "An entity candidate fell into the ambiguous zone of similarity against existing types. Decide: 'Merge' (it's the same concept as an existing type), 'NewType' (it's a genuinely new concept), or 'Reject' (it's not a valid entity — extraction noise).\n\nCandidate: "@
        + candidate.raw_name + " (type hint: "@ + (match candidate.raw_type_hint {
        Some(hint) => hint,
        None => "none"@,
    }) + ")\n\nClosest existing types:\n"@ + (if nearest.len() == 0 {
        "no nearby type found"@
    } else {
        joined(nearest.map_values(|t: EntityTypeHintView| type_line(t)), "\n"@)
    })
}

/// The question that asks a model to judge a candidate.
pub fn judge_prompt(candidate: &CandidateEntity, nearest_existing: &Vec<EntityType>) -> (r: String)
    ensures
        r@ == judge_prompt_text(candidate@, views(nearest_existing@)),
{
    let mut r: String =
        "An entity candidate fell into the ambiguous zone of similarity against existing types. Decide: 'Merge' (it's the same concept as an existing type), 'NewType' (it's a genuinely new concept), or 'Reject' (it's not a valid entity — extraction noise).\n\nCandidate: ".to_owned();
    r.append(candidate.raw_name.as_str());
    r.append(" (type hint: ");
    match &candidate.raw_type_hint {
        Some(hint) => {
            r.append(hint.as_str());
        },
        None => {
            r.append("none");
        },
    }
    r.append(")\n\nClosest existing types:\n");
    if nearest_existing.len() == 0 {
        r.append("no nearby type found");
        return r;
    }
    let mut lines: Vec<String> = Vec::new();
    let ghost texts = views(nearest_existing@).map_values(|t: EntityTypeHintView| type_line(t));
    let mut i: usize = 0;
    while i < nearest_existing.len()
        invariant
            i <= nearest_existing@.len(),
            texts == views(nearest_existing@).map_values(|t: EntityTypeHintView| type_line(t)),
            views(lines@) == texts.take(i as int),
        decreases nearest_existing@.len() - i,
    {
        let mut line: String = "- ".to_owned();
        line.append(nearest_existing[i].name.as_str());
        line.append(": ");
        line.append(nearest_existing[i].description.as_str());
        let ghost before = lines@;
        let ghost text = line@;
        lines.push(line);
        proof {
            assert(text == texts[i as int]);
            assert(views(lines@) =~= views(before).push(text));
            assert(views(lines@) =~= texts.take(i + 1));
        }
        i += 1;
    }
    proof {
        assert(texts.take(i as int) =~= texts);
    }
    r.append(join(&lines, "\n").as_str());
    r
}

/// The question that asks a model what one frontmatter key means.
pub open spec fn key_prompt_text(key: Seq<char>) -> Seq<char> {
    "The frontmatter key below comes from an unknown Spec-Driven Development generator. Say which canonical concept it corresponds to, or null if it doesn't correspond to any. The canonical concepts, with what each one means:\nid (the item's own unique identifier), kind (the item's type/category, e.g. task, spec, adr), status (the item's current state, e.g. draft, in_progress, done), depends_on (this item cannot be completed until the referenced item is done — a blocking prerequisite), implements (this item is the concrete realization of the referenced item, e.g. a task implementing a spec), supersedes (this item replaces/obsoletes the referenced item, which should no longer be used), causes (this item is the origin/trigger of the referenced item, e.g. an incident causing a follow-up task), owned_by (the referenced item is the person/team responsible for this one), conflicts_with (this item is incompatible with the referenced item — cannot both hold at once), documents (this item explains/describes the referenced item), configures (this item sets parameters/settings for the referenced item)\n\nKey: "@
        + key
}

/// The question that asks a model what one frontmatter key means. A key is
/// asked about alone, so that its neighbours cannot sway the answer.
pub fn key_prompt(key: &str) -> (r: String)
    ensures
        r@ == key_prompt_text(key@),
{
    let mut r: String =
        "The frontmatter key below comes from an unknown Spec-Driven Development generator. Say which canonical concept it corresponds to, or null if it doesn't correspond to any. The canonical concepts, with what each one means:\nid (the item's own unique identifier), kind (the item's type/category, e.g. task, spec, adr), status (the item's current state, e.g. draft, in_progress, done), depends_on (this item cannot be completed until the referenced item is done — a blocking prerequisite), implements (this item is the concrete realization of the referenced item, e.g. a task implementing a spec), supersedes (this item replaces/obsoletes the referenced item, which should no longer be used), causes (this item is the origin/trigger of the referenced item, e.g. an incident causing a follow-up task), owned_by (the referenced item is the person/team responsible for this one), conflicts_with (this item is incompatible with the referenced item — cannot both hold at once), documents (this item explains/describes the referenced item), configures (this item sets parameters/settings for the referenced item)\n\nKey: ".to_owned();
    r.append(key);
    r
}

/// Details of a locally pulled model.
#[derive(Debug)]
pub struct OllamaModelDetails {
    pub family: Option<String>,
    pub context_length: Option<u64>,
    pub embedding_length: Option<u64>,
}

impl Default for OllamaModelDetails {
    fn default() -> (r: Self)
        ensures
            r.family is None && r.context_length is None && r.embedding_length is None,
    {
        OllamaModelDetails { family: None, context_length: None, embedding_length: None }
    }
}

/// A locally pulled model, as the daemon reports it.
#[derive(Debug)]
pub struct OllamaModelInfo {
    pub name: String,
    pub capabilities: Vec<String>,
    pub details: OllamaModelDetails,
}

impl OllamaModelInfo {
    /// The model reports `capability`.
    pub open spec fn reports(&self, capability: Seq<char>) -> bool {
        views(self.capabilities@).contains(capability)
    }

    fn has_capability(&self, capability: &str) -> (r: bool)
        ensures
            r == self.reports(capability@),
    {
        let mut i: usize = 0;
        while i < self.capabilities.len()
            invariant
                i <= self.capabilities@.len(),
                forall|j: int| 0 <= j < i ==> views(self.capabilities@)[j] != capability@,
            decreases self.capabilities@.len() - i,
        {
            if same_text(self.capabilities[i].as_str(), capability) {
                proof {
                    assert(views(self.capabilities@)[i as int] == capability@);
                }
                return true;
            }
            i += 1;
        }
        false
    }

    /// Whether the model reports that it embeds.
    pub fn supports_embedding(&self) -> (r: bool)
        ensures
            r == self.reports("embedding"@),
    {
        self.has_capability("embedding")
    }

    /// Whether the model reports that it completes.
    pub fn supports_completion(&self) -> (r: bool)
        ensures
            r == self.reports("completion"@),
    {
        self.has_capability("completion")
    }
}

/// The context length that one line of a model's parameters sets.
pub open spec fn num_ctx_of_line(line: Seq<char>) -> Option<nat> {
    let parts = words_of(line);
    if parts.len() >= 2 && parts[0] == "num_ctx"@ {
        parsed_number(parts[1], usize::MAX as nat)
    } else {
        None
    }
}

/// The context length that the first line to set one sets.
pub open spec fn num_ctx_of_lines(lines: Seq<Seq<char>>) -> Option<nat>
    decreases lines.len(),
{
    if lines.len() == 0 {
        None
    } else {
        match num_ctx_of_lines(lines.drop_last()) {
            Some(n) => Some(n),
            None => num_ctx_of_line(lines.last()),
        }
    }
}

/// One entry of a model's information: a key, and its value where that is a
/// whole number.
#[derive(Debug)]
pub struct ModelInfoEntry {
    pub key: String,
    pub number: Option<u64>,
}

/// What a [`ModelInfoEntry`] holds.
pub struct ModelInfoView {
    pub key: Seq<char>,
    pub number: Option<u64>,
}

impl View for ModelInfoEntry {
    type V = ModelInfoView;

    open spec fn view(&self) -> ModelInfoView {
        ModelInfoView { key: self.key@, number: self.number }
    }
}

/// `s` ends in `suffix`.
pub open spec fn ends_in(s: Seq<char>, suffix: Seq<char>) -> bool {
    occurs_at(s, suffix, s.len() - suffix.len())
}

/// Whether `s` ends in `suffix`.
pub fn ends_with(s: &str, suffix: &str) -> (r: bool)
    ensures
        r == ends_in(s@, suffix@),
{
    let x: Vec<char> = chars_of(s);
    let y: Vec<char> = chars_of(suffix);
    if x.len() < y.len() {
        return false;
    }
    matches_at(&x, &y, x.len() - y.len())
}

/// The context length in a model's information: the value of the first key
/// that ends in `.context_length`.
pub open spec fn info_context_length(info: Seq<ModelInfoView>) -> Option<usize> {
    match first_match(info, |e: ModelInfoView| ends_in(e.key, ".context_length"@)) {
        Some(e) => match e.number {
            Some(n) => Some(n as usize),
            None => None,
        },
        None => None,
    }
}

/// The longest input that a model takes, in tokens: what its parameters set,
/// or else what its information tells.
pub open spec fn max_input_tokens(
    parameters: Option<Seq<char>>,
    info: Option<Seq<ModelInfoView>>,
) -> Option<usize> {
    let set = match parameters {
        Some(p) => num_ctx_of_lines(pieces_of(p, '\n')),
        None => None,
    };
    match set {
        Some(n) => Some(n as usize),
        None => match info {
            Some(entries) => info_context_length(entries),
            None => None,
        },
    }
}

/// Reads the context length off one line of a model's parameters.
fn parse_num_ctx_line(line: &str) -> (r: Option<usize>)
    ensures
        match r {
            Some(n) => num_ctx_of_line(line@) == Some(n as nat),
            None => num_ctx_of_line(line@) is None,
        },
{
    let parts: Vec<String> = split_whitespace(line);
    if parts.len() < 2 {
        return None;
    }
    proof {
        assert(words_of(line@)[0] == parts@[0]@);
        assert(words_of(line@)[1] == parts@[1]@);
    }
    if !same_text(parts[0].as_str(), "num_ctx") {
        return None;
    }
    match parse_number(parts[1].as_str(), usize::MAX as u64) {
        Some(n) => Some(n as usize),
        None => None,
    }
}

/// Reads the context length that a model's parameters set.
fn parse_num_ctx(parameters: &str) -> (r: Option<usize>)
    ensures
        match r {
            Some(n) => num_ctx_of_lines(pieces_of(parameters@, '\n')) == Some(n as nat),
            None => num_ctx_of_lines(pieces_of(parameters@, '\n')) is None,
        },
{
    let lines: Vec<String> = split_char(parameters, '\n');
    let ghost all = pieces_of(parameters@, '\n');
    let mut i: usize = 0;
    while i < lines.len()
        invariant
            i <= lines@.len(),
            views(lines@) == all,
            all == pieces_of(parameters@, '\n'),
            num_ctx_of_lines(all.take(i as int)) is None,
        decreases lines@.len() - i,
    {
        proof {
            assert(all.take(i + 1).drop_last() =~= all.take(i as int));
            assert(all[i as int] == lines@[i as int]@);
        }
        if let Some(n) = parse_num_ctx_line(lines[i].as_str()) {
            proof {
                lemma_num_ctx_prefix(all, i + 1);
            }
            return Some(n);
        }
        i += 1;
    }
    proof {
        assert(all.take(all.len() as int) =~= all);
    }
    None
}

/// Reads the context length in a model's information.
fn find_context_length(info: &Vec<ModelInfoEntry>) -> (r: Option<usize>)
    ensures
        r == info_context_length(views(info@)),
{
    let ghost p = |e: ModelInfoView| ends_in(e.key, ".context_length"@);
    let mut i: usize = 0;
    while i < info.len()
        invariant
            i <= info@.len(),
            p == (|e: ModelInfoView| ends_in(e.key, ".context_length"@)),
            forall|j: int| 0 <= j < i ==> !p(#[trigger] views(info@)[j]),
        decreases info@.len() - i,
    {
        if ends_with(info[i].key.as_str(), ".context_length") {
            proof {
                assert(views(info@)[i as int] == info@[i as int]@);
                lemma_first_match_at(views(info@), p, i as int);
            }
            return match info[i].number {
                Some(n) => Some(
                    #[verifier::truncate]
                    (n as usize),
                ),
                None => None,
            };
        }
        i += 1;
    }
    proof {
        lemma_first_match(views(info@), p);
    }
    None
}

/// The longest input that a model takes. What its live parameters set comes
/// first: that is what the daemon enforces, and it can be less than what the
/// model's architecture allows.
pub fn parse_max_input_tokens(
    parameters: Option<&str>,
    model_info: Option<&Vec<ModelInfoEntry>>,
) -> (r: Option<usize>)
    ensures
        r == max_input_tokens(
            opt_text(parameters),
            match model_info {
                Some(info) => Some(views(info@)),
                None => None,
            },
        ),
{
    if let Some(text) = parameters {
        if let Some(n) = parse_num_ctx(text) {
            return Some(n);
        }
    }
    match model_info {
        Some(info) => find_context_length(info),
        None => None,
    }
}

/// A line that sets a context length after none that does decides.
proof fn lemma_num_ctx_prefix(lines: Seq<Seq<char>>, i: int)
    requires
        0 <= i <= lines.len(),
        num_ctx_of_lines(lines.take(i)) is Some,
    ensures
        num_ctx_of_lines(lines) == num_ctx_of_lines(lines.take(i)),
    decreases lines.len() - i,
{
    if i < lines.len() {
        assert(lines.take(i + 1).drop_last() =~= lines.take(i));
        lemma_num_ctx_prefix(lines, i + 1);
    } else {
        assert(lines.take(i) =~= lines);
    }
}

/// A model's parameters decide over its information.
pub proof fn law_parameters_decide(
    parameters: Seq<char>,
    info: Option<Seq<ModelInfoView>>,
    other: Option<Seq<ModelInfoView>>,
)
    requires
        num_ctx_of_lines(pieces_of(parameters, '\n')) is Some,
    ensures
        max_input_tokens(Some(parameters), info) == max_input_tokens(Some(parameters), other),
{
}

/// Which embedding backend to build, and what it needs to start.
#[derive(Debug)]
pub enum EmbeddingProviderSelection {
    Ollama { model: String, base_url: Option<String> },
    LlamaCppEmbedded {
        binary_path: String,
        model_path: String,
        port: u16,
        context_size: u32,
        parallel_slots: u32,
    },
}

/// The backends that extract and judge.
#[derive(Clone, Copy, Debug, PartialEq, Eq, Structural)]
pub enum ExtractionProviderKind {
    Ollama,
}

} // verus!
