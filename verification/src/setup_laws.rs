//! Laws of setting up and running a project: what models are asked, what is
//! offered and picked, and what is shown.

use vstd::prelude::*;
use crate::clock::timestamp_text;
use crate::config::{
    config_lines, config_path_of, provider_lines, status_lines, ProjectConfigView, StatusCounts,
};
use crate::embedding_cache::text_key;
use crate::model::{
    ends_in, extract_prompt_text, judge_decision, judge_prompt_text, key_prompt_text,
    max_input_tokens, num_ctx_of_line, num_ctx_of_lines, type_line, CandidateView,
    EntityTypeHintView, ModelInfoView, OllamaModelInfo,
};
use crate::order::{comes_from, lemma_ranked_stable};
use crate::path_laws::{is_folder, is_name, law_file_in_folder, law_stem_and_extension};
use crate::paths::{joined_path, parts_lt, parts_of};
use crate::projects::{listing_lines, project_path, ProjectEntryView};
use crate::runtime::{readiness, server_args, state_after, ProcessEvent, ProcessState};
use crate::scan::{lemma_parts_rank, sorted_paths, PathEntryView};
use crate::setup::{
    embedding_flags, embedding_options_of, embedding_plan, extraction_flags, extraction_options_of,
    extraction_plan, first_model_of, is_model_file, picked, set_extraction_flags,
    EmbeddingChoiceView, EmbeddingPlanView, ExtractionChoiceView,
};
use crate::text::{is_white_space, lowercase};
use crate::text_laws::{law_numbers_read_back, law_trimmed, law_words_join};
use crate::views::{first_match, lemma_filter_from, lemma_first_match, lemma_first_match_at, views};
use crate::words::{decimal_text, joined, parsed_number, pieces_of, signed_text, trimmed, words_of};

verus! {

/// `needle` stands in `hay` from `at` on.
pub open spec fn stands_at(hay: Seq<char>, needle: Seq<char>, at: int) -> bool {
    0 <= at && at + needle.len() <= hay.len() && hay.subrange(at, at + needle.len()) == needle
}

/// What a model is asked about a chunk names the relation types, where there are
/// any, and ends in the chunk itself.
pub proof fn law_extraction_asks_about_the_chunk(chunk: Seq<char>, types: Seq<Seq<char>>)
    ensures
        ({
            let asked = extract_prompt_text(chunk, types);
            &&& stands_at(asked, chunk, asked.len() - chunk.len())
            &&& types.len() > 0 ==> exists|at: int| #[trigger] stands_at(asked, joined(types, ", "@), at)
                && at + joined(types, ", "@).len() <= asked.len() - chunk.len()
        }),
{
    let asked = extract_prompt_text(chunk, types);
    assert(asked.subrange(asked.len() - chunk.len(), asked.len() as int) =~= chunk);
    if types.len() > 0 {
        let list = joined(types, ", "@);
        let rest = "\n\nText:\n"@ + chunk;
        let at = asked.len() - rest.len() - list.len();
        assert(asked.subrange(at, at + list.len()) =~= list);
        assert(stands_at(asked, list, at));
    }
}

/// What a judge is asked names the candidate and its hint, and lists each of the
/// nearest types with its description.
pub proof fn law_judge_is_told_the_candidate(candidate: CandidateView, nearest: Seq<EntityTypeHintView>)
    ensures
        ({
            let asked = judge_prompt_text(candidate, nearest);
            &&& exists|at: int| #[trigger] stands_at(asked, candidate.raw_name, at)
            &&& candidate.raw_type_hint matches Some(hint) ==> exists|at: int|
                #[trigger] stands_at(asked, hint, at)
            &&& nearest.len() > 0 ==> ({
                let list = joined(
                    Seq::new(
                        nearest.len(),
                        |i: int| "- "@ + nearest[i].name + ": "@ + nearest[i].description,
                    ),
                    "\n"@,
                );
                stands_at(asked, list, asked.len() - list.len())
            })
        }),
{
    let asked = judge_prompt_text(candidate, nearest);
    let hint = match candidate.raw_type_hint {
        Some(hint) => hint,
        None => "none"@,
    };
    let lines = nearest.map_values(|t: EntityTypeHintView| type_line(t));
    let list = if nearest.len() == 0 {
        "no nearby type found"@
    } else {
        joined(lines, "\n"@)
    };
    let tail = ")\n\nClosest existing types:\n"@;
    let between = " (type hint: "@;
    let hint_at = asked.len() - list.len() - tail.len() - hint.len();
    let name_at = hint_at - between.len() - candidate.raw_name.len();
    assert(asked.subrange(hint_at, hint_at + hint.len()) =~= hint);
    assert(asked.subrange(name_at, name_at + candidate.raw_name.len()) =~= candidate.raw_name);
    assert(stands_at(asked, hint, hint_at));
    assert(stands_at(asked, candidate.raw_name, name_at));
    assert(asked.subrange(asked.len() - list.len(), asked.len() as int) =~= list);
    if nearest.len() > 0 {
        assert(lines =~= Seq::new(
            nearest.len(),
            |i: int| "- "@ + nearest[i].name + ": "@ + nearest[i].description,
        ));
    }
}

/// What a model is asked about a key ends in that key, and is otherwise the same
/// for every key.
pub proof fn law_keys_are_asked_about_alone(key: Seq<char>, other: Seq<char>)
    ensures
        stands_at(key_prompt_text(key), key, key_prompt_text(key).len() - key.len()),
        key_prompt_text(key).take(key_prompt_text(key).len() - key.len()) == key_prompt_text(
            other,
        ).take(key_prompt_text(other).len() - other.len()),
{
    let asked = key_prompt_text(key);
    let again = key_prompt_text(other);
    assert(asked.subrange(asked.len() - key.len(), asked.len() as int) =~= key);
    assert(asked.take(asked.len() - key.len()) =~= again.take(again.len() - other.len()));
}

/// The first line of a model's parameters that sets a context length decides it;
/// one sets it that says `num_ctx` and a number.
pub proof fn law_first_num_ctx_decides(a: Seq<Seq<char>>, b: Seq<Seq<char>>, space: char, n: nat)
    requires
        is_white_space(space),
        n <= usize::MAX,
    ensures
        num_ctx_of_lines(a + b) == if num_ctx_of_lines(a) is Some {
            num_ctx_of_lines(a)
        } else {
            num_ctx_of_lines(b)
        },
        num_ctx_of_lines(seq![("num_ctx"@).push(space) + decimal_text(n)]) == Some(n),
{
    lemma_lines_join(a, b);
    let line = ("num_ctx"@).push(space) + decimal_text(n);
    reveal_strlit("num_ctx");
    law_numbers_read_back(n, usize::MAX as nat, Seq::empty());
    crate::text_laws::law_decimal_reads_back(n);
    let digits = decimal_text(n);
    assert forall|i: int| 0 <= i < digits.len() implies !is_white_space(#[trigger] digits[i]) by {
        assert(crate::text::is_digit(digits[i]));
    }
    assert forall|i: int| 0 <= i < ("num_ctx"@).len() implies !is_white_space(
        #[trigger] ("num_ctx"@)[i],
    ) by {}
    law_words_join("num_ctx"@, space, digits);
    law_words_join(digits, space, digits);
    assert(words_of(line) =~= seq!["num_ctx"@, digits]);
    assert(num_ctx_of_line(line) == Some(n));
    let one = seq![line];
    assert(one.drop_last() =~= Seq::<Seq<char>>::empty());
    assert(num_ctx_of_lines(Seq::<Seq<char>>::empty()) is None);
    assert(one.last() == line);
    assert(num_ctx_of_lines(one) == num_ctx_of_line(line));
}

proof fn lemma_lines_join(a: Seq<Seq<char>>, b: Seq<Seq<char>>)
    ensures
        num_ctx_of_lines(a + b) == if num_ctx_of_lines(a) is Some {
            num_ctx_of_lines(a)
        } else {
            num_ctx_of_lines(b)
        },
    decreases b.len(),
{
    if b.len() == 0 {
        assert(a + b =~= a);
    } else {
        lemma_lines_join(a, b.drop_last());
        assert((a + b).drop_last() =~= a + b.drop_last());
        assert((a + b).last() == b.last());
    }
}

/// A model's longest input is what its parameters set; where they set none, the
/// value of the first entry of its information whose key ends in
/// `.context_length`; and it is unknown where there is neither.
pub proof fn law_longest_input(
    parameters: Seq<char>,
    info: Seq<ModelInfoView>,
    i: int,
)
    requires
        0 <= i < info.len(),
        ends_in(info[i].key, ".context_length"@),
        forall|j: int| 0 <= j < i ==> !ends_in((#[trigger] info[j]).key, ".context_length"@),
    ensures
        num_ctx_of_lines(pieces_of(parameters, '\n')) matches Some(n) ==> max_input_tokens(
            Some(parameters),
            Some(info),
        ) == Some(n as usize),
        num_ctx_of_lines(pieces_of(parameters, '\n')) is None ==> max_input_tokens(
            Some(parameters),
            Some(info),
        ) == (match info[i].number {
            Some(n) => Some(n as usize),
            None => None,
        }),
        max_input_tokens(None, None) is None,
{
    let p = |e: ModelInfoView| ends_in(e.key, ".context_length"@);
    assert(p(info[i]));
    assert forall|j: int| 0 <= j < i implies !p(#[trigger] info[j]) by {}
    lemma_first_match_at(info, p, i);
}

/// A server listens on this machine and on the given port only, loads the given
/// model, and takes a whole context in one batch.
pub proof fn law_server_arguments(model: Seq<char>, port: u16, context: u32)
    ensures
        ({
            let args = server_args(model, port, context);
            &&& followed_by(args, "-m"@, model)
            &&& followed_by(args, "--port"@, decimal_text(port as nat))
            &&& followed_by(args, "--host"@, "127.0.0.1"@)
            &&& followed_by(args, "-c"@, decimal_text(context as nat))
            &&& followed_by(args, "-b"@, decimal_text(context as nat))
            &&& followed_by(args, "-ub"@, decimal_text(context as nat))
            &&& args.contains("--embedding"@)
        }),
{
    let args = server_args(model, port, context);
    assert(args[0] == "-m"@ && args[1] == model);
    assert(args[2] == "--embedding"@);
    assert(args[3] == "--port"@ && args[4] == decimal_text(port as nat));
    assert(args[5] == "--host"@ && args[6] == "127.0.0.1"@);
    assert(args[7] == "-c"@ && args[8] == decimal_text(context as nat));
    assert(args[9] == "-b"@ && args[10] == decimal_text(context as nat));
    assert(args[11] == "-ub"@ && args[12] == decimal_text(context as nat));
}

/// A flag stands among arguments, and its value after it.
pub open spec fn followed_by(args: Seq<Seq<char>>, flag: Seq<char>, value: Seq<char>) -> bool {
    exists|i: int| 0 <= i < args.len() - 1 && #[trigger] args[i] == flag && args[i + 1] == value
}

/// A server is given up once it has exited, or once its time is over and it does
/// not answer; it is ready where it runs and answers; and it is waited for in all
/// other cases.
pub proof fn law_waiting_for_a_server(exited: Option<Seq<char>>, healthy: bool, out_of_time: bool)
    ensures
        readiness(exited, healthy, out_of_time) is GiveUp <==> exited is Some || (!healthy
            && out_of_time),
        readiness(exited, healthy, out_of_time) is Ready <==> exited is None && healthy,
        readiness(exited, healthy, out_of_time) is Wait <==> exited is None && !healthy && !out_of_time,
{
}

/// A process that starts catches up once it is open, is ready once it has caught
/// up, drains once it is signalled, and stops in the end; an event out of place
/// changes nothing.
pub proof fn law_course_of_a_process(s: ProcessState, e: ProcessEvent)
    ensures
        e == ProcessEvent::Opened ==> state_after(s, e) == if s == ProcessState::Starting {
            ProcessState::CatchUpScan
        } else {
            s
        },
        e == ProcessEvent::CaughtUp ==> state_after(s, e) == if s == ProcessState::CatchUpScan {
            ProcessState::Ready
        } else {
            s
        },
        e == ProcessEvent::Signalled ==> state_after(s, e) == if s == ProcessState::Ready {
            ProcessState::Draining
        } else {
            s
        },
        e == ProcessEvent::Ended ==> state_after(s, e) == if s == ProcessState::Ready || s
            == ProcessState::Draining {
            ProcessState::Stopped
        } else {
            s
        },
{
}

/// Projects are listed one by one, each with its name and its folder.
pub proof fn law_listing_shows_every_project(entries: Seq<ProjectEntryView>, i: int)
    requires
        0 <= i < entries.len(),
    ensures
        listing_lines(entries).len() == entries.len() + 1,
        listing_lines(entries)[i + 1] == "  "@ + entries[i].name + " -> "@ + entries[i].path,
{
}

/// A project is found by its name: its folder is that of the first entry of that
/// name, and it is not found where there is none.
pub proof fn law_project_found_by_name(entries: Seq<ProjectEntryView>, name: Seq<char>)
    ensures
        project_path(entries, name) is Some <==> exists|i: int|
            0 <= i < entries.len() && (#[trigger] entries[i]).name == name,
        project_path(entries, name) is Some ==> exists|i: int|
            0 <= i < entries.len() && (#[trigger] entries[i]).name == name && entries[i].path
                == project_path(entries, name)->0,
{
    let p = |e: ProjectEntryView| e.name == name;
    lemma_first_match(entries, p);
    if exists|i: int| 0 <= i < entries.len() && (#[trigger] entries[i]).name == name {
        let i = choose|i: int| 0 <= i < entries.len() && (#[trigger] entries[i]).name == name;
        assert(p(entries[i]));
    }
    if first_match(entries, p) is Some {
        let v = first_match(entries, p)->0;
        let i = choose|i: int| 0 <= i < entries.len() && #[trigger] entries[i] == v;
        assert(entries[i].name == name);
    }
}

/// A status report names the project, its folder and its providers, and shows the
/// numbers of chunks, of types and of canonical types.
pub proof fn law_status_shows_the_counts(
    project: Seq<char>,
    root: Seq<char>,
    config: Option<ProjectConfigView>,
    counts: StatusCounts,
)
    ensures
        ({
            let lines = status_lines(project, root, config, counts);
            &&& lines[0] == "project: "@ + project + " ("@ + root + ")"@
            &&& lines.contains("chunks indexed: "@ + decimal_text(counts.chunks as nat))
            &&& lines.contains(
                "entity types: "@ + decimal_text(counts.entity_types as nat) + " | relation types: "@
                    + decimal_text(counts.relation_types as nat) + " ("@ + decimal_text(
                    counts.canonical as nat,
                ) + " canonical)"@,
            )
            &&& config matches Some(c) ==> lines.contains(
                "embedding: "@ + c.embedding.model + " via "@ + c.embedding.provider + " ("@
                    + signed_text(c.embedding.dimension as int) + "-dim)"@,
            ) && (c.extraction matches Some(e) ==> lines.contains(
                "extraction: "@ + e.model + " via "@ + e.provider,
            ))
        }),
{
    let lines = status_lines(project, root, config, counts);
    let n = provider_lines(project, config).len() as int;
    assert(lines[n + 1] == "chunks indexed: "@ + decimal_text(counts.chunks as nat));
    assert(lines[n + 2] == "entity types: "@ + decimal_text(counts.entity_types as nat)
        + " | relation types: "@ + decimal_text(counts.relation_types as nat) + " ("@ + decimal_text(
        counts.canonical as nat,
    ) + " canonical)"@);
    if let Some(c) = config {
        assert(lines[1] == provider_lines(project, config)[0]);
        assert(lines[2] == provider_lines(project, config)[1]);
    }
}

/// A configuration is shown with all that it sets.
pub proof fn law_config_is_shown(project: Seq<char>, c: ProjectConfigView)
    ensures
        ({
            let lines = config_lines(project, Some(c));
            &&& lines.contains("embedding.provider = "@ + c.embedding.provider)
            &&& lines.contains("embedding.model = "@ + c.embedding.model)
            &&& lines.contains(
                "embedding.dimension = "@ + signed_text(c.embedding.dimension as int),
            )
            &&& c.embedding.context_size matches Some(n) ==> lines.contains(
                "embedding.context_size = "@ + decimal_text(n as nat),
            )
            &&& c.extraction matches Some(e) ==> lines.contains("extraction.provider = "@ + e.provider)
                && lines.contains("extraction.model = "@ + e.model)
            &&& c.extraction is None ==> lines.contains("extraction = not configured"@)
        }),
{
    let lines = config_lines(project, Some(c));
    assert(lines[0] == "embedding.provider = "@ + c.embedding.provider);
    assert(lines[1] == "embedding.model = "@ + c.embedding.model);
    assert(lines[2] == "embedding.dimension = "@ + signed_text(c.embedding.dimension as int));
    let k = if c.embedding.context_size is Some {
        assert(lines[3] == "embedding.context_size = "@ + decimal_text(
            c.embedding.context_size->0 as nat,
        ));
        4int
    } else {
        3int
    };
    match c.extraction {
        Some(e) => {
            assert(lines[k] == "extraction.provider = "@ + e.provider);
            assert(lines[k + 1] == "extraction.model = "@ + e.model);
        },
        None => {
            assert(lines[k] == "extraction = not configured"@);
        },
    }
}

/// The number of a choice picks it; an empty answer picks the first; and nothing
/// is picked by zero, by a number beyond the last, or out of nothing.
pub proof fn law_pick_by_number(n: nat, count: nat, blank: Seq<char>, answer: Seq<char>)
    requires
        n <= usize::MAX,
        forall|i: int| 0 <= i < blank.len() ==> is_white_space(#[trigger] blank[i]),
    ensures
        1 <= n <= count ==> picked(decimal_text(n), count) == Ok::<nat, Seq<char>>((n - 1) as nat),
        n == 0 || n > count ==> picked(decimal_text(n), count) is Err,
        count > 0 ==> picked(blank, count) == Ok::<nat, Seq<char>>(0),
        picked(answer, count) is Ok ==> picked(answer, count)->Ok_0 < count,
{
    let text = decimal_text(n);
    law_numbers_read_back(n, usize::MAX as nat, answer);
    crate::text_laws::law_decimal_reads_back(n);
    assert(crate::text::is_digit(text[0]));
    assert(crate::text::is_digit(text[text.len() - 1]));
    assert(crate::words::trim_start(text) == text);
    assert(trimmed(text) == text);
    law_trimmed(blank);
    let (a, b) = choose|a: int, b: int|
        0 <= a <= b <= blank.len() && #[trigger] blank.subrange(a, b) == trimmed(blank) && (forall|i: int|
            0 <= i < a ==> is_white_space(#[trigger] blank[i])) && (forall|i: int|
            b <= i < blank.len() ==> is_white_space(#[trigger] blank[i]));
    if trimmed(blank).len() > 0 {
        assert(trimmed(blank)[0] == blank[a]);
        assert(is_white_space(blank[a]));
    }
}

/// Both flags together name a provider as its parts do; one alone is refused; and
/// none means the guided setup, or no extraction where nobody can be asked.
pub proof fn law_flags_come_in_pairs(provider: Seq<char>, model: Seq<char>, at_terminal: bool)
    ensures
        embedding_flags(Some(provider), None) is Err,
        embedding_flags(None, Some(model)) is Err,
        embedding_flags(None, None) == Ok::<Option<EmbeddingChoiceView>, Seq<char>>(None),
        extraction_flags(Some(provider), None, at_terminal) is Err,
        extraction_flags(None, Some(model), at_terminal) is Err,
        extraction_flags(None, None, at_terminal) == Ok::<Option<ExtractionChoiceView>, Seq<char>>(
            if at_terminal {
                None
            } else {
                Some(ExtractionChoiceView::Skip)
            },
        ),
        set_extraction_flags(None, None) == Ok::<ExtractionChoiceView, Seq<char>>(
            ExtractionChoiceView::Skip,
        ),
        set_extraction_flags(Some(provider), None) is Err,
        set_extraction_flags(None, Some(model)) is Err,
        embedding_flags(Some("ollama"@), Some(model)) == Ok::<Option<EmbeddingChoiceView>, Seq<char>>(
            Some(EmbeddingChoiceView::Ollama { model }),
        ),
        embedding_flags(Some("llama_cpp_embedded"@), Some(model)) == Ok::<
            Option<EmbeddingChoiceView>,
            Seq<char>,
        >(Some(EmbeddingChoiceView::LlamaCppEmbedded)),
        provider != "ollama"@ && provider != "llama_cpp_embedded"@ ==> embedding_flags(
            Some(provider),
            Some(model),
        ) is Err,
        extraction_flags(Some("ollama"@), Some(model), at_terminal) == Ok::<
            Option<ExtractionChoiceView>,
            Seq<char>,
        >(Some(ExtractionChoiceView::Ollama { model })),
        set_extraction_flags(Some("ollama"@), Some(model)) == Ok::<ExtractionChoiceView, Seq<char>>(
            ExtractionChoiceView::Ollama { model },
        ),
        provider != "ollama"@ ==> extraction_flags(Some(provider), Some(model), at_terminal) is Err
            && set_extraction_flags(Some(provider), Some(model)) is Err,
{
    reveal_strlit("ollama");
    reveal_strlit("llama_cpp_embedded");
    assert("ollama"@.len() == 6);
    assert("llama_cpp_embedded"@.len() == 18);
}

/// A project is served with what its configuration names: its own model, with the
/// context size that was set, or else that of the bundled model; and an unknown
/// provider is refused.
pub proof fn law_served_as_configured(c: ProjectConfigView)
    ensures
        c.embedding.provider == "ollama"@ ==> embedding_plan(c.embedding) == Ok::<
            EmbeddingPlanView,
            Seq<char>,
        >(EmbeddingPlanView::Ollama { model: c.embedding.model }),
        c.embedding.provider == "llama_cpp_embedded"@ ==> embedding_plan(c.embedding) is Ok
            && embedding_plan(c.embedding)->Ok_0 is Embedded && (c.embedding.context_size
            matches Some(n) ==> embedding_plan(c.embedding)->Ok_0->context_size == n),
        c.embedding.provider != "ollama"@ && c.embedding.provider != "llama_cpp_embedded"@
            ==> embedding_plan(c.embedding) is Err,
        c.extraction is None ==> extraction_plan(c.extraction) == Ok::<Option<Seq<char>>, Seq<char>>(
            None,
        ),
        c.extraction matches Some(e) ==> (e.provider == "ollama"@ ==> extraction_plan(c.extraction)
            == Ok::<Option<Seq<char>>, Seq<char>>(Some(e.model))) && (e.provider != "ollama"@
            ==> extraction_plan(c.extraction) is Err),
{
    reveal_strlit("ollama");
    reveal_strlit("llama_cpp_embedded");
    assert("ollama"@.len() == 6);
    assert("llama_cpp_embedded"@.len() == 18);
}

/// For embeddings exactly the models are offered that report that they embed, in
/// order, and last the bundled one where it is there; to pick an offer is to
/// choose the model that it names.
pub proof fn law_embedding_offers(models: Seq<OllamaModelInfo>, bundled: bool)
    ensures
        ({
            let able = models.filter(|m: OllamaModelInfo| views(m.capabilities@).contains("embedding"@));
            let offers = embedding_options_of(models, bundled);
            &&& offers.len() == able.len() + if bundled {
                1nat
            } else {
                0nat
            }
            &&& forall|i: int|
                0 <= i < able.len() ==> (#[trigger] offers[i]).choice == (EmbeddingChoiceView::Ollama {
                    model: able[i].name@,
                })
            &&& bundled ==> offers.last().choice == EmbeddingChoiceView::LlamaCppEmbedded
        }),
{
    let p = |m: OllamaModelInfo| m.reports("embedding"@);
    let q = |m: OllamaModelInfo| views(m.capabilities@).contains("embedding"@);
    crate::views::lemma_filter_same(models, p, q);
}

/// For extraction exactly the models are offered that report that they complete,
/// in order, and last to do without; and nothing where there is no such model.
pub proof fn law_extraction_offers(models: Seq<OllamaModelInfo>)
    ensures
        ({
            let able = models.filter(|m: OllamaModelInfo| views(m.capabilities@).contains("completion"@));
            let offers = extraction_options_of(models);
            &&& able.len() == 0 ==> offers.len() == 0
            &&& able.len() > 0 ==> offers.len() == able.len() + 1 && offers.last().choice
                == ExtractionChoiceView::Skip
            &&& forall|i: int|
                0 <= i < able.len() ==> (#[trigger] offers[i]).choice == (ExtractionChoiceView::Ollama {
                    model: able[i].name@,
                })
        }),
{
    let p = |m: OllamaModelInfo| m.reports("completion"@);
    let q = |m: OllamaModelInfo| views(m.capabilities@).contains("completion"@);
    crate::views::lemma_filter_same(models, p, q);
}

/// Paths are put in the order of their parts, and each of them stays.
pub proof fn law_paths_are_sorted(paths: Seq<Seq<char>>)
    ensures
        sorted_paths(paths).len() == paths.len(),
        exists|from: Seq<int>| comes_from(sorted_paths(paths), paths, from),
        forall|i: int, j: int|
            0 <= i < j < paths.len() ==> !parts_lt(
                parts_of(#[trigger] sorted_paths(paths)[j]),
                parts_of(#[trigger] sorted_paths(paths)[i]),
            ),
{
    let entries = paths.map_values(|p: Seq<char>| PathEntryView { path: p, parts: parts_of(p) });
    let before = |a: PathEntryView, b: PathEntryView| parts_lt(a.parts, b.parts);
    lemma_parts_rank();
    let from = lemma_ranked_stable(entries, before);
    let sorted = crate::order::ranked(entries, before);
    let all = sorted_paths(paths);
    assert forall|k: int| 0 <= k < all.len() implies 0 <= #[trigger] from[k] < paths.len() && all[k]
        == paths[from[k]] by {
        assert(sorted[k] == entries[from[k]]);
    }
    assert(comes_from(all, paths, from));
    assert forall|i: int, j: int| 0 <= i < j < paths.len() implies !parts_lt(
        parts_of(#[trigger] all[j]),
        parts_of(#[trigger] all[i]),
    ) by {
        assert(sorted[i] == entries[from[i]] && sorted[j] == entries[from[j]]);
        assert(!before(sorted[j], sorted[i]));
    }
}

/// The model that is taken is one of the files that are models, and none of those
/// comes before it by its path; and one is taken wherever there is one.
pub proof fn law_first_model(paths: Seq<Seq<char>>, other: Seq<char>)
    ensures
        first_model_of(paths) matches Some(model) ==> paths.contains(model) && is_model_file(model),
        paths.contains(other) && is_model_file(other) ==> first_model_of(paths) is Some && !parts_lt(
            parts_of(other),
            parts_of(first_model_of(paths)->0),
        ),
{
    let p = |p: Seq<char>| is_model_file(p);
    let models = paths.filter(p);
    law_paths_are_sorted(models);
    let sorted = sorted_paths(models);
    let from = choose|from: Seq<int>| comes_from(sorted, models, from);
    if sorted.len() > 0 {
        assert(sorted[0] == models[from[0]]);
        lemma_filter_from(paths, p, from[0]);
    }
    if paths.contains(other) && is_model_file(other) {
        let i = choose|i: int| 0 <= i < paths.len() && paths[i] == other;
        paths.lemma_filter_contains(p, i);
        let k = choose|k: int| 0 <= k < models.len() && models[k] == other;
        let n = lemma_place_of(sorted, models, from, k);
        if n > 0 {
            assert(!parts_lt(parts_of(sorted[n]), parts_of(sorted[0])));
        } else {
            if parts_lt(parts_of(other), parts_of(other)) {
                crate::paths::lemma_parts_lt_asymmetric(parts_of(other), parts_of(other));
            }
        }
    }
}

/// Every item of a list stands somewhere in the ordered one.
proof fn lemma_place_of(
    sorted: Seq<Seq<char>>,
    s: Seq<Seq<char>>,
    from: Seq<int>,
    k: int,
) -> (n: int)
    requires
        comes_from(sorted, s, from),
        sorted.len() == s.len(),
        0 <= k < s.len(),
    ensures
        0 <= n < sorted.len(),
        sorted[n] == s[k],
{
    lemma_covers(from, s.len());
    assert(from.contains(k));
    let n = choose|n: int| 0 <= n < from.len() && from[n] == k;
    n
}

/// As many different numbers below a bound as the bound are all of them.
proof fn lemma_covers(from: Seq<int>, bound: nat)
    requires
        from.no_duplicates(),
        from.len() == bound,
        forall|i: int| 0 <= i < from.len() ==> 0 <= #[trigger] from[i] < bound,
    ensures
        forall|k: int| 0 <= k < bound ==> #[trigger] from.contains(k),
{
    let all = vstd::set_lib::set_int_range(0, bound as int);
    vstd::set_lib::lemma_int_range(0, bound as int);
    from.unique_seq_to_set();
    assert forall|v: int| from.to_set().contains(v) implies all.contains(v) by {
        let i = choose|i: int| 0 <= i < from.len() && from[i] == v;
        assert(0 <= from[i] < bound);
    }
    vstd::set_lib::lemma_subset_equality(from.to_set(), all);
    assert forall|k: int| 0 <= k < bound implies #[trigger] from.contains(k) by {
        assert(all.contains(k));
        assert(from.to_set().contains(k));
    }
}

/// Texts that differ in surrounding white space only are one to the cache, whose
/// key is the lowercase form of what is left.
pub proof fn law_cache_key(text: Seq<char>)
    ensures
        exists|a: int, b: int|
            0 <= a <= b <= text.len() && text_key(text) == lowercase(#[trigger] text.subrange(a, b)) && (
            a < b ==> !is_white_space(text[a]) && !is_white_space(text[b - 1])) && (forall|i: int|
                0 <= i < a || b <= i < text.len() ==> is_white_space(#[trigger] text[i])),
{
    law_trimmed(text);
    let (a, b) = choose|a: int, b: int|
        0 <= a <= b <= text.len() && #[trigger] text.subrange(a, b) == trimmed(text) && (forall|i: int|
            0 <= i < a ==> is_white_space(#[trigger] text[i])) && (forall|i: int|
            b <= i < text.len() ==> is_white_space(#[trigger] text[i]));
    if a < b {
        assert(trimmed(text)[0] == text[a]);
        assert(trimmed(text).last() == text[b - 1]);
    }
    assert(text_key(text) == lowercase(text.subrange(a, b)));
}

/// A file in a folder is a model exactly where its name ends in `.gguf`.
pub proof fn law_models_are_gguf_files(folder: Seq<char>, stem: Seq<char>, extension: Seq<char>)
    requires
        is_folder(folder),
        folder.last() != '/',
        stem.len() > 0,
        !extension.contains('.'),
        is_name(stem + seq!['.'] + extension),
    ensures
        is_model_file(joined_path(folder, stem + seq!['.'] + extension)) <==> extension == "gguf"@,
{
    law_file_in_folder(folder, stem + seq!['.'] + extension);
    law_stem_and_extension(stem, extension);
}

/// A project's configuration lies in the folder `.kern` of the project.
pub proof fn law_config_lies_in_the_project(root: Seq<char>)
    requires
        root.len() > 0,
        root.last() != '/',
    ensures
        config_path_of(root) == root + "/.kern/config.toml"@,
{
    reveal_strlit(".kern");
    reveal_strlit("config.toml");
    reveal_strlit("/.kern/config.toml");
    let state = joined_path(root, ".kern"@);
    assert(state == root + seq!['/'] + ".kern"@);
    assert(state.last() == 'n');
    assert(config_path_of(root) =~= root + "/.kern/config.toml"@);
}

/// A time reads back as the seconds that it was written from.
pub proof fn law_times_read_back(seconds: u64)
    ensures
        parsed_number(timestamp_text(Some(seconds)), u64::MAX as nat) == Some(seconds as nat),
        timestamp_text(None).len() == 0,
{
    law_numbers_read_back(seconds as nat, u64::MAX as nat, Seq::empty());
}

/// A judge's word that is none of the three is refused, and names itself.
pub proof fn law_other_words_are_refused(word: Seq<char>)
    requires
        word != "Merge"@,
        word != "NewType"@,
        word != "Reject"@,
    ensures
        judge_decision(word) is Err,
{
}

} // verus!
