//! Running things: the arguments of a model server, how long to wait for it,
//! and the states of the process that serves a project.

use vstd::prelude::*;
use crate::setup::{base_name, base_name_of};
use crate::model::{EmbeddingCapabilities, ModelError, ModelErrorView};
use crate::views::views;
use crate::words::{decimal, decimal_text};

verus! {

/// The arguments that `llama-server` is started with.
pub open spec fn server_args(model_path: Seq<char>, port: u16, context_size: u32) -> Seq<Seq<char>> {
    seq![
        "-m"@,
        model_path,
        "--embedding"@,
        "--port"@,
        decimal_text(port as nat),
        "--host"@,
        "127.0.0.1"@,
        "-c"@,
        decimal_text(context_size as nat),
        "-b"@,
        decimal_text(context_size as nat),
        "-ub"@,
        decimal_text(context_size as nat),
    ]
}

fn add_arg(args: &mut Vec<String>, arg: String)
    ensures
        views(final(args)@) == views(old(args)@).push(arg@),
{
    let ghost before = args@;
    let ghost v = arg@;
    args.push(arg);
    proof {
        assert(views(args@) =~= views(before).push(v));
    }
}

/// The arguments that `llama-server` is started with: it listens on this
/// machine only, and takes a whole context in one batch.
pub fn llama_server_args(model_path: &str, port: u16, context_size: u32) -> (r: Vec<String>)
    ensures
        views(r@) == server_args(model_path@, port, context_size),
{
    let mut args: Vec<String> = Vec::new();
    add_arg(&mut args, "-m".to_owned());
    add_arg(&mut args, model_path.to_owned());
    add_arg(&mut args, "--embedding".to_owned());
    add_arg(&mut args, "--port".to_owned());
    add_arg(&mut args, decimal(port as u64));
    add_arg(&mut args, "--host".to_owned());
    add_arg(&mut args, "127.0.0.1".to_owned());
    add_arg(&mut args, "-c".to_owned());
    add_arg(&mut args, decimal(context_size as u64));
    add_arg(&mut args, "-b".to_owned());
    add_arg(&mut args, decimal(context_size as u64));
    add_arg(&mut args, "-ub".to_owned());
    add_arg(&mut args, decimal(context_size as u64));
    proof {
        assert(views(args@) =~= server_args(model_path@, port, context_size));
    }
    args
}

/// Where `llama-server` is reached.
pub fn server_url(port: u16) -> (r: String)
    ensures
        r@ == "http://127.0.0.1:"@ + decimal_text(port as nat),
{
    let mut r: String = "http://127.0.0.1:".to_owned();
    r.append(decimal(port as u64).as_str());
    r
}

/// What is to be done while a server is not ready yet.
#[derive(Debug)]
pub enum Readiness {
    Ready,
    Wait,
    /// It will not become ready.
    GiveUp(ModelError),
}

/// What a [`Readiness`] holds.
pub enum ReadinessView {
    Ready,
    Wait,
    GiveUp(ModelErrorView),
}

impl View for Readiness {
    type V = ReadinessView;

    open spec fn view(&self) -> ReadinessView {
        match *self {
            Readiness::Ready => ReadinessView::Ready,
            Readiness::Wait => ReadinessView::Wait,
            Readiness::GiveUp(e) => ReadinessView::GiveUp(e@),
        }
    }
}

/// What is to be done about a server that has exited with some status or not,
/// answers that it is healthy or not, and has used up its time or not.
pub open spec fn readiness(exited: Option<Seq<char>>, healthy: bool, out_of_time: bool) -> ReadinessView {
    match exited {
        Some(status) => ReadinessView::GiveUp(
            ModelErrorView::BackendUnavailable(
                "llama-server exited before becoming ready (status: "@ + status + ")"@,
            ),
        ),
        None => if healthy {
            ReadinessView::Ready
        } else if out_of_time {
            ReadinessView::GiveUp(
                ModelErrorView::BackendUnavailable(
                    "llama-server did not respond to /health within the timeout"@,
                ),
            )
        } else {
            ReadinessView::Wait
        },
    }
}

/// What is to be done about a server that is starting.
pub fn check_readiness(exited: Option<&str>, healthy: bool, out_of_time: bool) -> (r: Readiness)
    ensures
        r@ == readiness(crate::views::opt_text(exited), healthy, out_of_time),
{
    match exited {
        Some(status) => {
            let mut m: String = "llama-server exited before becoming ready (status: ".to_owned();
            m.append(status);
            m.append(")");
            Readiness::GiveUp(ModelError::BackendUnavailable(m))
        },
        None => if healthy {
            Readiness::Ready
        } else if out_of_time {
            Readiness::GiveUp(
                ModelError::BackendUnavailable(
                    "llama-server did not respond to /health within the timeout".to_owned(),
                ),
            )
        } else {
            Readiness::Wait
        },
    }
}

/// What is told of a `llama-server` that was started with a context size and
/// returned embeddings of some length.
pub fn llama_capabilities(model_path: &str, embedding_dim: usize, context_size: u32) -> (r:
    EmbeddingCapabilities)
    ensures
        r.model_id@ == "llama-cpp:"@ + base_name(model_path@),
        r.embedding_dim == embedding_dim,
        r.max_input_tokens == Some(context_size as usize),
{
    let mut model_id: String = "llama-cpp:".to_owned();
    model_id.append(base_name_of(model_path).as_str());
    EmbeddingCapabilities {
        model_id,
        embedding_dim,
        max_input_tokens: Some(context_size as usize),
    }
}

/// What is told of an Ollama model that returned embeddings of some length.
pub fn ollama_capabilities(model: &str, embedding_dim: usize, max_input_tokens: Option<usize>) -> (r:
    EmbeddingCapabilities)
    ensures
        r.model_id@ == "ollama:"@ + model@,
        r.embedding_dim == embedding_dim,
        r.max_input_tokens == max_input_tokens,
{
    let mut model_id: String = "ollama:".to_owned();
    model_id.append(model);
    EmbeddingCapabilities { model_id, embedding_dim, max_input_tokens }
}

/// The states of the process that serves a project.
#[derive(Clone, Copy, Debug, PartialEq, Eq, Structural)]
pub enum ProcessState {
    Starting,
    CatchUpScan,
    Ready,
    Draining,
    Stopped,
}

/// What moves the process from one state to another.
#[derive(Clone, Copy, Debug, PartialEq, Eq, Structural)]
pub enum ProcessEvent {
    /// Providers and stores are open.
    Opened,
    /// The corpus is indexed.
    CaughtUp,
    /// A signal asks the process to end.
    Signalled,
    /// The client is gone, or the process has drained.
    Ended,
}

/// The number of states that come before a state.
pub open spec fn stage(s: ProcessState) -> int {
    match s {
        ProcessState::Starting => 0,
        ProcessState::CatchUpScan => 1,
        ProcessState::Ready => 2,
        ProcessState::Draining => 3,
        ProcessState::Stopped => 4,
    }
}

/// The state after an event; an event that does not belong to a state leaves
/// it.
pub open spec fn state_after(s: ProcessState, e: ProcessEvent) -> ProcessState {
    match (s, e) {
        (ProcessState::Starting, ProcessEvent::Opened) => ProcessState::CatchUpScan,
        (ProcessState::CatchUpScan, ProcessEvent::CaughtUp) => ProcessState::Ready,
        (ProcessState::Ready, ProcessEvent::Signalled) => ProcessState::Draining,
        (ProcessState::Ready, ProcessEvent::Ended) => ProcessState::Stopped,
        (ProcessState::Draining, ProcessEvent::Ended) => ProcessState::Stopped,
        _ => s,
    }
}

impl ProcessState {
    /// The state after an event.
    pub fn advance(self, e: ProcessEvent) -> (r: ProcessState)
        ensures
            r == state_after(self, e),
    {
        match (self, e) {
            (ProcessState::Starting, ProcessEvent::Opened) => ProcessState::CatchUpScan,
            (ProcessState::CatchUpScan, ProcessEvent::CaughtUp) => ProcessState::Ready,
            (ProcessState::Ready, ProcessEvent::Signalled) => ProcessState::Draining,
            (ProcessState::Ready, ProcessEvent::Ended) => ProcessState::Stopped,
            (ProcessState::Draining, ProcessEvent::Ended) => ProcessState::Stopped,
            _ => self,
        }
    }
}

/// The process never goes back to an earlier state, and a stopped one stays
/// stopped.
pub proof fn law_process_never_goes_back(s: ProcessState, e: ProcessEvent)
    ensures
        stage(state_after(s, e)) >= stage(s),
        state_after(s, e) != s ==> stage(state_after(s, e)) > stage(s),
        s == ProcessState::Stopped ==> state_after(s, e) == ProcessState::Stopped,
{
}

/// The process is not ready before it has caught up with the corpus.
pub proof fn law_ready_after_catch_up(s: ProcessState, e: ProcessEvent)
    requires
        state_after(s, e) == ProcessState::Ready,
    ensures
        s == ProcessState::Ready || (s == ProcessState::CatchUpScan && e == ProcessEvent::CaughtUp),
{
}

} // verus!
