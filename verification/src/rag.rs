//! The decisions of a retrieval-augmented Git report: when to fall back to a
//! message, what to ask the model, and what the report holds.

use vstd::prelude::*;
use crate::correlation::{change_views, correlate, correlates, entry_views, ChangeView, ContextualChange, DiffIngestionEntry};
use crate::error::{error_message, KazeNhanhError};
use crate::prompt::{build_prompt, fallback_message, fallback_text, file_order, opt_str_view, prompt_text};
use crate::text::{trim, trim_string};

verus! {

broadcast use vstd::string::group_string_axioms;

/// Model of a report's content.
pub enum ContentView {
    Synthesized { prompt: Seq<char>, summary: Seq<char> },
    Fallback { message: Seq<char> },
}

/// What a report says: the model's summary with the prompt that produced it,
/// or a message explaining why there is none.
#[derive(Debug, Clone, PartialEq, Eq)]
pub enum GitNativeRagContent {
    Synthesized { prompt: String, summary: String },
    Fallback { message: String },
}

impl View for GitNativeRagContent {
    type V = ContentView;

    open spec fn view(&self) -> ContentView {
        match self {
            GitNativeRagContent::Synthesized { prompt, summary } => ContentView::Synthesized { prompt: prompt@, summary: summary@ },
            GitNativeRagContent::Fallback { message } => ContentView::Fallback { message: message@ },
        }
    }
}

/// Model of a report.
pub struct ReportView {
    pub repo_path: Seq<char>,
    pub contextual_changes: Seq<ChangeView>,
    pub content: ContentView,
}

/// The report of a retrieval-augmented run over a repository.
#[derive(Debug, Clone, PartialEq, Eq)]
pub struct GitNativeRagReport {
    pub repo_path: String,
    pub contextual_changes: Vec<ContextualChange>,
    pub content: GitNativeRagContent,
}

impl View for GitNativeRagReport {
    type V = ReportView;

    open spec fn view(&self) -> ReportView {
        ReportView {
            repo_path: self.repo_path@,
            contextual_changes: change_views(self.contextual_changes@),
            content: self.content@,
        }
    }
}

impl GitNativeRagReport {
    /// A report carrying the model's summary.
    pub fn synthesized(repo_path: String, contextual_changes: Vec<ContextualChange>, prompt: String, summary: String) -> (r: Self)
        ensures
            r@ == (ReportView {
                repo_path: repo_path@,
                contextual_changes: change_views(contextual_changes@),
                content: ContentView::Synthesized { prompt: prompt@, summary: summary@ },
            }),
    {
        GitNativeRagReport { repo_path, contextual_changes, content: GitNativeRagContent::Synthesized { prompt, summary } }
    }

    /// A report with a message and no changes.
    pub fn fallback(repo_path: String, message: String) -> (r: Self)
        ensures
            r@ == (ReportView {
                repo_path: repo_path@,
                contextual_changes: Seq::<ChangeView>::empty(),
                content: ContentView::Fallback { message: message@ },
            }),
    {
        let r = GitNativeRagReport { repo_path, contextual_changes: Vec::new(), content: GitNativeRagContent::Fallback { message } };
        assert(change_views(r.contextual_changes@) =~= Seq::<ChangeView>::empty());
        r
    }
}

/// The files ingested for a repository.
#[derive(Debug, PartialEq, Eq)]
pub struct DiffIngestionResult {
    pub repo_path: String,
    pub entries: Vec<DiffIngestionEntry>,
}

impl DiffIngestionResult {
    /// A result from its parts.
    pub fn new(repo_path: String, entries: Vec<DiffIngestionEntry>) -> (r: Self)
        ensures
            r.repo_path == repo_path,
            r.entries == entries,
    {
        DiffIngestionResult { repo_path, entries }
    }

    /// A result without files.
    pub fn empty(repo_path: String) -> (r: Self)
        ensures
            r.repo_path == repo_path,
            r.entries@.len() == 0,
    {
        DiffIngestionResult { repo_path, entries: Vec::new() }
    }
}

/// What a run does once the files are ingested.
pub enum RagPlan {
    /// Nothing to review: the run ends with this report.
    Fallback(GitNativeRagReport),
    /// Ask the model about these changes with this prompt.
    Synthesize { repo_path: String, changes: Vec<ContextualChange>, prompt: String },
}

/// Decides, from the ingested files, whether a run falls back to a message
/// or asks the model, and with which prompt.
pub fn plan_report(ingestion: DiffIngestionResult, days_since: u32, custom_prompt: Option<&str>) -> (p: RagPlan)
    ensures
        match p {
            RagPlan::Fallback(r) => (ingestion.entries@.len() == 0 || correlates(entry_views(ingestion.entries@), Seq::<ChangeView>::empty()))
                && r@ == (ReportView {
                    repo_path: ingestion.repo_path@,
                    contextual_changes: Seq::<ChangeView>::empty(),
                    content: ContentView::Fallback { message: fallback_text(ingestion.repo_path@, days_since) },
                }),
            RagPlan::Synthesize { repo_path, changes, prompt } => ingestion.entries@.len() > 0
                && changes@.len() > 0
                && repo_path@ == ingestion.repo_path@
                && correlates(entry_views(ingestion.entries@), change_views(changes@))
                && exists|ps: Seq<Seq<char>>| file_order(change_views(changes@), ps)
                    && prompt@ == #[trigger] prompt_text(ingestion.repo_path@, days_since, change_views(changes@), opt_str_view(custom_prompt), ps),
        },
{
    if ingestion.entries.len() == 0 {
        let message = fallback_message(ingestion.repo_path.as_str(), days_since);
        return RagPlan::Fallback(GitNativeRagReport::fallback(ingestion.repo_path, message));
    }
    let changes = correlate(&ingestion.entries);
    if changes.len() == 0 {
        assert(change_views(changes@) =~= Seq::<ChangeView>::empty());
        let message = fallback_message(ingestion.repo_path.as_str(), days_since);
        return RagPlan::Fallback(GitNativeRagReport::fallback(ingestion.repo_path, message));
    }
    let prompt = build_prompt(ingestion.repo_path.as_str(), days_since, changes.as_slice(), custom_prompt);
    RagPlan::Synthesize { repo_path: ingestion.repo_path, changes, prompt }
}

/// The message when the model could not summarise.
pub open spec fn no_summary_text(repo: Seq<char>, e: KazeNhanhError) -> Seq<char> {
    "GitNativeRAG could not produce a summary for `"@ + repo + "`: "@ + error_message(e)
}

/// Completes a run with the model's answer: a summary makes a synthesized
/// report; refused input or a failed inference falls back to a message;
/// any other error ends the run.
pub fn finish_report(repo_path: String, changes: Vec<ContextualChange>, prompt: String, outcome: Result<String, KazeNhanhError>) -> (r: Result<GitNativeRagReport, KazeNhanhError>)
    ensures
        match outcome {
            Ok(summary) => r is Ok && r->Ok_0@ == (ReportView {
                repo_path: repo_path@,
                contextual_changes: change_views(changes@),
                content: ContentView::Synthesized { prompt: prompt@, summary: summary@ },
            }),
            Err(e) => match e {
                KazeNhanhError::InvalidInput(_) | KazeNhanhError::ModelInferenceError { .. } => r is Ok && r->Ok_0@ == (ReportView {
                    repo_path: repo_path@,
                    contextual_changes: Seq::<ChangeView>::empty(),
                    content: ContentView::Fallback { message: no_summary_text(repo_path@, e) },
                }),
                _ => r is Err && r->Err_0 == e,
            },
        },
{
    match outcome {
        Ok(summary) => Ok(GitNativeRagReport::synthesized(repo_path, changes, prompt, summary)),
        Err(e) => {
            let falls_back = match &e {
                KazeNhanhError::InvalidInput(_) => true,
                KazeNhanhError::ModelInferenceError { .. } => true,
                _ => false,
            };
            if falls_back {
                let mut message = String::from_str("GitNativeRAG could not produce a summary for `");
                message.append(repo_path.as_str());
                message.append("`: ");
                let text = e.to_string();
                message.append(text.as_str());
                Ok(GitNativeRagReport::fallback(repo_path, message))
            } else {
                Err(e)
            }
        },
    }
}

/// The message when a request was refused as invalid.
pub open spec fn invalid_request_text(repo: Seq<char>, message: Seq<char>) -> Seq<char> {
    "GitNativeRAG request was invalid for `"@ + trim(repo) + "`: "@ + message
}

/// The answer to a request: a refused request becomes a fallback report
/// that says why; other outcomes pass through.
pub fn settle_request(repo_path: &str, outcome: Result<GitNativeRagReport, KazeNhanhError>) -> (r: Result<GitNativeRagReport, KazeNhanhError>)
    ensures
        match outcome {
            Ok(report) => r == Ok::<GitNativeRagReport, KazeNhanhError>(report),
            Err(KazeNhanhError::InvalidInput(m)) => r is Ok && r->Ok_0@ == (ReportView {
                repo_path: trim(repo_path@),
                contextual_changes: Seq::<ChangeView>::empty(),
                content: ContentView::Fallback { message: invalid_request_text(repo_path@, m@) },
            }),
            Err(e) => r == Err::<GitNativeRagReport, KazeNhanhError>(e),
        },
{
    match outcome {
        Ok(report) => Ok(report),
        Err(KazeNhanhError::InvalidInput(m)) => {
            let repo = trim_string(repo_path);
            let mut message = String::from_str("GitNativeRAG request was invalid for `");
            message.append(repo.as_str());
            message.append("`: ");
            message.append(m.as_str());
            Ok(GitNativeRagReport::fallback(repo, message))
        },
        Err(e) => Err(e),
    }
}

} // verus!
