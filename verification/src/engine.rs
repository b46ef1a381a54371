//! The checks and result shaping the engine performs around its services.

use vstd::prelude::*;
use crate::error::{ErrorView, KazeNhanhError};
use crate::sentences::{segmentable, sentences_of, split_sentences, strings_view};
use crate::text::{is_blank, join, join_strings, trim, trim_string};

verus! {

broadcast use vstd::string::group_string_axioms;

/// The outcome of hybrid summarisation: the extracted sentences and the
/// synthesized abstract, when there is one.
#[derive(Debug, Clone, PartialEq, Eq)]
pub struct HybridSummary {
    pub extracted_sentences: Vec<String>,
    pub synthesized_summary: Option<String>,
}

impl HybridSummary {
    /// A summary from its parts.
    pub fn new(extracted_sentences: Vec<String>, synthesized_summary: Option<String>) -> (s: Self)
        ensures
            s.extracted_sentences == extracted_sentences,
            s.synthesized_summary == synthesized_summary,
    {
        HybridSummary { extracted_sentences, synthesized_summary }
    }
}

/// The text summarisation works on: the input without surrounding
/// whitespace; blank input is refused.
pub fn summarizer_input(text: &str) -> (r: Result<String, KazeNhanhError>)
    ensures
        trim(text@).len() == 0 ==> r is Err && r->Err_0@ == ErrorView::InvalidInput("HybridSummarizer::execute received empty text"@),
        trim(text@).len() > 0 ==> r is Ok && r->Ok_0@ == trim(text@),
{
    if is_blank(text) {
        Err(KazeNhanhError::InvalidInput(String::from_str("HybridSummarizer::execute received empty text")))
    } else {
        Ok(trim_string(text))
    }
}

/// A prompt may go to the model only when it is not blank.
pub fn check_inference_prompt(prompt: &str) -> (r: Result<(), KazeNhanhError>)
    ensures
        trim(prompt@).len() == 0 ==> r is Err && r->Err_0@ == ErrorView::InvalidInput("Prompt for inference is empty"@),
        trim(prompt@).len() > 0 ==> r is Ok,
{
    if is_blank(prompt) {
        Err(KazeNhanhError::InvalidInput(String::from_str("Prompt for inference is empty")))
    } else {
        Ok(())
    }
}

/// A document may be summarised only when it is not blank.
pub fn check_document(text: &str) -> (r: Result<(), KazeNhanhError>)
    ensures
        trim(text@).len() == 0 ==> r is Err && r->Err_0@ == ErrorView::InvalidInput("summarize_document received empty text"@),
        trim(text@).len() > 0 ==> r is Ok,
{
    if is_blank(text) {
        Err(KazeNhanhError::InvalidInput(String::from_str("summarize_document received empty text")))
    } else {
        Ok(())
    }
}

/// The extracted sentences with the abstract; a summary without an abstract
/// is an engine error.
pub fn summary_details(summary: HybridSummary) -> (r: Result<(Vec<String>, String), KazeNhanhError>)
    ensures
        match summary.synthesized_summary {
            Some(s) => r is Ok && r->Ok_0.0 == summary.extracted_sentences && r->Ok_0.1 == s,
            None => r is Err && r->Err_0@ == ErrorView::SummarizeEngineError("hybrid summarizer produced no synthesis"@),
        },
{
    match summary.synthesized_summary {
        Some(s) => Ok((summary.extracted_sentences, s)),
        None => Err(KazeNhanhError::SummarizeEngineError(String::from_str("hybrid summarizer produced no synthesis"))),
    }
}

/// The sentences trimmed, the blank ones dropped.
pub open spec fn cleaned(s: Seq<Seq<char>>) -> Seq<Seq<char>>
    decreases s.len(),
{
    if s.len() == 0 {
        seq![]
    } else {
        let prev = cleaned(s.drop_last());
        if trim(s.last()).len() > 0 { prev.push(trim(s.last())) } else { prev }
    }
}

/// What the model is asked to synthesize from given sentences: the non-blank
/// ones trimmed, one per line. No sentence, or only blank ones, is refused.
pub fn synthesis_input(sentences: Vec<String>) -> (r: Result<String, KazeNhanhError>)
    ensures
        sentences@.len() == 0 ==> r is Err && r->Err_0@ == ErrorView::InvalidInput("synthesize_summary requires at least one sentence"@),
        sentences@.len() > 0 && cleaned(strings_view(sentences@)).len() == 0 ==> r is Err
            && r->Err_0@ == ErrorView::InvalidInput("synthesize_summary received only blank sentences"@),
        cleaned(strings_view(sentences@)).len() > 0 ==> r is Ok && r->Ok_0@ == join(cleaned(strings_view(sentences@)), "\n"@),
{
    if sentences.len() == 0 {
        return Err(KazeNhanhError::InvalidInput(String::from_str("synthesize_summary requires at least one sentence")));
    }
    let ghost sv = strings_view(sentences@);
    let mut kept: Vec<String> = Vec::new();
    let mut i: usize = 0;
    assert(sv.subrange(0, 0) =~= Seq::<Seq<char>>::empty());
    assert(strings_view(kept@) =~= Seq::<Seq<char>>::empty());
    while i < sentences.len()
        invariant
            i <= sentences@.len(),
            sv == strings_view(sentences@),
            strings_view(kept@) == cleaned(sv.subrange(0, i as int)),
        decreases sentences.len() - i,
    {
        assert(sv.subrange(0, i + 1).drop_last() =~= sv.subrange(0, i as int));
        assert(sv.subrange(0, i + 1).last() == sentences@[i as int]@);
        let t = trim_string(sentences[i].as_str());
        if !is_blank(sentences[i].as_str()) {
            let ghost before = strings_view(kept@);
            kept.push(t);
            assert(strings_view(kept@) =~= before.push(t@));
        }
        i += 1;
    }
    assert(sv.subrange(0, sv.len() as int) =~= sv);
    if kept.len() == 0 {
        return Err(KazeNhanhError::InvalidInput(String::from_str("synthesize_summary received only blank sentences")));
    }
    let joined = join_strings(&kept, "\n");
    assert(kept@.map_values(|s: String| s@) =~= strings_view(kept@));
    Ok(joined)
}

/// The first `count` sentences of a text. A count of zero asks for nothing;
/// otherwise blank text is refused.
pub fn important_sentences(text: &str, count: usize) -> (r: Result<Vec<String>, KazeNhanhError>)
    requires
        count == 0 || segmentable(text@),
    ensures
        count == 0 ==> r is Ok && r->Ok_0@.len() == 0,
        count > 0 && trim(text@).len() == 0 ==> r is Err
            && r->Err_0@ == ErrorView::InvalidInput("extract_important_sentences received empty text"@),
        count > 0 && trim(text@).len() > 0 ==> r is Ok && strings_view(r->Ok_0@) == sentences_of(text@).take(
            if count < sentences_of(text@).len() { count as int } else { sentences_of(text@).len() as int },
        ),
{
    if count == 0 {
        return Ok(Vec::new());
    }
    if is_blank(text) {
        return Err(KazeNhanhError::InvalidInput(String::from_str("extract_important_sentences received empty text")));
    }
    let sentences = split_sentences(text);
    let ghost sv = strings_view(sentences@);
    let n = if count < sentences.len() { count } else { sentences.len() };
    let mut out: Vec<String> = Vec::new();
    let mut i: usize = 0;
    assert(strings_view(out@) =~= sv.take(0));
    while i < n
        invariant
            n <= sentences@.len(),
            i <= n,
            sv == strings_view(sentences@),
            strings_view(out@) == sv.take(i as int),
        decreases n - i,
    {
        let s = sentences[i].clone();
        let ghost before = strings_view(out@);
        out.push(s);
        assert(strings_view(out@) =~= before.push(s@));
        assert(sv.take(i + 1) =~= sv.take(i as int).push(sv[i as int]));
        i += 1;
    }
    Ok(out)
}

} // verus!
