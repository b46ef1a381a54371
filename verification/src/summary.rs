//! The decisions of hybrid summarisation around ranking and synthesis:
//! which ranked sentences are kept, the fallback sentence, their order, and
//! the prompt that asks for the abstract.

use vstd::prelude::*;
use crate::error::{ErrorView, KazeNhanhError};
use crate::grouping::{lemma_lines_for_absent, lemma_lines_for_append, lemma_lines_for_push, lines_for};
use crate::sentences::{segmentable, sentences_of, split_sentences, strings_view};
use crate::text::{chars_of, concat, decimal, decimal_string, is_blank, lemma_concat_push, trim, trim_string};

verus! {

broadcast use vstd::string::group_string_axioms;

/// Characters that make up a sentence of punctuation only.
pub open spec fn is_noise_char(c: char) -> bool {
    c == '!' || c == '?' || c == '！' || c == '？' || c == '。' || c == '、'
}

/// A sentence made of punctuation only (the empty sentence included).
pub open spec fn noise(s: Seq<char>) -> bool {
    forall|i: int| 0 <= i < s.len() ==> is_noise_char(#[trigger] s[i])
}

/// Whether a sentence is made of punctuation only.
pub fn is_noise_sentence(sentence: &str) -> (b: bool)
    ensures
        b == noise(sentence@),
{
    let cs = chars_of(sentence);
    let mut i: usize = 0;
    while i < cs.len()
        invariant
            i <= cs@.len(),
            cs@ == sentence@,
            forall|k: int| 0 <= k < i ==> is_noise_char(#[trigger] cs@[k]),
        decreases cs.len() - i,
    {
        let c = cs[i];
        if !(c == '!' || c == '?' || c == '！' || c == '？' || c == '。' || c == '、') {
            return false;
        }
        i += 1;
    }
    true
}

/// A sentence that can stand in for a summary: not blank, not punctuation only.
pub open spec fn usable_sentence(s: Seq<char>) -> bool {
    trim(s).len() > 0 && !noise(trim(s))
}

/// The first usable sentence of `text`, trimmed, with its index among the
/// sentences, or `None` when there is none.
pub fn fallback_sentence(text: &str) -> (r: Option<(usize, String)>)
    requires
        segmentable(text@),
    ensures
        match r {
            Some((i, s)) => i < sentences_of(text@).len() && usable_sentence(sentences_of(text@)[i as int])
                && s@ == trim(sentences_of(text@)[i as int])
                && forall|k: int| 0 <= k < i ==> !usable_sentence(#[trigger] sentences_of(text@)[k]),
            None => forall|k: int| 0 <= k < sentences_of(text@).len() ==> !usable_sentence(#[trigger] sentences_of(text@)[k]),
        },
{
    let sentences = split_sentences(text);
    let ghost sv = strings_view(sentences@);
    let mut i: usize = 0;
    while i < sentences.len()
        invariant
            i <= sentences@.len(),
            sv == strings_view(sentences@),
            sv == sentences_of(text@),
            forall|k: int| 0 <= k < i ==> !usable_sentence(#[trigger] sv[k]),
        decreases sentences.len() - i,
    {
        let t = trim_string(sentences[i].as_str());
        assert(sv[i as int] == sentences@[i as int]@);
        if !is_blank(t.as_str()) && !is_noise_sentence(t.as_str()) {
            proof {
                crate::text::lemma_trim_idempotent(sv[i as int]);
            }
            return Some((i, t));
        }
        proof {
            crate::text::lemma_trim_idempotent(sv[i as int]);
        }
        i += 1;
    }
    None
}

/// The prompt's instruction line.
pub open spec fn synthesis_instruction() -> Seq<char> {
    "以下の重要文をもとに90文字程度の要約を出力してください。文体は敬体でまとめてください。\n"@
}

/// The numbered list of sentences: `1. first`, `2. second`, one per line.
pub open spec fn numbered(sents: Seq<Seq<char>>) -> Seq<char> {
    concat(Seq::new(sents.len(), |i: int| decimal((i + 1) as nat) + ". "@ + sents[i] + "\n"@))
}

/// The prompt asking for an abstract of `original` built from `sents`.
pub open spec fn synthesis_prompt(original: Seq<char>, sents: Seq<Seq<char>>) -> Seq<char> {
    synthesis_instruction() + numbered(sents) + "\n原文:\n"@ + original
}

/// Builds the prompt that asks for an abstract from the important sentences.
pub fn build_synthesis_prompt(original_text: &str, sentences: &[String]) -> (s: String)
    ensures
        s@ == synthesis_prompt(original_text@, strings_view(sentences@)),
{
    let ghost sv = strings_view(sentences@);
    let mut s = String::from_str("以下の重要文をもとに90文字程度の要約を出力してください。文体は敬体でまとめてください。\n");
    let ghost head = s@;
    let mut i: usize = 0;
    while i < sentences.len()
        invariant
            i <= sentences@.len(),
            sv == strings_view(sentences@),
            s@ == head + numbered(sv.subrange(0, i as int)),
        decreases sentences.len() - i,
    {
        let n = decimal_string((i as u64) + 1);
        proof {
            let f = |k: int| decimal((k + 1) as nat) + ". "@ + sv[k] + "\n"@;
            let g = |k: int| decimal((k + 1) as nat) + ". "@ + sv.subrange(0, i + 1)[k] + "\n"@;
            let h = |k: int| decimal((k + 1) as nat) + ". "@ + sv.subrange(0, i as int)[k] + "\n"@;
            assert(Seq::new((i + 1) as nat, g) =~= Seq::new(i as nat, h).push(f(i as int)));
            lemma_concat_push(Seq::new(i as nat, h), f(i as int));
        }
        s.append(n.as_str());
        s.append(". ");
        s.append(sentences[i].as_str());
        s.append("\n");
        i += 1;
    }
    assert(sv.subrange(0, sv.len() as int) =~= sv);
    s.append("\n原文:\n");
    s.append(original_text);
    s
}

/// Indices of the ranked candidates kept: in rank order, a candidate is kept
/// when it passes the score threshold or nothing was kept yet, until
/// `max` are kept.
pub open spec fn selected_indices(passes: Seq<bool>, max: nat) -> Seq<int>
    decreases passes.len(),
{
    if passes.len() == 0 {
        seq![]
    } else {
        let prev = selected_indices(passes.drop_last(), max);
        let i = passes.len() - 1;
        if prev.len() < max && (passes[i] || prev.len() == 0) { prev.push(i) } else { prev }
    }
}

/// The kept indices are increasing and at most `max`.
pub proof fn lemma_selected_indices_bounds(passes: Seq<bool>, max: nat)
    ensures
        selected_indices(passes, max).len() <= max,
        forall|k: int| 0 <= k < selected_indices(passes, max).len() ==> 0 <= #[trigger] selected_indices(passes, max)[k] < passes.len(),
    decreases passes.len(),
{
    if passes.len() > 0 {
        lemma_selected_indices_bounds(passes.drop_last(), max);
    }
}

/// Selection keeps the best-ranked candidate whenever it may keep any, keeps
/// every other candidate only when it passes the threshold, keeps candidates
/// in rank order, and keeps at most `max`.
pub proof fn lemma_selection_keeps_first(passes: Seq<bool>, max: nat)
    ensures
        selected_indices(passes, max).len() <= max,
        max > 0 && passes.len() > 0 ==> selected_indices(passes, max).len() > 0 && selected_indices(passes, max)[0] == 0,
        forall|k: int| 0 < k < selected_indices(passes, max).len() ==> passes[#[trigger] selected_indices(passes, max)[k]],
        forall|a: int, b: int| 0 <= a < b < selected_indices(passes, max).len()
            ==> #[trigger] selected_indices(passes, max)[a] < #[trigger] selected_indices(passes, max)[b],
    decreases passes.len(),
{
    lemma_selected_indices_bounds(passes, max);
    if passes.len() > 0 {
        let pre = passes.drop_last();
        lemma_selection_keeps_first(pre, max);
        lemma_selected_indices_bounds(pre, max);
        let prev = selected_indices(pre, max);
        let cur = selected_indices(passes, max);
        if prev.len() < max && (passes[passes.len() - 1] || prev.len() == 0) {
            assert forall|k: int| 0 < k < cur.len() implies passes[#[trigger] cur[k]] by {
                if k < prev.len() {
                    assert(cur[k] == prev[k]);
                    assert(pre[prev[k]] == passes[prev[k]]);
                }
            }
            assert forall|a: int, b: int| 0 <= a < b < cur.len() implies #[trigger] cur[a] < #[trigger] cur[b] by {
                assert(cur[a] == prev[a]);
                if b < prev.len() {
                    assert(cur[b] == prev[b]);
                }
            }
        } else {
            assert forall|k: int| 0 < k < cur.len() implies passes[#[trigger] cur[k]] by {
                assert(pre[prev[k]] == passes[prev[k]]);
            }
        }
    }
}

/// Chooses which ranked candidates to keep, given whether each passes the
/// score threshold.
pub fn select_indices(passes: &Vec<bool>, max_sentences: usize) -> (r: Vec<usize>)
    ensures
        r@.map_values(|i: usize| i as int) == selected_indices(passes@, max_sentences as nat),
{
    let mut r: Vec<usize> = Vec::new();
    if max_sentences == 0 {
        proof {
            lemma_selected_indices_bounds(passes@, 0);
        }
        assert(r@.map_values(|i: usize| i as int) =~= selected_indices(passes@, 0));
        return r;
    }
    let mut i: usize = 0;
    assert(passes@.subrange(0, 0) =~= Seq::<bool>::empty());
    assert(passes@.subrange(0, passes@.len() as int) =~= passes@);
    assert(r@.map_values(|i: usize| i as int) =~= Seq::<int>::empty());
    while i < passes.len()
        invariant_except_break
            i <= passes@.len(),
            r@.len() < max_sentences,
        invariant
            max_sentences > 0,
            passes@.subrange(0, passes@.len() as int) == passes@,
            r@.map_values(|i: usize| i as int) == selected_indices(passes@.subrange(0, i as int), max_sentences as nat),
        ensures
            r@.map_values(|i: usize| i as int) == selected_indices(passes@, max_sentences as nat),
        decreases passes.len() - i,
    {
        let ghost pre = passes@.subrange(0, i as int);
        assert(passes@.subrange(0, i + 1).drop_last() =~= pre);
        assert(passes@.subrange(0, i + 1)[i as int] == passes@[i as int]);
        if passes[i] || r.len() == 0 {
            let ghost before = r@.map_values(|i: usize| i as int);
            r.push(i);
            assert(r@.map_values(|i: usize| i as int) =~= before.push(i as int));
        }
        i += 1;
        if r.len() == max_sentences {
            proof {
                lemma_selected_stays(passes@, i as nat, max_sentences as nat);
            }
            break;
        }
    }
    r
}

/// Once `max` indices are kept, later candidates change nothing.
proof fn lemma_selected_stays(passes: Seq<bool>, n: nat, max: nat)
    requires
        n <= passes.len(),
        selected_indices(passes.subrange(0, n as int), max).len() == max,
    ensures
        selected_indices(passes, max) == selected_indices(passes.subrange(0, n as int), max),
    decreases passes.len() - n,
{
    if n < passes.len() {
        assert(passes.subrange(0, n + 1 as int).drop_last() =~= passes.subrange(0, n as int));
        lemma_selected_stays(passes, (n + 1) as nat, max);
    } else {
        assert(passes.subrange(0, n as int) =~= passes);
    }
}

/// Views of (position, text) pairs.
pub open spec fn ranked_views(v: Seq<(usize, String)>) -> Seq<(usize, Seq<char>)> {
    v.map_values(|p: (usize, String)| (p.0, p.1@))
}

/// Positions in non-decreasing order.
pub open spec fn positions_sorted(s: Seq<(usize, Seq<char>)>) -> bool {
    forall|i: int, j: int| 0 <= i < j < s.len() ==> s[i].0 <= s[j].0
}

/// `out` is `input` sorted by position, stably: as many pairs, and the texts
/// at each position keep their order.
pub open spec fn stably_sorted(input: Seq<(usize, Seq<char>)>, out: Seq<(usize, Seq<char>)>) -> bool {
    &&& out.len() == input.len()
    &&& positions_sorted(out)
    &&& forall|p: usize| #[trigger] lines_for(out, p) == lines_for(input, p)
}

/// Sorts (position, text) pairs by position, keeping the order of equal positions.
pub fn sort_by_position(v: &Vec<(usize, String)>) -> (r: Vec<(usize, String)>)
    ensures
        stably_sorted(ranked_views(v@), ranked_views(r@)),
{
    let ghost vv = ranked_views(v@);
    let mut out: Vec<(usize, String)> = Vec::new();
    let mut i: usize = 0;
    assert(vv.subrange(0, 0) =~= Seq::<(usize, Seq<char>)>::empty());
    assert(ranked_views(out@) =~= Seq::<(usize, Seq<char>)>::empty());
    while i < v.len()
        invariant
            i <= v@.len(),
            vv == ranked_views(v@),
            stably_sorted(vv.subrange(0, i as int), ranked_views(out@)),
        decreases v.len() - i,
    {
        let pos = v[i].0;
        let text = v[i].1.clone();
        let ghost x = vv[i as int];
        assert(x == (pos, text@));
        let ghost ov = ranked_views(out@);
        let mut j: usize = 0;
        while j < out.len() && out[j].0 <= pos
            invariant
                j <= out@.len(),
                ov == ranked_views(out@),
                forall|k: int| 0 <= k < j ==> (#[trigger] ov[k]).0 <= pos,
            decreases out.len() - j,
        {
            assert(ov[j as int].0 == out@[j as int].0);
            j += 1;
        }
        proof {
            if j < ov.len() {
                assert(ov[j as int].0 == out@[j as int].0);
            }
        }
        out.insert(j, (pos, text));
        proof {
            let nv = ranked_views(out@);
            let left = ov.subrange(0, j as int);
            let right = ov.subrange(j as int, ov.len() as int);
            assert(nv =~= left + seq![x] + right);
            assert(ov =~= left + right);
            assert(vv.subrange(0, i + 1) =~= vv.subrange(0, i as int).push(x));
            assert(seq![x] =~= Seq::<(usize, Seq<char>)>::empty().push(x));
            assert forall|p: usize| #[trigger] lines_for(nv, p) == lines_for(vv.subrange(0, i + 1), p) by {
                lemma_lines_for_push(vv.subrange(0, i as int), x, p);
                lemma_lines_for_push(Seq::<(usize, Seq<char>)>::empty(), x, p);
                lemma_lines_for_append(left + seq![x], right, p);
                lemma_lines_for_append(left, seq![x], p);
                lemma_lines_for_append(left, right, p);
                if p == pos {
                    assert forall|k: int| 0 <= k < right.len() implies (#[trigger] right[k]).0 != p by {
                        assert(right[k] == ov[j + k]);
                    }
                    lemma_lines_for_absent(right, p);
                }
                assert(lines_for(ov, p) == lines_for(vv.subrange(0, i as int), p));
            }
            assert forall|a: int, b: int| 0 <= a < b < nv.len() implies nv[a].0 <= nv[b].0 by {
                if a < j && b == j {
                } else if a == j && b > j {
                    assert(nv[b] == ov[b - 1]);
                } else if a < j && b > j {
                    assert(nv[b] == ov[b - 1]);
                } else if a > j {
                    assert(nv[a] == ov[a - 1]);
                    assert(nv[b] == ov[b - 1]);
                }
            }
        }
        i += 1;
    }
    assert(vv.subrange(0, vv.len() as int) =~= vv);
    out
}

/// The candidates kept from the ranking, in rank order.
pub open spec fn picked(ranked: Seq<(usize, Seq<char>)>, passes: Seq<bool>, max: nat) -> Seq<(usize, Seq<char>)> {
    selected_indices(passes, max).map_values(|i: int| ranked[i])
}

/// `i` is the index of the first usable sentence.
pub open spec fn first_usable_at(sents: Seq<Seq<char>>, i: int) -> bool {
    0 <= i < sents.len() && usable_sentence(sents[i]) && forall|k: int| 0 <= k < i ==> !usable_sentence(#[trigger] sents[k])
}

/// The texts of a list of (position, text) pairs.
pub open spec fn texts_of(s: Seq<(usize, Seq<char>)>) -> Seq<Seq<char>> {
    s.map_values(|x: (usize, Seq<char>)| x.1)
}

/// The important sentences of a text, from its ranked candidates: the kept
/// ones in the order they appear in the text, or, when none is kept, the
/// first usable sentence of the text; an error when there is none either.
pub fn extract_sentences(ranked: &Vec<(usize, String)>, passes: &Vec<bool>, max_sentences: usize, text: &str) -> (r: Result<Vec<String>, KazeNhanhError>)
    requires
        ranked@.len() == passes@.len(),
        segmentable(text@),
    ensures
        r is Ok ==> 0 < r->Ok_0@.len() <= (if max_sentences > 0 { max_sentences as nat } else { 1nat }),
        match r {
            Ok(v) => if picked(ranked_views(ranked@), passes@, max_sentences as nat).len() > 0 {
                exists|sorted: Seq<(usize, Seq<char>)>|
                    stably_sorted(picked(ranked_views(ranked@), passes@, max_sentences as nat), sorted)
                        && strings_view(v@) == #[trigger] texts_of(sorted)
            } else {
                exists|i: int| first_usable_at(sentences_of(text@), i) && strings_view(v@) == seq![trim(#[trigger] sentences_of(text@)[i])]
            },
            Err(e) => picked(ranked_views(ranked@), passes@, max_sentences as nat).len() == 0
                && (forall|k: int| 0 <= k < sentences_of(text@).len() ==> !usable_sentence(#[trigger] sentences_of(text@)[k]))
                && e@ == ErrorView::SummarizeEngineError("lexrank produced no candidates"@),
        },
{
    let ghost rv = ranked_views(ranked@);
    let idx = select_indices(passes, max_sentences);
    proof {
        lemma_selected_indices_bounds(passes@, max_sentences as nat);
    }
    let ghost sel = selected_indices(passes@, max_sentences as nat);
    let ghost pk = picked(rv, passes@, max_sentences as nat);
    let mut chosen: Vec<(usize, String)> = Vec::new();
    let mut k: usize = 0;
    assert(ranked_views(chosen@) =~= Seq::<(usize, Seq<char>)>::empty());
    while k < idx.len()
        invariant
            k <= idx@.len(),
            idx@.map_values(|i: usize| i as int) == sel,
            sel == selected_indices(passes@, max_sentences as nat),
            forall|m: int| 0 <= m < sel.len() ==> 0 <= #[trigger] sel[m] < passes@.len(),
            ranked@.len() == passes@.len(),
            rv == ranked_views(ranked@),
            pk == picked(rv, passes@, max_sentences as nat),
            ranked_views(chosen@) == pk.subrange(0, k as int),
        decreases idx.len() - k,
    {
        let at = idx[k];
        assert(sel[k as int] == at as int);
        let item = (ranked[at].0, ranked[at].1.clone());
        let ghost before = ranked_views(chosen@);
        chosen.push(item);
        assert(ranked_views(chosen@) =~= before.push(rv[at as int]));
        assert(pk.subrange(0, k + 1) =~= pk.subrange(0, k as int).push(pk[k as int]));
        k += 1;
    }
    assert(pk.subrange(0, pk.len() as int) =~= pk);
    if chosen.len() == 0 {
        match fallback_sentence(text) {
            Some((_, s)) => {
                let mut v: Vec<String> = Vec::new();
                v.push(s);
                assert(strings_view(v@) =~= seq![s@]);
                return Ok(v);
            },
            None => {
                return Err(KazeNhanhError::SummarizeEngineError(String::from_str("lexrank produced no candidates")));
            },
        }
    }
    let sorted = sort_by_position(&chosen);
    let ghost sv = ranked_views(sorted@);
    let mut texts: Vec<String> = Vec::new();
    let mut m: usize = 0;
    assert(strings_view(texts@) =~= Seq::<Seq<char>>::empty());
    while m < sorted.len()
        invariant
            m <= sorted@.len(),
            sv == ranked_views(sorted@),
            strings_view(texts@) == texts_of(sv.subrange(0, m as int)),
        decreases sorted.len() - m,
    {
        let t = sorted[m].1.clone();
        let ghost before = strings_view(texts@);
        texts.push(t);
        assert(strings_view(texts@) =~= before.push(t@));
        assert(texts_of(sv.subrange(0, m + 1)) =~= texts_of(sv.subrange(0, m as int)).push(sv[m as int].1));
        m += 1;
    }
    assert(sv.subrange(0, sv.len() as int) =~= sv);
    Ok(texts)
}

} // verus!
