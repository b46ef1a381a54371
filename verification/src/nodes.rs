//! Sentence nodes: the candidate sentences of a text with their content tokens
//! and token counts, ready for ranking.

use vstd::prelude::*;
use crate::morpheme::{is_stopword, is_stopword_exec, normalize_token, token_of, MorphemeView, TokenizedMorpheme};
use crate::sentences::{segmentable, sentences_of, split_sentences, strings_view};
use crate::text::{chars_of, str_equal, trim, trim_string};

verus! {

broadcast use vstd::string::group_string_axioms;

/// Tokens kept from a list of morphemes: each morpheme's token, when it has one
/// that is not a stop word, in order.
pub open spec fn kept_tokens(ms: Seq<MorphemeView>) -> Seq<Seq<char>>
    decreases ms.len(),
{
    if ms.len() == 0 {
        seq![]
    } else {
        let prev = kept_tokens(ms.drop_last());
        match token_of(ms.last()) {
            Some(t) => if is_stopword(t) { prev } else { prev.push(t) },
            None => prev,
        }
    }
}

/// The distinct elements of `s`, in order of first occurrence.
pub open spec fn distinct_in_order(s: Seq<Seq<char>>) -> Seq<Seq<char>>
    decreases s.len(),
{
    if s.len() == 0 {
        seq![]
    } else {
        let prev = distinct_in_order(s.drop_last());
        if s.drop_last().contains(s.last()) { prev } else { prev.push(s.last()) }
    }
}

/// Number of occurrences of `t` in `s`.
pub open spec fn occurrences(s: Seq<Seq<char>>, t: Seq<char>) -> nat
    decreases s.len(),
{
    if s.len() == 0 {
        0
    } else {
        occurrences(s.drop_last(), t) + if s.last() == t { 1nat } else { 0nat }
    }
}

/// A count capped at `cap` when `cap` is positive.
pub open spec fn capped(count: nat, cap: nat) -> nat {
    if cap > 0 && count > cap { cap } else { count }
}

/// The bag of words of a token list: each distinct token with its capped count.
pub open spec fn bag_of(tokens: Seq<Seq<char>>, cap: nat) -> Seq<(Seq<char>, nat)> {
    distinct_in_order(tokens).map_values(|t: Seq<char>| (t, capped(occurrences(tokens, t), cap)))
}

/// Model of a sentence node.
pub struct NodeView {
    pub position: usize,
    pub text: Seq<char>,
    pub tokens: Seq<Seq<char>>,
    pub bag_of_words: Seq<(Seq<char>, nat)>,
}

/// A sentence prepared for ranking.
#[derive(Clone, Debug, PartialEq)]
pub struct SentenceNode {
    pub position: usize,
    pub text: String,
    pub tokens: Vec<String>,
    pub bag_of_words: Vec<(String, usize)>,
}

/// View of a bag of words.
pub open spec fn bag_view(b: Seq<(String, usize)>) -> Seq<(Seq<char>, nat)> {
    b.map_values(|e: (String, usize)| (e.0@, e.1 as nat))
}

impl View for SentenceNode {
    type V = NodeView;

    open spec fn view(&self) -> NodeView {
        NodeView {
            position: self.position,
            text: self.text@,
            tokens: strings_view(self.tokens@),
            bag_of_words: bag_view(self.bag_of_words@),
        }
    }
}

impl SentenceNode {
    /// Builds a node from its parts.
    pub fn new(position: usize, text: String, tokens: Vec<String>, bag_of_words: Vec<(String, usize)>) -> (n: Self)
        ensures
            n.position == position,
            n.text == text,
            n.tokens == tokens,
            n.bag_of_words == bag_of_words,
    {
        SentenceNode { position, text, tokens, bag_of_words }
    }
}

/// Thresholds for sentence preprocessing.
#[derive(Clone, Debug)]
pub struct SentencePreprocessorOptions {
    pub min_characters: usize,
    pub max_token_frequency: usize,
}

impl SentencePreprocessorOptions {
    /// Options with the given sentence length floor and count cap.
    pub fn new(min_characters: usize, max_token_frequency: usize) -> (o: Self)
        ensures
            o.min_characters == min_characters,
            o.max_token_frequency == max_token_frequency,
    {
        SentencePreprocessorOptions { min_characters, max_token_frequency }
    }

    /// Whether `token` is a stop word.
    pub fn is_stopword(&self, token: &str) -> (b: bool)
        ensures
            b == is_stopword(token@),
    {
        is_stopword_exec(token)
    }
}

/// Splits text into sentences and morphemes; implemented by the analysers the
/// engine is built with.
pub trait SentenceTokenizer {
    /// The morphemes of `text`, or a description of why analysis failed.
    fn tokenize(&self, text: &str) -> Result<Vec<TokenizedMorpheme>, String>;
}

/// Views of a list of morphemes.
pub open spec fn morpheme_views(v: Seq<TokenizedMorpheme>) -> Seq<MorphemeView> {
    v.map_values(|m: TokenizedMorpheme| m@)
}

proof fn lemma_occurrences_push(s: Seq<Seq<char>>, t: Seq<char>, x: Seq<char>)
    ensures
        occurrences(s.push(t), x) == occurrences(s, x) + if t == x { 1nat } else { 0nat },
{
    assert(s.push(t).drop_last() =~= s);
}

proof fn lemma_occurrences_positive(s: Seq<Seq<char>>, x: Seq<char>)
    ensures
        s.contains(x) <==> occurrences(s, x) > 0,
    decreases s.len(),
{
    if s.len() > 0 {
        lemma_occurrences_positive(s.drop_last(), x);
        if s.contains(x) {
            let i = choose|i: int| 0 <= i < s.len() && s[i] == x;
            if i < s.len() - 1 {
                assert(s.drop_last()[i] == x);
            }
        }
        if s.drop_last().contains(x) {
            let i = choose|i: int| 0 <= i < s.drop_last().len() && s.drop_last()[i] == x;
            assert(s[i] == x);
        }
    }
}

proof fn lemma_distinct_contains(s: Seq<Seq<char>>, x: Seq<char>)
    ensures
        distinct_in_order(s).contains(x) <==> s.contains(x),
        distinct_in_order(s).no_duplicates(),
    decreases s.len(),
{
    if s.len() > 0 {
        lemma_distinct_contains(s.drop_last(), x);
        lemma_distinct_contains(s.drop_last(), s.last());
        let p = distinct_in_order(s.drop_last());
        if s.contains(x) {
            let i = choose|i: int| 0 <= i < s.len() && s[i] == x;
            if i < s.len() - 1 {
                assert(s.drop_last()[i] == x);
            }
        }
        if s.drop_last().contains(x) {
            let i = choose|i: int| 0 <= i < s.drop_last().len() && s.drop_last()[i] == x;
            assert(s[i] == x);
        }
        if !s.drop_last().contains(s.last()) {
            assert(p.push(s.last())[p.len() as int] == s.last());
            if x == s.last() {
                assert(p.push(s.last()).contains(x));
            }
            if p.contains(x) {
                let j = choose|j: int| 0 <= j < p.len() && p[j] == x;
                assert(p.push(s.last())[j] == x);
            }
            if p.push(s.last()).contains(x) && x != s.last() {
                let j = choose|j: int| 0 <= j < p.len() + 1 && p.push(s.last())[j] == x;
                assert(p[j] == x);
            }
        }
    }
}

/// Counts of the distinct tokens of `s`, in order of first occurrence.
pub open spec fn counted(s: Seq<Seq<char>>) -> Seq<(Seq<char>, nat)> {
    distinct_in_order(s).map_values(|t: Seq<char>| (t, occurrences(s, t)))
}

proof fn lemma_counted_new(pre: Seq<Seq<char>>, tok: Seq<char>)
    requires
        !pre.contains(tok),
    ensures
        counted(pre.push(tok)) == counted(pre).push((tok, 1nat)),
{
    let post = pre.push(tok);
    assert(post.drop_last() =~= pre);
    lemma_occurrences_positive(pre, tok);
    assert(distinct_in_order(post) == distinct_in_order(pre).push(tok));
    assert forall|k: int| 0 <= k < distinct_in_order(pre).len() implies occurrences(post, #[trigger] distinct_in_order(pre)[k]) == occurrences(pre, distinct_in_order(pre)[k]) by {
        let t = distinct_in_order(pre)[k];
        lemma_occurrences_push(pre, tok, t);
        lemma_distinct_contains(pre, t);
        assert(distinct_in_order(pre).contains(t));
    }
    lemma_occurrences_push(pre, tok, tok);
    assert(counted(post) =~= counted(pre).push((tok, 1nat)));
}

proof fn lemma_counted_existing(pre: Seq<Seq<char>>, tok: Seq<char>, j: int)
    requires
        0 <= j < distinct_in_order(pre).len(),
        distinct_in_order(pre)[j] == tok,
    ensures
        counted(pre.push(tok)) == counted(pre).update(j, (tok, occurrences(pre, tok) + 1)),
{
    let post = pre.push(tok);
    assert(post.drop_last() =~= pre);
    lemma_distinct_contains(pre, tok);
    assert(distinct_in_order(pre).contains(tok));
    assert(distinct_in_order(post) == distinct_in_order(pre));
    assert forall|k: int| 0 <= k < distinct_in_order(pre).len() implies occurrences(post, #[trigger] distinct_in_order(pre)[k]) == occurrences(pre, distinct_in_order(pre)[k]) + if k == j { 1nat } else { 0nat } by {
        let t = distinct_in_order(pre)[k];
        lemma_occurrences_push(pre, tok, t);
        if k != j {
            assert(t != tok);
        }
    }
    assert(counted(post) =~= counted(pre).update(j, (tok, occurrences(pre, tok) + 1)));
}

/// Position of `tok` among the words of `bag`, if any.
fn find_word(bag: &Vec<(String, usize)>, tok: &str) -> (r: Option<usize>)
    ensures
        match r {
            Some(j) => j < bag@.len() && bag_view(bag@)[j as int].0 == tok@,
            None => forall|k: int| 0 <= k < bag@.len() ==> bag_view(bag@)[k].0 != tok@,
        },
{
    let mut j: usize = 0;
    while j < bag.len()
        invariant
            j <= bag@.len(),
            forall|k: int| 0 <= k < j ==> bag_view(bag@)[k].0 != tok@,
        decreases bag.len() - j,
    {
        if str_equal(bag[j].0.as_str(), tok) {
            return Some(j);
        }
        j += 1;
    }
    None
}

/// Collects each kept token with its count, in order of first occurrence, then caps the counts.
fn bag_of_words(tokens: &Vec<String>, cap: usize) -> (bag: Vec<(String, usize)>)
    ensures
        bag_view(bag@) == bag_of(strings_view(tokens@), cap as nat),
{
    let ghost ts = strings_view(tokens@);
    let mut bag: Vec<(String, usize)> = Vec::new();
    let mut i: usize = 0;
    assert(ts.subrange(0, 0) =~= seq![]);
    assert(bag_view(bag@) =~= seq![]);
    assert(counted(ts.subrange(0, 0)) =~= seq![]);
    while i < tokens.len()
        invariant
            i <= tokens@.len(),
            ts == strings_view(tokens@),
            bag_view(bag@) == counted(ts.subrange(0, i as int)),
        decreases tokens.len() - i,
    {
        let ghost pre = ts.subrange(0, i as int);
        let ghost post = ts.subrange(0, i + 1);
        let tok = tokens[i].as_str();
        assert(post =~= pre.push(tok@));
        let ghost old_bag = bag_view(bag@);
        match find_word(&bag, tok) {
            Some(j) => {
                assert(old_bag.len() == bag@.len());
                assert(counted(pre).len() == distinct_in_order(pre).len());
                assert(old_bag[j as int] == counted(pre)[j as int]);
                assert(counted(pre)[j as int] == (distinct_in_order(pre)[j as int], occurrences(pre, distinct_in_order(pre)[j as int])));
                assert(distinct_in_order(pre)[j as int] == tok@);
                proof {
                    lemma_counted_existing(pre, tok@, j as int);
                    lemma_occurrences_bound(pre, tok@);
                }
                let w = bag[j].0.clone();
                let c = bag[j].1;
                assert(c == occurrences(pre, tok@));
                bag.set(j, (w, c + 1));
                assert(bag_view(bag@) =~= old_bag.update(j as int, (tok@, occurrences(pre, tok@) + 1)));
                assert(bag_view(bag@) =~= counted(post));
            },
            None => {
                assert(!pre.contains(tok@)) by {
                    lemma_distinct_contains(pre, tok@);
                    if distinct_in_order(pre).contains(tok@) {
                        let k = choose|k: int| 0 <= k < distinct_in_order(pre).len() && distinct_in_order(pre)[k] == tok@;
                        assert(old_bag.len() == bag@.len());
                        assert(counted(pre).len() == distinct_in_order(pre).len());
                        assert(old_bag[k] == counted(pre)[k]);
                        assert(counted(pre)[k] == (distinct_in_order(pre)[k], occurrences(pre, distinct_in_order(pre)[k])));
                        assert(bag_view(bag@)[k].0 == tok@);
                    }
                }
                proof {
                    lemma_counted_new(pre, tok@);
                }
                bag.push((tokens[i].clone(), 1));
                assert(bag_view(bag@) =~= counted(post));
            },
        }
        i += 1;
    }
    assert(ts.subrange(0, ts.len() as int) =~= ts);
    let ghost full = counted(ts);
    if cap > 0 {
        let n = bag.len();
        let mut k: usize = 0;
        while k < n
            invariant
                n == bag@.len(),
                full.len() == n,
                full == counted(ts),
                k <= n,
                cap > 0,
                forall|m: int| 0 <= m < k ==> #[trigger] bag_view(bag@)[m] == (full[m].0, capped(full[m].1, cap as nat)),
                forall|m: int| k <= m < n ==> #[trigger] bag_view(bag@)[m] == full[m],
            decreases n - k,
        {
            assert(bag_view(bag@)[k as int] == full[k as int]);
            let ghost bv0 = bag_view(bag@);
            if bag[k].1 > cap {
                let w = bag[k].0.clone();
                bag.set(k, (w, cap));
                assert(bag_view(bag@) =~= bv0.update(k as int, (full[k as int].0, cap as nat)));
            }
            assert(bag_view(bag@)[k as int] == (full[k as int].0, capped(full[k as int].1, cap as nat)));
            k += 1;
        }
        assert(bag_view(bag@) =~= bag_of(ts, cap as nat));
    } else {
        assert(bag_view(bag@) =~= bag_of(ts, cap as nat));
    }
    bag
}

proof fn lemma_occurrences_bound(s: Seq<Seq<char>>, x: Seq<char>)
    ensures
        occurrences(s, x) <= s.len(),
    decreases s.len(),
{
    if s.len() > 0 {
        lemma_occurrences_bound(s.drop_last(), x);
    }
}

/// Kept tokens of a list of morphemes, and the node they make for a sentence:
/// none when no token is kept.
pub open spec fn node_of(position: usize, text: Seq<char>, ms: Seq<MorphemeView>, cap: nat) -> Option<NodeView> {
    let toks = kept_tokens(ms);
    if toks.len() == 0 {
        None
    } else {
        Some(NodeView { position, text, tokens: toks, bag_of_words: bag_of(toks, cap) })
    }
}

/// Builds the node of one sentence from its morphemes.
pub fn node_from_morphemes(
    position: usize,
    text: String,
    morphemes: &Vec<TokenizedMorpheme>,
    options: &SentencePreprocessorOptions,
) -> (r: Option<SentenceNode>)
    ensures
        match r {
            Some(n) => node_of(position, text@, morpheme_views(morphemes@), options.max_token_frequency as nat) == Some(n@),
            None => node_of(position, text@, morpheme_views(morphemes@), options.max_token_frequency as nat) is None,
        },
{
    let ghost ms = morpheme_views(morphemes@);
    let mut tokens: Vec<String> = Vec::new();
    let mut i: usize = 0;
    assert(ms.subrange(0, 0) =~= seq![]);
    assert(strings_view(tokens@) =~= seq![]);
    while i < morphemes.len()
        invariant
            i <= morphemes@.len(),
            ms == morpheme_views(morphemes@),
            strings_view(tokens@) == kept_tokens(ms.subrange(0, i as int)),
        decreases morphemes.len() - i,
    {
        assert(ms.subrange(0, i + 1).drop_last() =~= ms.subrange(0, i as int));
        assert(ms.subrange(0, i + 1).last() == morphemes@[i as int]@);
        match normalize_token(&morphemes[i]) {
            Some(token) => {
                if !is_stopword_exec(token.as_str()) {
                    let ghost before = strings_view(tokens@);
                    tokens.push(token);
                    assert(strings_view(tokens@) =~= before.push(token@));
                }
            },
            None => {},
        }
        i += 1;
    }
    assert(ms.subrange(0, ms.len() as int) =~= ms);
    if tokens.len() == 0 {
        return None;
    }
    let bag = bag_of_words(&tokens, options.max_token_frequency);
    Some(SentenceNode::new(position, text, tokens, bag))
}

/// Candidate sentences: every sentence of at least `min` characters after
/// trimming, with its index among all sentences.
pub open spec fn candidates_of(sents: Seq<Seq<char>>, min: nat) -> Seq<(usize, Seq<char>)>
    decreases sents.len(),
{
    if sents.len() == 0 {
        seq![]
    } else {
        let prev = candidates_of(sents.drop_last(), min);
        let t = trim(sents.last());
        if t.len() < min { prev } else { prev.push(((sents.len() - 1) as usize, t)) }
    }
}

/// View of a list of candidates.
pub open spec fn candidates_view(v: Seq<(usize, String)>) -> Seq<(usize, Seq<char>)> {
    v.map_values(|c: (usize, String)| (c.0, c.1@))
}

/// The sentences of `text` long enough to rank, with their positions.
pub fn sentence_candidates(text: &str, options: &SentencePreprocessorOptions) -> (r: Vec<(usize, String)>)
    requires
        segmentable(text@),
    ensures
        candidates_view(r@) == candidates_of(sentences_of(text@), options.min_characters as nat),
{
    let sentences = split_sentences(text);
    let ghost sents = strings_view(sentences@);
    let mut out: Vec<(usize, String)> = Vec::new();
    let mut i: usize = 0;
    assert(sents.subrange(0, 0) =~= seq![]);
    assert(candidates_view(out@) =~= seq![]);
    while i < sentences.len()
        invariant
            i <= sentences@.len(),
            sents == strings_view(sentences@),
            candidates_view(out@) == candidates_of(sents.subrange(0, i as int), options.min_characters as nat),
        decreases sentences.len() - i,
    {
        assert(sents.subrange(0, i + 1).drop_last() =~= sents.subrange(0, i as int));
        assert(sents.subrange(0, i + 1).last() == sentences@[i as int]@);
        let trimmed = trim_string(sentences[i].as_str());
        let n = chars_of(trimmed.as_str()).len();
        if n >= options.min_characters {
            let ghost before = candidates_view(out@);
            out.push((i, trimmed));
            assert(candidates_view(out@) =~= before.push((i, trim(sents[i as int]))));
        }
        i += 1;
    }
    assert(sents.subrange(0, sents.len() as int) =~= sents);
    out
}

/// The nodes made from candidates given the morphemes found for each.
pub open spec fn assemble(cands: Seq<(usize, Seq<char>)>, outs: Seq<Seq<MorphemeView>>, cap: nat) -> Seq<NodeView>
    decreases cands.len(),
{
    if cands.len() == 0 || outs.len() != cands.len() {
        seq![]
    } else {
        let prev = assemble(cands.drop_last(), outs.drop_last(), cap);
        match node_of(cands.last().0, cands.last().1, outs.last(), cap) {
            Some(n) => prev.push(n),
            None => prev,
        }
    }
}

/// Views of a list of nodes.
pub open spec fn node_views(v: Seq<SentenceNode>) -> Seq<NodeView> {
    v.map_values(|n: SentenceNode| n@)
}

/// `tok` may answer `r` when asked to analyse `text`.
pub open spec fn may_answer<T: SentenceTokenizer>(tok: &T, text: Seq<char>, r: Result<Vec<TokenizedMorpheme>, String>) -> bool {
    exists|s: &str| s@ == text && #[trigger] call_ensures(T::tokenize, (tok, s), r)
}

/// `tok` may answer with morphemes when asked to analyse `text`.
pub open spec fn may_succeed<T: SentenceTokenizer>(tok: &T, text: Seq<char>) -> bool {
    exists|ms: Vec<TokenizedMorpheme>| #[trigger] may_answer(tok, text, Ok(ms))
}

/// The morphemes of each answer, by their views.
pub open spec fn answer_views(answers: Seq<Vec<TokenizedMorpheme>>) -> Seq<Seq<MorphemeView>> {
    answers.map_values(|ms: Vec<TokenizedMorpheme>| morpheme_views(ms@))
}

/// Prepares the sentences of `text` for ranking. The candidates' texts go to
/// `tokenizer` one by one, in order; the nodes are those the morphemes it
/// returned for each candidate make, and its first error ends the
/// preparation and is returned. Text without candidates is never analysed
/// and yields no nodes.
pub fn build_sentence_nodes<T: SentenceTokenizer>(
    tokenizer: &T,
    text: &str,
    options: &SentencePreprocessorOptions,
) -> (r: Result<Vec<SentenceNode>, String>)
    requires
        segmentable(text@),
    ensures
        candidates_of(sentences_of(text@), options.min_characters as nat).len() == 0 ==> r is Ok && r->Ok_0@.len() == 0,
        r is Ok ==> exists|answers: Seq<Vec<TokenizedMorpheme>>|
            answers.len() == candidates_of(sentences_of(text@), options.min_characters as nat).len()
            && (forall|k: int| 0 <= k < answers.len() ==> may_answer(tokenizer,
                candidates_of(sentences_of(text@), options.min_characters as nat)[k].1, Ok(#[trigger] answers[k])))
            && node_views(r->Ok_0@) == assemble(
                candidates_of(sentences_of(text@), options.min_characters as nat),
                #[trigger] answer_views(answers),
                options.max_token_frequency as nat,
            ),
        r is Err ==> exists|k: int| 0 <= k < candidates_of(sentences_of(text@), options.min_characters as nat).len()
            && #[trigger] may_answer(tokenizer, candidates_of(sentences_of(text@), options.min_characters as nat)[k].1, Err(r->Err_0))
            && forall|j: int| 0 <= j < k ==> #[trigger] may_succeed(tokenizer,
                candidates_of(sentences_of(text@), options.min_characters as nat)[j].1),
{
    let cands = sentence_candidates(text, options);
    let ghost cv = candidates_view(cands@);
    let ghost cap = options.max_token_frequency as nat;
    let ghost mut answers: Seq<Vec<TokenizedMorpheme>> = seq![];
    let mut nodes: Vec<SentenceNode> = Vec::new();
    let mut k: usize = 0;
    assert(node_views(nodes@) =~= seq![]);
    assert(cv.subrange(0, 0) =~= seq![]);
    assert(answer_views(answers) =~= Seq::<Seq<MorphemeView>>::empty());
    while k < cands.len()
        invariant
            k <= cands@.len(),
            cv == candidates_view(cands@),
            cv == candidates_of(sentences_of(text@), options.min_characters as nat),
            cap == options.max_token_frequency as nat,
            answers.len() == k,
            forall|j: int| 0 <= j < k ==> may_answer(tokenizer, cv[j].1, Ok(#[trigger] answers[j])),
            node_views(nodes@) == assemble(cv.subrange(0, k as int), answer_views(answers), cap),
        decreases cands.len() - k,
    {
        let s = cands[k].1.as_str();
        assert(s@ == cv[k as int].1);
        let answer = tokenizer.tokenize(s);
        assert(may_answer(tokenizer, cv[k as int].1, answer));
        let morphemes = match answer {
            Ok(ms) => ms,
            Err(e) => {
                assert forall|j: int| 0 <= j < k implies #[trigger] may_succeed(tokenizer, cv[j].1) by {
                    assert(may_answer(tokenizer, cv[j].1, Ok(answers[j])));
                }
                let ghost cs = candidates_of(sentences_of(text@), options.min_characters as nat);
                assert(cs == cv);
                assert(exists|k2: int| 0 <= k2 < cs.len() && #[trigger] may_answer(tokenizer, cs[k2].1, Err(e))
                    && forall|j: int| 0 <= j < k2 ==> #[trigger] may_succeed(tokenizer, cs[j].1));
                let failed: Result<Vec<SentenceNode>, String> = Err(e);
                assert(failed->Err_0 == e);
                return failed;
            },
        };
        let ghost new_answers = answers.push(morphemes);
        assert(cv.subrange(0, k + 1).drop_last() =~= cv.subrange(0, k as int));
        assert(answer_views(new_answers) =~= answer_views(answers).push(morpheme_views(morphemes@)));
        assert(answer_views(new_answers).drop_last() =~= answer_views(answers));
        assert(cv.subrange(0, k + 1).last() == (cands@[k as int].0, cands@[k as int].1@));
        let ghost before = node_views(nodes@);
        match node_from_morphemes(cands[k].0, cands[k].1.clone(), &morphemes, options) {
            Some(n) => {
                nodes.push(n);
                assert(node_views(nodes@) =~= before.push(n@));
            },
            None => {},
        }
        proof {
            answers = new_answers;
        }
        k += 1;
    }
    assert(cv.subrange(0, cv.len() as int) =~= cv);
    assert(node_views(nodes@).len() == nodes@.len());
    assert(node_views(nodes@) == assemble(cv, answer_views(answers), cap));
    Ok(nodes)
}

/// What every prepared node satisfies: its text has at least `min`
/// characters, it has tokens and none is a stop word, and every count in its
/// bag is at least one and, when the cap is positive, at most the cap.
pub open spec fn node_ok(n: NodeView, min: nat, cap: nat) -> bool {
    &&& n.text.len() >= min
    &&& n.tokens.len() > 0
    &&& forall|j: int| 0 <= j < n.tokens.len() ==> !is_stopword(#[trigger] n.tokens[j])
    &&& forall|j: int| 0 <= j < n.bag_of_words.len() ==> 1 <= (#[trigger] n.bag_of_words[j]).1
        && (cap > 0 ==> n.bag_of_words[j].1 <= cap)
}

/// Candidates are at least `min` characters long.
proof fn lemma_candidates_long_enough(sents: Seq<Seq<char>>, min: nat)
    ensures
        forall|k: int| 0 <= k < candidates_of(sents, min).len() ==> (#[trigger] candidates_of(sents, min)[k]).1.len() >= min,
    decreases sents.len(),
{
    if sents.len() > 0 {
        lemma_candidates_long_enough(sents.drop_last(), min);
        let prev = candidates_of(sents.drop_last(), min);
        assert forall|k: int| 0 <= k < candidates_of(sents, min).len() implies (#[trigger] candidates_of(sents, min)[k]).1.len() >= min by {
            if k < prev.len() {
                assert(candidates_of(sents, min)[k] == prev[k]);
            }
        }
    }
}

/// Kept tokens are never stop words.
proof fn lemma_kept_tokens_not_stopwords(ms: Seq<MorphemeView>)
    ensures
        forall|j: int| 0 <= j < kept_tokens(ms).len() ==> !is_stopword(#[trigger] kept_tokens(ms)[j]),
    decreases ms.len(),
{
    if ms.len() > 0 {
        lemma_kept_tokens_not_stopwords(ms.drop_last());
        let prev = kept_tokens(ms.drop_last());
        assert forall|j: int| 0 <= j < kept_tokens(ms).len() implies !is_stopword(#[trigger] kept_tokens(ms)[j]) by {
            if j < prev.len() {
                assert(kept_tokens(ms)[j] == prev[j]);
            }
        }
    }
}

/// A node made from a candidate of at least `min` characters is well formed.
proof fn lemma_node_of_ok(position: usize, text: Seq<char>, ms: Seq<MorphemeView>, cap: nat, min: nat)
    requires
        text.len() >= min,
        node_of(position, text, ms, cap) is Some,
    ensures
        node_ok(node_of(position, text, ms, cap)->0, min, cap),
{
    let toks = kept_tokens(ms);
    lemma_kept_tokens_not_stopwords(ms);
    let n = node_of(position, text, ms, cap)->0;
    assert forall|j: int| 0 <= j < n.bag_of_words.len() implies 1 <= (#[trigger] n.bag_of_words[j]).1
        && (cap > 0 ==> n.bag_of_words[j].1 <= cap) by {
        let t = distinct_in_order(toks)[j];
        lemma_distinct_contains(toks, t);
        assert(distinct_in_order(toks).contains(t));
        lemma_occurrences_positive(toks, t);
    }
}

/// Every node the preparation makes from its candidates is well formed.
proof fn lemma_assemble_ok(cands: Seq<(usize, Seq<char>)>, outs: Seq<Seq<MorphemeView>>, cap: nat, min: nat)
    requires
        forall|k: int| 0 <= k < cands.len() ==> (#[trigger] cands[k]).1.len() >= min,
    ensures
        forall|i: int| 0 <= i < assemble(cands, outs, cap).len() ==> node_ok(#[trigger] assemble(cands, outs, cap)[i], min, cap),
    decreases cands.len(),
{
    if cands.len() > 0 && outs.len() == cands.len() {
        assert forall|k: int| 0 <= k < cands.drop_last().len() implies (#[trigger] cands.drop_last()[k]).1.len() >= min by {
            assert(cands.drop_last()[k] == cands[k]);
        }
        lemma_assemble_ok(cands.drop_last(), outs.drop_last(), cap, min);
        let prev = assemble(cands.drop_last(), outs.drop_last(), cap);
        let last = cands.last();
        assert(last == cands[cands.len() - 1]);
        if node_of(last.0, last.1, outs.last(), cap) is Some {
            lemma_node_of_ok(last.0, last.1, outs.last(), cap, min);
        }
        assert forall|i: int| 0 <= i < assemble(cands, outs, cap).len() implies node_ok(#[trigger] assemble(cands, outs, cap)[i], min, cap) by {
            if i < prev.len() {
                assert(assemble(cands, outs, cap)[i] == prev[i]);
            }
        }
    }
}

/// Whatever the analyser returns, every node `build_sentence_nodes` makes has
/// a text of at least `min_characters` characters, at least one token, no
/// stop word among its tokens, and bag counts from one up to the cap.
pub proof fn lemma_nodes_well_formed(sents: Seq<Seq<char>>, min: nat, outs: Seq<Seq<MorphemeView>>, cap: nat)
    ensures
        forall|i: int| 0 <= i < assemble(candidates_of(sents, min), outs, cap).len()
            ==> node_ok(#[trigger] assemble(candidates_of(sents, min), outs, cap)[i], min, cap),
{
    lemma_candidates_long_enough(sents, min);
    lemma_assemble_ok(candidates_of(sents, min), outs, cap, min);
}

} // verus!
