//! Morphemes and the normalisation that turns them into ranking tokens.

use vstd::prelude::*;
use crate::text::{all_ascii, ascii_lower, chars_of, is_ascii_alpha, is_ascii_alpha_exec, is_ascii_char, str_equal, string_from_range, trim};

verus! {

broadcast use vstd::string::group_string_axioms;

/// Model of a morpheme.
pub struct MorphemeView {
    pub surface: Seq<char>,
    pub dictionary_form: Seq<char>,
    pub normalized_form: Seq<char>,
    pub reading_form: Seq<char>,
    pub part_of_speech: Seq<Seq<char>>,
    pub dictionary_id: i32,
    pub is_oov: bool,
    pub begin: usize,
    pub end: usize,
    pub begin_char: usize,
    pub end_char: usize,
    pub synonym_group_ids: Seq<u32>,
    pub total_cost: i32,
}

/// One morpheme of an analysed text.
#[derive(Clone, Debug, PartialEq)]
pub struct TokenizedMorpheme {
    surface: String,
    dictionary_form: String,
    normalized_form: String,
    reading_form: String,
    part_of_speech: Vec<String>,
    dictionary_id: i32,
    is_oov: bool,
    begin: usize,
    end: usize,
    begin_char: usize,
    end_char: usize,
    synonym_group_ids: Vec<u32>,
    total_cost: i32,
}

/// Views of a list of strings.
pub open spec fn texts(v: Seq<String>) -> Seq<Seq<char>> {
    v.map_values(|s: String| s@)
}

impl View for TokenizedMorpheme {
    type V = MorphemeView;

    closed spec fn view(&self) -> MorphemeView {
        MorphemeView {
            surface: self.surface@,
            dictionary_form: self.dictionary_form@,
            normalized_form: self.normalized_form@,
            reading_form: self.reading_form@,
            part_of_speech: texts(self.part_of_speech@),
            dictionary_id: self.dictionary_id,
            is_oov: self.is_oov,
            begin: self.begin,
            end: self.end,
            begin_char: self.begin_char,
            end_char: self.end_char,
            synonym_group_ids: self.synonym_group_ids@,
            total_cost: self.total_cost,
        }
    }
}

impl TokenizedMorpheme {
    /// Builds a morpheme from its parts.
    pub fn new(
        surface: String,
        dictionary_form: String,
        normalized_form: String,
        reading_form: String,
        part_of_speech: Vec<String>,
        dictionary_id: i32,
        is_oov: bool,
        begin: usize,
        end: usize,
        begin_char: usize,
        end_char: usize,
        synonym_group_ids: Vec<u32>,
        total_cost: i32,
    ) -> (m: Self)
        ensures
            m@ == (MorphemeView {
                surface: surface@,
                dictionary_form: dictionary_form@,
                normalized_form: normalized_form@,
                reading_form: reading_form@,
                part_of_speech: texts(part_of_speech@),
                dictionary_id,
                is_oov,
                begin,
                end,
                begin_char,
                end_char,
                synonym_group_ids: synonym_group_ids@,
                total_cost,
            }),
    {
        TokenizedMorpheme {
            surface,
            dictionary_form,
            normalized_form,
            reading_form,
            part_of_speech,
            dictionary_id,
            is_oov,
            begin,
            end,
            begin_char,
            end_char,
            synonym_group_ids,
            total_cost,
        }
    }

    /// The text as it appears in the input.
    pub fn surface(&self) -> (r: &str)
        ensures r@ == self@.surface,
    {
        self.surface.as_str()
    }

    /// The dictionary (lemma) form.
    pub fn dictionary_form(&self) -> (r: &str)
        ensures r@ == self@.dictionary_form,
    {
        self.dictionary_form.as_str()
    }

    /// The normalized form.
    pub fn normalized_form(&self) -> (r: &str)
        ensures r@ == self@.normalized_form,
    {
        self.normalized_form.as_str()
    }

    /// The reading form.
    pub fn reading_form(&self) -> (r: &str)
        ensures r@ == self@.reading_form,
    {
        self.reading_form.as_str()
    }

    /// The part-of-speech tags, most general first.
    pub fn part_of_speech(&self) -> (r: &[String])
        ensures texts(r@) == self@.part_of_speech,
    {
        self.part_of_speech.as_slice()
    }

    /// The identifier of the dictionary the morpheme comes from.
    pub fn dictionary_id(&self) -> (r: i32)
        ensures r == self@.dictionary_id,
    {
        self.dictionary_id
    }

    /// Whether the morpheme is out of vocabulary.
    pub fn is_oov(&self) -> (r: bool)
        ensures r == self@.is_oov,
    {
        self.is_oov
    }

    /// Byte offset where the morpheme starts.
    pub fn begin(&self) -> (r: usize)
        ensures r == self@.begin,
    {
        self.begin
    }

    /// Byte offset where the morpheme ends.
    pub fn end(&self) -> (r: usize)
        ensures r == self@.end,
    {
        self.end
    }

    /// Character offset where the morpheme starts.
    pub fn begin_c(&self) -> (r: usize)
        ensures r == self@.begin_char,
    {
        self.begin_char
    }

    /// Character offset where the morpheme ends.
    pub fn end_c(&self) -> (r: usize)
        ensures r == self@.end_char,
    {
        self.end_char
    }

    /// Synonym group identifiers.
    pub fn synonym_group_ids(&self) -> (r: &[u32])
        ensures r@ == self@.synonym_group_ids,
    {
        self.synonym_group_ids.as_slice()
    }

    /// Total path cost up to this morpheme.
    pub fn total_cost(&self) -> (r: i32)
        ensures r == self@.total_cost,
    {
        self.total_cost
    }
}

/// Words too common to carry meaning.
pub open spec fn is_stopword(t: Seq<char>) -> bool {
    ||| t == "する"@
    ||| t == "なる"@
    ||| t == "ある"@
    ||| t == "いる"@
    ||| t == "こと"@
    ||| t == "もの"@
    ||| t == "これ"@
    ||| t == "それ"@
    ||| t == "あれ"@
    ||| t == "ため"@
    ||| t == "よう"@
    ||| t == "そして"@
    ||| t == "しかし"@
    ||| t == "the"@
    ||| t == "a"@
    ||| t == "an"@
    ||| t == "and"@
    ||| t == "or"@
    ||| t == "of"@
    ||| t == "to"@
    ||| t == "for"@
    ||| t == "with"@
    ||| t == "this"@
    ||| t == "that"@
    ||| t == "from"@
    ||| t == "have"@
    ||| t == "has"@
    ||| t == "was"@
    ||| t == "were"@
    ||| t == "been"@
    ||| t == "is"@
    ||| t == "are"@
    ||| t == "it"@
}

/// Whether `t` is a stop word.
pub fn is_stopword_exec(t: &str) -> (b: bool)
    ensures
        b == is_stopword(t@),
{
    str_equal(t, "する") || str_equal(t, "なる") || str_equal(t, "ある") || str_equal(t, "いる") || str_equal(t, "こと") || str_equal(t, "もの") || str_equal(t, "これ") || str_equal(t, "それ") || str_equal(t, "あれ") || str_equal(t, "ため") || str_equal(t, "よう") || str_equal(t, "そして") || str_equal(t, "しかし") || str_equal(t, "the") || str_equal(t, "a") || str_equal(t, "an") || str_equal(t, "and") || str_equal(t, "or") || str_equal(t, "of") || str_equal(t, "to") || str_equal(t, "for") || str_equal(t, "with") || str_equal(t, "this") || str_equal(t, "that") || str_equal(t, "from") || str_equal(t, "have") || str_equal(t, "has") || str_equal(t, "was") || str_equal(t, "were") || str_equal(t, "been") || str_equal(t, "is") || str_equal(t, "are") || str_equal(t, "it")
}

/// Parts of speech that carry content.
pub open spec fn is_content_pos(p: Seq<char>) -> bool {
    p == "名詞"@ || p == "動詞"@ || p == "形容詞"@ || p == "副詞"@ || p == "カスタム"@ || p == "固有名詞"@
}

/// Some character of `s` is an ASCII letter.
pub open spec fn has_ascii_alpha(s: Seq<char>) -> bool {
    exists|i: int| 0 <= i < s.len() && is_ascii_alpha(#[trigger] s[i])
}

/// Content words: a content part of speech, or a surface with an ASCII letter.
pub open spec fn content_word(m: MorphemeView) -> bool {
    m.part_of_speech.len() > 0 && (is_content_pos(m.part_of_speech[0]) || has_ascii_alpha(m.surface))
}

/// Whether the morpheme is a content word.
pub fn is_content_word(m: &TokenizedMorpheme) -> (b: bool)
    ensures
        b == content_word(m@),
{
    let pos = m.part_of_speech();
    if pos.len() == 0 {
        return false;
    }
    let p0 = pos[0].as_str();
    assert(p0@ == m@.part_of_speech[0]);
    if str_equal(p0, "名詞") || str_equal(p0, "動詞") || str_equal(p0, "形容詞") || str_equal(p0, "副詞")
        || str_equal(p0, "カスタム") || str_equal(p0, "固有名詞") {
        assert(is_content_pos(p0@));
        assert(m@.part_of_speech.len() > 0);
        return true;
    }
    let cs = chars_of(m.surface());
    let mut i: usize = 0;
    while i < cs.len()
        invariant
            i <= cs@.len(),
            cs@ == m@.surface,
            m@.part_of_speech.len() > 0,
            !is_content_pos(m@.part_of_speech[0]),
            forall|k: int| 0 <= k < i ==> !is_ascii_alpha(#[trigger] cs@[k]),
        decreases cs.len() - i,
    {
        if is_ascii_alpha_exec(cs[i]) {
            assert(is_ascii_alpha(m@.surface[i as int]));
            return true;
        }
        i += 1;
    }
    false
}

/// A form worth using: not blank and not the placeholder `*`.
pub open spec fn usable_form(t: Seq<char>) -> bool {
    t.len() > 0 && t != "*"@
}

/// The normalized form if usable, else the dictionary form if usable, else the
/// surface if not blank; each trimmed.
pub open spec fn preferred(m: MorphemeView) -> Option<Seq<char>> {
    if usable_form(trim(m.normalized_form)) {
        Some(trim(m.normalized_form))
    } else if usable_form(trim(m.dictionary_form)) {
        Some(trim(m.dictionary_form))
    } else if trim(m.surface).len() > 0 {
        Some(trim(m.surface))
    } else {
        None
    }
}

/// Picks the form a token is built from.
pub fn preferred_form(m: &TokenizedMorpheme) -> (r: Option<String>)
    ensures
        match r {
            Some(s) => preferred(m@) == Some(s@),
            None => preferred(m@) is None,
        },
{
    let n = crate::text::trim_string(m.normalized_form());
    if !n.as_str().is_empty() && !str_equal(n.as_str(), "*") {
        return Some(n);
    }
    let d = crate::text::trim_string(m.dictionary_form());
    if !d.as_str().is_empty() && !str_equal(d.as_str(), "*") {
        return Some(d);
    }
    let s = crate::text::trim_string(m.surface());
    if s.as_str().is_empty() {
        None
    } else {
        Some(s)
    }
}

/// Quotes, brackets and punctuation stripped from token ends.
pub open spec fn is_token_punct(c: char) -> bool {
    c == '\'' || c == '"' || c == '`' || c == '“' || c == '”' || c == '、' || c == '。' || c == ',' || c == '.' || c == ':' || c == ';' || c == '(' || c == ')' || c == '[' || c == ']' || c == '{' || c == '}' || c == '!' || c == '?'
}

fn is_token_punct_exec(c: char) -> (b: bool)
    ensures
        b == is_token_punct(c),
{
    c == '\'' || c == '"' || c == '`' || c == '“' || c == '”' || c == '、' || c == '。' || c == ',' || c == '.' || c == ':' || c == ';' || c == '(' || c == ')' || c == '[' || c == ']' || c == '{' || c == '}' || c == '!' || c == '?'
}

/// Strips token punctuation from the start.
pub open spec fn strip_punct_start(s: Seq<char>) -> Seq<char>
    decreases s.len(),
{
    if s.len() > 0 && is_token_punct(s[0]) { strip_punct_start(s.drop_first()) } else { s }
}

/// Strips token punctuation from the end.
pub open spec fn strip_punct_end(s: Seq<char>) -> Seq<char>
    decreases s.len(),
{
    if s.len() > 0 && is_token_punct(s.last()) { strip_punct_end(s.drop_last()) } else { s }
}

/// `trim_matches` with the token punctuation set.
pub open spec fn strip_punct(s: Seq<char>) -> Seq<char> {
    strip_punct_end(strip_punct_start(s))
}

/// Every character is ASCII.
pub open spec fn ascii_only(s: Seq<char>) -> bool {
    forall|i: int| 0 <= i < s.len() ==> is_ascii_char(#[trigger] s[i])
}

/// The token a morpheme contributes: content words only, from the preferred
/// form with surrounding punctuation removed, ASCII text lower-cased, and
/// single ASCII letters dropped.
pub open spec fn token_of(m: MorphemeView) -> Option<Seq<char>> {
    if !content_word(m) {
        None
    } else {
        match preferred(m) {
            None => None,
            Some(form) => {
                let stripped = strip_punct(form);
                let folded = if ascii_only(stripped) { ascii_lower(stripped) } else { stripped };
                if stripped.len() == 0 || (folded.len() == 1 && is_ascii_alpha(folded[0])) {
                    None
                } else {
                    Some(folded)
                }
            },
        }
    }
}

/// Turns a morpheme into a ranking token.
pub fn normalize_token(m: &TokenizedMorpheme) -> (r: Option<String>)
    ensures
        match r {
            Some(s) => token_of(m@) == Some(s@),
            None => token_of(m@) is None,
        },
{
    if !is_content_word(m) {
        return None;
    }
    let form = match preferred_form(m) {
        Some(f) => f,
        None => return None,
    };
    let cs = chars_of(form.as_str());
    let mut a: usize = 0;
    assert(cs@.subrange(0, cs@.len() as int) =~= cs@);
    while a < cs.len() && is_token_punct_exec(cs[a])
        invariant
            a <= cs@.len(),
            strip_punct_start(cs@) == strip_punct_start(cs@.subrange(a as int, cs@.len() as int)),
        decreases cs.len() - a,
    {
        assert(cs@.subrange(a as int, cs@.len() as int).drop_first() =~= cs@.subrange(a + 1, cs@.len() as int));
        a += 1;
    }
    let mut b: usize = cs.len();
    assert(strip_punct_start(cs@) == cs@.subrange(a as int, cs@.len() as int));
    while b > a && is_token_punct_exec(cs[b - 1])
        invariant
            a <= b <= cs@.len(),
            strip_punct(cs@) == strip_punct_end(cs@.subrange(a as int, b as int)),
        decreases b - a,
    {
        assert(cs@.subrange(a as int, b as int).drop_last() =~= cs@.subrange(a as int, b - 1));
        b -= 1;
    }
    assert(strip_punct(cs@) == cs@.subrange(a as int, b as int));
    if a == b {
        return None;
    }
    let mut stripped: Vec<char> = Vec::new();
    let mut i = a;
    while i < b
        invariant
            a <= i <= b <= cs@.len(),
            stripped@ == cs@.subrange(a as int, i as int),
        decreases b - i,
    {
        stripped.push(cs[i]);
        i += 1;
        assert(stripped@ =~= cs@.subrange(a as int, i as int));
    }
    let ascii = all_ascii(&stripped);
    let out = if ascii {
        crate::text::lower_range(&stripped, 0, stripped.len())
    } else {
        string_from_range(&stripped, 0, stripped.len())
    };
    assert(stripped@.subrange(0, stripped@.len() as int) =~= stripped@);
    let oc = chars_of(out.as_str());
    if oc.len() == 1 && is_ascii_alpha_exec(oc[0]) {
        return None;
    }
    Some(out)
}


/// A morpheme is a content word exactly when it has a part of speech and
/// either the first one is 名詞, 動詞, 形容詞, 副詞, カスタム or 固有名詞, or its
/// surface holds an ASCII letter.
pub proof fn lemma_content_words(m: MorphemeView)
    ensures
        content_word(m) <==> m.part_of_speech.len() > 0 && (
            m.part_of_speech[0] == "名詞"@ || m.part_of_speech[0] == "動詞"@ || m.part_of_speech[0] == "形容詞"@
                || m.part_of_speech[0] == "副詞"@ || m.part_of_speech[0] == "カスタム"@ || m.part_of_speech[0] == "固有名詞"@
                || exists|i: int| 0 <= i < m.surface.len() && (('a' <= #[trigger] m.surface[i] && m.surface[i] <= 'z') || ('A' <= m.surface[i] && m.surface[i] <= 'Z'))),
{
}

} // verus!
