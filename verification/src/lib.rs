//! Text-analysis core of the KazeNhanh engine: Markdown structure mapping,
//! sentence segmentation, token normalisation, diff aggregation and prompt
//! assembly, each stated against a mathematical model and proved.

use vstd::prelude::*;
use crate::error::KazeNhanhError;
use crate::text::{ascii_lower, lower_char, char_is_whitespace, chars_of, chars_equal, is_space, lower_range, trim, trim_bounds, string_from_range};

pub mod correlation;
pub mod engine;
pub mod error;
pub mod generation;
pub mod git;
pub mod grouping;
pub mod markdown;
pub mod metadata;
pub mod morpheme;
pub mod nodes;
pub mod order;
pub mod prompt;
pub mod rag;
pub mod repo;
pub mod sentences;
pub mod summary;
pub mod text;

pub use crate::morpheme::TokenizedMorpheme;
pub use crate::rag::{GitNativeRagContent, GitNativeRagReport};

verus! {

broadcast use vstd::string::group_string_axioms;

/// Static resources required to bootstrap the engine: the serialized model,
/// the morphological dictionary and its settings.
#[derive(Debug, Clone, Copy, PartialEq, Eq)]
pub struct EngineConfig {
    /// Serialized GGUF model bytes consumed by the inference backend.
    pub model_bytes: &'static [u8],
    /// Dictionary bytes used by the morphological analyser.
    pub dictionary_bytes: &'static [u8],
    /// Settings JSON bytes used to configure the analyser.
    pub settings_bytes: &'static [u8],
}

impl EngineConfig {
    /// Creates a new `EngineConfig` from statically-embedded resources.
    pub fn new(model_bytes: &'static [u8], dictionary_bytes: &'static [u8], settings_bytes: &'static [u8]) -> (c: Self)
        ensures
            c.model_bytes@ == model_bytes@,
            c.dictionary_bytes@ == dictionary_bytes@,
            c.settings_bytes@ == settings_bytes@,
    {
        EngineConfig { model_bytes, dictionary_bytes, settings_bytes }
    }
}

/// Options passed into the Git report pipeline.
#[derive(Debug, Clone)]
pub struct GitReportOptions<'a> {
    /// Path to the target Git repository.
    pub repo_path: &'a str,
    /// Number of days to look back when collecting commits.
    pub days_since: u32,
    /// Optional list of target file extensions to filter diffs.
    pub target_extensions: Option<Vec<&'a str>>,
    /// Optional custom prompt for downstream AI synthesis.
    pub custom_prompt: Option<&'a str>,
}

/// Views of a list of string slices.
pub open spec fn str_views(v: Seq<&str>) -> Seq<Seq<char>> {
    v.map_values(|s: &str| s@)
}

/// The normalized spelling of an extension: trimmed and ASCII lower-cased.
pub open spec fn normalized_extension(e: Seq<char>) -> Seq<char> {
    ascii_lower(trim(e))
}

/// Some character of `s` is whitespace.
pub open spec fn has_space(s: Seq<char>) -> bool {
    exists|i: int| 0 <= i < s.len() && is_space(#[trigger] s[i])
}

/// `s` holds a path separator.
pub open spec fn has_separator(s: Seq<char>) -> bool {
    s.contains('/') || s.contains('\\')
}

/// Message quoting an offending extension.
pub open spec fn quoted(prefix: Seq<char>, t: Seq<char>) -> Seq<char> {
    prefix + "`"@ + t + "`"@
}

/// The complaint about extension `e` given the extensions before it, if any.
pub open spec fn extension_complaint(before: Seq<Seq<char>>, e: Seq<char>) -> Option<Seq<char>> {
    complaint_given_seen(before.map_values(|b: Seq<char>| normalized_extension(b)), e)
}

/// The complaint about extension `e` given the normalized extensions before it.
pub open spec fn complaint_given_seen(seen: Seq<Seq<char>>, e: Seq<char>) -> Option<Seq<char>> {
    let t = trim(e);
    if t.len() == 0 {
        Some("target_extensions contains a blank value"@)
    } else if has_space(t) {
        Some(quoted("target_extensions contain whitespace characters: "@, t))
    } else if t[0] != '.' {
        Some(quoted("target_extensions must start with a dot: "@, t))
    } else if has_separator(t) {
        Some(quoted("target_extensions must not contain path separators: "@, t))
    } else if seen.contains(ascii_lower(t)) {
        Some(quoted("target_extensions contains duplicates: "@, t))
    } else {
        None
    }
}

/// The first complaint about a list of extensions, in order.
pub open spec fn extensions_complaint(exts: Seq<Seq<char>>) -> Option<Seq<char>>
    decreases exts.len(),
{
    if exts.len() == 0 {
        None
    } else {
        match extensions_complaint(exts.drop_last()) {
            Some(m) => Some(m),
            None => extension_complaint(exts.drop_last(), exts.last()),
        }
    }
}

/// Why options are invalid, or `None` when they are valid.
pub open spec fn options_complaint(o: GitReportOptions) -> Option<Seq<char>> {
    if trim(o.repo_path@).len() == 0 {
        Some("リポジトリパスが空です"@)
    } else if o.days_since == 0 {
        Some("days_since must be greater than 0"@)
    } else if o.target_extensions is Some && o.target_extensions->0@.len() == 0 {
        Some("target_extensions must not be empty"@)
    } else if o.target_extensions is Some && extensions_complaint(str_views(o.target_extensions->0@)) is Some {
        extensions_complaint(str_views(o.target_extensions->0@))
    } else if o.custom_prompt is Some && trim(o.custom_prompt->0@).len() == 0 {
        Some("custom_prompt must not be blank"@)
    } else {
        None
    }
}

/// The extensions a report looks at: the given ones normalized, or the
/// Markdown defaults when none or an empty list is given.
pub open spec fn effective_extension_list(o: GitReportOptions) -> Seq<Seq<char>> {
    match o.target_extensions {
        Some(v) if v@.len() > 0 => str_views(v@).map_values(|e: Seq<char>| normalized_extension(e)),
        _ => markdown_defaults(),
    }
}

/// The extensions of Markdown files.
pub open spec fn markdown_defaults() -> Seq<Seq<char>> {
    seq![".md"@, ".markdown"@]
}

/// Builds `prefix` followed by `t` in backquotes.
fn quoted_exec(prefix: &str, t: &str) -> (s: String)
    ensures
        s@ == quoted(prefix@, t@),
{
    let mut s = String::from_str(prefix);
    s.append("`");
    s.append(t);
    s.append("`");
    s
}

impl<'a> GitReportOptions<'a> {
    /// Validates the supplied options.
    pub fn validate(&self) -> (r: Result<(), KazeNhanhError>)
        ensures
            match options_complaint(*self) {
                None => r is Ok,
                Some(m) => r is Err && r->Err_0@ == crate::error::ErrorView::InvalidInput(m),
            },
    {
        if crate::text::is_blank(self.repo_path) {
            return Err(KazeNhanhError::InvalidInput(String::from_str("リポジトリパスが空です")));
        }
        if self.days_since == 0 {
            return Err(KazeNhanhError::InvalidInput(String::from_str("days_since must be greater than 0")));
        }
        match &self.target_extensions {
            Some(extensions) => {
                if extensions.len() == 0 {
                    return Err(KazeNhanhError::InvalidInput(String::from_str("target_extensions must not be empty")));
                }
                match first_extension_complaint(extensions) {
                    Some(m) => return Err(KazeNhanhError::InvalidInput(m)),
                    None => {},
                }
            },
            None => {},
        }
        match self.custom_prompt {
            Some(prompt) => {
                if crate::text::is_blank(prompt) {
                    return Err(KazeNhanhError::InvalidInput(String::from_str("custom_prompt must not be blank")));
                }
            },
            None => {},
        }
        Ok(())
    }

    /// Returns the list of extensions to evaluate, falling back to Markdown defaults.
    pub fn effective_extensions(&self) -> (r: Vec<String>)
        ensures
            r@.map_values(|s: String| s@) == effective_extension_list(*self),
    {
        match &self.target_extensions {
            Some(values) => {
                if values.len() > 0 {
                    let ghost vs = str_views(values@);
                    let mut out: Vec<String> = Vec::new();
                    let mut i: usize = 0;
                    while i < values.len()
                        invariant
                            i <= values@.len(),
                            vs == str_views(values@),
                            out@.map_values(|s: String| s@) == vs.subrange(0, i as int).map_values(|e: Seq<char>| normalized_extension(e)),
                        decreases values.len() - i,
                    {
                        let n = normalize_extension(values[i]);
                        let ghost before = out@.map_values(|s: String| s@);
                        out.push(n);
                        assert(out@.map_values(|s: String| s@) =~= before.push(n@));
                        i += 1;
                        assert(vs.subrange(0, i as int).map_values(|e: Seq<char>| normalized_extension(e)) =~= vs.subrange(0, i - 1).map_values(|e: Seq<char>| normalized_extension(e)).push(normalized_extension(vs[i - 1])));
                    }
                    assert(vs.subrange(0, vs.len() as int) =~= vs);
                    return out;
                }
            },
            None => {},
        }
        let mut out: Vec<String> = Vec::new();
        out.push(String::from_str(".md"));
        out.push(String::from_str(".markdown"));
        assert(out@.map_values(|s: String| s@) =~= seq![".md"@, ".markdown"@]);
        out
    }
}

/// The trimmed, lower-cased spelling of an extension.
pub fn normalize_extension(e: &str) -> (r: String)
    ensures
        r@ == normalized_extension(e@),
{
    let cs = chars_of(e);
    let (a, b) = trim_bounds(&cs);
    lower_range(&cs, a, b)
}

/// The first complaint about a list of extensions, in order.
fn first_extension_complaint(exts: &Vec<&str>) -> (r: Option<String>)
    ensures
        match r {
            Some(m) => extensions_complaint(str_views(exts@)) == Some(m@),
            None => extensions_complaint(str_views(exts@)) is None,
        },
{
    let ghost es = str_views(exts@);
    let mut seen: Vec<String> = Vec::new();
    let mut i: usize = 0;
    assert(es.subrange(0, 0) =~= seq![]);
    assert(seen@.map_values(|s: String| s@) =~= es.subrange(0, 0).map_values(|b: Seq<char>| normalized_extension(b)));
    while i < exts.len()
        invariant
            i <= exts@.len(),
            es == str_views(exts@),
            extensions_complaint(es.subrange(0, i as int)) is None,
            seen@.map_values(|s: String| s@) == es.subrange(0, i as int).map_values(|b: Seq<char>| normalized_extension(b)),
        decreases exts.len() - i,
    {
        let ghost pre = es.subrange(0, i as int);
        assert(es.subrange(0, i + 1).drop_last() =~= pre);
        assert(es.subrange(0, i + 1).last() == exts@[i as int]@);
        match extension_problem(&seen, exts[i]) {
            Some(m) => {
                proof { lemma_complaint_sticks(es, i as int + 1); }
                return Some(m);
            },
            None => {},
        }
        let n = normalize_extension(exts[i]);
        let ghost before = seen@.map_values(|s: String| s@);
        seen.push(n);
        assert(seen@.map_values(|s: String| s@) =~= before.push(n@));
        i += 1;
        assert(es.subrange(0, i as int).map_values(|b: Seq<char>| normalized_extension(b)) =~= pre.map_values(|b: Seq<char>| normalized_extension(b)).push(normalized_extension(es[i - 1])));
    }
    assert(es.subrange(0, es.len() as int) =~= es);
    None
}

proof fn lemma_complaint_sticks(es: Seq<Seq<char>>, k: int)
    requires
        0 <= k <= es.len(),
        extensions_complaint(es.subrange(0, k)) is Some,
    ensures
        extensions_complaint(es) == extensions_complaint(es.subrange(0, k)),
    decreases es.len(),
{
    if k < es.len() {
        assert(es.drop_last().subrange(0, k) =~= es.subrange(0, k));
        lemma_complaint_sticks(es.drop_last(), k);
    } else {
        assert(es.subrange(0, k) =~= es);
    }
}

/// The complaint about `e` given the normalized extensions seen before it.
fn extension_problem(seen: &Vec<String>, e: &str) -> (r: Option<String>)
    ensures
        match r {
            Some(m) => complaint_given_seen(seen@.map_values(|s: String| s@), e@) == Some(m@),
            None => complaint_given_seen(seen@.map_values(|s: String| s@), e@) is None,
        },
{
    let cs = chars_of(e);
    let (a, b) = trim_bounds(&cs);
    let t = string_from_range(&cs, a, b);
    let ghost tv = cs@.subrange(a as int, b as int);
    if a == b {
        return Some(String::from_str("target_extensions contains a blank value"));
    }
    let mut i = a;
    while i < b
        invariant
            a <= i <= b <= cs@.len(),
            a < b,
            tv == cs@.subrange(a as int, b as int),
            tv == trim(e@),
            t@ == tv,
            forall|k: int| 0 <= k < i - a ==> !is_space(#[trigger] tv[k]),
        decreases b - i,
    {
        if char_is_whitespace(cs[i]) {
            assert(is_space(tv[i - a]));
            return Some(quoted_exec("target_extensions contain whitespace characters: ", t.as_str()));
        }
        i += 1;
    }
    assert(!has_space(tv));
    if cs[a] != '.' {
        return Some(quoted_exec("target_extensions must start with a dot: ", t.as_str()));
    }
    let mut j = a;
    while j < b
        invariant
            a <= j <= b <= cs@.len(),
            a < b,
            tv == cs@.subrange(a as int, b as int),
            tv == trim(e@),
            t@ == tv,
            !has_space(tv),
            tv[0] == '.',
            forall|k: int| 0 <= k < j - a ==> #[trigger] tv[k] != '/' && tv[k] != '\\',
        decreases b - j,
    {
        if cs[j] == '/' || cs[j] == '\\' {
            assert(tv[j - a] == cs@[j as int]);
            return Some(quoted_exec("target_extensions must not contain path separators: ", t.as_str()));
        }
        j += 1;
    }
    assert(!tv.contains('/') && !tv.contains('\\')) by {
        if tv.contains('/') {
            let k = choose|k: int| 0 <= k < tv.len() && tv[k] == '/';
            assert(tv[k] != '/');
        }
        if tv.contains('\\') {
            let k = choose|k: int| 0 <= k < tv.len() && tv[k] == '\\';
            assert(tv[k] != '\\');
        }
    }
    let lowered = lower_range(&cs, a, b);
    let lc = chars_of(lowered.as_str());
    let mut k: usize = 0;
    while k < seen.len()
        invariant
            k <= seen@.len(),
            lc@ == ascii_lower(tv),
            a < b,
            tv.len() > 0,
            tv == trim(e@),
            t@ == tv,
            !has_space(tv),
            tv[0] == '.',
            !has_separator(tv),
            forall|m: int| 0 <= m < k ==> seen@[m]@ != lc@,
        decreases seen.len() - k,
    {
        let sc = chars_of(seen[k].as_str());
        if chars_equal(&sc, &lc) {
            assert(seen@.map_values(|s: String| s@)[k as int] == seen@[k as int]@);
            assert(seen@.map_values(|s: String| s@).contains(ascii_lower(tv)));
            return Some(quoted_exec("target_extensions contains duplicates: ", t.as_str()));
        }
        k += 1;
    }
    proof {
        let nb = seen@.map_values(|s: String| s@);
        if nb.contains(ascii_lower(tv)) {
            let m = choose|m: int| 0 <= m < nb.len() && nb[m] == ascii_lower(tv);
            assert(nb[m] == seen@[m]@);
            assert(seen@[m]@ != lc@);
        }
    }
    None
}

proof fn lemma_clean_extensions(es: Seq<Seq<char>>)
    requires
        extensions_complaint(es) is None,
    ensures
        es.map_values(|e: Seq<char>| normalized_extension(e)).no_duplicates(),
        forall|i: int| 0 <= i < es.len() ==> {
            let n = #[trigger] normalized_extension(es[i]);
            n.len() > 0 && n[0] == '.' && !has_space(n) && !has_separator(n)
        },
    decreases es.len(),
{
    if es.len() > 0 {
        let pre = es.drop_last();
        let last = es.last();
        lemma_clean_extensions(pre);
        let np = pre.map_values(|e: Seq<char>| normalized_extension(e));
        let t = trim(last);
        assert(!np.contains(ascii_lower(t)));
        assert(es.map_values(|e: Seq<char>| normalized_extension(e)) =~= np.push(normalized_extension(last)));
        let n = normalized_extension(last);
        assert(n.len() == t.len());
        assert(n[0] == lower_char(t[0]));
        assert forall|k: int| 0 <= k < n.len() implies !is_space(#[trigger] n[k]) && n[k] != '/' && n[k] != '\\' by {
            assert(n[k] == lower_char(t[k]));
            assert(!is_space(t[k]));
            assert(t[k] != '/' && t[k] != '\\') by {
                if t[k] == '/' { assert(t.contains('/')); }
                if t[k] == '\\' { assert(t.contains('\\')); }
            }
        }
        assert(!has_separator(n)) by {
            if n.contains('/') { let k = choose|k: int| 0 <= k < n.len() && n[k] == '/'; }
            if n.contains('\\') { let k = choose|k: int| 0 <= k < n.len() && n[k] == '\\'; }
        }
        assert forall|i: int| 0 <= i < es.len() implies {
            let m = #[trigger] normalized_extension(es[i]);
            m.len() > 0 && m[0] == '.' && !has_space(m) && !has_separator(m)
        } by {
            if i < es.len() - 1 {
                assert(es[i] == pre[i]);
            }
        }
        assert(es.map_values(|e: Seq<char>| normalized_extension(e)).no_duplicates()) by {
            let all = np.push(n);
            assert forall|i: int, j: int| 0 <= i < all.len() && 0 <= j < all.len() && i != j implies all[i] != all[j] by {
                if i == np.len() as int {
                    assert(np[j] == all[j]);
                } else if j == np.len() as int {
                    assert(np[i] == all[i]);
                }
            }
        }
    }
}

/// Valid options yield distinct extensions, each starting with a dot and free
/// of whitespace and path separators.
pub proof fn lemma_valid_options_have_clean_extensions(o: GitReportOptions)
    requires
        options_complaint(o) is None,
    ensures
        effective_extension_list(o).no_duplicates(),
        forall|i: int| 0 <= i < effective_extension_list(o).len() ==> {
            let n = #[trigger] effective_extension_list(o)[i];
            n.len() > 0 && n[0] == '.' && !has_space(n) && !has_separator(n)
        },
{
    reveal_strlit(".md");
    reveal_strlit(".markdown");
    match o.target_extensions {
        Some(v) => {
            if v@.len() > 0 {
                lemma_clean_extensions(str_views(v@));
                let es = str_views(v@);
                assert forall|i: int| 0 <= i < effective_extension_list(o).len() implies {
                    let n = #[trigger] effective_extension_list(o)[i];
                    n.len() > 0 && n[0] == '.' && !has_space(n) && !has_separator(n)
                } by {
                    assert(effective_extension_list(o)[i] == normalized_extension(es[i]));
                }
            } else {
                lemma_markdown_defaults_clean();
            }
        },
        None => {
            lemma_markdown_defaults_clean();
        },
    }
}

proof fn lemma_markdown_defaults_clean()
    ensures
        markdown_defaults().no_duplicates(),
        forall|i: int| 0 <= i < markdown_defaults().len() ==> {
            let n = #[trigger] markdown_defaults()[i];
            n.len() > 0 && n[0] == '.' && !has_space(n) && !has_separator(n)
        },
{
    reveal_strlit(".md");
    reveal_strlit(".markdown");
    let a = ".md"@;
    let b = ".markdown"@;
    assert(a.len() == 3 && b.len() == 9);
    assert(a != b);
    assert(!has_space(a) && !has_separator(a)) by {
        if has_space(a) { let k = choose|k: int| 0 <= k < a.len() && is_space(a[k]); }
        if a.contains('/') { let k = choose|k: int| 0 <= k < a.len() && a[k] == '/'; }
        if a.contains('\\') { let k = choose|k: int| 0 <= k < a.len() && a[k] == '\\'; }
    }
    assert(!has_space(b) && !has_separator(b)) by {
        if has_space(b) { let k = choose|k: int| 0 <= k < b.len() && is_space(b[k]); }
        if b.contains('/') { let k = choose|k: int| 0 <= k < b.len() && b[k] == '/'; }
        if b.contains('\\') { let k = choose|k: int| 0 <= k < b.len() && b[k] == '\\'; }
    }
    let s = markdown_defaults();
    assert forall|i: int, j: int| 0 <= i < s.len() && 0 <= j < s.len() && i != j implies s[i] != s[j] by {}
}

} // verus!
