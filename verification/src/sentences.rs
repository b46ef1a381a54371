//! Sentence segmentation of Japanese and English text.

use vstd::prelude::*;
use saku::SentenceTokenizer as SakuTokenizer;
use crate::text::{char_is_whitespace, chars_of, is_space, string_from_chars, trim, trim_bounds, trim_end, trim_start};

verus! {

broadcast use vstd::string::group_string_axioms;

/// Characters that end a sentence.
pub open spec fn is_terminator(c: char) -> bool {
    c == '。' || c == '．' || c == '.' || c == '｡' || c == '！' || c == '!' || c == '？' || c == '?'
}

/// Closing brackets that belong to the sentence they follow.
pub open spec fn is_closer(c: char) -> bool {
    c == '」' || c == '』' || c == '）' || c == ')' || c == '】' || c == '〉'
}

/// Exclamation and question marks, which alone do not make a sentence.
pub open spec fn is_bang(c: char) -> bool {
    c == '!' || c == '?' || c == '！' || c == '？'
}

fn is_terminator_exec(c: char) -> (b: bool)
    ensures
        b == is_terminator(c),
{
    c == '。' || c == '．' || c == '.' || c == '｡' || c == '！' || c == '!' || c == '？' || c == '?'
}

fn is_closer_exec(c: char) -> (b: bool)
    ensures
        b == is_closer(c),
{
    c == '」' || c == '』' || c == '）' || c == ')' || c == '】' || c == '〉'
}

fn is_bang_exec(c: char) -> (b: bool)
    ensures
        b == is_bang(c),
{
    c == '!' || c == '?' || c == '！' || c == '？'
}

/// Every character of `s` satisfies `is_bang`.
pub open spec fn all_bangs(s: Seq<char>) -> bool {
    forall|i: int| 0 <= i < s.len() ==> is_bang(#[trigger] s[i])
}

/// Moves the buffered text into the results: blank text is dropped, a run of
/// exclamation and question marks joins the previous sentence, anything else
/// becomes a sentence of its own. The buffer's text is trimmed first.
pub open spec fn flush(results: Seq<Seq<char>>, buffer: Seq<char>) -> Seq<Seq<char>> {
    let t = trim(buffer);
    if t.len() == 0 {
        results
    } else if all_bangs(t) && results.len() > 0 {
        results.update(results.len() - 1, results.last() + t)
    } else {
        results.push(t)
    }
}

/// State of the segment scan: sentences so far, the open buffer, and whether
/// a terminator was just seen (so closing brackets still attach to it).
pub type ExplodeState = (Seq<Seq<char>>, Seq<char>, bool);

/// One character of the segment scan.
pub open spec fn explode_step(st: ExplodeState, ch: char) -> ExplodeState {
    let (results, buffer, pending) = st;
    if pending && is_space(ch) {
        st
    } else if pending && is_closer(ch) && results.len() > 0 {
        (results.update(results.len() - 1, results.last().push(ch)), buffer, true)
    } else if is_terminator(ch) {
        (flush(results, buffer.push(ch)), seq![], true)
    } else {
        (results, buffer.push(ch), false)
    }
}

/// The segment scan over a character sequence.
pub open spec fn explode_scan(s: Seq<char>) -> ExplodeState
    decreases s.len(),
{
    if s.len() == 0 {
        (seq![], seq![], false)
    } else {
        explode_step(explode_scan(s.drop_last()), s.last())
    }
}

/// Sentences of one segment: cut after each terminator, closing brackets and
/// repeated marks kept with their sentence, each sentence trimmed.
pub open spec fn explode(s: Seq<char>) -> Seq<Seq<char>> {
    let st = explode_scan(s);
    flush(st.0, st.1)
}

/// Views of a list of strings.
pub open spec fn strings_view(v: Seq<String>) -> Seq<Seq<char>> {
    v.map_values(|s: String| s@)
}

/// Moves `buffer` into `results` as `flush` describes, and empties it.
pub fn push_buffer(results: &mut Vec<Vec<char>>, buffer: &mut Vec<char>)
    ensures
        final(results)@.map_values(|v: Vec<char>| v@) == flush(old(results)@.map_values(|v: Vec<char>| v@), old(buffer)@),
        final(buffer)@.len() == 0,
{
    let ghost before = results@.map_values(|v: Vec<char>| v@);
    let (a, b) = trim_bounds(buffer);
    if a == b {
        buffer.clear();
        return;
    }
    let mut trimmed: Vec<char> = Vec::new();
    let mut i = a;
    while i < b
        invariant
            a <= i <= b <= buffer@.len(),
            trimmed@ == buffer@.subrange(a as int, i as int),
        decreases b - i,
    {
        trimmed.push(buffer[i]);
        i += 1;
        assert(trimmed@ =~= buffer@.subrange(a as int, i as int));
    }
    let mut only_bangs = true;
    let mut j: usize = 0;
    while j < trimmed.len()
        invariant
            j <= trimmed@.len(),
            only_bangs == (forall|k: int| 0 <= k < j ==> is_bang(#[trigger] trimmed@[k])),
        decreases trimmed.len() - j,
    {
        if !is_bang_exec(trimmed[j]) {
            only_bangs = false;
        }
        j += 1;
    }
    if only_bangs && results.len() > 0 {
        let mut last = results.pop().unwrap();
        let mut k: usize = 0;
        let ghost last0 = last@;
        while k < trimmed.len()
            invariant
                k <= trimmed@.len(),
                last@ == last0 + trimmed@.subrange(0, k as int),
            decreases trimmed.len() - k,
        {
            last.push(trimmed[k]);
            k += 1;
            assert(last@ =~= last0 + trimmed@.subrange(0, k as int));
        }
        assert(trimmed@.subrange(0, trimmed@.len() as int) =~= trimmed@);
        results.push(last);
    } else {
        results.push(trimmed);
    }
    assert(results@.map_values(|v: Vec<char>| v@) =~= flush(before, buffer@));
    buffer.clear();
}

/// Splits one segment into sentences as `explode` describes.
pub fn explode_sentence(segment: &str) -> (out: Vec<String>)
    ensures
        strings_view(out@) == explode(segment@),
{
    let cs = chars_of(segment);
    let mut results: Vec<Vec<char>> = Vec::new();
    let mut buffer: Vec<char> = Vec::new();
    let mut pending_closure = false;
    let mut i: usize = 0;
    assert(cs@.subrange(0, 0) =~= seq![]);
    assert(results@.map_values(|v: Vec<char>| v@) =~= seq![]);
    while i < cs.len()
        invariant
            i <= cs@.len(),
            explode_scan(cs@.subrange(0, i as int)) == (results@.map_values(|v: Vec<char>| v@), buffer@, pending_closure),
        decreases cs.len() - i,
    {
        let ch = cs[i];
        let ghost prev: ExplodeState = (results@.map_values(|v: Vec<char>| v@), buffer@, pending_closure);
        assert(cs@.subrange(0, i + 1).drop_last() =~= cs@.subrange(0, i as int));
        assert(cs@.subrange(0, i + 1).last() == ch);
        if pending_closure && char_is_whitespace(ch) {
        } else if pending_closure && is_closer_exec(ch) && results.len() > 0 {
            let mut last = results.pop().unwrap();
            last.push(ch);
            results.push(last);
            assert(results@.map_values(|v: Vec<char>| v@) =~= prev.0.update(prev.0.len() - 1, prev.0.last().push(ch)));
        } else if is_terminator_exec(ch) {
            buffer.push(ch);
            push_buffer(&mut results, &mut buffer);
            assert(buffer@ =~= seq![]);
            pending_closure = true;
        } else {
            buffer.push(ch);
            pending_closure = false;
        }
        i += 1;
    }
    assert(cs@.subrange(0, cs@.len() as int) =~= cs@);
    push_buffer(&mut results, &mut buffer);
    let mut out: Vec<String> = Vec::new();
    let mut k: usize = 0;
    while k < results.len()
        invariant
            k <= results@.len(),
            strings_view(out@) == results@.map_values(|v: Vec<char>| v@).subrange(0, k as int),
        decreases results.len() - k,
    {
        let s = string_from_chars(&results[k]);
        assert(s@ == results@.map_values(|v: Vec<char>| v@)[k as int]);
        let ghost out0 = out@;
        out.push(s);
        assert(strings_view(out@) =~= strings_view(out0).push(s@));
        k += 1;
        assert(strings_view(out@) =~= results@.map_values(|v: Vec<char>| v@).subrange(0, k as int));
    }
    assert(results@.map_values(|v: Vec<char>| v@).subrange(0, results@.len() as int) =~= results@.map_values(|v: Vec<char>| v@));
    out
}


/// Bracket counters of saku's default tokenizer (for `（`, `「`, `『`) stay
/// within `u8` over `s`: a line break resets the nesting depth, an opening
/// bracket raises its own counter and the depth, and a closing bracket whose
/// counter is positive lowers both.
pub open spec fn brackets_fit(s: Seq<char>, f0: nat, f1: nat, f2: nat, nest: nat) -> bool
    decreases s.len(),
{
    if s.len() == 0 {
        true
    } else {
        let c = s[0];
        let rest = s.drop_first();
        if c == '\n' || c == '\r' {
            brackets_fit(rest, f0, f1, f2, 0)
        } else if c == '（' {
            f0 < 255 && nest < 255 && brackets_fit(rest, f0 + 1, f1, f2, nest + 1)
        } else if c == '「' {
            f1 < 255 && nest < 255 && brackets_fit(rest, f0, f1 + 1, f2, nest + 1)
        } else if c == '『' {
            f2 < 255 && nest < 255 && brackets_fit(rest, f0, f1, f2 + 1, nest + 1)
        } else if c == '）' && f0 > 0 {
            nest > 0 && brackets_fit(rest, (f0 - 1) as nat, f1, f2, (nest - 1) as nat)
        } else if c == '」' && f1 > 0 {
            nest > 0 && brackets_fit(rest, f0, (f1 - 1) as nat, f2, (nest - 1) as nat)
        } else if c == '』' && f2 > 0 {
            nest > 0 && brackets_fit(rest, f0, f1, (f2 - 1) as nat, (nest - 1) as nat)
        } else {
            brackets_fit(rest, f0, f1, f2, nest)
        }
    }
}

/// Texts that saku's default tokenizer segments without an arithmetic overflow
/// of its bracket counters.
pub open spec fn segmentable(text: Seq<char>) -> bool {
    brackets_fit(trim(text), 0, 0, 0, 0)
}

/// The pieces saku's default tokenizer cuts from `s`, given its bracket
/// counters (`（`, `「`, `『`), its nesting depth and the piece `cur` begun so
/// far: a line break (`\n` or `\r`) ends the piece, which is dropped when
/// empty, and resets the depth; an opening bracket raises its counter and the
/// depth; a closing bracket whose counter is positive lowers both; `。` at depth
/// 0 ends the piece after itself; every character but a line break stays in
/// its piece, and what is left at the end is the last piece when not empty.
pub open spec fn saku_cut(s: Seq<char>, f0: nat, f1: nat, f2: nat, nest: nat, cur: Seq<char>) -> Seq<Seq<char>>
    decreases s.len(),
{
    if s.len() == 0 {
        if cur.len() == 0 { seq![] } else { seq![cur] }
    } else {
        let c = s[0];
        let rest = s.drop_first();
        if c == '\n' || c == '\r' {
            let done: Seq<Seq<char>> = if cur.len() == 0 { seq![] } else { seq![cur] };
            done + saku_cut(rest, f0, f1, f2, 0, seq![])
        } else if c == '（' {
            saku_cut(rest, f0 + 1, f1, f2, nest + 1, cur.push(c))
        } else if c == '「' {
            saku_cut(rest, f0, f1 + 1, f2, nest + 1, cur.push(c))
        } else if c == '『' {
            saku_cut(rest, f0, f1, f2 + 1, nest + 1, cur.push(c))
        } else if c == '）' && f0 > 0 {
            saku_cut(rest, (f0 - 1) as nat, f1, f2, (nest - 1) as nat, cur.push(c))
        } else if c == '」' && f1 > 0 {
            saku_cut(rest, f0, (f1 - 1) as nat, f2, (nest - 1) as nat, cur.push(c))
        } else if c == '』' && f2 > 0 {
            saku_cut(rest, f0, f1, (f2 - 1) as nat, (nest - 1) as nat, cur.push(c))
        } else if c == '。' && nest == 0 {
            seq![cur.push(c)] + saku_cut(rest, f0, f1, f2, nest, seq![])
        } else {
            saku_cut(rest, f0, f1, f2, nest, cur.push(c))
        }
    }
}

/// The segments `saku::SentenceTokenizer::default().tokenize_raw` returns for a
/// text: the pieces it cuts from the trimmed text, starting with all counters at 0.
pub open spec fn saku_segments(text: Seq<char>) -> Seq<Seq<char>> {
    saku_cut(trim(text), 0, 0, 0, 0, seq![])
}

/// `s` without its line breaks (`\n`, `\r`).
pub open spec fn without_breaks(s: Seq<char>) -> Seq<char>
    decreases s.len(),
{
    if s.len() == 0 {
        seq![]
    } else if s[0] == '\n' || s[0] == '\r' {
        without_breaks(s.drop_first())
    } else {
        seq![s[0]] + without_breaks(s.drop_first())
    }
}

proof fn lemma_concat_prepend(p: Seq<char>, parts: Seq<Seq<char>>)
    ensures
        crate::text::concat(seq![p] + parts) == p + crate::text::concat(parts),
    decreases parts.len(),
{
    let whole = seq![p] + parts;
    if parts.len() == 0 {
        assert(whole =~= seq![p]);
        assert(whole.drop_last() =~= Seq::<Seq<char>>::empty());
        assert(crate::text::concat(Seq::<Seq<char>>::empty()) == Seq::<char>::empty());
        assert(crate::text::concat(whole) == crate::text::concat(whole.drop_last()) + whole.last());
        assert(Seq::<char>::empty() + p =~= p);
        assert(crate::text::concat(parts) == Seq::<char>::empty());
        assert(p + Seq::<char>::empty() =~= p);
    } else {
        lemma_concat_prepend(p, parts.drop_last());
        assert(whole.drop_last() =~= seq![p] + parts.drop_last());
        assert(whole.last() == parts.last());
        assert(crate::text::concat(whole) == crate::text::concat(whole.drop_last()) + whole.last());
        assert(crate::text::concat(parts) == crate::text::concat(parts.drop_last()) + parts.last());
        assert(p + crate::text::concat(parts.drop_last()) + parts.last() =~= p + (crate::text::concat(parts.drop_last()) + parts.last()));
    }
}

proof fn lemma_cut_keeps_characters(s: Seq<char>, f0: nat, f1: nat, f2: nat, nest: nat, cur: Seq<char>)
    ensures
        crate::text::concat(saku_cut(s, f0, f1, f2, nest, cur)) == cur + without_breaks(s),
        forall|i: int| 0 <= i < saku_cut(s, f0, f1, f2, nest, cur).len() ==> (#[trigger] saku_cut(s, f0, f1, f2, nest, cur)[i]).len() > 0,
    decreases s.len(),
{
    let out = saku_cut(s, f0, f1, f2, nest, cur);
    if s.len() == 0 {
        if cur.len() == 0 {
            assert(cur + without_breaks(s) =~= Seq::<char>::empty());
        } else {
            lemma_concat_prepend(cur, Seq::<Seq<char>>::empty());
            assert(seq![cur] + Seq::<Seq<char>>::empty() =~= seq![cur]);
            assert(cur + Seq::<char>::empty() =~= cur);
            assert(cur + without_breaks(s) =~= cur);
        }
    } else {
        let c = s[0];
        let rest = s.drop_first();
        if c == '\n' || c == '\r' {
            lemma_cut_keeps_characters(rest, f0, f1, f2, 0, seq![]);
            let tail = saku_cut(rest, f0, f1, f2, 0, seq![]);
            assert(Seq::<char>::empty() + without_breaks(rest) =~= without_breaks(rest));
            if cur.len() == 0 {
                assert(out =~= tail);
                assert(cur + without_breaks(s) =~= without_breaks(rest));
            } else {
                assert(out =~= seq![cur] + tail);
                lemma_concat_prepend(cur, tail);
                assert forall|i: int| 0 <= i < out.len() implies (#[trigger] out[i]).len() > 0 by {
                    if i > 0 {
                        assert(out[i] == tail[i - 1]);
                    }
                }
            }
        } else {
            assert(without_breaks(s) =~= seq![c] + without_breaks(rest));
            assert(cur + without_breaks(s) =~= cur.push(c) + without_breaks(rest));
            if c == '（' {
                lemma_cut_keeps_characters(rest, f0 + 1, f1, f2, nest + 1, cur.push(c));
            } else if c == '「' {
                lemma_cut_keeps_characters(rest, f0, f1 + 1, f2, nest + 1, cur.push(c));
            } else if c == '『' {
                lemma_cut_keeps_characters(rest, f0, f1, f2 + 1, nest + 1, cur.push(c));
            } else if c == '）' && f0 > 0 {
                lemma_cut_keeps_characters(rest, (f0 - 1) as nat, f1, f2, (nest - 1) as nat, cur.push(c));
            } else if c == '」' && f1 > 0 {
                lemma_cut_keeps_characters(rest, f0, (f1 - 1) as nat, f2, (nest - 1) as nat, cur.push(c));
            } else if c == '』' && f2 > 0 {
                lemma_cut_keeps_characters(rest, f0, f1, (f2 - 1) as nat, (nest - 1) as nat, cur.push(c));
            } else if c == '。' && nest == 0 {
                lemma_cut_keeps_characters(rest, f0, f1, f2, nest, seq![]);
                let tail = saku_cut(rest, f0, f1, f2, nest, seq![]);
                assert(out =~= seq![cur.push(c)] + tail);
                lemma_concat_prepend(cur.push(c), tail);
                assert(Seq::<char>::empty() + without_breaks(rest) =~= without_breaks(rest));
                assert forall|i: int| 0 <= i < out.len() implies (#[trigger] out[i]).len() > 0 by {
                    if i > 0 {
                        assert(out[i] == tail[i - 1]);
                    }
                }
            } else {
                lemma_cut_keeps_characters(rest, f0, f1, f2, nest, cur.push(c));
            }
        }
    }
}

/// saku's segments are never empty, and together, in order, they hold the
/// trimmed text without its line breaks: cutting loses, adds and reorders
/// nothing else.
pub proof fn lemma_segments_keep_characters(text: Seq<char>)
    ensures
        crate::text::concat(saku_segments(text)) == without_breaks(trim(text)),
        forall|i: int| 0 <= i < saku_segments(text).len() ==> (#[trigger] saku_segments(text)[i]).len() > 0,
{
    lemma_cut_keeps_characters(trim(text), 0, 0, 0, 0, seq![]);
    assert(Seq::<char>::empty() + without_breaks(trim(text)) =~= without_breaks(trim(text)));
}

/// `saku::SentenceTokenizer::default().tokenize_raw(text)` (saku's
/// `tokenizer.rs`, with the default builder's `。` and bracket pairs `（）`,
/// `「」`, `『』` and line breaks `\n`, `\r`), each piece copied into a
/// `String`: the pieces `saku_segments` describes. Its bracket counters are
/// `u8` values that overflow on the inputs `segmentable` excludes.
#[verifier::external_body]
fn saku_tokenize_raw(text: &str) -> (segments: Vec<String>)
    requires
        segmentable(text@),
    ensures
        strings_view(segments@) == saku_segments(text@),
{
    SakuTokenizer::default().tokenize_raw(text).into_iter().map(|s| s.to_string()).collect()
}

/// Checks `segmentable`.
pub fn is_segmentable(text: &str) -> (b: bool)
    ensures
        b == segmentable(text@),
{
    let cs = chars_of(text);
    let (a, b) = trim_bounds(&cs);
    let mut f0: u16 = 0;
    let mut f1: u16 = 0;
    let mut f2: u16 = 0;
    let mut nest: u16 = 0;
    let mut i = a;
    assert(cs@.subrange(a as int, b as int) == trim(text@));
    while i < b
        invariant
            a <= i <= b <= cs@.len(),
            f0 <= 255, f1 <= 255, f2 <= 255, nest <= 255,
            brackets_fit(trim(text@), 0, 0, 0, 0) == brackets_fit(cs@.subrange(i as int, b as int), f0 as nat, f1 as nat, f2 as nat, nest as nat),
            trim(text@) == cs@.subrange(a as int, b as int),
        decreases b - i,
    {
        let c = cs[i];
        assert(cs@.subrange(i as int, b as int).drop_first() =~= cs@.subrange(i + 1, b as int));
        assert(cs@.subrange(i as int, b as int)[0] == c);
        if c == '\n' || c == '\r' {
            nest = 0;
        } else if c == '（' {
            if f0 >= 255 || nest >= 255 { return false; }
            f0 += 1;
            nest += 1;
        } else if c == '「' {
            if f1 >= 255 || nest >= 255 { return false; }
            f1 += 1;
            nest += 1;
        } else if c == '『' {
            if f2 >= 255 || nest >= 255 { return false; }
            f2 += 1;
            nest += 1;
        } else if c == '）' && f0 > 0 {
            if nest == 0 { return false; }
            f0 -= 1;
            nest -= 1;
        } else if c == '」' && f1 > 0 {
            if nest == 0 { return false; }
            f1 -= 1;
            nest -= 1;
        } else if c == '』' && f2 > 0 {
            if nest == 0 { return false; }
            f2 -= 1;
            nest -= 1;
        }
        i += 1;
    }
    true
}

/// Sentences of a text: blank text has none; otherwise each saku segment is
/// split further by `explode`, in order.
pub open spec fn sentences_of(text: Seq<char>) -> Seq<Seq<char>> {
    if trim(text).len() == 0 {
        seq![]
    } else {
        saku_segments(text).map_values(|seg: Seq<char>| explode(seg)).flatten()
    }
}

/// Splits text into trimmed sentences.
pub fn split_sentences(text: &str) -> (out: Vec<String>)
    requires
        segmentable(text@),
    ensures
        strings_view(out@) == sentences_of(text@),
{
    let cs = chars_of(text);
    let (a, b) = trim_bounds(&cs);
    if a == b {
        let empty: Vec<String> = Vec::new();
        assert(strings_view(empty@) =~= seq![]);
        return empty;
    }
    let segments = saku_tokenize_raw(text);
    sentences_from_segments(&segments)
}

/// The sentences of a list of segments: each segment split by
/// `explode_sentence`, in order.
pub fn sentences_from_segments(segments: &Vec<String>) -> (out: Vec<String>)
    ensures
        strings_view(out@) == strings_view(segments@).map_values(|seg: Seq<char>| explode(seg)).flatten(),
{
    let ghost segs = strings_view(segments@);
    let mut out: Vec<String> = Vec::new();
    let mut k: usize = 0;
    assert(strings_view(out@) =~= seq![]);
    assert(segs.subrange(0, 0).map_values(|seg: Seq<char>| explode(seg)).flatten() =~= seq![]);
    while k < segments.len()
        invariant
            k <= segments@.len(),
            segs == strings_view(segments@),
            strings_view(out@) == segs.subrange(0, k as int).map_values(|seg: Seq<char>| explode(seg)).flatten(),
        decreases segments.len() - k,
    {
        let pieces = explode_sentence(segments[k].as_str());
        let ghost out0 = strings_view(out@);
        let mut j: usize = 0;
        while j < pieces.len()
            invariant
                j <= pieces@.len(),
                strings_view(out@) == out0 + strings_view(pieces@).subrange(0, j as int),
            decreases pieces.len() - j,
        {
            let p = pieces[j].clone();
            assert(p@ == strings_view(pieces@)[j as int]);
            let ghost before = out@;
            out.push(p);
            assert(strings_view(out@) =~= strings_view(before).push(p@));
            j += 1;
            assert(strings_view(out@) =~= out0 + strings_view(pieces@).subrange(0, j as int));
        }
        proof {
            let m = segs.subrange(0, k + 1).map_values(|seg: Seq<char>| explode(seg));
            assert(segs.subrange(0, k + 1).map_values(|seg: Seq<char>| explode(seg)).drop_last() =~= segs.subrange(0, k as int).map_values(|seg: Seq<char>| explode(seg)));
            m.drop_last().lemma_flatten_push(m.last());
            assert(m.drop_last().push(m.last()) =~= m);
            assert(m.last() == explode(segs[k as int]));
        }
        k += 1;
    }
    assert(segs.subrange(0, segs.len() as int) =~= segs);
    out
}

/// A sentence as the splitter cuts it: not empty, and neither starting nor
/// ending with whitespace.
pub open spec fn well_cut(s: Seq<char>) -> bool {
    s.len() > 0 && !is_space(s[0]) && !is_space(s.last())
}

/// Every sentence in the list is well cut.
pub open spec fn all_well_cut(ss: Seq<Seq<char>>) -> bool {
    forall|i: int| 0 <= i < ss.len() ==> well_cut(#[trigger] ss[i])
}

/// Trimmed text that is not empty is well cut.
proof fn lemma_trim_well_cut(b: Seq<char>)
    ensures
        trim(b).len() > 0 ==> well_cut(trim(b)),
{
    let x = trim_start(b);
    crate::text::lemma_trim_start_suffix(b);
    crate::text::lemma_trim_end_prefix(x);
    if trim(b).len() > 0 {
        let k = choose|k: int| 0 <= k <= x.len() && trim_end(x) == x.subrange(0, k);
        assert(trim(b)[0] == x[0]);
    }
}

/// A well-cut sentence is its own trimming.
proof fn lemma_well_cut_trimmed(s: Seq<char>)
    requires
        well_cut(s),
    ensures
        trim(s) == s,
{
    assert(trim_start(s) == s);
    assert(trim_end(s) == s);
}

/// Flushing keeps every sentence well cut.
proof fn lemma_flush_well_cut(results: Seq<Seq<char>>, buffer: Seq<char>)
    requires
        all_well_cut(results),
    ensures
        all_well_cut(flush(results, buffer)),
{
    lemma_trim_well_cut(buffer);
    let t = trim(buffer);
    if t.len() > 0 && all_bangs(t) && results.len() > 0 {
        let joined = results.last() + t;
        assert(well_cut(results[results.len() - 1]));
        assert(joined[0] == results.last()[0]);
        assert(joined.last() == t.last());
        assert(well_cut(joined));
        let out = results.update(results.len() - 1, joined);
        assert forall|i: int| 0 <= i < out.len() implies well_cut(#[trigger] out[i]) by {
            if i < results.len() - 1 {
                assert(out[i] == results[i]);
            }
        }
    } else if t.len() > 0 {
        let out = results.push(t);
        assert forall|i: int| 0 <= i < out.len() implies well_cut(#[trigger] out[i]) by {
            if i < results.len() {
                assert(out[i] == results[i]);
            }
        }
    }
}

/// The segment scan only ever holds well-cut sentences.
proof fn lemma_explode_scan_well_cut(s: Seq<char>)
    ensures
        all_well_cut(explode_scan(s).0),
    decreases s.len(),
{
    if s.len() > 0 {
        lemma_explode_scan_well_cut(s.drop_last());
        let st = explode_scan(s.drop_last());
        let (results, buffer, pending) = st;
        let ch = s.last();
        if pending && is_space(ch) {
        } else if pending && is_closer(ch) && results.len() > 0 {
            let grown = results.last().push(ch);
            assert(well_cut(results[results.len() - 1]));
            assert(grown[0] == results.last()[0]);
            assert(!is_space(ch));
            let out = results.update(results.len() - 1, grown);
            assert forall|i: int| 0 <= i < out.len() implies well_cut(#[trigger] out[i]) by {
                if i < results.len() - 1 {
                    assert(out[i] == results[i]);
                }
            }
        } else if is_terminator(ch) {
            lemma_flush_well_cut(results, buffer.push(ch));
        }
    }
}

/// Every sentence of a list of lists is well cut when every list's are.
proof fn lemma_flatten_well_cut(ss: Seq<Seq<Seq<char>>>)
    requires
        forall|i: int| 0 <= i < ss.len() ==> all_well_cut(#[trigger] ss[i]),
    ensures
        all_well_cut(ss.flatten()),
    decreases ss.len(),
{
    if ss.len() > 0 {
        assert forall|i: int| 0 <= i < ss.drop_first().len() implies all_well_cut(#[trigger] ss.drop_first()[i]) by {
            assert(ss.drop_first()[i] == ss[i + 1]);
        }
        lemma_flatten_well_cut(ss.drop_first());
        assert(all_well_cut(ss[0]));
        let out = ss.first() + ss.drop_first().flatten();
        assert forall|i: int| 0 <= i < out.len() implies well_cut(#[trigger] out[i]) by {
            if i < ss.first().len() {
                assert(out[i] == ss[0][i]);
            } else {
                assert(out[i] == ss.drop_first().flatten()[i - ss.first().len()]);
            }
        }
    }
}

/// Every sentence `split_sentences` returns is non-empty and already trimmed:
/// it neither starts nor ends with whitespace.
pub proof fn lemma_sentences_are_trimmed(text: Seq<char>)
    ensures
        forall|i: int| 0 <= i < sentences_of(text).len() ==> well_cut(#[trigger] sentences_of(text)[i])
            && trim(sentences_of(text)[i]) == sentences_of(text)[i],
{
    if trim(text).len() > 0 {
        let ss = saku_segments(text).map_values(|seg: Seq<char>| explode(seg));
        assert forall|i: int| 0 <= i < ss.len() implies all_well_cut(#[trigger] ss[i]) by {
            let seg = saku_segments(text)[i];
            lemma_explode_scan_well_cut(seg);
            lemma_flush_well_cut(explode_scan(seg).0, explode_scan(seg).1);
        }
        lemma_flatten_well_cut(ss);
    }
    assert forall|i: int| 0 <= i < sentences_of(text).len() implies well_cut(#[trigger] sentences_of(text)[i])
        && trim(sentences_of(text)[i]) == sentences_of(text)[i] by {
        lemma_well_cut_trimmed(sentences_of(text)[i]);
    }
}

/// The characters of `s` that are not whitespace, in order.
pub open spec fn non_space(s: Seq<char>) -> Seq<char>
    decreases s.len(),
{
    if s.len() == 0 {
        seq![]
    } else if is_space(s.last()) {
        non_space(s.drop_last())
    } else {
        non_space(s.drop_last()).push(s.last())
    }
}

/// The non-whitespace characters of two pieces are those of the first, then
/// those of the second.
pub proof fn lemma_non_space_append(a: Seq<char>, b: Seq<char>)
    ensures
        non_space(a + b) == non_space(a) + non_space(b),
    decreases b.len(),
{
    if b.len() == 0 {
        assert(a + b =~= a);
        assert(non_space(a) + non_space(b) =~= non_space(a));
    } else {
        lemma_non_space_append(a, b.drop_last());
        assert((a + b).drop_last() =~= a + b.drop_last());
        assert((a + b).last() == b.last());
        if !is_space(b.last()) {
            assert(non_space(a) + non_space(b) =~= (non_space(a) + non_space(b.drop_last())).push(b.last()));
        }
    }
}

/// One more character adds itself to the non-whitespace characters unless
/// it is whitespace.
pub proof fn lemma_non_space_push(x: Seq<char>, ch: char)
    ensures
        non_space(x.push(ch)) == if is_space(ch) { non_space(x) } else { non_space(x).push(ch) },
{
    assert(x.push(ch).drop_last() =~= x);
    assert(x.push(ch).last() == ch);
}

/// Trimming removes whitespace only.
pub proof fn lemma_non_space_trim(x: Seq<char>)
    ensures
        non_space(trim(x)) == non_space(x),
{
    lemma_non_space_trim_start(x);
    lemma_non_space_trim_end(trim_start(x));
}

proof fn lemma_non_space_trim_start(x: Seq<char>)
    ensures
        non_space(trim_start(x)) == non_space(x),
    decreases x.len(),
{
    if x.len() > 0 && is_space(x[0]) {
        lemma_non_space_trim_start(x.drop_first());
        assert(x =~= seq![x[0]] + x.drop_first());
        lemma_non_space_append(seq![x[0]], x.drop_first());
        lemma_non_space_push(Seq::<char>::empty(), x[0]);
        assert(Seq::<char>::empty().push(x[0]) =~= seq![x[0]]);
        assert(non_space(Seq::<char>::empty()) =~= Seq::<char>::empty());
        assert(non_space(seq![x[0]]) =~= Seq::<char>::empty());
        assert(non_space(seq![x[0]]) + non_space(x.drop_first()) =~= non_space(x.drop_first()));
    }
}

proof fn lemma_non_space_trim_end(x: Seq<char>)
    ensures
        non_space(trim_end(x)) == non_space(x),
    decreases x.len(),
{
    if x.len() > 0 && is_space(x.last()) {
        lemma_non_space_trim_end(x.drop_last());
    }
}

/// Flushing moves the buffer's non-whitespace characters, in order, to the
/// end of the sentences.
proof fn lemma_flush_keeps_characters(results: Seq<Seq<char>>, buffer: Seq<char>)
    ensures
        non_space(crate::text::concat(flush(results, buffer))) == non_space(crate::text::concat(results) + buffer),
{
    let t = trim(buffer);
    lemma_non_space_trim(buffer);
    lemma_non_space_append(crate::text::concat(results), buffer);
    lemma_non_space_append(crate::text::concat(results), t);
    if t.len() == 0 {
        assert(non_space(t) =~= Seq::<char>::empty());
        assert(non_space(crate::text::concat(results)) + non_space(t) =~= non_space(crate::text::concat(results)));
    } else if all_bangs(t) && results.len() > 0 {
        let out = results.update(results.len() - 1, results.last() + t);
        assert(out.drop_last() =~= results.drop_last());
        assert(crate::text::concat(out) =~= crate::text::concat(results) + t);
    } else {
        crate::text::lemma_concat_push(results, t);
    }
}

proof fn lemma_explode_scan_keeps_characters(s: Seq<char>)
    ensures
        non_space(crate::text::concat(explode_scan(s).0) + explode_scan(s).1) == non_space(s),
        explode_scan(s).2 ==> explode_scan(s).1.len() == 0,
    decreases s.len(),
{
    if s.len() == 0 {
        assert(crate::text::concat(Seq::<Seq<char>>::empty()) + Seq::<char>::empty() =~= Seq::<char>::empty());
    } else {
        let pre = s.drop_last();
        lemma_explode_scan_keeps_characters(pre);
        let (results, buffer, pending) = explode_scan(pre);
        let ch = s.last();
        let c = crate::text::concat(results);
        assert(pre.push(ch) =~= s);
        lemma_non_space_push(pre, ch);
        lemma_non_space_push(c + buffer, ch);
        if pending && is_space(ch) {
        } else if pending && is_closer(ch) && results.len() > 0 {
            assert(!is_space(ch));
            let out = results.update(results.len() - 1, results.last().push(ch));
            assert(out.drop_last() =~= results.drop_last());
            assert(buffer =~= Seq::<char>::empty());
            assert(c + buffer =~= c);
            assert(crate::text::concat(out) + Seq::<char>::empty() =~= (c + buffer).push(ch));
        } else if is_terminator(ch) {
            assert(!is_space(ch));
            lemma_flush_keeps_characters(results, buffer.push(ch));
            assert(c + buffer.push(ch) =~= (c + buffer).push(ch));
            assert(crate::text::concat(flush(results, buffer.push(ch))) + Seq::<char>::empty() =~= crate::text::concat(flush(results, buffer.push(ch))));
        } else {
            assert(c + buffer.push(ch) =~= (c + buffer).push(ch));
        }
    }
}

/// Splitting a segment loses, duplicates and reorders no character other than
/// whitespace: the sentences together hold the segment's non-whitespace
/// characters in order; and every sentence is non-empty and trimmed.
pub proof fn lemma_explode_keeps_characters(s: Seq<char>)
    ensures
        non_space(crate::text::concat(explode(s))) == non_space(s),
        all_well_cut(explode(s)),
{
    lemma_explode_scan_keeps_characters(s);
    lemma_flush_keeps_characters(explode_scan(s).0, explode_scan(s).1);
    lemma_explode_scan_well_cut(s);
    lemma_flush_well_cut(explode_scan(s).0, explode_scan(s).1);
}


/// The characters that end a sentence are exactly `。`, `．`, `.`, `｡`, `！`,
/// `!`, `？` and `?`.
pub proof fn lemma_sentence_enders(c: char)
    ensures
        is_terminator(c) <==> (c == '。' || c == '．' || c == '.' || c == '｡' || c == '！' || c == '!' || c == '？' || c == '?'),
{
}

/// A character of ordinary running text: no sentence ender (`。．.｡！!？?`),
/// no closing bracket and no whitespace.
pub open spec fn running_char(c: char) -> bool {
    &&& !(c == '。' || c == '．' || c == '.' || c == '｡' || c == '！' || c == '!' || c == '？' || c == '?')
    &&& !is_closer(c)
    &&& !is_space(c)
}

/// Every character of `r` is ordinary running text.
pub open spec fn running_text(r: Seq<char>) -> bool {
    forall|i: int| 0 <= i < r.len() ==> running_char(#[trigger] r[i])
}

proof fn lemma_scan_running(s: Seq<char>, r: Seq<char>)
    requires
        running_text(r),
        r.len() > 0,
    ensures
        explode_scan(s + r) == (explode_scan(s).0, explode_scan(s).1 + r, false),
    decreases r.len(),
{
    let ch = r.last();
    assert(running_char(r[r.len() - 1]));
    assert((s + r).drop_last() =~= s + r.drop_last());
    assert((s + r).last() == ch);
    if r.len() == 1 {
        assert(s + r.drop_last() =~= s);
        assert(explode_scan(s).1 + r =~= explode_scan(s).1.push(ch));
    } else {
        assert forall|i: int| 0 <= i < r.drop_last().len() implies running_char(#[trigger] r.drop_last()[i]) by {
            assert(r.drop_last()[i] == r[i]);
        }
        lemma_scan_running(s, r.drop_last());
        assert(explode_scan(s).1 + r.drop_last() + seq![ch] =~= explode_scan(s).1 + r);
        assert((explode_scan(s).1 + r.drop_last()).push(ch) =~= explode_scan(s).1 + r);
    }
}

proof fn lemma_trim_of_solid(t: Seq<char>)
    requires
        t.len() > 0,
        !is_space(t[0]),
        !is_space(t.last()),
    ensures
        trim(t) == t,
{
}

/// Two runs of ordinary text, each closed by a sentence ender, are split into
/// exactly two sentences: the first run with its ender, then the second.
pub proof fn lemma_two_closed_runs_split_in_two(a: Seq<char>, t1: char, b: Seq<char>, t2: char)
    requires
        a.len() > 0,
        b.len() > 0,
        running_text(a),
        running_text(b),
        t1 == '。' || t1 == '．' || t1 == '.' || t1 == '｡' || t1 == '！' || t1 == '!' || t1 == '？' || t1 == '?',
        t2 == '。' || t2 == '．' || t2 == '.' || t2 == '｡' || t2 == '！' || t2 == '!' || t2 == '？' || t2 == '?',
    ensures
        explode(a.push(t1) + b.push(t2)) == seq![a.push(t1), b.push(t2)],
{
    let empty = Seq::<char>::empty();
    assert(running_char(a[0]));
    assert(running_char(b[0]));
    assert(running_char(a[a.len() - 1]));
    assert(running_char(b[b.len() - 1]));
    // the first run
    lemma_scan_running(empty, a);
    assert(empty + a =~= a);
    assert(empty + a =~= a);
    let s1 = a.push(t1);
    assert(s1.drop_last() =~= a);
    assert(!is_space(t1));
    let first = s1;
    lemma_trim_of_solid(first);
    assert(!is_bang(first[0]));
    assert(!all_bangs(first));
    assert(explode_scan(s1) == (seq![first], empty, true));
    // the second run
    lemma_scan_running(s1, b);
    let s2 = (s1 + b).push(t2);
    assert(s2 =~= a.push(t1) + b.push(t2));
    assert(s2.drop_last() =~= s1 + b);
    assert(empty + b =~= b);
    let second = b.push(t2);
    assert(b.push(t2) =~= second);
    lemma_trim_of_solid(second);
    assert(!is_bang(second[0]));
    assert(!all_bangs(second));
    assert(explode_scan(s2) == (seq![first, second], empty, true));
    assert(trim(empty).len() == 0);
}

/// One run of ordinary text closed by a sentence ender is one sentence.
proof fn lemma_one_closed_run(a: Seq<char>, t: char)
    requires
        a.len() > 0,
        running_text(a),
        t == '。' || t == '．' || t == '.' || t == '｡' || t == '！' || t == '!' || t == '？' || t == '?',
    ensures
        explode(a.push(t)) == seq![a.push(t)],
{
    let empty = Seq::<char>::empty();
    assert(running_char(a[0]));
    lemma_scan_running(empty, a);
    assert(empty + a =~= a);
    let s1 = a.push(t);
    assert(s1.drop_last() =~= a);
    lemma_trim_of_solid(s1);
    assert(!is_bang(s1[0]));
    assert(!all_bangs(s1));
    assert(explode_scan(s1) == (seq![s1], empty, true));
    assert(trim(empty).len() == 0);
}

/// Running text without the brackets saku counts (`（`, `「`, `『`).
pub open spec fn unbracketed(r: Seq<char>) -> bool {
    forall|i: int| 0 <= i < r.len() ==> (#[trigger] r[i] != '（' && r[i] != '「' && r[i] != '『')
}

proof fn lemma_cut_running(r: Seq<char>, rest: Seq<char>, f0: nat, f1: nat, f2: nat, nest: nat, cur: Seq<char>)
    requires
        running_text(r),
        unbracketed(r),
    ensures
        saku_cut(r + rest, f0, f1, f2, nest, cur) == saku_cut(rest, f0, f1, f2, nest, cur + r),
    decreases r.len(),
{
    if r.len() == 0 {
        assert(r + rest =~= rest);
        assert(cur + r =~= cur);
    } else {
        let c = r[0];
        assert(running_char(r[0]));
        assert(r[0] != '（' && r[0] != '「' && r[0] != '『');
        assert((r + rest)[0] == c);
        assert((r + rest).drop_first() =~= r.drop_first() + rest);
        assert forall|i: int| 0 <= i < r.drop_first().len() implies running_char(#[trigger] r.drop_first()[i]) by {
            assert(r.drop_first()[i] == r[i + 1]);
        }
        assert forall|i: int| 0 <= i < r.drop_first().len() implies (#[trigger] r.drop_first()[i] != '（' && r.drop_first()[i] != '「' && r.drop_first()[i] != '『') by {
            assert(r.drop_first()[i] == r[i + 1]);
            assert(r[i + 1] != '（' && r[i + 1] != '「' && r[i + 1] != '『');
        }
        lemma_cut_running(r.drop_first(), rest, f0, f1, f2, nest, cur.push(c));
        assert(cur.push(c) + r.drop_first() =~= cur + r);
    }
}

/// A text of two runs of ordinary, unbracketed text, each closed by a sentence
/// ender, is split into exactly two sentences: the first run with its ender,
/// then the second; saku cuts after a `。` and `explode_sentence` after the rest.
pub proof fn lemma_two_closed_runs_are_two_sentences(a: Seq<char>, t1: char, b: Seq<char>, t2: char)
    requires
        a.len() > 0,
        b.len() > 0,
        running_text(a),
        running_text(b),
        unbracketed(a),
        unbracketed(b),
        t1 == '。' || t1 == '．' || t1 == '.' || t1 == '｡' || t1 == '！' || t1 == '!' || t1 == '？' || t1 == '?',
        t2 == '。' || t2 == '．' || t2 == '.' || t2 == '｡' || t2 == '！' || t2 == '!' || t2 == '？' || t2 == '?',
    ensures
        sentences_of(a.push(t1) + b.push(t2)) == seq![a.push(t1), b.push(t2)],
{
    let text = a.push(t1) + b.push(t2);
    let x = a.push(t1);
    let y = b.push(t2);
    let empty = Seq::<char>::empty();
    assert(running_char(a[0]));
    assert(text[0] == a[0]);
    assert(text.last() == t2);
    lemma_trim_of_solid(text);
    let t1s = seq![t1];
    let t2s = seq![t2];
    // saku's segments
    assert(text =~= a + (t1s + (b + t2s)));
    lemma_cut_running(a, t1s + (b + t2s), 0, 0, 0, 0, empty);
    assert(empty + a =~= a);
    let after_a = t1s + (b + t2s);
    assert(after_a[0] == t1);
    assert(after_a.drop_first() =~= b + t2s);
    lemma_cut_running(b, t2s, 0, 0, 0, 0, empty);
    lemma_cut_running(b, t2s, 0, 0, 0, 0, x);
    assert(empty + b =~= b);
    assert(t2s[0] == t2);
    assert(t2s.drop_first() =~= empty);
    let segs = saku_segments(text);
    let whole = x + b;
    if t1 == '。' {
        assert(saku_cut(after_a, 0, 0, 0, 0, a) == seq![a.push(t1)] + saku_cut(b + t2s, 0, 0, 0, 0, empty));
        if t2 == '。' {
            assert(saku_cut(t2s, 0, 0, 0, 0, b) == seq![b.push(t2)] + saku_cut(empty, 0, 0, 0, 0, empty));
        } else {
            assert(saku_cut(t2s, 0, 0, 0, 0, b) == saku_cut(empty, 0, 0, 0, 0, b.push(t2)));
        }
        assert(segs =~= seq![x, y]);
        lemma_one_closed_run(a, t1);
        lemma_one_closed_run(b, t2);
        let ex = segs.map_values(|seg: Seq<char>| explode(seg));
        assert(ex =~= seq![seq![x], seq![y]]);
        assert(ex.drop_first() =~= seq![seq![y]]);
        assert(ex.drop_first().drop_first() =~= Seq::<Seq<Seq<char>>>::empty());
        assert(ex.drop_first().drop_first().flatten() =~= Seq::<Seq<char>>::empty());
        assert(ex.drop_first().flatten() == ex.drop_first().first() + ex.drop_first().drop_first().flatten());
        assert(ex.flatten() == ex.first() + ex.drop_first().flatten());
        assert(ex.flatten() =~= seq![x, y]);
    } else {
        assert(saku_cut(after_a, 0, 0, 0, 0, a) == saku_cut(b + t2s, 0, 0, 0, 0, x));
        assert(x + b =~= whole);
        if t2 == '。' {
            assert(saku_cut(t2s, 0, 0, 0, 0, whole) == seq![whole.push(t2)] + saku_cut(empty, 0, 0, 0, 0, empty));
        } else {
            assert(saku_cut(t2s, 0, 0, 0, 0, whole) == saku_cut(empty, 0, 0, 0, 0, whole.push(t2)));
        }
        assert(whole.push(t2) =~= text);
        assert(segs =~= seq![text]);
        lemma_two_closed_runs_split_in_two(a, t1, b, t2);
        let ex = segs.map_values(|seg: Seq<char>| explode(seg));
        assert(ex =~= seq![seq![x, y]]);
        assert(ex.drop_first() =~= Seq::<Seq<Seq<char>>>::empty());
        assert(ex.drop_first().flatten() =~= Seq::<Seq<char>>::empty());
        assert(ex.flatten() == ex.first() + ex.drop_first().flatten());
        assert(ex.flatten() =~= seq![x, y]);
    }
}

} // verus!
