//! Markdown structure: byte-offset to line mapping and heading sections.

use vstd::prelude::*;
use pulldown_cmark::{Event, Options, Parser, Tag, TagEnd};
use crate::error::{res_view, ErrorView, KazeNhanhError};
use crate::text::{all_space, char_is_whitespace, chars_of, decimal, decimal_string, is_blank, is_space, push_char, string_from_range, trim, trim_bounds};

verus! {

broadcast use vstd::string::group_string_axioms;

/// Line starts of the first `n` bytes of `b`: offset 0, then one past every `\n`.
pub open spec fn starts_upto(b: Seq<u8>, n: nat) -> Seq<usize>
    decreases n,
{
    if n == 0 {
        seq![0usize]
    } else if b[n - 1] == 10u8 {
        starts_upto(b, (n - 1) as nat).push(n as usize)
    } else {
        starts_upto(b, (n - 1) as nat)
    }
}

/// Byte offsets at which the lines of a text with UTF-8 encoding `b` start.
pub open spec fn line_starts_of(b: Seq<u8>) -> Seq<usize> {
    starts_upto(b, b.len())
}

/// Number of elements of `s` that are at most `x`.
pub open spec fn count_le(s: Seq<usize>, x: int) -> nat
    decreases s.len(),
{
    if s.len() == 0 {
        0
    } else {
        count_le(s.drop_last(), x) + if s.last() <= x { 1nat } else { 0nat }
    }
}

/// Number of elements of `s` that are below `x`.
pub open spec fn count_lt(s: Seq<usize>, x: int) -> nat
    decreases s.len(),
{
    if s.len() == 0 {
        0
    } else {
        count_lt(s.drop_last(), x) + if s.last() < x { 1nat } else { 0nat }
    }
}

/// Strictly increasing, starting at 0, bounded by `len`.
pub open spec fn valid_starts(s: Seq<usize>, len: int) -> bool {
    &&& s.len() > 0
    &&& s[0] == 0
    &&& forall|i: int, j: int| 0 <= i < j < s.len() ==> s[i] < s[j]
    &&& forall|i: int| 0 <= i < s.len() ==> s[i] <= len
}

proof fn lemma_starts_upto_valid(b: Seq<u8>, n: nat)
    requires
        n <= b.len(),
        b.len() <= usize::MAX,
    ensures
        valid_starts(starts_upto(b, n), n as int),
    decreases n,
{
    if n > 0 {
        lemma_starts_upto_valid(b, (n - 1) as nat);
    }
}

/// In a sorted sequence, the elements at most `x` form a prefix of length `k`.
proof fn lemma_count_le_prefix(s: Seq<usize>, x: int, k: int)
    requires
        0 <= k <= s.len(),
        forall|i: int| 0 <= i < k ==> s[i] <= x,
        forall|i: int| k <= i < s.len() ==> s[i] > x,
    ensures
        count_le(s, x) == k,
    decreases s.len(),
{
    if s.len() > 0 {
        if k == s.len() {
            lemma_count_le_prefix(s.drop_last(), x, k - 1);
        } else {
            lemma_count_le_prefix(s.drop_last(), x, k);
        }
    }
}

proof fn lemma_count_lt_prefix(s: Seq<usize>, x: int, k: int)
    requires
        0 <= k <= s.len(),
        forall|i: int| 0 <= i < k ==> s[i] < x,
        forall|i: int| k <= i < s.len() ==> s[i] >= x,
    ensures
        count_lt(s, x) == k,
    decreases s.len(),
{
    if s.len() > 0 {
        if k == s.len() {
            lemma_count_lt_prefix(s.drop_last(), x, k - 1);
        } else {
            lemma_count_lt_prefix(s.drop_last(), x, k);
        }
    }
}

/// `count_le` never decreases as `x` grows.
pub proof fn lemma_count_le_monotone(s: Seq<usize>, x: int, y: int)
    requires
        x <= y,
    ensures
        count_le(s, x) <= count_le(s, y),
        count_le(s, x) <= s.len(),
    decreases s.len(),
{
    if s.len() > 0 {
        lemma_count_le_monotone(s.drop_last(), x, y);
    }
}

/// Maps byte offsets to 1-based line numbers for Markdown documents.
#[derive(Debug, PartialEq, Eq)]
pub struct LineOffsetMap {
    line_starts: Vec<usize>,
    text_len: usize,
}

/// What a map keeps of a text: the byte offsets at which its lines start, and
/// its byte length.
pub open spec fn map_of(text: Seq<char>) -> (Seq<usize>, nat) {
    (line_starts_of(vstd::utf8::encode_utf8(text)), vstd::utf8::encode_utf8(text).len())
}

impl View for LineOffsetMap {
    type V = (Seq<usize>, nat);

    closed spec fn view(&self) -> (Seq<usize>, nat) {
        (self.line_starts@, self.text_len as nat)
    }
}

impl LineOffsetMap {
    #[verifier::type_invariant]
    spec fn well_formed(self) -> bool {
        valid_starts(self.line_starts@, self.text_len as int)
    }

    /// Byte offsets at which lines start.
    pub closed spec fn starts(self) -> Seq<usize> {
        self.line_starts@
    }

    /// Byte length of the mapped text.
    pub closed spec fn len(self) -> nat {
        self.text_len as nat
    }

    /// The line (1-based) containing byte `offset`: the number of line starts at or before it.
    pub open spec fn line_of(self, offset: int) -> u32 {
        count_le(self.starts(), offset) as u32
    }

    /// The number of lines `total_lines` reports.
    pub open spec fn total(self) -> u32 {
        total_lines_in(self.starts(), self.len())
    }

    /// Builds a new offset map from the provided Markdown source.
    pub fn new(text: &str) -> (m: Self)
        ensures
            m.starts() == line_starts_of(vstd::utf8::encode_utf8(text@)),
            m.len() == vstd::utf8::encode_utf8(text@).len(),
            m@ == map_of(text@),
    {
        let bytes = text.as_bytes();
        let mut line_starts: Vec<usize> = Vec::new();
        line_starts.push(0);
        let mut i: usize = 0;
        while i < bytes.len()
            invariant
                i <= bytes@.len(),
                bytes@ == vstd::utf8::encode_utf8(text@),
                line_starts@ == starts_upto(bytes@, i as nat),
            decreases bytes.len() - i,
        {
            if bytes[i] == 10u8 {
                line_starts.push(i + 1);
            }
            i += 1;
        }
        proof {
            lemma_starts_upto_valid(bytes@, bytes@.len());
        }
        LineOffsetMap { line_starts, text_len: bytes.len() }
    }

    /// Returns the total number of lines represented in the source.
    pub fn total_lines(&self) -> (n: u32)
        ensures
            n == self.total(),
    {
        proof { use_type_invariant(self); }
        if self.text_len == 0 {
            return 0;
        }
        // starts below the end form a prefix of the sorted starts
        let mut k: usize = 0;
        while k < self.line_starts.len() && self.line_starts[k] < self.text_len
            invariant
                k <= self.line_starts@.len(),
                valid_starts(self.line_starts@, self.text_len as int),
                forall|i: int| 0 <= i < k ==> self.line_starts@[i] < self.text_len,
            decreases self.line_starts.len() - k,
        {
            k += 1;
        }
        proof {
            lemma_count_lt_prefix(self.line_starts@, self.text_len as int, k as int);
        }
        #[verifier::truncate] (k as u32)
    }

    /// Number of line starts at or before `offset` (binary search over the sorted starts).
    fn starts_at_or_before(&self, offset: usize) -> (k: usize)
        ensures
            k == count_le(self.starts(), offset as int),
            k <= self.starts().len(),
    {
        proof { use_type_invariant(self); }
        let mut lo: usize = 0;
        let mut hi: usize = self.line_starts.len();
        while lo < hi
            invariant
                lo <= hi <= self.line_starts@.len(),
                valid_starts(self.line_starts@, self.text_len as int),
                forall|i: int| 0 <= i < lo ==> self.line_starts@[i] <= offset,
                forall|i: int| hi <= i < self.line_starts@.len() ==> self.line_starts@[i] > offset,
            decreases hi - lo,
        {
            let mid = lo + (hi - lo) / 2;
            if self.line_starts[mid] <= offset {
                lo = mid + 1;
            } else {
                hi = mid;
            }
        }
        proof {
            lemma_count_le_prefix(self.line_starts@, offset as int, lo as int);
        }
        lo
    }

    /// Resolves the line number containing the supplied byte offset.
    pub fn line_for_offset(&self, offset: usize) -> (r: Result<u32, KazeNhanhError>)
        ensures
            res_view(r) == offset_line(*self, offset as int),
    {
        if offset > self.text_len {
            return Err(KazeNhanhError::MarkdownParseError(offset_error(offset, self.text_len)));
        }
        let k = self.starts_at_or_before(offset);
        let line = #[verifier::truncate] (k as u32);
        Ok(line)
    }

    /// Resolves the inclusive line span covered by the provided byte range.
    pub fn line_span(&self, range: std::ops::Range<usize>) -> (r: Result<(u32, u32), KazeNhanhError>)
        ensures
            res_view(r) == span_of(*self, range.start as int, range.end as int),
    {
        if range.start > range.end {
            return Err(KazeNhanhError::MarkdownParseError(range_error(range.start, range.end)));
        }
        let start_line = match self.line_for_offset(range.start) {
            Ok(l) => l,
            Err(e) => return Err(e),
        };
        if range.start == range.end {
            return Ok((start_line, start_line));
        }
        let mut end_offset = range.end - 1;
        if end_offset > self.text_len {
            end_offset = self.text_len;
        }
        let end_line = match self.line_for_offset(end_offset) {
            Ok(l) => l,
            Err(e) => return Err(e),
        };
        if end_line >= start_line {
            Ok((start_line, end_line))
        } else {
            Ok((start_line, start_line))
        }
    }
}

/// There is at most one line start per byte, plus the first.
proof fn lemma_starts_upto_len(b: Seq<u8>, n: nat)
    requires
        n <= b.len(),
    ensures
        starts_upto(b, n).len() <= n + 1,
        starts_upto(b, n).len() > 0,
        starts_upto(b, n)[0] == 0,
    decreases n,
{
    if n > 0 {
        lemma_starts_upto_len(b, (n - 1) as nat);
    }
}

/// When the first element is at most `x`, at least one element is.
proof fn lemma_count_le_first(s: Seq<usize>, x: int)
    requires
        s.len() > 0,
        s[0] <= x,
    ensures
        count_le(s, x) >= 1,
    decreases s.len(),
{
    if s.len() > 1 {
        lemma_count_le_first(s.drop_last(), x);
    }
}

/// Line numbers grow with byte offsets: in a document with fewer than
/// `u32::MAX` line feeds, every offset up to its length lies on a line
/// numbered from 1, and a later offset never lies on an earlier line.
pub proof fn lemma_lines_grow_with_offsets(text: Seq<char>, a: int, b: int)
    requires
        0 <= a <= b <= vstd::utf8::encode_utf8(text).len(),
        vstd::utf8::encode_utf8(text).len() <= usize::MAX,
        newlines(vstd::utf8::encode_utf8(text), vstd::utf8::encode_utf8(text).len()) < u32::MAX,
    ensures
        ({
            let bytes = vstd::utf8::encode_utf8(text);
            let starts = line_starts_of(bytes);
            &&& offset_line_in(starts, bytes.len(), a) is Ok
            &&& offset_line_in(starts, bytes.len(), b) is Ok
            &&& 1 <= offset_line_in(starts, bytes.len(), a)->Ok_0
            &&& offset_line_in(starts, bytes.len(), a)->Ok_0 <= offset_line_in(starts, bytes.len(), b)->Ok_0
        }),
{
    let bytes = vstd::utf8::encode_utf8(text);
    lemma_count_le_newlines(bytes, bytes.len(), a);
    lemma_count_le_newlines(bytes, bytes.len(), b);
    lemma_newlines_monotone(bytes, a as nat, b as nat);
    lemma_newlines_monotone(bytes, b as nat, bytes.len());
}

/// Number of line feeds among the first `n` bytes of `b`.
pub open spec fn newlines(b: Seq<u8>, n: nat) -> nat
    decreases n,
{
    if n == 0 {
        0
    } else {
        newlines(b, (n - 1) as nat) + if b[n - 1] == 10u8 { 1nat } else { 0nat }
    }
}

proof fn lemma_newlines_monotone(b: Seq<u8>, m: nat, n: nat)
    requires
        m <= n,
    ensures
        newlines(b, m) <= newlines(b, n),
        newlines(b, n) <= n,
    decreases n,
{
    if n > 0 {
        if m < n {
            lemma_newlines_monotone(b, m, (n - 1) as nat);
        } else {
            lemma_newlines_monotone(b, (n - 1) as nat, (n - 1) as nat);
        }
    }
}

proof fn lemma_count_le_push(s: Seq<usize>, v: usize, x: int)
    ensures
        count_le(s.push(v), x) == count_le(s, x) + if v <= x { 1nat } else { 0nat },
        count_lt(s.push(v), x) == count_lt(s, x) + if v < x { 1nat } else { 0nat },
{
    assert(s.push(v).drop_last() =~= s);
}

/// The line starts at or before `x` are the first line and one more per line
/// feed before `x`.
proof fn lemma_count_le_newlines(b: Seq<u8>, n: nat, x: int)
    requires
        n <= b.len(),
        b.len() <= usize::MAX,
        x >= 0,
    ensures
        count_le(starts_upto(b, n), x) == 1 + newlines(b, if n as int <= x { n } else { x as nat }),
        count_lt(starts_upto(b, n), x + 1) == count_le(starts_upto(b, n), x),
    decreases n,
{
    if n == 0 {
        lemma_count_le_push(Seq::<usize>::empty(), 0usize, x);
        lemma_count_le_push(Seq::<usize>::empty(), 0usize, x + 1);
        assert(Seq::<usize>::empty().push(0usize) =~= seq![0usize]);
    } else {
        lemma_count_le_newlines(b, (n - 1) as nat, x);
        let prev = starts_upto(b, (n - 1) as nat);
        assert(newlines(b, n) == newlines(b, (n - 1) as nat) + if b[n - 1] == 10u8 { 1nat } else { 0nat });
        if b[n - 1] == 10u8 {
            assert(starts_upto(b, n) == prev.push(n as usize));
            lemma_count_le_push(prev, n as usize, x);
            lemma_count_le_push(prev, n as usize, x + 1);
        } else {
            assert(starts_upto(b, n) == prev);
        }
    }
}

/// Line numbers count line feeds: a text has no lines when empty and
/// otherwise one more than the line feeds before its last byte; the line of a
/// byte offset up to the length is one more than the line feeds before it,
/// and an offset past the length is an error.
pub proof fn lemma_lines_count_newlines(text: Seq<char>, o: int)
    requires
        vstd::utf8::encode_utf8(text).len() <= usize::MAX,
    ensures
        ({
            let b = vstd::utf8::encode_utf8(text);
            let starts = line_starts_of(b);
            &&& total_lines_in(starts, b.len()) == (if b.len() == 0 { 0nat } else { 1 + newlines(b, (b.len() - 1) as nat) }) as u32
            &&& (0 <= o <= b.len() ==> offset_line_in(starts, b.len(), o) == Ok::<u32, ErrorView>((1 + newlines(b, o as nat)) as u32))
            &&& (o > b.len() ==> offset_line_in(starts, b.len(), o) is Err)
        }),
{
    let b = vstd::utf8::encode_utf8(text);
    if b.len() > 0 {
        lemma_count_le_newlines(b, b.len(), b.len() - 1);
        lemma_newlines_monotone(b, (b.len() - 1) as nat, (b.len() - 1) as nat);
    }
    if 0 <= o <= b.len() {
        lemma_count_le_newlines(b, b.len(), o);
        lemma_newlines_monotone(b, o as nat, o as nat);
    }
}

/// The line span of a byte range counts line feeds: an error when the range
/// is reversed or starts past the text; otherwise the line of its start, and
/// the line of its last byte (clamped to the text's end), or the start's line
/// again for an empty range.
pub proof fn lemma_span_counts_newlines(m: LineOffsetMap, text: Seq<char>, start: int, end: int)
    requires
        m.starts() == line_starts_of(vstd::utf8::encode_utf8(text)),
        m.len() == vstd::utf8::encode_utf8(text).len(),
        vstd::utf8::encode_utf8(text).len() <= usize::MAX,
        newlines(vstd::utf8::encode_utf8(text), vstd::utf8::encode_utf8(text).len()) < u32::MAX,
        0 <= start,
        0 <= end,
    ensures
        ({
            let b = vstd::utf8::encode_utf8(text);
            let line = |x: int| (1 + newlines(b, x as nat)) as u32;
            &&& (span_of(m, start, end) is Err <==> start > end || start > b.len())
            &&& (!(start > end || start > b.len()) ==> span_of(m, start, end) == Ok::<(u32, u32), ErrorView>(
                (line(start), if start == end { line(start) } else { line(if end - 1 > b.len() { b.len() as int } else { end - 1 }) }),
            ))
        }),
{
    let b = vstd::utf8::encode_utf8(text);
    if start <= end && start <= b.len() {
        lemma_count_le_newlines(b, b.len(), start);
        lemma_newlines_monotone(b, start as nat, b.len());
        if start < end {
            let last = if end - 1 > b.len() { b.len() as int } else { end - 1 };
            lemma_count_le_newlines(b, b.len(), last);
            lemma_newlines_monotone(b, start as nat, last as nat);
            lemma_newlines_monotone(b, last as nat, b.len());
        }
    }
}

/// Every line start of the first `n` bytes is at most `n`, and `i + 1` is a
/// line start exactly when byte `i` is a line feed.
proof fn lemma_starts_mark_newlines(b: Seq<u8>, n: nat)
    requires
        n <= b.len(),
        b.len() <= usize::MAX,
    ensures
        forall|k: int| 0 <= k < starts_upto(b, n).len() ==> starts_upto(b, n)[k] <= n,
        forall|i: int| 0 <= i < n ==> (starts_upto(b, n).contains((i + 1) as usize) <==> b[i] == 10u8),
    decreases n,
{
    if n > 0 {
        lemma_starts_mark_newlines(b, (n - 1) as nat);
        let prev = starts_upto(b, (n - 1) as nat);
        let cur = starts_upto(b, n);
        assert forall|i: int| 0 <= i < n implies (cur.contains((i + 1) as usize) <==> b[i] == 10u8) by {
            if cur.contains((i + 1) as usize) {
                let k = choose|k: int| 0 <= k < cur.len() && cur[k] == (i + 1) as usize;
                if k < prev.len() {
                    assert(prev[k] == cur[k]);
                }
            }
            if i < n - 1 && prev.contains((i + 1) as usize) {
                let k = choose|k: int| 0 <= k < prev.len() && prev[k] == (i + 1) as usize;
                assert(cur[k] == prev[k]);
            }
            if i == n - 1 && b[i] == 10u8 {
                assert(cur == prev.push(n as usize));
                assert(cur[prev.len() as int] == n as usize);
            }
            if i == n - 1 && cur.contains((i + 1) as usize) && b[i] != 10u8 {
                let k = choose|k: int| 0 <= k < cur.len() && cur[k] == (i + 1) as usize;
                assert(cur == prev);
                assert(prev[k] <= n - 1);
            }
        }
    }
}

/// Two texts give the same map exactly when they have the same byte length
/// and line feeds at the same byte positions.
pub proof fn lemma_maps_equal_iff_same_newlines(ta: Seq<char>, tb: Seq<char>)
    requires
        vstd::utf8::encode_utf8(ta).len() <= usize::MAX,
        vstd::utf8::encode_utf8(tb).len() <= usize::MAX,
    ensures
        ({
            let a = vstd::utf8::encode_utf8(ta);
            let b = vstd::utf8::encode_utf8(tb);
            map_of(ta) == map_of(tb)
                <==> (a.len() == b.len() && forall|i: int| 0 <= i < a.len() ==> (a[i] == 10u8) == (b[i] == 10u8))
        }),
{
    let a = vstd::utf8::encode_utf8(ta);
    let b = vstd::utf8::encode_utf8(tb);
    if a.len() == b.len() {
        lemma_starts_mark_newlines(a, a.len());
        lemma_starts_mark_newlines(b, b.len());
        if forall|i: int| 0 <= i < a.len() ==> (a[i] == 10u8) == (b[i] == 10u8) {
            lemma_same_newlines_same_starts(a, b, a.len());
        }
    }
}

proof fn lemma_same_newlines_same_starts(a: Seq<u8>, b: Seq<u8>, n: nat)
    requires
        n <= a.len(),
        n <= b.len(),
        forall|i: int| 0 <= i < n ==> (a[i] == 10u8) == (b[i] == 10u8),
    ensures
        starts_upto(a, n) == starts_upto(b, n),
    decreases n,
{
    if n > 0 {
        lemma_same_newlines_same_starts(a, b, (n - 1) as nat);
    }
}

/// Message for an offset beyond the document.
pub open spec fn offset_error_text(offset: nat, len: nat) -> Seq<char> {
    "byte offset "@ + decimal(offset) + " exceeds document length "@ + decimal(len)
}

/// Message for a reversed range.
pub open spec fn range_error_text(start: nat, end: nat) -> Seq<char> {
    "invalid offset range: "@ + decimal(start) + ".."@ + decimal(end)
}

/// Lines of a text with the given line starts and byte length: the starts before its end.
pub open spec fn total_lines_in(starts: Seq<usize>, len: nat) -> u32 {
    if len == 0 { 0u32 } else { count_lt(starts, len as int) as u32 }
}

/// The line holding byte `offset` of a text with the given line starts and byte
/// length, or the error reported for an offset past its end.
pub open spec fn offset_line_in(starts: Seq<usize>, len: nat, offset: int) -> Result<u32, ErrorView> {
    if offset > len {
        Err(ErrorView::MarkdownParseError(offset_error_text(offset as nat, len)))
    } else {
        Ok(count_le(starts, offset) as u32)
    }
}

/// The line holding byte `offset`, or the error `line_for_offset` reports.
pub open spec fn offset_line(m: LineOffsetMap, offset: int) -> Result<u32, ErrorView> {
    offset_line_in(m.starts(), m.len(), offset)
}

/// The inclusive line span of bytes `start..end`, or the error `line_span` reports.
pub open spec fn span_of(m: LineOffsetMap, start: int, end: int) -> Result<(u32, u32), ErrorView> {
    if start > end {
        Err(ErrorView::MarkdownParseError(range_error_text(start as nat, end as nat)))
    } else if start > m.len() {
        Err(ErrorView::MarkdownParseError(offset_error_text(start as nat, m.len())))
    } else if start == end {
        Ok((m.line_of(start), m.line_of(start)))
    } else {
        let last = if end - 1 > m.len() { m.len() as int } else { end - 1 };
        let e = m.line_of(last);
        let s = m.line_of(start);
        Ok((s, if e >= s { e } else { s }))
    }
}

fn offset_error(offset: usize, len: usize) -> (s: String)
    ensures
        s@ == offset_error_text(offset as nat, len as nat),
{
    let mut s = String::from_str("byte offset ");
    s.append(decimal_string(offset as u64).as_str());
    s.append(" exceeds document length ");
    s.append(decimal_string(len as u64).as_str());
    s
}

fn range_error(start: usize, end: usize) -> (s: String)
    ensures
        s@ == range_error_text(start as nat, end as nat),
{
    let mut s = String::from_str("invalid offset range: ");
    s.append(decimal_string(start as u64).as_str());
    s.append("..");
    s.append(decimal_string(end as u64).as_str());
    s
}


/// Each maximal run of whitespace becomes one space; `prev_space` tells whether
/// the text before `s` ended in such a run.
pub open spec fn collapse_spaces(s: Seq<char>, prev_space: bool) -> Seq<char>
    decreases s.len(),
{
    if s.len() == 0 {
        seq![]
    } else if is_space(s[0]) {
        if prev_space {
            collapse_spaces(s.drop_first(), true)
        } else {
            seq![' '] + collapse_spaces(s.drop_first(), true)
        }
    } else {
        seq![s[0]] + collapse_spaces(s.drop_first(), false)
    }
}

/// A heading title: whitespace runs collapsed to single spaces, then trimmed.
pub open spec fn normalized_title(s: Seq<char>) -> Seq<char> {
    trim(collapse_spaces(s, false))
}

/// The whitespace of collapsed text: single spaces, never two in a row, and
/// none at the start when the text before already ended in whitespace.
pub open spec fn collapsed_shape(c: Seq<char>, prev_space: bool) -> bool {
    forall|i: int| 0 <= i < c.len() && is_space(#[trigger] c[i]) ==> c[i] == ' ' && (i + 1 < c.len() ==> !is_space(c[i + 1]))
        && (i == 0 ==> !prev_space)
}

proof fn lemma_collapse_shape(s: Seq<char>, p: bool)
    ensures
        collapsed_shape(collapse_spaces(s, p), p),
    decreases s.len(),
{
    if s.len() > 0 {
        let rest = s.drop_first();
        if is_space(s[0]) {
            lemma_collapse_shape(rest, true);
            if !p {
                let r = collapse_spaces(rest, true);
                let c = seq![' '] + r;
                assert forall|i: int| 0 <= i < c.len() && is_space(#[trigger] c[i]) implies c[i] == ' ' && (i + 1 < c.len() ==> !is_space(c[i + 1]))
                    && (i == 0 ==> !p) by {
                    if i > 0 {
                        assert(c[i] == r[i - 1]);
                        if i + 1 < c.len() {
                            assert(c[i + 1] == r[i]);
                        }
                    } else if c.len() > 1 {
                        assert(c[1] == r[0]);
                    }
                }
            }
        } else {
            lemma_collapse_shape(rest, false);
            let r = collapse_spaces(rest, false);
            let c = seq![s[0]] + r;
            assert forall|i: int| 0 <= i < c.len() && is_space(#[trigger] c[i]) implies c[i] == ' ' && (i + 1 < c.len() ==> !is_space(c[i + 1]))
                && (i == 0 ==> !p) by {
                if i > 0 {
                    assert(c[i] == r[i - 1]);
                    if i + 1 < c.len() {
                        assert(c[i + 1] == r[i]);
                    }
                }
            }
        }
    }
}

/// A normalized heading title neither starts nor ends with whitespace, and
/// its only whitespace is single spaces between words.
pub proof fn lemma_normalized_title_shape(s: Seq<char>)
    ensures
        forall|i: int| 0 <= i < normalized_title(s).len() && is_space(#[trigger] normalized_title(s)[i])
            ==> normalized_title(s)[i] == ' ' && 0 < i < normalized_title(s).len() - 1 && !is_space(normalized_title(s)[i + 1]),
{
    let c = collapse_spaces(s, false);
    lemma_collapse_shape(s, false);
    let x = crate::text::trim_start(c);
    crate::text::lemma_trim_start_suffix(c);
    crate::text::lemma_trim_end_prefix(x);
    let t = normalized_title(s);
    let k = choose|k: int| 0 <= k <= c.len() && x == c.subrange(k, c.len() as int) && all_space(c.subrange(0, k));
    let j = choose|j: int| 0 <= j <= x.len() && crate::text::trim_end(x) == x.subrange(0, j);
    assert(t == c.subrange(k, k + j));
    assert forall|i: int| 0 <= i < t.len() && is_space(#[trigger] t[i]) implies t[i] == ' ' && 0 < i < t.len() - 1 && !is_space(t[i + 1]) by {
        assert(t[i] == c[k + i]);
        if i == 0 {
            assert(t[0] == x[0]);
        }
        assert(t.last() == t[t.len() - 1]);
        if i + 1 < t.len() {
            assert(t[i + 1] == c[k + i + 1]);
        }
    }
}

/// Text already in collapsed shape is left as it is by collapsing.
proof fn lemma_collapse_fixed(x: Seq<char>, p: bool)
    requires
        collapsed_shape(x, p),
    ensures
        collapse_spaces(x, p) == x,
    decreases x.len(),
{
    if x.len() > 0 {
        let rest = x.drop_first();
        assert forall|i: int| 0 <= i < rest.len() && is_space(#[trigger] rest[i]) implies rest[i] == ' ' && (i + 1 < rest.len() ==> !is_space(rest[i + 1]))
            && (i == 0 ==> !is_space(x[0])) by {
            assert(rest[i] == x[i + 1]);
            if i + 1 < rest.len() {
                assert(rest[i + 1] == x[i + 2]);
            }
        }
        lemma_collapse_fixed(rest, is_space(x[0]));
        assert(x =~= seq![x[0]] + rest);
    }
}

/// Normalizing a normalized title changes nothing.
pub proof fn lemma_normalized_title_idempotent(s: Seq<char>)
    ensures
        normalized_title(normalized_title(s)) == normalized_title(s),
{
    let t = normalized_title(s);
    lemma_normalized_title_shape(s);
    assert(collapsed_shape(t, false));
    lemma_collapse_fixed(t, false);
    if t.len() > 0 {
        assert(!is_space(t[0]));
        assert(!is_space(t[t.len() - 1]));
        assert(crate::text::trim_start(t) == t);
        assert(crate::text::trim_end(t) == t);
    }
}

proof fn lemma_collapse_non_space(s: Seq<char>, p: bool)
    ensures
        crate::sentences::non_space(collapse_spaces(s, p)) == crate::sentences::non_space(s),
    decreases s.len(),
{
    if s.len() > 0 {
        let rest = s.drop_first();
        lemma_collapse_non_space(rest, is_space(s[0]));
        let head = seq![s[0]];
        assert(s =~= head + rest);
        crate::sentences::lemma_non_space_append(head, rest);
        crate::sentences::lemma_non_space_push(Seq::<char>::empty(), s[0]);
        assert(Seq::<char>::empty().push(s[0]) =~= head);
        assert(crate::sentences::non_space(Seq::<char>::empty()) =~= Seq::<char>::empty());
        if is_space(s[0]) {
            if !p {
                let sp = seq![' '];
                crate::sentences::lemma_non_space_append(sp, collapse_spaces(rest, true));
                crate::sentences::lemma_non_space_push(Seq::<char>::empty(), ' ');
                assert(Seq::<char>::empty().push(' ') =~= sp);
            }
        } else {
            crate::sentences::lemma_non_space_append(head, collapse_spaces(rest, false));
        }
    }
}

/// Normalizing a title keeps its non-whitespace characters, in order.
pub proof fn lemma_normalized_title_keeps_characters(s: Seq<char>)
    ensures
        crate::sentences::non_space(normalized_title(s)) == crate::sentences::non_space(s),
{
    lemma_collapse_non_space(s, false);
    crate::sentences::lemma_non_space_trim(collapse_spaces(s, false));
}

/// The words of `s`, as `str::split_whitespace` yields them: its maximal
/// runs of non-whitespace characters, in order.
pub open spec fn words(s: Seq<char>) -> Seq<Seq<char>>
    decreases s.len(),
{
    if s.len() == 0 {
        seq![]
    } else {
        let rest = words(s.drop_first());
        if is_space(s[0]) {
            rest
        } else if s.len() > 1 && !is_space(s[1]) {
            rest.update(0, seq![s[0]] + rest[0])
        } else {
            seq![seq![s[0]]] + rest
        }
    }
}

/// The words of `s` joined by single spaces.
pub open spec fn spaced_words(s: Seq<char>) -> Seq<char> {
    crate::text::join(words(s), seq![' '])
}

/// Every word is a non-empty run of non-whitespace characters; there are no
/// words exactly when the text is all whitespace; a text starting with a
/// non-whitespace character starts its first word with it.
proof fn lemma_words_shape(s: Seq<char>)
    ensures
        forall|i: int| 0 <= i < words(s).len() ==> (#[trigger] words(s)[i]).len() > 0
            && forall|j: int| 0 <= j < words(s)[i].len() ==> !is_space(#[trigger] words(s)[i][j]),
        words(s).len() == 0 <==> all_space(s),
        s.len() > 0 && !is_space(s[0]) ==> words(s).len() > 0 && words(s)[0][0] == s[0],
    decreases s.len(),
{
    if s.len() > 0 {
        let rest = s.drop_first();
        lemma_words_shape(rest);
        let w = words(rest);
        if all_space(s) {
            assert forall|i: int| 0 <= i < rest.len() implies is_space(#[trigger] rest[i]) by {
                assert(rest[i] == s[i + 1]);
            }
        }
        if is_space(s[0]) && all_space(rest) {
            assert forall|i: int| 0 <= i < s.len() implies is_space(#[trigger] s[i]) by {
                if i > 0 {
                    assert(s[i] == rest[i - 1]);
                }
            }
        }
        if !is_space(s[0]) {
            assert(!all_space(s));
            if s.len() > 1 && !is_space(s[1]) {
                assert(rest[0] == s[1]);
                let out = w.update(0, seq![s[0]] + w[0]);
                assert forall|i: int| 0 <= i < out.len() implies (#[trigger] out[i]).len() > 0
                    && forall|j: int| 0 <= j < out[i].len() ==> !is_space(#[trigger] out[i][j]) by {
                    if i == 0 {
                        assert forall|j: int| 0 <= j < out[0].len() implies !is_space(#[trigger] out[0][j]) by {
                            if j > 0 {
                                assert(out[0][j] == w[0][j - 1]);
                            }
                        }
                    }
                }
            } else {
                let out = seq![seq![s[0]]] + w;
                assert forall|i: int| 0 <= i < out.len() implies (#[trigger] out[i]).len() > 0
                    && forall|j: int| 0 <= j < out[i].len() ==> !is_space(#[trigger] out[i][j]) by {
                    if i > 0 {
                        assert(out[i] == w[i - 1]);
                    }
                }
            }
        }
    }
}

/// Joining with a word in front.
proof fn lemma_join_front(w: Seq<char>, r: Seq<Seq<char>>, sep: Seq<char>)
    ensures
        crate::text::join(seq![w] + r, sep) == if r.len() == 0 { w } else { w + sep + crate::text::join(r, sep) },
    decreases r.len(),
{
    let all = seq![w] + r;
    if r.len() == 0 {
        assert(all =~= seq![w]);
    } else {
        lemma_join_front(w, r.drop_last(), sep);
        assert(all.drop_last() =~= seq![w] + r.drop_last());
        assert(all.last() == r.last());
        if r.len() == 1 {
            assert(r.drop_last() =~= Seq::<Seq<char>>::empty());
            assert(r[0] == r.last());
        } else {
            assert(crate::text::join(all, sep) =~= w + sep + crate::text::join(r, sep));
        }
    }
}

/// Joining after growing the first word at its front.
proof fn lemma_join_grow_first(c: Seq<char>, r: Seq<Seq<char>>, sep: Seq<char>)
    requires
        r.len() > 0,
    ensures
        crate::text::join(r.update(0, c + r[0]), sep) == c + crate::text::join(r, sep),
{
    let rest = r.drop_first();
    assert(r =~= seq![r[0]] + rest);
    assert(r.update(0, c + r[0]) =~= seq![c + r[0]] + rest);
    lemma_join_front(r[0], rest, sep);
    lemma_join_front(c + r[0], rest, sep);
    if rest.len() > 0 {
        assert(c + r[0] + sep + crate::text::join(rest, sep) =~= c + (r[0] + sep + crate::text::join(rest, sep)));
    }
}

/// Words joined by spaces, when any, start with the first word's first
/// character and end with the last word's last character.
proof fn lemma_join_edges(parts: Seq<Seq<char>>)
    requires
        parts.len() > 0,
        forall|i: int| 0 <= i < parts.len() ==> (#[trigger] parts[i]).len() > 0,
    ensures
        crate::text::join(parts, seq![' ']).len() > 0,
        crate::text::join(parts, seq![' '])[0] == parts[0][0],
        crate::text::join(parts, seq![' ']).last() == parts.last().last(),
    decreases parts.len(),
{
    if parts.len() > 1 {
        assert forall|i: int| 0 <= i < parts.drop_last().len() implies (#[trigger] parts.drop_last()[i]).len() > 0 by {
            assert(parts.drop_last()[i] == parts[i]);
        }
        lemma_join_edges(parts.drop_last());
        assert(parts.drop_last()[0] == parts[0]);
        assert(parts.last() == parts[parts.len() - 1]);
    } else {
        assert(parts.last() == parts[0]);
    }
}

/// The whitespace before the words that collapsing keeps: a space when the
/// text starts with whitespace and nothing before already ended in it.
pub open spec fn collapse_lead(s: Seq<char>, prev_space: bool) -> Seq<char> {
    if !prev_space && s.len() > 0 && is_space(s[0]) { seq![' '] } else { seq![] }
}

/// The whitespace after the words that collapsing keeps: a space when the
/// text has words and ends with whitespace.
pub open spec fn collapse_tail(s: Seq<char>) -> Seq<char> {
    if s.len() > 0 && is_space(s.last()) && words(s).len() > 0 { seq![' '] } else { seq![] }
}

/// Collapsing whitespace gives the words joined by single spaces, with one
/// space kept for leading and for trailing whitespace.
proof fn lemma_collapse_is_spaced_words(s: Seq<char>, p: bool)
    ensures
        collapse_spaces(s, p) == collapse_lead(s, p) + spaced_words(s) + collapse_tail(s),
    decreases s.len(),
{
    if s.len() == 0 {
        assert(collapse_lead(s, p) + spaced_words(s) + collapse_tail(s) =~= Seq::<char>::empty());
    } else {
        let rest = s.drop_first();
        let c0 = seq![s[0]];
        let sp = seq![' '];
        lemma_words_shape(s);
        lemma_words_shape(rest);
        if rest.len() > 0 {
            assert(s.last() == rest.last());
        }
        if is_space(s[0]) {
            lemma_collapse_is_spaced_words(rest, true);
            if rest.len() == 0 {
                assert(all_space(s));
            }
            assert(collapse_spaces(s, p) =~= collapse_lead(s, p) + spaced_words(s) + collapse_tail(s));
        } else {
            lemma_collapse_is_spaced_words(rest, false);
            let w = words(rest);
            if rest.len() == 0 {
                assert(words(s) =~= seq![c0]);
                lemma_join_front(c0, Seq::<Seq<char>>::empty(), sp);
                assert(seq![c0] =~= seq![c0] + Seq::<Seq<char>>::empty());
                assert(collapse_spaces(s, p) =~= collapse_lead(s, p) + spaced_words(s) + collapse_tail(s));
            } else if !is_space(rest[0]) {
                assert(rest[0] == s[1]);
                lemma_join_grow_first(c0, w, sp);
                assert(collapse_spaces(s, p) =~= collapse_lead(s, p) + spaced_words(s) + collapse_tail(s));
            } else {
                assert(rest[0] == s[1]);
                lemma_join_front(c0, w, sp);
                if w.len() == 0 {
                    assert(all_space(rest));
                    assert(is_space(rest.last()));
                    assert(collapse_spaces(s, p) =~= collapse_lead(s, p) + spaced_words(s) + collapse_tail(s));
                } else {
                    assert(collapse_spaces(s, p) =~= collapse_lead(s, p) + spaced_words(s) + collapse_tail(s));
                }
            }
        }
    }
}

/// A heading title is its words joined by single spaces, as
/// `split_whitespace` and `join(" ")` make it.
pub proof fn lemma_normalized_title_is_spaced_words(s: Seq<char>)
    ensures
        normalized_title(s) == spaced_words(s),
{
    lemma_collapse_is_spaced_words(s, false);
    lemma_words_shape(s);
    let lead = collapse_lead(s, false);
    let tail = collapse_tail(s);
    let j = spaced_words(s);
    let x = lead + j + tail;
    if words(s).len() == 0 {
        assert(j =~= Seq::<char>::empty());
        assert(tail =~= Seq::<char>::empty());
        assert(all_space(x));
        crate::text::lemma_trim_start_suffix(x);
        assert(crate::text::trim_start(x).len() == 0);
        assert(trim(x) =~= Seq::<char>::empty());
    } else {
        lemma_join_edges(words(s));
        assert(!is_space(j[0]));
        assert(words(s).last() == words(s)[words(s).len() - 1]);
        assert(!is_space(j.last()));
        let y = j + tail;
        assert(y[0] == j[0]);
        assert(crate::text::trim_start(y) == y);
        if lead.len() > 0 {
            assert(x.drop_first() =~= y);
            assert(x[0] == ' ');
            assert(is_space(x[0]));
        } else {
            assert(x =~= y);
        }
        assert(crate::text::trim_start(x) == y);
        assert(crate::text::trim_end(j) == j);
        if tail.len() > 0 {
            assert(y.drop_last() =~= j);
            assert(y.last() == ' ');
            assert(is_space(y.last()));
        } else {
            assert(y =~= j);
        }
        assert(crate::text::trim_end(y) == j);
    }
}

/// Collapses whitespace runs to single spaces and trims the result.
pub fn normalize_heading_text(input: &str) -> (r: String)
    ensures
        r@ == normalized_title(input@),
{
    let cs = chars_of(input);
    let mut out: Vec<char> = Vec::new();
    let mut prev_space = false;
    let mut i: usize = 0;
    assert(cs@.subrange(0, cs@.len() as int) =~= cs@);
    while i < cs.len()
        invariant
            i <= cs@.len(),
            collapse_spaces(cs@, false) == out@ + collapse_spaces(cs@.subrange(i as int, cs@.len() as int), prev_space),
        decreases cs.len() - i,
    {
        let ch = cs[i];
        let ghost rest = cs@.subrange(i as int, cs@.len() as int);
        assert(rest.drop_first() =~= cs@.subrange(i + 1, cs@.len() as int));
        if char_is_whitespace(ch) {
            if !prev_space {
                out.push(' ');
                prev_space = true;
            }
        } else {
            out.push(ch);
            prev_space = false;
        }
        i += 1;
        assert(collapse_spaces(cs@, false) =~= out@ + collapse_spaces(cs@.subrange(i as int, cs@.len() as int), prev_space));
    }
    assert(cs@.subrange(cs@.len() as int, cs@.len() as int).len() == 0);
    assert(out@ =~= collapse_spaces(cs@, false));
    let (a, b) = trim_bounds(&out);
    string_from_range(&out, a, b)
}

/// Model of a heading section.
pub struct SectionView {
    pub level: u8,
    pub title: Seq<char>,
    pub start_line: u32,
    pub end_line: u32,
}

/// Represents a heading section extracted from a Markdown document.
#[derive(Debug, Clone, PartialEq, Eq)]
pub struct MarkdownSection {
    level: u8,
    title: String,
    start_line: u32,
    end_line: u32,
}

impl View for MarkdownSection {
    type V = SectionView;

    closed spec fn view(&self) -> SectionView {
        SectionView { level: self.level, title: self.title@, start_line: self.start_line, end_line: self.end_line }
    }
}

impl MarkdownSection {
    /// A section that so far ends on its own start line.
    pub fn new(level: u8, title: String, start_line: u32) -> (s: Self)
        ensures
            s@ == (SectionView { level, title: title@, start_line, end_line: start_line }),
    {
        MarkdownSection { level, title, start_line, end_line: start_line }
    }

    /// Returns the heading level (1-6) for the section.
    pub fn level(&self) -> (l: u8)
        ensures
            l == self@.level,
    {
        self.level
    }

    /// Returns the normalized title text for the section heading.
    pub fn title(&self) -> (t: &str)
        ensures
            t@ == self@.title,
    {
        self.title.as_str()
    }

    /// Returns the inclusive starting line number for the section.
    pub fn start_line(&self) -> (l: u32)
        ensures
            l == self@.start_line,
    {
        self.start_line
    }

    /// Returns the inclusive ending line number for the section.
    pub fn end_line(&self) -> (l: u32)
        ensures
            l == self@.end_line,
    {
        self.end_line
    }
}

/// The line each section ends on: just before the next section, or at the end
/// of the document for the last one, kept only where it is not before the start.
pub open spec fn ranges_assigned(s: Seq<SectionView>, total: u32) -> Seq<SectionView> {
    Seq::new(
        s.len(),
        |i: int|
            {
                let end: u32 = if i + 1 < s.len() {
                    if s[i + 1].start_line == 0 { 0u32 } else { (s[i + 1].start_line - 1) as u32 }
                } else if total >= s[i].start_line {
                    total
                } else {
                    s[i].start_line
                };
                if end >= s[i].start_line {
                    SectionView { end_line: end, ..s[i] }
                } else {
                    s[i]
                }
            },
    )
}

/// Sections in strictly increasing start order get ranges that begin at their
/// own start, never end before it, and end before the next section starts.
pub proof fn lemma_ranges_do_not_overlap(secs: Seq<SectionView>, total: u32)
    requires
        forall|i: int, j: int| 0 <= i < j < secs.len() ==> secs[i].start_line < secs[j].start_line,
    ensures
        ranges_assigned(secs, total).len() == secs.len(),
        forall|i: int| 0 <= i < secs.len() ==> (#[trigger] ranges_assigned(secs, total)[i]).start_line == secs[i].start_line
            && ranges_assigned(secs, total)[i].start_line <= ranges_assigned(secs, total)[i].end_line
            && ranges_assigned(secs, total)[i].title == secs[i].title
            && ranges_assigned(secs, total)[i].level == secs[i].level,
        forall|i: int, j: int| 0 <= i < j < secs.len() ==> (#[trigger] ranges_assigned(secs, total)[i]).end_line < (#[trigger] ranges_assigned(secs, total)[j]).start_line,
{
    let r = ranges_assigned(secs, total);
    assert forall|i: int, j: int| 0 <= i < j < secs.len() implies (#[trigger] r[i]).end_line < (#[trigger] r[j]).start_line by {
        assert(secs[i].start_line < secs[i + 1].start_line);
        if i + 1 < j {
            assert(secs[i + 1].start_line < secs[j].start_line);
        }
    }
}

/// Views of a list of sections.
pub open spec fn section_views(v: Seq<MarkdownSection>) -> Seq<SectionView> {
    v.map_values(|x: MarkdownSection| x@)
}

/// Sets each section's end line from the start of the next section or the document's end.
pub fn assign_section_ranges(line_map: &LineOffsetMap, sections: &mut Vec<MarkdownSection>)
    ensures
        section_views(final(sections)@) == ranges_assigned(section_views(old(sections)@), line_map.total()),
{
    if sections.len() == 0 {
        assert(section_views(sections@) =~= ranges_assigned(section_views(sections@), line_map.total()));
        return;
    }
    let total_lines = line_map.total_lines();
    let ghost orig = section_views(sections@);
    let n = sections.len();
    let mut idx: usize = 0;
    while idx < n
        invariant
            n == sections@.len(),
            orig.len() == n,
            idx <= n,
            total_lines == line_map.total(),
            forall|j: int| 0 <= j < idx ==> #[trigger] sections@[j]@ == ranges_assigned(orig, total_lines)[j],
            forall|j: int| idx <= j < n ==> #[trigger] sections@[j]@ == orig[j],
        decreases n - idx,
    {
        let start = sections[idx].start_line;
        assert(orig[idx as int] == sections@[idx as int]@);
        assert(idx + 1 < n ==> orig[idx + 1] == sections@[idx + 1]@);
        let end_line: u32 = if idx + 1 < n {
            let next = sections[idx + 1].start_line;
            if next == 0 { 0 } else { next - 1 }
        } else if total_lines >= start {
            total_lines
        } else {
            start
        };
        if end_line >= start {
            let mut sec = sections[idx].clone_section();
            sec.end_line = end_line;
            sections.set(idx, sec);
        }
        assert(sections@[idx as int]@ == ranges_assigned(orig, total_lines)[idx as int]);
        idx += 1;
    }
    assert(section_views(sections@) =~= ranges_assigned(orig, total_lines));
}

impl MarkdownSection {
    /// A copy of the section.
    pub fn clone_section(&self) -> (c: Self)
        ensures
            c@ == self@,
    {
        MarkdownSection { level: self.level, title: self.title.clone(), start_line: self.start_line, end_line: self.end_line }
    }
}


/// The parts of a Markdown parse that heading extraction reads.
#[derive(Debug, Clone, PartialEq, Eq)]
pub enum MarkdownEvent {
    /// A heading opens at byte `offset`.
    HeadingStart { level: u8, offset: usize },
    /// A heading closes.
    HeadingEnd { level: u8 },
    /// Text, inline code or HTML content.
    Fragment { text: String },
    /// A soft or hard line break.
    LineBreak,
    /// Any other event.
    Other,
}

/// What pulldown-cmark's offset iterator yields for a text, parsed with no
/// extensions enabled, each event reduced to a `MarkdownEvent`.
pub uninterp spec fn markdown_events(text: Seq<char>) -> Seq<MarkdownEvent>;

/// Every heading event has a level from 1 to 6.
pub open spec fn heading_levels_ok(evs: Seq<MarkdownEvent>) -> bool {
    forall|i: int| 0 <= i < evs.len() ==> match #[trigger] evs[i] {
        MarkdownEvent::HeadingStart { level, .. } => 1 <= level <= 6,
        MarkdownEvent::HeadingEnd { level } => 1 <= level <= 6,
        _ => true,
    }
}

/// The byte offset at which event `e` opens a heading, if it opens one.
pub open spec fn opening(e: MarkdownEvent) -> Option<usize> {
    match e {
        MarkdownEvent::HeadingStart { offset, .. } => Some(offset),
        _ => None,
    }
}

/// Byte `k` of `b` ends a line: a line feed, or a carriage return that no
/// line feed follows.
pub open spec fn ends_line(b: Seq<u8>, k: int) -> bool {
    b[k] == 10u8 || (b[k] == 13u8 && !(k + 1 < b.len() && b[k + 1] == 10u8))
}

/// Every heading of `evs` opens within the text `b`, and between the openings
/// of any two headings a line of `b` ends.
pub open spec fn headings_on_own_lines(b: Seq<u8>, evs: Seq<MarkdownEvent>) -> bool {
    &&& forall|i: int| 0 <= i < evs.len() && (#[trigger] opening(evs[i])) is Some ==> opening(evs[i])->0 <= b.len()
    &&& forall|i: int, j: int|
        0 <= i < j < evs.len() && (#[trigger] opening(evs[i])) is Some && (#[trigger] opening(evs[j])) is Some
            ==> exists|k: int| opening(evs[i])->0 <= k < opening(evs[j])->0 && #[trigger] ends_line(b, k)
}

/// `pulldown_cmark::Parser::new_ext(markdown, Options::empty()).into_offset_iter()`,
/// each event with its byte range reduced to a `MarkdownEvent`: heading starts
/// keep their level and the start of their range, heading ends their level,
/// text, code and HTML events their text, soft and hard breaks become
/// `LineBreak`, and every other event `Other`. The parse depends on the text
/// alone. Heading levels are those of `HeadingLevel`, `H1 = 1` to `H6`.
/// A heading's range starts at its tree item's start (`OffsetIter::next`,
/// `parse.rs`), inside the text; the tree is walked in document order, and
/// the block parser goes on at the start of the next line after a heading
/// (`parse_atx_heading` returns the index after the line's ending, a setext
/// heading ends after its underline's line ending, `firstpass.rs`), where a
/// line ends with `\n`, `\r\n` or a lone `\r` (`scan_eol`, `scanners.rs`).
#[verifier::external_body]
fn parse_markdown_events(markdown: &str) -> (events: Vec<MarkdownEvent>)
    ensures
        events@ == markdown_events(markdown@),
        heading_levels_ok(events@),
        headings_on_own_lines(vstd::utf8::encode_utf8(markdown@), events@),
{
    Parser::new_ext(markdown, Options::empty()).into_offset_iter().map(|(event, range)| match event {
        Event::Start(Tag::Heading { level, .. }) => MarkdownEvent::HeadingStart { level: level as u8, offset: range.start },
        Event::End(TagEnd::Heading(level)) => MarkdownEvent::HeadingEnd { level: level as u8 },
        Event::Text(t) | Event::Code(t) | Event::Html(t) | Event::InlineHtml(t) => MarkdownEvent::Fragment { text: t.to_string() },
        Event::SoftBreak | Event::HardBreak => MarkdownEvent::LineBreak,
        _ => MarkdownEvent::Other,
    }).collect()
}

/// A heading whose text is still being collected.
pub struct PendingView {
    pub level: u8,
    pub start: usize,
    pub raw: Seq<char>,
}

/// State of the heading scan: the open heading, if any, and the sections so far.
pub type ScanState = (Option<PendingView>, Seq<SectionView>);

/// Closes a heading: its line is resolved and its text normalized.
pub open spec fn close_heading(starts: Seq<usize>, len: nat, p: PendingView, secs: Seq<SectionView>) -> Result<Seq<SectionView>, ErrorView> {
    match offset_line_in(starts, len, p.start as int) {
        Err(e) => Err(e),
        Ok(l) => Ok(secs.push(SectionView { level: p.level, title: normalized_title(p.raw), start_line: l, end_line: l })),
    }
}

/// Text appended to an open heading, separated by a space from what it already holds.
pub open spec fn append_fragment(raw: Seq<char>, t: Seq<char>) -> Seq<char> {
    if raw.len() == 0 { t } else { raw.push(' ') + t }
}

/// Message for a heading closed at another level than it opened.
pub open spec fn mismatch_text() -> Seq<char> {
    "mismatched heading tags detected"@
}

/// One event of the heading scan.
pub open spec fn scan_step(starts: Seq<usize>, len: nat, st: ScanState, ev: MarkdownEvent) -> Result<ScanState, ErrorView> {
    match ev {
        MarkdownEvent::HeadingStart { level, offset } => {
            let fresh = PendingView { level, start: offset, raw: seq![] };
            match st.0 {
                None => Ok((Some(fresh), st.1)),
                Some(p) => match close_heading(starts, len, p, st.1) {
                    Err(e) => Err(e),
                    Ok(secs) => Ok((Some(fresh), secs)),
                },
            }
        },
        MarkdownEvent::HeadingEnd { level } => match st.0 {
            None => Ok(st),
            Some(p) => if p.level != level {
                Err(ErrorView::MarkdownParseError(mismatch_text()))
            } else {
                match close_heading(starts, len, p, st.1) {
                    Err(e) => Err(e),
                    Ok(secs) => Ok((None, secs)),
                }
            },
        },
        MarkdownEvent::Fragment { text } => match st.0 {
            None => Ok(st),
            Some(p) => Ok((Some(PendingView { raw: append_fragment(p.raw, text@), ..p }), st.1)),
        },
        MarkdownEvent::LineBreak => match st.0 {
            None => Ok(st),
            Some(p) => Ok((Some(PendingView { raw: p.raw.push(' '), ..p }), st.1)),
        },
        MarkdownEvent::Other => Ok(st),
    }
}

/// The heading scan over a list of events; the first error ends it.
pub open spec fn scan_events(starts: Seq<usize>, len: nat, evs: Seq<MarkdownEvent>) -> Result<ScanState, ErrorView>
    decreases evs.len(),
{
    if evs.len() == 0 {
        Ok((None, seq![]))
    } else {
        match scan_events(starts, len, evs.drop_last()) {
            Err(e) => Err(e),
            Ok(st) => scan_step(starts, len, st, evs.last()),
        }
    }
}

/// Once the scan has failed on a prefix, it fails with the same error on every extension.
proof fn lemma_scan_error_sticks(starts: Seq<usize>, len: nat, evs: Seq<MarkdownEvent>, k: int)
    requires
        0 <= k <= evs.len(),
        scan_events(starts, len, evs.subrange(0, k)) is Err,
    ensures
        scan_events(starts, len, evs) == scan_events(starts, len, evs.subrange(0, k)),
    decreases evs.len(),
{
    if k < evs.len() {
        assert(evs.drop_last().subrange(0, k) =~= evs.subrange(0, k));
        lemma_scan_error_sticks(starts, len, evs.drop_last(), k);
    } else {
        assert(evs.subrange(0, k) =~= evs);
    }
}

/// Sections of a document given its parse events: headings in order, each
/// spanning up to the next heading or the end of the document.
pub open spec fn document_sections(text: Seq<char>, evs: Seq<MarkdownEvent>) -> Result<Seq<SectionView>, ErrorView> {
    let b = vstd::utf8::encode_utf8(text);
    let starts = line_starts_of(b);
    let len = b.len();
    if trim(text).len() == 0 {
        Ok(seq![])
    } else {
        match scan_events(starts, len, evs) {
            Err(e) => Err(e),
            Ok(st) => {
                let closed = match st.0 {
                    None => Ok(st.1),
                    Some(p) => close_heading(starts, len, p, st.1),
                };
                match closed {
                    Err(e) => Err(e),
                    Ok(secs) => Ok(ranges_assigned(secs, total_lines_in(starts, len))),
                }
            },
        }
    }
}

/// Every section in the list still ends on its start line.
pub open spec fn unranged(secs: Seq<SectionView>) -> bool {
    forall|i: int| 0 <= i < secs.len() ==> (#[trigger] secs[i]).end_line == secs[i].start_line
}

proof fn lemma_close_unranged(starts: Seq<usize>, len: nat, p: PendingView, secs: Seq<SectionView>)
    requires
        unranged(secs),
    ensures
        close_heading(starts, len, p, secs) is Ok ==> unranged(close_heading(starts, len, p, secs)->Ok_0),
{
    if close_heading(starts, len, p, secs) is Ok {
        let out = close_heading(starts, len, p, secs)->Ok_0;
        assert forall|i: int| 0 <= i < out.len() implies (#[trigger] out[i]).end_line == out[i].start_line by {
            if i < secs.len() {
                assert(out[i] == secs[i]);
            }
        }
    }
}

proof fn lemma_scan_unranged(starts: Seq<usize>, len: nat, evs: Seq<MarkdownEvent>)
    ensures
        scan_events(starts, len, evs) is Ok ==> unranged(scan_events(starts, len, evs)->Ok_0.1),
    decreases evs.len(),
{
    if evs.len() > 0 {
        lemma_scan_unranged(starts, len, evs.drop_last());
        match scan_events(starts, len, evs.drop_last()) {
            Err(_) => {},
            Ok(st) => {
                match st.0 {
                    Some(p) => lemma_close_unranged(starts, len, p, st.1),
                    None => {},
                }
            },
        }
    }
}

/// Every section has a level from 1 to 6.
pub open spec fn levels_in_range(secs: Seq<SectionView>) -> bool {
    forall|i: int| 0 <= i < secs.len() ==> 1 <= (#[trigger] secs[i]).level <= 6
}

proof fn lemma_close_levels(starts: Seq<usize>, len: nat, p: PendingView, secs: Seq<SectionView>)
    requires
        levels_in_range(secs),
        1 <= p.level <= 6,
    ensures
        close_heading(starts, len, p, secs) is Ok ==> levels_in_range(close_heading(starts, len, p, secs)->Ok_0),
{
    if close_heading(starts, len, p, secs) is Ok {
        let out = close_heading(starts, len, p, secs)->Ok_0;
        assert forall|i: int| 0 <= i < out.len() implies 1 <= (#[trigger] out[i]).level <= 6 by {
            if i < secs.len() {
                assert(out[i] == secs[i]);
            }
        }
    }
}

proof fn lemma_scan_levels(starts: Seq<usize>, len: nat, evs: Seq<MarkdownEvent>)
    requires
        heading_levels_ok(evs),
    ensures
        scan_events(starts, len, evs) is Ok ==> levels_in_range(scan_events(starts, len, evs)->Ok_0.1) && match scan_events(
            starts,
            len,
            evs,
        )->Ok_0.0 {
            Some(p) => 1 <= p.level <= 6,
            None => true,
        },
    decreases evs.len(),
{
    if evs.len() > 0 {
        assert forall|i: int| 0 <= i < evs.drop_last().len() implies match #[trigger] evs.drop_last()[i] {
            MarkdownEvent::HeadingStart { level, .. } => 1 <= level <= 6,
            MarkdownEvent::HeadingEnd { level } => 1 <= level <= 6,
            _ => true,
        } by {
            assert(evs.drop_last()[i] == evs[i]);
        }
        lemma_scan_levels(starts, len, evs.drop_last());
        assert(evs.last() == evs[evs.len() - 1]);
        match scan_events(starts, len, evs.drop_last()) {
            Err(_) => {},
            Ok(st) => {
                match st.0 {
                    Some(p) => lemma_close_levels(starts, len, p, st.1),
                    None => {},
                }
            },
        }
    }
}

/// Sections built from events whose heading levels run from 1 to 6 have
/// levels from 1 to 6.
pub proof fn lemma_section_levels(text: Seq<char>, evs: Seq<MarkdownEvent>)
    requires
        heading_levels_ok(evs),
    ensures
        document_sections(text, evs) is Ok ==> levels_in_range(document_sections(text, evs)->Ok_0),
{
    let b = vstd::utf8::encode_utf8(text);
    let starts = line_starts_of(b);
    let len = b.len();
    lemma_scan_levels(starts, len, evs);
    match scan_events(starts, len, evs) {
        Ok(st) => {
            match st.0 {
                Some(p) => lemma_close_levels(starts, len, p, st.1),
                None => {},
            }
        },
        Err(_) => {},
    }
}

/// Every section's title is already normalized.
pub open spec fn titles_normalized(secs: Seq<SectionView>) -> bool {
    forall|i: int| 0 <= i < secs.len() ==> normalized_title((#[trigger] secs[i]).title) == secs[i].title
}

proof fn lemma_close_titles(starts: Seq<usize>, len: nat, p: PendingView, secs: Seq<SectionView>)
    requires
        titles_normalized(secs),
    ensures
        close_heading(starts, len, p, secs) is Ok ==> titles_normalized(close_heading(starts, len, p, secs)->Ok_0),
{
    if close_heading(starts, len, p, secs) is Ok {
        let out = close_heading(starts, len, p, secs)->Ok_0;
        lemma_normalized_title_idempotent(p.raw);
        assert forall|i: int| 0 <= i < out.len() implies normalized_title((#[trigger] out[i]).title) == out[i].title by {
            if i < secs.len() {
                assert(out[i] == secs[i]);
            }
        }
    }
}

proof fn lemma_scan_titles(starts: Seq<usize>, len: nat, evs: Seq<MarkdownEvent>)
    ensures
        scan_events(starts, len, evs) is Ok ==> titles_normalized(scan_events(starts, len, evs)->Ok_0.1),
    decreases evs.len(),
{
    if evs.len() > 0 {
        lemma_scan_titles(starts, len, evs.drop_last());
        match scan_events(starts, len, evs.drop_last()) {
            Err(_) => {},
            Ok(st) => {
                match st.0 {
                    Some(p) => lemma_close_titles(starts, len, p, st.1),
                    None => {},
                }
            },
        }
    }
}

/// Every section title of a document is normalized: normalizing it again
/// changes nothing, so it has no edge whitespace and only single spaces
/// between words.
pub proof fn lemma_section_titles_normalized(text: Seq<char>, evs: Seq<MarkdownEvent>)
    ensures
        document_sections(text, evs) is Ok ==> titles_normalized(document_sections(text, evs)->Ok_0),
{
    let b = vstd::utf8::encode_utf8(text);
    let starts = line_starts_of(b);
    let len = b.len();
    lemma_scan_titles(starts, len, evs);
    match scan_events(starts, len, evs) {
        Ok(st) => {
            match st.0 {
                Some(p) => lemma_close_titles(starts, len, p, st.1),
                None => {},
            }
        },
        Err(_) => {},
    }
}

/// Every section starts no later than it ends.
pub open spec fn starts_before_ends(secs: Seq<SectionView>) -> bool {
    forall|i: int| 0 <= i < secs.len() ==> (#[trigger] secs[i]).start_line <= secs[i].end_line
}

/// Every section of a document starts no later than it ends.
pub proof fn lemma_sections_start_before_end(text: Seq<char>, evs: Seq<MarkdownEvent>)
    ensures
        document_sections(text, evs) is Ok ==> starts_before_ends(document_sections(text, evs)->Ok_0),
{
    let b = vstd::utf8::encode_utf8(text);
    let starts = line_starts_of(b);
    let len = b.len();
    lemma_scan_unranged(starts, len, evs);
    match scan_events(starts, len, evs) {
        Ok(st) => {
            match st.0 {
                Some(p) => lemma_close_unranged(starts, len, p, st.1),
                None => {},
            }
        },
        Err(_) => {},
    }
}

/// Event `e` opens a heading whose start lies on line `l`.
pub open spec fn opens_on(starts: Seq<usize>, len: nat, e: MarkdownEvent, l: u32) -> bool {
    match e {
        MarkdownEvent::HeadingStart { offset, .. } => offset_line_in(starts, len, offset as int) == Ok::<u32, ErrorView>(l),
        _ => false,
    }
}

/// Every heading of `evs` opens on a later line than each heading before it.
pub open spec fn headings_rise(starts: Seq<usize>, len: nat, evs: Seq<MarkdownEvent>) -> bool {
    forall|i: int, j: int, li: u32, lj: u32|
        0 <= i < j < evs.len() && #[trigger] opens_on(starts, len, evs[i], li) && #[trigger] opens_on(starts, len, evs[j], lj)
            ==> li < lj
}

/// The headings of `evs` open on strictly rising lines of `text`.
pub open spec fn headings_on_rising_lines(text: Seq<char>, evs: Seq<MarkdownEvent>) -> bool {
    headings_rise(line_starts_of(vstd::utf8::encode_utf8(text)), vstd::utf8::encode_utf8(text).len(), evs)
}

/// Section start lines rise strictly.
pub open spec fn starts_rise(secs: Seq<SectionView>) -> bool {
    forall|a: int, b: int| 0 <= a < b < secs.len() ==> (#[trigger] secs[a]).start_line < (#[trigger] secs[b]).start_line
}

/// What the scan of the first `n` events keeps: sections in rising order, each
/// on an earlier line than the open heading and than every heading still to come.
spec fn scan_rising(starts: Seq<usize>, len: nat, all: Seq<MarkdownEvent>, n: int, st: ScanState) -> bool {
    &&& starts_rise(st.1)
    &&& forall|a: int, j: int, l: u32|
        0 <= a < st.1.len() && n <= j < all.len() && #[trigger] opens_on(starts, len, all[j], l) ==> (#[trigger] st.1[a]).start_line < l
    &&& match st.0 {
        None => true,
        Some(p) => match offset_line_in(starts, len, p.start as int) {
            Err(_) => true,
            Ok(lp) => (forall|a: int| 0 <= a < st.1.len() ==> (#[trigger] st.1[a]).start_line < lp) && (forall|j: int, l: u32|
                n <= j < all.len() && #[trigger] opens_on(starts, len, all[j], l) ==> lp < l),
        },
    }
}

proof fn lemma_close_rising(starts: Seq<usize>, len: nat, all: Seq<MarkdownEvent>, n: int, p: PendingView, secs: Seq<SectionView>)
    requires
        scan_rising(starts, len, all, n, (Some(p), secs)),
    ensures
        close_heading(starts, len, p, secs) is Ok ==> scan_rising(starts, len, all, n, (None, close_heading(starts, len, p, secs)->Ok_0)),
{
    if close_heading(starts, len, p, secs) is Ok {
        let out = close_heading(starts, len, p, secs)->Ok_0;
        let lp = offset_line_in(starts, len, p.start as int)->Ok_0;
        assert(out == secs.push(SectionView { level: p.level, title: normalized_title(p.raw), start_line: lp, end_line: lp }));
        assert forall|a: int, b: int| 0 <= a < b < out.len() implies (#[trigger] out[a]).start_line < (#[trigger] out[b]).start_line by {
            assert(out[a] == secs[a]);
            if b < secs.len() {
                assert(out[b] == secs[b]);
            }
        }
        assert forall|a: int, j: int, l: u32|
            0 <= a < out.len() && n <= j < all.len() && #[trigger] opens_on(starts, len, all[j], l) implies (#[trigger] out[a]).start_line < l by {
            if a < secs.len() {
                assert(out[a] == secs[a]);
            }
        }
    }
}

proof fn lemma_scan_rising(starts: Seq<usize>, len: nat, all: Seq<MarkdownEvent>, n: int)
    requires
        0 <= n <= all.len(),
        headings_rise(starts, len, all),
    ensures
        scan_events(starts, len, all.subrange(0, n)) is Ok ==> scan_rising(starts, len, all, n, scan_events(starts, len, all.subrange(0, n))->Ok_0),
    decreases n,
{
    if n > 0 {
        let evs = all.subrange(0, n);
        assert(evs.drop_last() =~= all.subrange(0, n - 1));
        assert(evs.last() == all[n - 1]);
        lemma_scan_rising(starts, len, all, n - 1);
        match scan_events(starts, len, all.subrange(0, n - 1)) {
            Err(_) => {},
            Ok(st) => {
                let ev = all[n - 1];
                match ev {
                    MarkdownEvent::HeadingStart { level, offset } => {
                        let after: Seq<SectionView> = match st.0 {
                            None => st.1,
                            Some(p) => {
                                lemma_close_rising(starts, len, all, n - 1, p, st.1);
                                if close_heading(starts, len, p, st.1) is Ok {
                                    close_heading(starts, len, p, st.1)->Ok_0
                                } else {
                                    st.1
                                }
                            },
                        };
                        if scan_events(starts, len, evs) is Ok {
                            let st2 = scan_events(starts, len, evs)->Ok_0;
                            assert(st2.1 == after);
                            assert(scan_rising(starts, len, all, n - 1, (None, after)));
                            match offset_line_in(starts, len, offset as int) {
                                Err(_) => {},
                                Ok(lo) => {
                                    assert(opens_on(starts, len, all[n - 1], lo));
                                    assert forall|a: int| 0 <= a < after.len() implies (#[trigger] after[a]).start_line < lo by {}
                                    assert forall|j: int, l: u32|
                                        n <= j < all.len() && #[trigger] opens_on(starts, len, all[j], l) implies lo < l by {}
                                },
                            }
                        }
                    },
                    MarkdownEvent::HeadingEnd { level } => {
                        match st.0 {
                            None => {},
                            Some(p) => {
                                lemma_close_rising(starts, len, all, n - 1, p, st.1);
                            },
                        }
                    },
                    _ => {},
                }
            },
        }
    }
}

/// Each section ends before every later section starts.
pub open spec fn ranges_disjoint(secs: Seq<SectionView>) -> bool {
    forall|a: int, b: int| 0 <= a < b < secs.len() ==> (#[trigger] secs[a]).end_line < (#[trigger] secs[b]).start_line
}

/// Every carriage return of `b` is followed by a line feed.
pub open spec fn no_lone_cr(b: Seq<u8>) -> bool {
    forall|k: int| 0 <= k < b.len() && #[trigger] b[k] == 13u8 ==> k + 1 < b.len() && b[k + 1] == 10u8
}

/// Lines of `b` fit the line numbers: fewer than `u32::MAX` line feeds.
pub open spec fn lines_fit(b: Seq<u8>) -> bool {
    newlines(b, b.len()) < u32::MAX
}

/// Headings that open on lines of their own, in a text whose lines all end in
/// a line feed and whose line numbers fit, open on strictly rising lines.
pub proof fn lemma_own_lines_rise(text: Seq<char>, evs: Seq<MarkdownEvent>)
    requires
        headings_on_own_lines(vstd::utf8::encode_utf8(text), evs),
        no_lone_cr(vstd::utf8::encode_utf8(text)),
        lines_fit(vstd::utf8::encode_utf8(text)),
        vstd::utf8::encode_utf8(text).len() <= usize::MAX,
    ensures
        headings_on_rising_lines(text, evs),
{
    let b = vstd::utf8::encode_utf8(text);
    let starts = line_starts_of(b);
    let len = b.len();
    assert forall|i: int, j: int, li: u32, lj: u32|
        0 <= i < j < evs.len() && #[trigger] opens_on(starts, len, evs[i], li) && #[trigger] opens_on(starts, len, evs[j], lj)
        implies li < lj by {
        assert(opening(evs[i]) is Some);
        assert(opening(evs[j]) is Some);
        let oi = opening(evs[i])->0 as int;
        let oj = opening(evs[j])->0 as int;
        let k = choose|k: int| oi <= k < oj && #[trigger] ends_line(b, k);
        assert(b[k] == 10u8);
        lemma_count_le_newlines(b, len, oi);
        lemma_count_le_newlines(b, len, oj);
        lemma_newlines_monotone(b, oi as nat, k as nat);
        lemma_newlines_monotone(b, (k + 1) as nat, oj as nat);
        lemma_newlines_monotone(b, oj as nat, len);
        assert(newlines(b, (k + 1) as nat) == newlines(b, k as nat) + 1);
    }
}

/// Where the parser reports every heading of a document on a later line than
/// the heading before it, the document's sections come in that order: their
/// start lines rise strictly and each section ends before the next one starts.
pub proof fn lemma_sections_in_document_order(text: Seq<char>, evs: Seq<MarkdownEvent>)
    requires
        headings_on_rising_lines(text, evs),
    ensures
        document_sections(text, evs) is Ok ==> starts_rise(document_sections(text, evs)->Ok_0)
            && ranges_disjoint(document_sections(text, evs)->Ok_0),
{
    let b = vstd::utf8::encode_utf8(text);
    let starts = line_starts_of(b);
    let len = b.len();
    if trim(text).len() != 0 {
        assert(evs.subrange(0, evs.len() as int) =~= evs);
        lemma_scan_rising(starts, len, evs, evs.len() as int);
        match scan_events(starts, len, evs) {
            Err(_) => {},
            Ok(st) => {
                let closed = match st.0 {
                    None => Ok(st.1),
                    Some(p) => {
                        lemma_close_rising(starts, len, evs, evs.len() as int, p, st.1);
                        close_heading(starts, len, p, st.1)
                    },
                };
                match closed {
                    Err(_) => {},
                    Ok(secs) => {
                        assert(starts_rise(secs));
                        lemma_ranges_do_not_overlap(secs, total_lines_in(starts, len));
                        let r = ranges_assigned(secs, total_lines_in(starts, len));
                        assert forall|x: int, y: int| 0 <= x < y < r.len() implies (#[trigger] r[x]).start_line < (#[trigger] r[y]).start_line by {
                            assert(r[x].start_line == secs[x].start_line);
                            assert(r[y].start_line == secs[y].start_line);
                        }
                    },
                }
            },
        }
    }
}

/// Views of a result holding sections.
pub open spec fn sections_result_view(r: Result<Vec<MarkdownSection>, KazeNhanhError>) -> Result<Seq<SectionView>, ErrorView> {
    match r {
        Ok(v) => Ok(section_views(v@)),
        Err(e) => Err(e@),
    }
}

struct PendingHeading {
    level: u8,
    start_offset: usize,
    raw_text: String,
}

impl PendingHeading {
    spec fn model(self) -> PendingView {
        PendingView { level: self.level, start: self.start_offset, raw: self.raw_text@ }
    }
}

spec fn pending_model(p: Option<PendingHeading>) -> Option<PendingView> {
    match p {
        None => None,
        Some(h) => Some(h.model()),
    }
}

/// Closes `heading` onto `sections`.
fn finalize_heading(heading: PendingHeading, line_map: &LineOffsetMap, sections: &mut Vec<MarkdownSection>) -> (r: Result<(), KazeNhanhError>)
    ensures
        match close_heading(line_map.starts(), line_map.len(), heading.model(), section_views(old(sections)@)) {
            Err(e) => r is Err && r->Err_0@ == e,
            Ok(secs) => r is Ok && section_views(final(sections)@) == secs,
        },
{
    let start_line = match line_map.line_for_offset(heading.start_offset) {
        Ok(l) => l,
        Err(e) => return Err(e),
    };
    let title = normalize_heading_text(heading.raw_text.as_str());
    let section = MarkdownSection::new(heading.level, title, start_line);
    let ghost before = section_views(sections@);
    sections.push(section);
    assert(section_views(sections@) =~= before.push(section@));
    Ok(())
}

/// Builds the heading sections of `markdown` from its parse events.
pub fn sections_from_events(markdown: &str, events: &Vec<MarkdownEvent>) -> (r: Result<Vec<MarkdownSection>, KazeNhanhError>)
    ensures
        sections_result_view(r) == document_sections(markdown@, events@),
{
    if is_blank(markdown) {
        let empty: Vec<MarkdownSection> = Vec::new();
        assert(section_views(empty@) =~= seq![]);
        return Ok(empty);
    }
    let line_map = LineOffsetMap::new(markdown);
    let ghost starts = line_map.starts();
    let ghost len = line_map.len();
    let mut sections: Vec<MarkdownSection> = Vec::new();
    let mut pending: Option<PendingHeading> = None;
    let mut i: usize = 0;
    assert(events@.subrange(0, 0) =~= seq![]);
    assert(section_views(sections@) =~= seq![]);
    while i < events.len()
        invariant
            i <= events@.len(),
            starts == line_map.starts(),
            len == line_map.len(),
            starts == line_starts_of(vstd::utf8::encode_utf8(markdown@)),
            len == vstd::utf8::encode_utf8(markdown@).len(),
            trim(markdown@).len() != 0,
            scan_events(starts, len, events@.subrange(0, i as int)) == Ok::<ScanState, ErrorView>((pending_model(pending), section_views(sections@))),
        decreases events.len() - i,
    {
        let ghost st: ScanState = (pending_model(pending), section_views(sections@));
        assert(events@.subrange(0, i + 1).drop_last() =~= events@.subrange(0, i as int));
        assert(events@.subrange(0, i + 1).last() == events@[i as int]);
        assert(scan_events(starts, len, events@.subrange(0, i + 1)) == scan_step(starts, len, st, events@[i as int]));
        match &events[i] {
            MarkdownEvent::HeadingStart { level, offset } => {
                let prev = pending.take();
                match prev {
                    Some(h) => {
                        match finalize_heading(h, &line_map, &mut sections) {
                            Ok(()) => {},
                            Err(e) => {
                                assert(scan_events(starts, len, events@.subrange(0, i + 1)) == Err::<ScanState, ErrorView>(e@));
                                proof { lemma_scan_error_sticks(starts, len, events@, i + 1); }
                                assert(scan_events(starts, len, events@) == Err::<ScanState, ErrorView>(e@));
                                assert(document_sections(markdown@, events@) == Err::<Seq<SectionView>, ErrorView>(e@));
                                return Err(e);
                            },
                        }
                    },
                    None => {},
                }
                pending = Some(PendingHeading { level: *level, start_offset: *offset, raw_text: String::new() });
            },
            MarkdownEvent::HeadingEnd { level } => {
                let prev = pending.take();
                match prev {
                    Some(h) => {
                        if h.level != *level {
                            let msg = String::from_str("mismatched heading tags detected");
                            assert(scan_events(starts, len, events@.subrange(0, i + 1)) == Err::<ScanState, ErrorView>(ErrorView::MarkdownParseError(msg@)));
                            proof { lemma_scan_error_sticks(starts, len, events@, i + 1); }
                            return Err(KazeNhanhError::MarkdownParseError(msg));
                        }
                        match finalize_heading(h, &line_map, &mut sections) {
                            Ok(()) => {},
                            Err(e) => {
                                assert(scan_events(starts, len, events@.subrange(0, i + 1)) == Err::<ScanState, ErrorView>(e@));
                                proof { lemma_scan_error_sticks(starts, len, events@, i + 1); }
                                assert(scan_events(starts, len, events@) == Err::<ScanState, ErrorView>(e@));
                                assert(document_sections(markdown@, events@) == Err::<Seq<SectionView>, ErrorView>(e@));
                                return Err(e);
                            },
                        }
                    },
                    None => {},
                }
            },
            MarkdownEvent::Fragment { text } => {
                let prev = pending.take();
                match prev {
                    Some(mut h) => {
                        if !h.raw_text.as_str().is_empty() {
                            push_char(&mut h.raw_text, ' ');
                        }
                        h.raw_text.append(text.as_str());
                        pending = Some(h);
                    },
                    None => {},
                }
            },
            MarkdownEvent::LineBreak => {
                let prev = pending.take();
                match prev {
                    Some(mut h) => {
                        push_char(&mut h.raw_text, ' ');
                        pending = Some(h);
                    },
                    None => {},
                }
            },
            MarkdownEvent::Other => {},
        }
        i += 1;
    }
    assert(events@.subrange(0, events@.len() as int) =~= events@);
    let last = pending.take();
    match last {
        Some(h) => {
            match finalize_heading(h, &line_map, &mut sections) {
                Ok(()) => {},
                Err(e) => return Err(e),
            }
        },
        None => {},
    }
    assign_section_ranges(&line_map, &mut sections);
    Ok(sections)
}

/// Traverses Markdown headings and produces structured section metadata.
#[derive(Debug)]
pub struct MarkdownService {}

impl Default for MarkdownService {
    /// The service; it holds no state.
    fn default() -> (s: Self)
        ensures
            s == (MarkdownService {}),
    {
        MarkdownService {}
    }
}

impl MarkdownService {
    /// Creates a new service.
    pub fn new() -> (s: Self)
        ensures
            s == (MarkdownService {}),
    {
        MarkdownService {}
    }

    /// Maps Markdown headings to section metadata, including line ranges.
    pub fn map_document_structure(&self, markdown: &str) -> (r: Result<Vec<MarkdownSection>, KazeNhanhError>)
        ensures
            sections_result_view(r) == document_sections(markdown@, markdown_events(markdown@)),
            r is Ok ==> levels_in_range(section_views(r->Ok_0@)),
            r is Ok ==> titles_normalized(section_views(r->Ok_0@)),
            r is Ok ==> starts_before_ends(section_views(r->Ok_0@)),
            r is Ok && no_lone_cr(vstd::utf8::encode_utf8(markdown@)) && lines_fit(vstd::utf8::encode_utf8(markdown@))
                ==> starts_rise(section_views(r->Ok_0@)) && ranges_disjoint(section_views(r->Ok_0@)),
    {
        if is_blank(markdown) {
            let empty: Vec<MarkdownSection> = Vec::new();
            assert(section_views(empty@) =~= seq![]);
            return Ok(empty);
        }
        let events = parse_markdown_events(markdown);
        let byte_len = markdown.as_bytes().len();
        proof {
            lemma_section_levels(markdown@, events@);
            lemma_section_titles_normalized(markdown@, events@);
            lemma_sections_start_before_end(markdown@, events@);
            if no_lone_cr(vstd::utf8::encode_utf8(markdown@)) && lines_fit(vstd::utf8::encode_utf8(markdown@)) {
                lemma_own_lines_rise(markdown@, events@);
                lemma_sections_in_document_order(markdown@, events@);
            }
        }
        sections_from_events(markdown, &events)
    }
}

} // verus!
