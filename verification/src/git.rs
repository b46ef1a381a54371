//! Diff lines: which added lines a report keeps, how they are grouped per file
//! and ordered, and how a file's additions are rendered.

use vstd::prelude::*;
use crate::grouping::{has_key, lemma_lines_for_absent, lemma_lines_for_push, lines_for};
use crate::order::{chars_less, chars_lt, key_le, keys_sorted, lemma_chars_lt_irreflexive, lemma_chars_lt_total, lemma_chars_lt_transitive, lemma_key_le_total, lemma_key_le_transitive, LineKey};
use crate::text::{ascii_lower, chars_of, chars_equal, decimal, decimal_string, join, join_strings, lower_range, str_equal, string_from_range};

verus! {

broadcast use vstd::string::group_string_axioms, vstd::seq_lib::group_to_multiset_ensures;

/// A line added by a commit.
#[derive(Debug, PartialEq, Eq, Clone)]
pub struct LineAddition {
    pub line_number: u32,
    pub content: String,
}

impl View for LineAddition {
    type V = LineKey;

    open spec fn view(&self) -> LineKey {
        (self.line_number, self.content@)
    }
}

impl LineAddition {
    /// A line with its number and text.
    pub fn new(line_number: u32, content: String) -> (l: Self)
        ensures
            l@ == (line_number, content@),
    {
        LineAddition { line_number, content }
    }

    /// A copy of this line.
    pub fn duplicate(&self) -> (l: Self)
        ensures
            l@ == self@,
    {
        LineAddition { line_number: self.line_number, content: self.content.clone() }
    }
}

/// Views of a list of lines.
pub open spec fn line_views(v: Seq<LineAddition>) -> Seq<LineKey> {
    v.map_values(|l: LineAddition| l@)
}

/// The lines a file gained in the reporting window.
#[derive(Debug, PartialEq, Eq)]
pub struct FileDiff {
    pub path: String,
    pub added_lines: Vec<LineAddition>,
}

impl View for FileDiff {
    type V = (Seq<char>, Seq<LineKey>);

    open spec fn view(&self) -> (Seq<char>, Seq<LineKey>) {
        (self.path@, line_views(self.added_lines@))
    }
}

impl FileDiff {
    /// A file with its added lines.
    pub fn new(path: String, added_lines: Vec<LineAddition>) -> (d: Self)
        ensures
            d.path == path,
            d.added_lines == added_lines,
    {
        FileDiff { path, added_lines }
    }
}

/// `s` ends with `suffix`.
pub open spec fn ends_with(s: Seq<char>, suffix: Seq<char>) -> bool {
    suffix.len() <= s.len() && s.subrange(s.len() - suffix.len(), s.len() as int) == suffix
}

/// A path is reported when, ignoring ASCII case, it ends with one of the extensions.
pub open spec fn path_matches(path: Seq<char>, exts: Seq<Seq<char>>) -> bool {
    exists|i: int| 0 <= i < exts.len() && ends_with(ascii_lower(path), ascii_lower(#[trigger] exts[i]))
}

/// Whether `path` ends with one of `extensions`, ignoring ASCII case.
pub fn matches_extension(path: &str, extensions: &Vec<String>) -> (b: bool)
    ensures
        b == path_matches(path@, extensions@.map_values(|s: String| s@)),
{
    let pc = chars_of(path);
    let lower_s = lower_range(&pc, 0, pc.len());
    assert(pc@.subrange(0, pc@.len() as int) =~= pc@);
    let lower = chars_of(lower_s.as_str());
    let ghost exts = extensions@.map_values(|s: String| s@);
    let mut i: usize = 0;
    while i < extensions.len()
        invariant
            i <= extensions@.len(),
            exts == extensions@.map_values(|s: String| s@),
            lower@ == ascii_lower(path@),
            forall|k: int| 0 <= k < i ==> !ends_with(ascii_lower(path@), ascii_lower(#[trigger] exts[k])),
        decreases extensions.len() - i,
    {
        let ec = chars_of(extensions[i].as_str());
        let el_s = lower_range(&ec, 0, ec.len());
        assert(ec@.subrange(0, ec@.len() as int) =~= ec@);
        let el = chars_of(el_s.as_str());
        assert(el@ == ascii_lower(exts[i as int]));
        if el.len() <= lower.len() {
            let tail_s = string_from_range(&lower, lower.len() - el.len(), lower.len());
            let tail = chars_of(tail_s.as_str());
            if chars_equal(&tail, &el) {
                return true;
            }
        }
        i += 1;
    }
    false
}

/// What `String::from_utf8_lossy` makes of a byte sequence.
pub uninterp spec fn utf8_lossy(bytes: Seq<u8>) -> Seq<char>;

/// `String::from_utf8_lossy(bytes).into_owned()`: the bytes decoded as UTF-8,
/// each invalid sequence replaced by U+FFFD; valid UTF-8 decodes unchanged.
#[verifier::external_body]
fn decode_utf8_lossy(bytes: &[u8]) -> (s: String)
    ensures
        s@ == utf8_lossy(bytes@),
        vstd::utf8::valid_utf8(bytes@) ==> s@ == vstd::utf8::decode_utf8(bytes@),
{
    String::from_utf8_lossy(bytes).into_owned()
}

/// Removes every trailing line feed and carriage return.
pub open spec fn strip_line_end(s: Seq<char>) -> Seq<char>
    decreases s.len(),
{
    if s.len() > 0 && (s.last() == '\n' || s.last() == '\r') {
        strip_line_end(s.drop_last())
    } else {
        s
    }
}

/// The text of a diff line: decoded lossily, without its line ending.
pub fn normalize_line_content(content: &[u8]) -> (s: String)
    ensures
        s@ == strip_line_end(utf8_lossy(content@)),
        vstd::utf8::valid_utf8(content@) ==> s@ == strip_line_end(vstd::utf8::decode_utf8(content@)),
{
    let text = decode_utf8_lossy(content);
    let cs = chars_of(text.as_str());
    let mut n = cs.len();
    assert(cs@.subrange(0, cs@.len() as int) =~= cs@);
    while n > 0 && (cs[n - 1] == '\n' || cs[n - 1] == '\r')
        invariant
            n <= cs@.len(),
            strip_line_end(cs@) == strip_line_end(cs@.subrange(0, n as int)),
        decreases n,
    {
        assert(cs@.subrange(0, n as int).drop_last() =~= cs@.subrange(0, n - 1));
        n -= 1;
    }
    string_from_range(&cs, 0, n)
}

/// The added line a diff line contributes, if any: lines of binary files, of
/// files without a path, of files whose path does not match, lines that are
/// not additions, and lines without a new line number contribute nothing.
pub open spec fn addition_of(
    is_binary: bool,
    new_path: Option<Seq<char>>,
    old_path: Option<Seq<char>>,
    origin: char,
    new_lineno: Option<u32>,
    content: Seq<u8>,
    exts: Seq<Seq<char>>,
) -> Option<(Seq<char>, LineKey)> {
    let path = match new_path { Some(p) => Some(p), None => old_path };
    if is_binary || path is None {
        None
    } else if !path_matches(path->0, exts) || origin != '+' || new_lineno is None {
        None
    } else {
        Some((path->0, (new_lineno->0, strip_line_end(utf8_lossy(content)))))
    }
}

/// The text of an optional string.
pub open spec fn opt_view(o: Option<String>) -> Option<Seq<char>> {
    match o {
        Some(s) => Some(s@),
        None => None,
    }
}

/// Decides whether one diff line is a reported addition, and builds it.
pub fn addition_from_diff_line(
    is_binary: bool,
    new_path: Option<String>,
    old_path: Option<String>,
    origin: char,
    new_lineno: Option<u32>,
    content: &[u8],
    extensions: &Vec<String>,
) -> (r: Option<(String, LineAddition)>)
    ensures
        match r {
            Some(a) => addition_of(is_binary, opt_view(new_path), opt_view(old_path), origin, new_lineno, content@, extensions@.map_values(|s: String| s@)) == Some((a.0@, a.1@)),
            None => addition_of(is_binary, opt_view(new_path), opt_view(old_path), origin, new_lineno, content@, extensions@.map_values(|s: String| s@)) is None,
        },
{
    if is_binary {
        return None;
    }
    let path = match new_path {
        Some(p) => p,
        None => match old_path {
            Some(p) => p,
            None => return None,
        },
    };
    if !matches_extension(path.as_str(), extensions) {
        return None;
    }
    if origin != '+' {
        return None;
    }
    match new_lineno {
        Some(n) => Some((path, LineAddition::new(n, normalize_line_content(content)))),
        None => None,
    }
}

/// An added line with the path of its file.
pub type AddView = (Seq<char>, LineKey);

/// Paths in strictly increasing order.
pub open spec fn paths_sorted(ps: Seq<Seq<char>>) -> bool {
    forall|i: int, j: int| 0 <= i < j < ps.len() ==> chars_lt(ps[i], ps[j])
}

/// The paths of a list of per-file groups.
pub open spec fn paths_of(out: Seq<(Seq<char>, Seq<LineKey>)>) -> Seq<Seq<char>> {
    out.map_values(|o: (Seq<char>, Seq<LineKey>)| o.0)
}

/// `out` is the per-file grouping of `adds`: one entry per touched path, in
/// path order, each with that path's lines sorted by number and then text.
pub open spec fn is_grouping(adds: Seq<AddView>, out: Seq<(Seq<char>, Seq<LineKey>)>) -> bool {
    &&& paths_sorted(paths_of(out))
    &&& forall|p: Seq<char>| has_key(adds, p) <==> paths_of(out).contains(p)
    &&& forall|i: int| 0 <= i < out.len() ==> keys_sorted(#[trigger] out[i].1)
        && out[i].1.to_multiset() == lines_for(adds, out[i].0).to_multiset()
}

/// `groups` gathers `adds` per path, in path order, each path's lines in the
/// order they were added.
pub open spec fn gathers(adds: Seq<AddView>, groups: Seq<(Seq<char>, Seq<LineKey>)>) -> bool {
    &&& paths_sorted(paths_of(groups))
    &&& forall|p: Seq<char>| has_key(adds, p) <==> paths_of(groups).contains(p)
    &&& forall|k: int| 0 <= k < groups.len() ==> (#[trigger] groups[k]).1 == lines_for(adds, groups[k].0)
}

/// Groups additions by path, keeping paths in order and each path's lines in
/// the order they came.
fn group_additions(adds: &Vec<(String, LineAddition)>) -> (r: Vec<FileDiff>)
    ensures
        gathers(add_views(adds@), diff_views(r@)),
{
    let ghost av = add_views(adds@);
    let mut groups: Vec<FileDiff> = Vec::new();
    let mut i: usize = 0;
    proof {
        assert(av.subrange(0, 0) =~= Seq::<AddView>::empty());
        assert(paths_of(diff_views(groups@)) =~= Seq::<Seq<char>>::empty());
    }
    while i < adds.len()
        invariant
            i <= adds@.len(),
            av == add_views(adds@),
            gathers(av.subrange(0, i as int), diff_views(groups@)),
        decreases adds.len() - i,
    {
        let ghost prefix = av.subrange(0, i as int);
        let ghost dv = diff_views(groups@);
        let ghost ps = paths_of(dv);
        let path = chars_of(adds[i].0.as_str());
        assert(path@ == av[i as int].0);
        let line = adds[i].1.duplicate();
        let mut j: usize = 0;
        while j < groups.len()
            invariant
                j <= groups@.len(),
                dv == diff_views(groups@),
                ps == paths_of(dv),
                forall|k: int| 0 <= k < j ==> chars_lt(#[trigger] ps[k], path@),
            ensures
                j < groups@.len() ==> !chars_lt(ps[j as int], path@),
            decreases groups.len() - j,
        {
            let gp = chars_of(groups[j].path.as_str());
            assert(gp@ == ps[j as int]);
            if !chars_less(&gp, &path) {
                break;
            }
            j += 1;
        }
        let same = j < groups.len() && str_equal(groups[j].path.as_str(), adds[i].0.as_str());
        let ghost p = path@;
        let ghost a = av[i as int];
        proof {
            assert(av.subrange(0, i + 1) =~= prefix.push(a));
            assert forall|k: int| 0 <= k < ps.len() && k != j implies #[trigger] ps[k] != p by {
                if k < j {
                    lemma_chars_lt_irreflexive(p);
                } else {
                    lemma_chars_lt_total(ps[j as int], p);
                    if ps[j as int] == p {
                        lemma_chars_lt_irreflexive(p);
                    } else {
                        assert(chars_lt(ps[j as int], ps[k]));
                        lemma_chars_lt_transitive(p, ps[j as int], ps[k]);
                        lemma_chars_lt_irreflexive(p);
                    }
                }
            }
        }
        if same {
            let mut g = groups.remove(j);
            let ghost gv = g@;
            g.added_lines.push(line);
            assert(g@ == (gv.0, gv.1.push(a.1))) by {
                assert(line_views(g.added_lines@) =~= gv.1.push(a.1));
            }
            groups.insert(j, g);
            proof {
                let ndv = diff_views(groups@);
                assert(ndv =~= dv.update(j as int, (p, dv[j as int].1.push(a.1))));
                assert(paths_of(ndv) =~= ps);
                assert(ps[j as int] == p);
                assert forall|k: int| 0 <= k < ndv.len() implies (#[trigger] ndv[k]).1 == lines_for(prefix.push(a), ndv[k].0) by {
                    lemma_lines_for_push(prefix, a, ndv[k].0);
                    assert(dv[k].1 == lines_for(prefix, dv[k].0));
                    assert(ps[k] == dv[k].0);
                }
                assert forall|q: Seq<char>| has_key(prefix.push(a), q) <==> paths_of(ndv).contains(q) by {
                    lemma_lines_for_push(prefix, a, q);
                    if q == p {
                        assert(ps[j as int] == p);
                    }
                }
            }
        } else {
            let mut lines: Vec<LineAddition> = Vec::new();
            lines.push(line);
            let name = adds[i].0.clone();
            groups.insert(j, FileDiff::new(name, lines));
            proof {
                let ndv = diff_views(groups@);
                assert(line_views(lines@) =~= seq![a.1]);
                assert(ndv =~= dv.insert(j as int, (p, seq![a.1])));
                assert(paths_of(ndv) =~= ps.insert(j as int, p));
                assert(!ps.contains(p)) by {
                    if ps.contains(p) {
                        let k = choose|k: int| 0 <= k < ps.len() && ps[k] == p;
                        if k == j {
                            assert(dv[j as int].0 == ps[j as int]);
                        }
                    }
                }
                assert(!has_key(prefix, p));
                lemma_lines_for_absent(prefix, p);
                lemma_lines_for_push(prefix, a, p);
                assert forall|k: int| 0 <= k < ndv.len() implies (#[trigger] ndv[k]).1 == lines_for(prefix.push(a), ndv[k].0) by {
                    lemma_lines_for_push(prefix, a, ndv[k].0);
                    if k > j {
                        assert(ndv[k] == dv[k - 1]);
                        assert(dv[k - 1].1 == lines_for(prefix, dv[k - 1].0));
                        assert(ps[k - 1] == dv[k - 1].0);
                    } else if k < j {
                        assert(ndv[k] == dv[k]);
                        assert(dv[k].1 == lines_for(prefix, dv[k].0));
                        assert(ps[k] == dv[k].0);
                    }
                }
                assert forall|q: Seq<char>| has_key(prefix.push(a), q) <==> paths_of(ndv).contains(q) by {
                    lemma_lines_for_push(prefix, a, q);
                    if paths_of(ndv).contains(q) {
                        let k = choose|k: int| 0 <= k < paths_of(ndv).len() && paths_of(ndv)[k] == q;
                        if k > j {
                            assert(paths_of(ndv)[k] == ps[k - 1]);
                        } else if k < j {
                            assert(paths_of(ndv)[k] == ps[k]);
                        }
                    }
                    if ps.contains(q) {
                        let k = choose|k: int| 0 <= k < ps.len() && ps[k] == q;
                        if k >= j {
                            assert(paths_of(ndv)[k + 1] == ps[k]);
                        } else {
                            assert(paths_of(ndv)[k] == ps[k]);
                        }
                    }
                    if q == p {
                        assert(paths_of(ndv)[j as int] == p);
                    }
                }
                assert forall|x: int, y: int| 0 <= x < y < paths_of(ndv).len() implies chars_lt(#[trigger] paths_of(ndv)[x], #[trigger] paths_of(ndv)[y]) by {
                    let nps = paths_of(ndv);
                    if j < ps.len() {
                        lemma_chars_lt_total(ps[j as int], p);
                    }
                    if x < j && y == j {
                    } else if x == j && y > j {
                        assert(nps[y] == ps[y - 1]);
                        if y - 1 > j {
                            lemma_chars_lt_transitive(p, ps[j as int], ps[y - 1]);
                        }
                    } else if x < j && y > j {
                        assert(nps[y] == ps[y - 1]);
                    } else if x > j {
                        assert(nps[x] == ps[x - 1]);
                        assert(nps[y] == ps[y - 1]);
                    }
                }
            }
        }
        i += 1;
    }
    assert(av.subrange(0, av.len() as int) =~= av);
    groups
}

/// Groups added lines per file: files in path order, each file's lines
/// sorted by number and then text.
pub fn aggregate_additions(adds: &Vec<(String, LineAddition)>) -> (r: Vec<FileDiff>)
    ensures
        is_grouping(add_views(adds@), diff_views(r@)),
{
    let groups = group_additions(adds);
    let ghost gv = diff_views(groups@);
    let mut out: Vec<FileDiff> = Vec::new();
    let mut k: usize = 0;
    while k < groups.len()
        invariant
            k <= groups@.len(),
            gv == diff_views(groups@),
            out@.len() == k,
            forall|m: int| 0 <= m < k ==> (#[trigger] diff_views(out@)[m]).0 == gv[m].0
                && keys_sorted(diff_views(out@)[m].1)
                && diff_views(out@)[m].1.to_multiset() == gv[m].1.to_multiset(),
        decreases groups.len() - k,
    {
        let sorted = sort_lines(&groups[k].added_lines);
        let name = groups[k].path.clone();
        let ghost before = diff_views(out@);
        out.push(FileDiff::new(name, sorted));
        assert(diff_views(out@) =~= before.push(diff_views(out@)[k as int]));
        k += 1;
    }
    proof {
        let ov = diff_views(out@);
        assert(paths_of(ov) =~= paths_of(gv));
    }
    out
}

/// How many lines a list of per-file groups holds.
pub open spec fn file_line_count(out: Seq<(Seq<char>, Seq<LineKey>)>) -> nat
    decreases out.len(),
{
    if out.len() == 0 {
        0
    } else {
        file_line_count(out.drop_last()) + out.last().1.len()
    }
}

proof fn lemma_file_lines_sum(adds: Seq<AddView>, out: Seq<(Seq<char>, Seq<LineKey>)>)
    requires
        forall|i: int| 0 <= i < out.len() ==> (#[trigger] out[i]).1.len() == lines_for(adds, out[i].0).len(),
    ensures
        file_line_count(out) == crate::grouping::sum_lines(adds, paths_of(out)),
    decreases out.len(),
{
    if out.len() > 0 {
        assert forall|i: int| 0 <= i < out.drop_last().len() implies (#[trigger] out.drop_last()[i]).1.len() == lines_for(adds, out.drop_last()[i].0).len() by {
            assert(out.drop_last()[i] == out[i]);
        }
        lemma_file_lines_sum(adds, out.drop_last());
        assert(paths_of(out).drop_last() =~= paths_of(out.drop_last()));
        assert(paths_of(out).last() == out.last().0);
        assert(out.last() == out[out.len() - 1]);
    }
}

/// Aggregation keeps every added line: the files together hold exactly as
/// many lines as were added.
pub proof fn lemma_aggregation_keeps_every_line(adds: Seq<AddView>, out: Seq<(Seq<char>, Seq<LineKey>)>)
    requires
        is_grouping(adds, out),
    ensures
        file_line_count(out) == adds.len(),
{
    let ps = paths_of(out);
    assert(ps.no_duplicates()) by {
        assert forall|i: int, j: int| 0 <= i < ps.len() && 0 <= j < ps.len() && i != j implies ps[i] != ps[j] by {
            if i < j {
                lemma_chars_lt_irreflexive(ps[i]);
            } else {
                lemma_chars_lt_irreflexive(ps[j]);
            }
        }
    }
    assert forall|i: int| 0 <= i < out.len() implies (#[trigger] out[i]).1.len() == lines_for(adds, out[i].0).len() by {
        out[i].1.to_multiset_ensures();
        lines_for(adds, out[i].0).to_multiset_ensures();
    }
    lemma_file_lines_sum(adds, out);
    crate::grouping::lemma_sum_lines_total(adds, ps);
}

/// Views of a list of additions.
pub open spec fn add_views(v: Seq<(String, LineAddition)>) -> Seq<AddView> {
    v.map_values(|a: (String, LineAddition)| (a.0@, a.1@))
}

/// Views of a list of file diffs.
pub open spec fn diff_views(v: Seq<FileDiff>) -> Seq<(Seq<char>, Seq<LineKey>)> {
    v.map_values(|d: FileDiff| d@)
}

/// Sorts lines by number, then by text.
pub fn sort_lines(v: &Vec<LineAddition>) -> (r: Vec<LineAddition>)
    ensures
        keys_sorted(line_views(r@)),
        line_views(r@).to_multiset() == line_views(v@).to_multiset(),
{
    let ghost vv = line_views(v@);
    let mut out: Vec<LineAddition> = Vec::new();
    let mut i: usize = 0;
    assert(vv.subrange(0, 0) =~= seq![]);
    assert(line_views(out@) =~= seq![]);
    while i < v.len()
        invariant
            i <= v@.len(),
            vv == line_views(v@),
            keys_sorted(line_views(out@)),
            line_views(out@).to_multiset() == vv.subrange(0, i as int).to_multiset(),
        decreases v.len() - i,
    {
        let x = v[i].duplicate();
        assert(x@ == vv[i as int]);
        let xc = chars_of(x.content.as_str());
        let mut j: usize = 0;
        while j < out.len() && key_le_exec(&out[j], x.line_number, &xc)
            invariant
                j <= out@.len(),
                xc@ == x.content@,
                forall|k: int| 0 <= k < j ==> key_le(line_views(out@)[k], x@),
            decreases out.len() - j,
        {
            j += 1;
        }
        let ghost before = line_views(out@);
        proof {
            if j < before.len() {
                lemma_key_le_total(before[j as int], x@);
            }
            assert forall|a: int, b: int| 0 <= a < b < before.len() + 1 implies key_le(#[trigger] before.insert(j as int, x@)[a], #[trigger] before.insert(j as int, x@)[b]) by {
                let s = before.insert(j as int, x@);
                if a < j && b == j {
                } else if a == j && b > j {
                    assert(s[b] == before[b - 1]);
                    if b - 1 > j {
                        lemma_key_le_transitive(x@, before[j as int], before[b - 1]);
                    }
                } else if a < j && b > j {
                    assert(s[b] == before[b - 1]);
                } else if a > j {
                    assert(s[a] == before[a - 1]);
                    assert(s[b] == before[b - 1]);
                }
            }
        }
        out.insert(j, x);
        assert(line_views(out@) =~= before.insert(j as int, x@));
        assert(vv.subrange(0, i + 1) =~= vv.subrange(0, i as int).push(vv[i as int]));
        i += 1;
    }
    assert(vv.subrange(0, vv.len() as int) =~= vv);
    out
}

/// `key_le` for a line and a line number with text.
fn key_le_exec(a: &LineAddition, line: u32, text: &Vec<char>) -> (r: bool)
    ensures
        r == key_le(a@, (line, text@)),
{
    if a.line_number < line {
        return true;
    }
    if a.line_number > line {
        return false;
    }
    let ac = chars_of(a.content.as_str());
    !chars_less(text, &ac)
}

/// The most lines a file summary lists.
pub const MAX_DIFF_LINES: usize = 10;

/// One listed line: `  +<number> <text>`.
pub open spec fn line_entry(l: LineKey) -> Seq<char> {
    "  +"@ + decimal(l.0 as nat) + " "@ + l.1
}

/// The entries of a file summary: its first lines, then a note on how many
/// more there are when some are left out.
pub open spec fn summary_lines(lines: Seq<LineKey>) -> Seq<Seq<char>> {
    if lines.len() > MAX_DIFF_LINES {
        lines.subrange(0, MAX_DIFF_LINES as int).map_values(|l: LineKey| line_entry(l)).push(
            "  ... (+"@ + decimal((lines.len() - MAX_DIFF_LINES) as nat) + " more lines)"@,
        )
    } else {
        lines.map_values(|l: LineKey| line_entry(l))
    }
}

/// A file's summary: a heading with its path, then its entries, one per line.
pub open spec fn diff_summary(d: (Seq<char>, Seq<LineKey>)) -> Seq<char> {
    "### "@ + d.0 + "\n"@ + join(summary_lines(d.1), "\n"@)
}

/// The text of a Git activity report over the given files.
pub open spec fn git_report_text(repo: Seq<char>, days: u32, diffs: Seq<(Seq<char>, Seq<LineKey>)>) -> Seq<char> {
    if diffs.len() == 0 {
        "No Markdown changes detected for `"@ + repo + "` in the last "@ + decimal(days as nat) + " day(s)."@
    } else {
        "Git activity report for `"@ + repo + "`\n\n"@ + join(
            diffs.map_values(|d: (Seq<char>, Seq<LineKey>)| diff_summary(d)),
            "\n\n"@,
        )
    }
}

/// Renders one listed line.
fn line_entry_string(l: &LineAddition) -> (s: String)
    ensures
        s@ == line_entry(l@),
{
    let mut s = String::from_str("  +");
    let n = decimal_string(l.line_number as u64);
    s.append(n.as_str());
    s.append(" ");
    s.append(l.content.as_str());
    s
}

/// Renders a file's summary, listing at most `MAX_DIFF_LINES` of its lines.
pub fn render_diff_summary(diff: &FileDiff) -> (s: String)
    ensures
        s@ == diff_summary(diff@),
{
    let lines = &diff.added_lines;
    let ghost lv = line_views(lines@);
    let shown = if lines.len() > MAX_DIFF_LINES { MAX_DIFF_LINES } else { lines.len() };
    let mut snippet: Vec<String> = Vec::new();
    let mut i: usize = 0;
    while i < shown
        invariant
            shown <= lines@.len(),
            i <= shown,
            lv == line_views(lines@),
            snippet@.map_values(|x: String| x@) == lv.subrange(0, i as int).map_values(|l: LineKey| line_entry(l)),
        decreases shown - i,
    {
        let e = line_entry_string(&lines[i]);
        let ghost before = snippet@.map_values(|x: String| x@);
        snippet.push(e);
        assert(snippet@.map_values(|x: String| x@) =~= before.push(e@));
        assert(lv.subrange(0, i + 1).map_values(|l: LineKey| line_entry(l)) =~= lv.subrange(0, i as int).map_values(|l: LineKey| line_entry(l)).push(line_entry(lv[i as int])));
        i += 1;
    }
    if lines.len() > MAX_DIFF_LINES {
        let mut more = String::from_str("  ... (+");
        let k = decimal_string((lines.len() - MAX_DIFF_LINES) as u64);
        more.append(k.as_str());
        more.append(" more lines)");
        let ghost before = snippet@.map_values(|x: String| x@);
        snippet.push(more);
        assert(snippet@.map_values(|x: String| x@) =~= before.push(more@));
    } else {
        assert(lv.subrange(0, lv.len() as int) =~= lv);
    }
    let body = join_strings(&snippet, "\n");
    let mut s = String::from_str("### ");
    s.append(diff.path.as_str());
    s.append("\n");
    s.append(body.as_str());
    s
}

/// Renders the Git activity report for the given files.
pub fn render_git_report(repo_path: &str, days_since: u32, diffs: &Vec<FileDiff>) -> (s: String)
    ensures
        s@ == git_report_text(repo_path@, days_since, diff_views(diffs@)),
{
    if diffs.len() == 0 {
        let mut s = String::from_str("No Markdown changes detected for `");
        s.append(repo_path);
        s.append("` in the last ");
        let d = decimal_string(days_since as u64);
        s.append(d.as_str());
        s.append(" day(s).");
        return s;
    }
    let ghost dv = diff_views(diffs@);
    let mut sections: Vec<String> = Vec::new();
    let mut i: usize = 0;
    while i < diffs.len()
        invariant
            i <= diffs@.len(),
            dv == diff_views(diffs@),
            sections@.map_values(|x: String| x@) == dv.subrange(0, i as int).map_values(|d: (Seq<char>, Seq<LineKey>)| diff_summary(d)),
        decreases diffs.len() - i,
    {
        let e = render_diff_summary(&diffs[i]);
        let ghost before = sections@.map_values(|x: String| x@);
        sections.push(e);
        assert(sections@.map_values(|x: String| x@) =~= before.push(e@));
        assert(dv.subrange(0, i + 1).map_values(|d: (Seq<char>, Seq<LineKey>)| diff_summary(d)) =~= dv.subrange(0, i as int).map_values(|d: (Seq<char>, Seq<LineKey>)| diff_summary(d)).push(diff_summary(dv[i as int])));
        i += 1;
    }
    assert(dv.subrange(0, dv.len() as int) =~= dv);
    let body = join_strings(&sections, "\n\n");
    let mut s = String::from_str("Git activity report for `");
    s.append(repo_path);
    s.append("`\n\n");
    s.append(body.as_str());
    s
}

/// Seconds in a day.
pub const SECONDS_PER_DAY: u64 = 86400;

/// The earliest commit time a report covers: `days_since` days before `now`,
/// or zero when that would lie before the epoch.
pub fn since_threshold(now: u64, days_since: u32) -> (t: u64)
    ensures
        t == (if now >= days_since * SECONDS_PER_DAY { now - days_since * SECONDS_PER_DAY } else { 0 }),
{
    let window = (days_since as u64) * SECONDS_PER_DAY;
    if now >= window { now - window } else { 0 }
}

/// How many commits, newest first, lie inside the window: the walk stops at
/// the first commit older than `since`.
pub fn count_recent(commit_times: &Vec<i64>, since: i64) -> (n: usize)
    ensures
        n <= commit_times@.len(),
        forall|k: int| 0 <= k < n ==> commit_times@[k] >= since,
        n < commit_times@.len() ==> commit_times@[n as int] < since,
{
    let mut n: usize = 0;
    while n < commit_times.len() && commit_times[n] >= since
        invariant
            n <= commit_times@.len(),
            forall|k: int| 0 <= k < n ==> commit_times@[k] >= since,
        decreases commit_times.len() - n,
    {
        n += 1;
    }
    n
}

} // verus!
