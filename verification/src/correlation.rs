//! Correlating added lines with the Markdown sections they fall in.

use vstd::prelude::*;
use crate::git::{opt_view, LineAddition};
use crate::grouping::{has_key, lemma_lines_for_absent, lemma_lines_for_push, lines_for};
use crate::markdown::{section_views, MarkdownSection, SectionView};
use crate::order::{chars_less, chars_lt, lemma_chars_lt_irreflexive, lemma_chars_lt_total, lemma_chars_lt_transitive, LineKey};
use crate::text::{chars_of, str_equal};

verus! {

broadcast use vstd::string::group_string_axioms;

/// An added line as reported with its section.
#[derive(Debug, PartialEq, Eq, Clone)]
pub struct ContextualAddition {
    pub line_number: u32,
    pub content: String,
}

impl View for ContextualAddition {
    type V = LineKey;

    open spec fn view(&self) -> LineKey {
        (self.line_number, self.content@)
    }
}

impl ContextualAddition {
    /// The reported form of an added line.
    pub fn from_line(addition: &LineAddition) -> (c: Self)
        ensures
            c@ == addition@,
    {
        ContextualAddition { line_number: addition.line_number, content: addition.content.clone() }
    }
}

/// Model of a contextual change.
pub struct ChangeView {
    pub file_path: Seq<char>,
    pub section_title: Option<Seq<char>>,
    pub section_level: Option<u8>,
    pub added_lines: Seq<LineKey>,
}

/// Lines added to one section of one file.
#[derive(Debug, PartialEq, Eq, Clone)]
pub struct ContextualChange {
    pub file_path: String,
    pub section_title: Option<String>,
    pub section_level: Option<u8>,
    pub added_lines: Vec<ContextualAddition>,
}

/// Views of a list of contextual additions.
pub open spec fn addition_views(v: Seq<ContextualAddition>) -> Seq<LineKey> {
    v.map_values(|a: ContextualAddition| a@)
}

impl View for ContextualChange {
    type V = ChangeView;

    open spec fn view(&self) -> ChangeView {
        ChangeView {
            file_path: self.file_path@,
            section_title: opt_view(self.section_title),
            section_level: self.section_level,
            added_lines: addition_views(self.added_lines@),
        }
    }
}

/// Views of a list of contextual changes.
pub open spec fn change_views(v: Seq<ContextualChange>) -> Seq<ChangeView> {
    v.map_values(|c: ContextualChange| c@)
}

/// Model of an ingested file.
pub struct EntryView {
    pub file_path: Seq<char>,
    pub added_lines: Seq<LineKey>,
    pub sections: Seq<SectionView>,
    pub document: Seq<char>,
}

/// A changed file with its added lines, its heading sections and its text.
#[derive(Debug, PartialEq, Eq)]
pub struct DiffIngestionEntry {
    pub file_path: String,
    pub added_lines: Vec<LineAddition>,
    pub sections: Vec<MarkdownSection>,
    pub document: String,
}

impl View for DiffIngestionEntry {
    type V = EntryView;

    open spec fn view(&self) -> EntryView {
        EntryView {
            file_path: self.file_path@,
            added_lines: crate::git::line_views(self.added_lines@),
            sections: section_views(self.sections@),
            document: self.document@,
        }
    }
}

impl DiffIngestionEntry {
    /// An entry from its parts.
    pub fn new(file_path: String, added_lines: Vec<LineAddition>, sections: Vec<MarkdownSection>, document: String) -> (e: Self)
        ensures
            e.file_path == file_path,
            e.added_lines == added_lines,
            e.sections == sections,
            e.document == document,
    {
        DiffIngestionEntry { file_path, added_lines, sections, document }
    }
}

/// Views of a list of entries.
pub open spec fn entry_views(v: Seq<DiffIngestionEntry>) -> Seq<EntryView> {
    v.map_values(|e: DiffIngestionEntry| e@)
}

/// Section `s` covers `line`: from its start to its end, or just its start
/// line when its end lies before it.
pub open spec fn covers(s: SectionView, line: u32) -> bool {
    s.start_line <= line && (s.end_line >= line || s.start_line >= line)
}

/// The section a line belongs to: among the sections covering it, the one
/// that starts last; of several such, the last in the list.
pub open spec fn best_section(secs: Seq<SectionView>, line: u32) -> Option<int>
    decreases secs.len(),
{
    if secs.len() == 0 {
        None
    } else {
        let prev = best_section(secs.drop_last(), line);
        let i = secs.len() - 1;
        if covers(secs[i], line) && (prev is None || secs[prev->0].start_line <= secs[i].start_line) {
            Some(i)
        } else {
            prev
        }
    }
}

/// The grouping key of a line: its section's start line, title and level,
/// or `(0, None, None)` when no section covers it.
pub type SectionKeyView = (u32, Option<Seq<char>>, Option<u8>);

/// The key a line falls under.
pub open spec fn key_of(secs: Seq<SectionView>, line: u32) -> SectionKeyView {
    match best_section(secs, line) {
        Some(i) => (secs[i].start_line, Some(secs[i].title), Some(secs[i].level)),
        None => (0, None, None),
    }
}

/// `None` first, then titles in string order.
pub open spec fn opt_chars_lt(a: Option<Seq<char>>, b: Option<Seq<char>>) -> bool {
    match (a, b) {
        (None, Some(_)) => true,
        (Some(x), Some(y)) => chars_lt(x, y),
        _ => false,
    }
}

/// `None` first, then levels in numeric order.
pub open spec fn opt_u8_lt(a: Option<u8>, b: Option<u8>) -> bool {
    match (a, b) {
        (None, Some(_)) => true,
        (Some(x), Some(y)) => x < y,
        _ => false,
    }
}

/// Keys order by start line, then title, then level.
pub open spec fn section_key_lt(a: SectionKeyView, b: SectionKeyView) -> bool {
    a.0 < b.0 || (a.0 == b.0 && (opt_chars_lt(a.1, b.1) || (a.1 == b.1 && opt_u8_lt(a.2, b.2))))
}

/// The key order is a strict total order.
pub proof fn lemma_section_key_order(a: SectionKeyView, b: SectionKeyView, c: SectionKeyView)
    ensures
        !section_key_lt(a, a),
        a != b ==> (section_key_lt(a, b) || section_key_lt(b, a)),
        !(section_key_lt(a, b) && section_key_lt(b, a)),
        section_key_lt(a, b) && section_key_lt(b, c) ==> section_key_lt(a, c),
{
    if a.1 is Some {
        lemma_chars_lt_irreflexive(a.1->0);
    }
    if a.1 is Some && b.1 is Some {
        lemma_chars_lt_total(a.1->0, b.1->0);
    }
    if a.1 is Some && b.1 is Some && c.1 is Some && chars_lt(a.1->0, b.1->0) && chars_lt(b.1->0, c.1->0) {
        lemma_chars_lt_transitive(a.1->0, b.1->0, c.1->0);
    }
    if a.1 is Some && b.1 is Some && c.1 is Some {
        lemma_chars_lt_total(b.1->0, c.1->0);
        lemma_chars_lt_total(a.1->0, c.1->0);
    }
}

/// Finds the section a line belongs to, as an index into `sections`.
pub fn find_section(sections: &Vec<MarkdownSection>, line: u32) -> (r: Option<usize>)
    ensures
        match r {
            Some(i) => best_section(section_views(sections@), line) == Some(i as int) && i < sections@.len(),
            None => best_section(section_views(sections@), line) is None,
        },
{
    let ghost sv = section_views(sections@);
    let mut best: Option<usize> = None;
    let mut i: usize = 0;
    while i < sections.len()
        invariant
            i <= sections@.len(),
            sv == section_views(sections@),
            match best {
                Some(b) => best_section(sv.subrange(0, i as int), line) == Some(b as int) && b < i,
                None => best_section(sv.subrange(0, i as int), line) is None,
            },
        decreases sections.len() - i,
    {
        let start = sections[i].start_line();
        let end = sections[i].end_line();
        assert(sv.subrange(0, i + 1).drop_last() =~= sv.subrange(0, i as int));
        assert(sv.subrange(0, i + 1)[i as int] == sv[i as int]);
        let covering = start <= line && (end >= line || start >= line);
        if covering {
            match best {
                Some(b) => {
                    assert(sv.subrange(0, i + 1)[b as int] == sv[b as int]);
                    if sections[b].start_line() <= start {
                        best = Some(i);
                    }
                },
                None => {
                    best = Some(i);
                },
            }
        }
        i += 1;
    }
    assert(sv.subrange(0, sv.len() as int) =~= sv);
    best
}

/// Each added line of an entry tagged with the key of its section.
pub open spec fn tagged_lines(e: EntryView) -> Seq<(SectionKeyView, LineKey)> {
    e.added_lines.map_values(|l: LineKey| (key_of(e.sections, l.0), l))
}

/// Keys in strictly increasing order.
pub open spec fn keys_increasing(ks: Seq<SectionKeyView>) -> bool {
    forall|i: int, j: int| 0 <= i < j < ks.len() ==> section_key_lt(ks[i], ks[j])
}

/// The change a file reports for one key: the lines tagged with it, in order.
pub open spec fn change_for(path: Seq<char>, tagged: Seq<(SectionKeyView, LineKey)>, k: SectionKeyView) -> ChangeView {
    ChangeView { file_path: path, section_title: k.1, section_level: k.2, added_lines: lines_for(tagged, k) }
}

/// `out` holds, for the keys `ks` in increasing order, the change of each key,
/// and `ks` are exactly the keys some tagged line carries.
pub open spec fn keyed_changes(path: Seq<char>, tagged: Seq<(SectionKeyView, LineKey)>, ks: Seq<SectionKeyView>, out: Seq<ChangeView>) -> bool {
    &&& ks.len() == out.len()
    &&& keys_increasing(ks)
    &&& forall|k: SectionKeyView| has_key(tagged, k) <==> ks.contains(k)
    &&& forall|i: int| 0 <= i < out.len() ==> #[trigger] out[i] == change_for(path, tagged, ks[i])
}

/// `out` is the entry's added lines grouped by section: one change per
/// section key that some line falls under, in key order, each with its lines
/// in the order they were added.
pub open spec fn grouped_by_section(e: EntryView, out: Seq<ChangeView>) -> bool {
    exists|ks: Seq<SectionKeyView>| #[trigger] keyed_changes(e.file_path, tagged_lines(e), ks, out)
}

/// Whether key `a` sorts before key `b`.
fn key_less(a0: u32, a1: &Option<String>, a2: Option<u8>, b0: u32, b1: &Option<String>, b2: Option<u8>) -> (r: bool)
    ensures
        r == section_key_lt((a0, opt_view(*a1), a2), (b0, opt_view(*b1), b2)),
{
    if a0 != b0 {
        return a0 < b0;
    }
    match a1 {
        None => match b1 {
            None => match (a2, b2) {
                (None, Some(_)) => true,
                (Some(x), Some(y)) => x < y,
                _ => false,
            },
            Some(_) => true,
        },
        Some(x) => match b1 {
            None => false,
            Some(y) => {
                if str_equal(x.as_str(), y.as_str()) {
                    assert(opt_view(*a1) == opt_view(*b1));
                    assert(!opt_chars_lt(opt_view(*a1), opt_view(*b1))) by {
                        lemma_chars_lt_irreflexive(x@);
                    }
                    match (a2, b2) {
                        (None, Some(_)) => true,
                        (Some(p), Some(q)) => p < q,
                        _ => false,
                    }
                } else {
                    chars_less(&chars_of(x.as_str()), &chars_of(y.as_str()))
                }
            },
        },
    }
}

/// Whether two keys are the same.
fn key_equal(a0: u32, a1: &Option<String>, a2: Option<u8>, b0: u32, b1: &Option<String>, b2: Option<u8>) -> (r: bool)
    ensures
        r == ((a0, opt_view(*a1), a2) == (b0, opt_view(*b1), b2)),
{
    let titles_equal = match (a1, b1) {
        (None, None) => true,
        (Some(x), Some(y)) => str_equal(x.as_str(), y.as_str()),
        _ => false,
    };
    a0 == b0 && titles_equal && a2 == b2
}

/// Groups an entry's added lines by the section each falls in.
pub fn group_by_section(entry: &DiffIngestionEntry) -> (r: Vec<ContextualChange>)
    ensures
        grouped_by_section(entry@, change_views(r@)),
{
    let ghost ev = entry@;
    let ghost tg = tagged_lines(ev);
    let ghost path = ev.file_path;
    let mut starts: Vec<u32> = Vec::new();
    let mut groups: Vec<ContextualChange> = Vec::new();
    let ghost mut ks: Seq<SectionKeyView> = seq![];
    let mut i: usize = 0;
    proof {
        assert(tg.subrange(0, 0) =~= Seq::<(SectionKeyView, LineKey)>::empty());
    }
    while i < entry.added_lines.len()
        invariant
            i <= entry.added_lines@.len(),
            ev == entry@,
            tg == tagged_lines(ev),
            path == ev.file_path,
            starts@.len() == groups@.len(),
            forall|k: int| 0 <= k < ks.len() ==> #[trigger] ks[k] == (starts@[k], groups@[k]@.section_title, groups@[k]@.section_level),
            keyed_changes(path, tg.subrange(0, i as int), ks, change_views(groups@)),
        decreases entry.added_lines.len() - i,
    {
        let ghost prefix = tg.subrange(0, i as int);
        let ghost cv = change_views(groups@);
        let ghost oks = ks;
        let ghost ostarts = starts@;
        let add = &entry.added_lines[i];
        let found = find_section(&entry.sections, add.line_number);
        let (kstart, ktitle, klevel): (u32, Option<String>, Option<u8>) = match found {
            Some(b) => (entry.sections[b].start_line(), Some(String::from_str(entry.sections[b].title())), Some(entry.sections[b].level())),
            None => (0, None, None),
        };
        let ghost key: SectionKeyView = (kstart, opt_view(ktitle), klevel);
        let ghost a = tg[i as int];
        assert(a == (key, add@));
        let mut j: usize = 0;
        while j < groups.len()
            invariant
                j <= groups@.len(),
                starts@.len() == groups@.len(),
                cv == change_views(groups@),
                ks == oks,
                ks.len() == groups@.len(),
                key == (kstart, opt_view(ktitle), klevel),
                forall|k: int| 0 <= k < ks.len() ==> #[trigger] ks[k] == (starts@[k], groups@[k]@.section_title, groups@[k]@.section_level),
                forall|k: int| 0 <= k < j ==> section_key_lt(#[trigger] ks[k], key),
            ensures
                j < groups@.len() ==> !section_key_lt(ks[j as int], key),
            decreases groups.len() - j,
        {
            assert(ks[j as int] == (starts@[j as int], groups@[j as int]@.section_title, groups@[j as int]@.section_level));
            if !key_less(starts[j], &groups[j].section_title, groups[j].section_level, kstart, &ktitle, klevel) {
                break;
            }
            j += 1;
        }
        let same = j < groups.len() && key_equal(starts[j], &groups[j].section_title, groups[j].section_level, kstart, &ktitle, klevel);
        proof {
            assert(tg.subrange(0, i + 1) =~= prefix.push(a));
            if j < ks.len() {
                assert(ks[j as int] == (starts@[j as int], groups@[j as int]@.section_title, groups@[j as int]@.section_level));
            }
            assert forall|k: int| 0 <= k < ks.len() && k != j implies #[trigger] ks[k] != key by {
                lemma_section_key_order(key, key, key);
                if k > j {
                    lemma_section_key_order(ks[j as int], key, ks[k]);
                    lemma_section_key_order(key, ks[j as int], ks[k]);
                }
            }
        }
        if same {
            let mut g = groups.remove(j);
            let ghost gv = g@;
            g.added_lines.push(ContextualAddition::from_line(add));
            assert(g@ == ChangeView { added_lines: gv.added_lines.push(add@), ..gv }) by {
                assert(addition_views(g.added_lines@) =~= gv.added_lines.push(add@));
            }
            groups.insert(j, g);
            proof {
                let ncv = change_views(groups@);
                assert(ks[j as int] == key);
                lemma_lines_for_push(prefix, a, key);
                assert(cv[j as int] == change_for(path, prefix, key));
                assert(gv == cv[j as int]);
                assert(ncv =~= cv.update(j as int, change_for(path, prefix.push(a), key)));
                assert forall|k: int| 0 <= k < ncv.len() implies #[trigger] ncv[k] == change_for(path, prefix.push(a), ks[k]) by {
                    lemma_lines_for_push(prefix, a, ks[k]);
                    assert(cv[k] == change_for(path, prefix, ks[k]));
                }
                assert forall|k: int| 0 <= k < ks.len() implies #[trigger] ks[k] == (starts@[k], groups@[k]@.section_title, groups@[k]@.section_level) by {
                    assert(groups@[k]@ == ncv[k]);
                    assert(cv[k] == change_for(path, prefix, ks[k]));
                }
                assert forall|q: SectionKeyView| has_key(prefix.push(a), q) <==> ks.contains(q) by {
                    lemma_lines_for_push(prefix, a, q);
                }
            }
        } else {
            let mut lines: Vec<ContextualAddition> = Vec::new();
            lines.push(ContextualAddition::from_line(add));
            let change = ContextualChange { file_path: entry.file_path.clone(), section_title: ktitle, section_level: klevel, added_lines: lines };
            starts.insert(j, kstart);
            groups.insert(j, change);
            proof {
                let ncv = change_views(groups@);
                let nks = oks.insert(j as int, key);
                assert(addition_views(lines@) =~= seq![add@]);
                assert(!oks.contains(key)) by {
                    if oks.contains(key) {
                        let k = choose|k: int| 0 <= k < oks.len() && oks[k] == key;
                    }
                }
                assert(!has_key(prefix, key));
                lemma_lines_for_absent(prefix, key);
                lemma_lines_for_push(prefix, a, key);
                assert(ncv =~= cv.insert(j as int, change_for(path, prefix.push(a), key)));
                assert forall|k: int| 0 <= k < ncv.len() implies #[trigger] ncv[k] == change_for(path, prefix.push(a), nks[k]) by {
                    lemma_lines_for_push(prefix, a, nks[k]);
                    if k > j {
                        assert(ncv[k] == cv[k - 1]);
                        assert(nks[k] == oks[k - 1]);
                        assert(cv[k - 1] == change_for(path, prefix, oks[k - 1]));
                    } else if k < j {
                        assert(ncv[k] == cv[k]);
                        assert(nks[k] == oks[k]);
                        assert(cv[k] == change_for(path, prefix, oks[k]));
                    }
                }
                assert forall|k: int| 0 <= k < nks.len() implies #[trigger] nks[k] == (starts@[k], groups@[k]@.section_title, groups@[k]@.section_level) by {
                    assert(groups@[k]@ == ncv[k]);
                    if k > j {
                        assert(nks[k] == oks[k - 1]);
                        assert(oks[k - 1] == (ostarts[k - 1], cv[k - 1].section_title, cv[k - 1].section_level)) by {
                            assert(cv[k - 1] == change_for(path, prefix, oks[k - 1]));
                        }
                    } else if k < j {
                        assert(nks[k] == oks[k]);
                        assert(cv[k] == change_for(path, prefix, oks[k]));
                    }
                }
                assert forall|q: SectionKeyView| has_key(prefix.push(a), q) <==> nks.contains(q) by {
                    lemma_lines_for_push(prefix, a, q);
                    if nks.contains(q) {
                        let k = choose|k: int| 0 <= k < nks.len() && nks[k] == q;
                        if k > j {
                            assert(nks[k] == oks[k - 1]);
                        } else if k < j {
                            assert(nks[k] == oks[k]);
                        }
                    }
                    if oks.contains(q) {
                        let k = choose|k: int| 0 <= k < oks.len() && oks[k] == q;
                        if k >= j {
                            assert(nks[k + 1] == oks[k]);
                        } else {
                            assert(nks[k] == oks[k]);
                        }
                    }
                    if q == key {
                        assert(nks[j as int] == key);
                    }
                }
                assert forall|x: int, y: int| 0 <= x < y < nks.len() implies section_key_lt(#[trigger] nks[x], #[trigger] nks[y]) by {
                    if j < oks.len() {
                        lemma_section_key_order(oks[j as int], key, key);
                    }
                    if x < j && y == j {
                    } else if x == j && y > j {
                        assert(nks[y] == oks[y - 1]);
                        if y - 1 > j {
                            lemma_section_key_order(key, oks[j as int], oks[y - 1]);
                        }
                    } else if x < j && y > j {
                        assert(nks[y] == oks[y - 1]);
                    } else if x > j {
                        assert(nks[x] == oks[x - 1]);
                        assert(nks[y] == oks[y - 1]);
                    }
                }
                ks = nks;
            }
        }
        i += 1;
    }
    assert(tg.subrange(0, tg.len() as int) =~= tg);
    assert(keyed_changes(path, tg, ks, change_views(groups@)));
    groups
}

/// `out` is the changes of `entries` one after another, each entry's added
/// lines grouped by section; an entry without added lines contributes nothing.
pub open spec fn correlates(entries: Seq<EntryView>, out: Seq<ChangeView>) -> bool
    decreases entries.len(),
{
    if entries.len() == 0 {
        out.len() == 0
    } else {
        exists|n: int|
            0 <= n <= out.len() && correlates(entries.drop_last(), #[trigger] out.subrange(0, n))
                && grouped_by_section(entries.last(), out.subrange(n, out.len() as int))
    }
}

/// Correlates every entry's added lines with the sections they fall in.
pub fn correlate(entries: &Vec<DiffIngestionEntry>) -> (r: Vec<ContextualChange>)
    ensures
        correlates(entry_views(entries@), change_views(r@)),
{
    let ghost ev = entry_views(entries@);
    let mut out: Vec<ContextualChange> = Vec::new();
    let mut i: usize = 0;
    proof {
        assert(ev.subrange(0, 0).len() == 0);
    }
    while i < entries.len()
        invariant
            i <= entries@.len(),
            ev == entry_views(entries@),
            correlates(ev.subrange(0, i as int), change_views(out@)),
        decreases entries.len() - i,
    {
        let ghost before = change_views(out@);
        let ghost e = ev[i as int];
        if entries[i].added_lines.len() > 0 {
            let mut groups = group_by_section(&entries[i]);
            let ghost gv = change_views(groups@);
            out.append(&mut groups);
            assert(change_views(out@) =~= before + gv);
            assert(change_views(out@).subrange(before.len() as int, change_views(out@).len() as int) =~= gv);
        } else {
            assert(grouped_by_section(e, Seq::<ChangeView>::empty())) by {
                let ks = Seq::<SectionKeyView>::empty();
                assert(tagged_lines(e).len() == 0);
                assert forall|k: SectionKeyView| has_key(tagged_lines(e), k) <==> ks.contains(k) by {}
                assert(keyed_changes(e.file_path, tagged_lines(e), ks, Seq::<ChangeView>::empty()));
            }
            assert(change_views(out@).subrange(before.len() as int, change_views(out@).len() as int) =~= Seq::<ChangeView>::empty());
        }
        proof {
            let now = change_views(out@);
            assert(now.subrange(0, before.len() as int) =~= before);
            assert(ev.subrange(0, i + 1).drop_last() =~= ev.subrange(0, i as int));
            assert(ev.subrange(0, i + 1).last() == e);
            assert(correlates(ev.subrange(0, i + 1), now));
        }
        i += 1;
    }
    assert(ev.subrange(0, ev.len() as int) =~= ev);
    out
}

/// How many lines a list of changes lists.
pub open spec fn listed_lines(out: Seq<ChangeView>) -> nat
    decreases out.len(),
{
    if out.len() == 0 {
        0
    } else {
        listed_lines(out.drop_last()) + out.last().added_lines.len()
    }
}

/// How many lines a list of entries added.
pub open spec fn added_line_count(entries: Seq<EntryView>) -> nat
    decreases entries.len(),
{
    if entries.len() == 0 {
        0
    } else {
        added_line_count(entries.drop_last()) + entries.last().added_lines.len()
    }
}

proof fn lemma_listed_lines_append(a: Seq<ChangeView>, b: Seq<ChangeView>)
    ensures
        listed_lines(a + b) == listed_lines(a) + listed_lines(b),
    decreases b.len(),
{
    if b.len() == 0 {
        assert(a + b =~= a);
    } else {
        lemma_listed_lines_append(a, b.drop_last());
        assert((a + b).drop_last() =~= a + b.drop_last());
        assert((a + b).last() == b.last());
    }
}

proof fn lemma_listed_is_sum(path: Seq<char>, tagged: Seq<(SectionKeyView, LineKey)>, ks: Seq<SectionKeyView>, out: Seq<ChangeView>)
    requires
        ks.len() == out.len(),
        forall|i: int| 0 <= i < out.len() ==> #[trigger] out[i] == change_for(path, tagged, ks[i]),
    ensures
        listed_lines(out) == crate::grouping::sum_lines(tagged, ks),
    decreases out.len(),
{
    if out.len() > 0 {
        assert forall|i: int| 0 <= i < out.drop_last().len() implies #[trigger] out.drop_last()[i] == change_for(path, tagged, ks.drop_last()[i]) by {
            assert(out.drop_last()[i] == out[i]);
        }
        lemma_listed_is_sum(path, tagged, ks.drop_last(), out.drop_last());
        assert(out.last() == out[out.len() - 1]);
    }
}

/// Grouping an entry by section keeps every added line: each line is listed
/// under its own section, no change is empty, and the changes list exactly as
/// many lines as the entry added.
pub proof fn lemma_grouping_keeps_every_line(e: EntryView, out: Seq<ChangeView>)
    requires
        grouped_by_section(e, out),
    ensures
        listed_lines(out) == e.added_lines.len(),
        forall|i: int| 0 <= i < out.len() ==> (#[trigger] out[i]).added_lines.len() > 0 && out[i].file_path == e.file_path,
        forall|t: int| 0 <= t < e.added_lines.len() ==> exists|i: int| 0 <= i < out.len()
            && out[i].added_lines.contains(#[trigger] e.added_lines[t])
            && out[i].section_title == key_of(e.sections, e.added_lines[t].0).1
            && out[i].section_level == key_of(e.sections, e.added_lines[t].0).2,
{
    let tagged = tagged_lines(e);
    let ks = choose|ks: Seq<SectionKeyView>| #[trigger] keyed_changes(e.file_path, tagged, ks, out);
    assert(ks.no_duplicates()) by {
        assert forall|i: int, j: int| 0 <= i < ks.len() && 0 <= j < ks.len() && i != j implies ks[i] != ks[j] by {
            if i < j {
                lemma_section_key_order(ks[i], ks[i], ks[i]);
            } else {
                lemma_section_key_order(ks[j], ks[j], ks[j]);
            }
        }
    }
    crate::grouping::lemma_sum_lines_total(tagged, ks);
    lemma_listed_is_sum(e.file_path, tagged, ks, out);
    assert forall|i: int| 0 <= i < out.len() implies (#[trigger] out[i]).added_lines.len() > 0 && out[i].file_path == e.file_path by {
        assert(out[i] == change_for(e.file_path, tagged, ks[i]));
        assert(ks.contains(ks[i]));
        let t = choose|t: int| 0 <= t < tagged.len() && (#[trigger] tagged[t]).0 == ks[i];
        crate::grouping::lemma_lines_for_contains(tagged, t);
    }
    assert forall|t: int| 0 <= t < e.added_lines.len() implies exists|i: int| 0 <= i < out.len()
        && out[i].added_lines.contains(#[trigger] e.added_lines[t])
        && out[i].section_title == key_of(e.sections, e.added_lines[t].0).1
        && out[i].section_level == key_of(e.sections, e.added_lines[t].0).2 by {
        let k = tagged[t].0;
        assert(tagged[t] == (key_of(e.sections, e.added_lines[t].0), e.added_lines[t]));
        assert(has_key(tagged, k));
        let i = choose|i: int| 0 <= i < ks.len() && ks[i] == k;
        crate::grouping::lemma_lines_for_contains(tagged, t);
        assert(out[i] == change_for(e.file_path, tagged, ks[i]));
    }
}

/// Correlating keeps every added line: the changes list exactly as many lines
/// as the entries added.
pub proof fn lemma_correlation_keeps_every_line(entries: Seq<EntryView>, out: Seq<ChangeView>)
    requires
        correlates(entries, out),
    ensures
        listed_lines(out) == added_line_count(entries),
    decreases entries.len(),
{
    if entries.len() > 0 {
        let n = choose|n: int| 0 <= n <= out.len() && correlates(entries.drop_last(), #[trigger] out.subrange(0, n))
            && grouped_by_section(entries.last(), out.subrange(n, out.len() as int));
        lemma_correlation_keeps_every_line(entries.drop_last(), out.subrange(0, n));
        lemma_grouping_keeps_every_line(entries.last(), out.subrange(n, out.len() as int));
        assert(out =~= out.subrange(0, n) + out.subrange(n, out.len() as int));
        lemma_listed_lines_append(out.subrange(0, n), out.subrange(n, out.len() as int));
    }
}

} // verus!
