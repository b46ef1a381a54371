//! The prompt that asks for a review of contextualized changes, and the
//! message given when there is nothing to review.

use vstd::prelude::*;
use crate::correlation::{change_views, ChangeView, ContextualChange};
use crate::git::paths_sorted;
use crate::sentences::strings_view;
use crate::order::{chars_less, chars_lt, lemma_chars_lt_irreflexive, lemma_chars_lt_total, lemma_chars_lt_transitive, LineKey};
use crate::text::{chars_of, is_blank, concat, decimal, decimal_string, lemma_concat_push, str_equal, trim, trim_end, trim_end_string, trim_string};

verus! {

broadcast use vstd::string::group_string_axioms;

/// The heading shown for a change outside any section.
pub open spec fn fallback_section_title() -> Seq<char> {
    "(no heading)"@
}

/// ` (level n)` when the level is known.
pub open spec fn level_note(level: Option<u8>) -> Seq<char> {
    match level {
        Some(l) => " (level "@ + decimal(l as nat) + ")"@,
        None => seq![],
    }
}

/// One added line of a change: `    +<number> <trimmed text>`.
pub open spec fn prompt_line(l: LineKey) -> Seq<char> {
    "    +"@ + decimal(l.0 as nat) + " "@ + trim(l.1) + "\n"@
}

/// A change: its section heading and level, its lines, and a blank line.
pub open spec fn change_block(c: ChangeView) -> Seq<char> {
    "  Section: "@ + (match c.section_title {
        Some(t) => t,
        None => fallback_section_title(),
    }) + level_note(c.section_level) + "\n"@ + concat(c.added_lines.map_values(|l: LineKey| prompt_line(l))) + "\n"@
}

/// The changes to path `p`, in their order.
pub open spec fn changes_at(cs: Seq<ChangeView>, p: Seq<char>) -> Seq<ChangeView>
    decreases cs.len(),
{
    if cs.len() == 0 {
        seq![]
    } else {
        let prev = changes_at(cs.drop_last(), p);
        if cs.last().file_path == p { prev.push(cs.last()) } else { prev }
    }
}

/// A file: its path, then each of its changes.
pub open spec fn file_block(cs: Seq<ChangeView>, p: Seq<char>) -> Seq<char> {
    "File: "@ + p + "\n"@ + concat(changes_at(cs, p).map_values(|c: ChangeView| change_block(c)))
}

/// The analyst's guidance, when given and not blank.
pub open spec fn guidance(custom: Option<Seq<char>>) -> Seq<char> {
    match custom {
        Some(t) => if trim(t).len() > 0 { "Additional Analyst Guidance:\n"@ + trim(t) + "\n\n"@ } else { seq![] },
        None => seq![],
    }
}

/// The fixed part of the prompt before the files.
pub open spec fn prompt_head(repo: Seq<char>, days: u32, custom: Option<Seq<char>>) -> Seq<char> {
    "You are an AI assistant that reviews Git markdown changes and produces actionable insights.\n"@
        + "Repository: "@ + trim(repo) + "\nTime Window: Last "@ + decimal(days as nat) + " day(s)\n\n"@
        + guidance(custom)
        + "Summarize the following contextualized changes. Focus on intent, potential impact, and highlight any documentation or testing gaps.\n\n"@
}

/// Some change touches path `p`.
pub open spec fn touches(cs: Seq<ChangeView>, p: Seq<char>) -> bool {
    exists|i: int| 0 <= i < cs.len() && (#[trigger] cs[i]).file_path == p
}

/// `ps` lists the paths the changes touch, each once, in increasing order.
pub open spec fn file_order(cs: Seq<ChangeView>, ps: Seq<Seq<char>>) -> bool {
    &&& paths_sorted(ps)
    &&& forall|p: Seq<char>| touches(cs, p) <==> ps.contains(p)
}

/// The prompt over files `ps`, without trailing whitespace.
pub open spec fn prompt_text(repo: Seq<char>, days: u32, cs: Seq<ChangeView>, custom: Option<Seq<char>>, ps: Seq<Seq<char>>) -> Seq<char> {
    trim_end(prompt_head(repo, days, custom) + concat(ps.map_values(|p: Seq<char>| file_block(cs, p))))
}

/// The text of an optional string slice.
pub open spec fn opt_str_view(o: Option<&str>) -> Option<Seq<char>> {
    match o {
        Some(s) => Some(s@),
        None => None,
    }
}

/// The message given when no relevant change was found.
pub open spec fn fallback_text(repo: Seq<char>, days: u32) -> Seq<char> {
    "No relevant Markdown additions detected for `"@ + trim(repo) + "` within the last "@ + decimal(days as nat) + " day(s)."@
}

/// Says that no relevant Markdown addition was found in the window.
pub fn fallback_message(repo_path: &str, days_since: u32) -> (s: String)
    ensures
        s@ == fallback_text(repo_path@, days_since),
{
    let mut s = String::from_str("No relevant Markdown additions detected for `");
    let repo = trim_string(repo_path);
    s.append(repo.as_str());
    s.append("` within the last ");
    let d = decimal_string(days_since as u64);
    s.append(d.as_str());
    s.append(" day(s).");
    s
}

/// Renders one added line of a change.
fn prompt_line_string(line_number: u32, content: &str) -> (s: String)
    ensures
        s@ == prompt_line((line_number, content@)),
{
    let mut s = String::from_str("    +");
    let n = decimal_string(line_number as u64);
    s.append(n.as_str());
    s.append(" ");
    let t = trim_string(content);
    s.append(t.as_str());
    s.append("\n");
    s
}

/// Renders a change: its heading, its lines, and a blank line.
fn change_block_string(c: &ContextualChange) -> (s: String)
    ensures
        s@ == change_block(c@),
{
    let mut s = String::from_str("  Section: ");
    match &c.section_title {
        Some(t) => s.append(t.as_str()),
        None => s.append("(no heading)"),
    }
    match c.section_level {
        Some(l) => {
            s.append(" (level ");
            let d = decimal_string(l as u64);
            s.append(d.as_str());
            s.append(")");
        },
        None => {},
    }
    s.append("\n");
    let ghost head = s@;
    let ghost lv = c@.added_lines;
    let mut k: usize = 0;
    assert(lv.subrange(0, 0).map_values(|l: LineKey| prompt_line(l)) =~= Seq::<Seq<char>>::empty());
    while k < c.added_lines.len()
        invariant
            k <= c.added_lines@.len(),
            lv == c@.added_lines,
            s@ == head + concat(lv.subrange(0, k as int).map_values(|l: LineKey| prompt_line(l))),
        decreases c.added_lines.len() - k,
    {
        let line = prompt_line_string(c.added_lines[k].line_number, c.added_lines[k].content.as_str());
        proof {
            let f = |l: LineKey| prompt_line(l);
            assert(lv.subrange(0, k + 1).map_values(f) =~= lv.subrange(0, k as int).map_values(f).push(f(lv[k as int])));
            lemma_concat_push(lv.subrange(0, k as int).map_values(f), f(lv[k as int]));
        }
        s.append(line.as_str());
        k += 1;
    }
    assert(lv.subrange(0, lv.len() as int) =~= lv);
    s.append("\n");
    s
}

/// The paths the changes touch, each once, in increasing order.
fn sorted_paths(changes: &[ContextualChange]) -> (ps: Vec<String>)
    ensures
        file_order(change_views(changes@), strings_view(ps@)),
{
    let ghost cv = change_views(changes@);
    let mut ps: Vec<String> = Vec::new();
    let mut i: usize = 0;
    assert(strings_view(ps@) =~= Seq::<Seq<char>>::empty());
    while i < changes.len()
        invariant
            i <= changes@.len(),
            cv == change_views(changes@),
            paths_sorted(strings_view(ps@)),
            forall|p: Seq<char>| touches(cv.subrange(0, i as int), p) <==> strings_view(ps@).contains(p),
        decreases changes.len() - i,
    {
        let ghost pv = strings_view(ps@);
        let ghost p = cv[i as int].file_path;
        let path = chars_of(changes[i].file_path.as_str());
        let mut j: usize = 0;
        while j < ps.len()
            invariant
                j <= ps@.len(),
                pv == strings_view(ps@),
                path@ == p,
                forall|k: int| 0 <= k < j ==> chars_lt(#[trigger] pv[k], p),
            ensures
                j < ps@.len() ==> !chars_lt(pv[j as int], p),
            decreases ps.len() - j,
        {
            let q = chars_of(ps[j].as_str());
            if !chars_less(&q, &path) {
                break;
            }
            j += 1;
        }
        let same = j < ps.len() && str_equal(ps[j].as_str(), changes[i].file_path.as_str());
        proof {
            assert forall|q: Seq<char>| touches(cv.subrange(0, i + 1), q) <==> (touches(cv.subrange(0, i as int), q) || q == p) by {
                if touches(cv.subrange(0, i + 1), q) {
                    let k = choose|k: int| 0 <= k < i + 1 && (#[trigger] cv.subrange(0, i + 1)[k]).file_path == q;
                    if k < i {
                        assert(cv.subrange(0, i as int)[k] == cv.subrange(0, i + 1)[k]);
                    }
                }
                if touches(cv.subrange(0, i as int), q) {
                    let k = choose|k: int| 0 <= k < i && (#[trigger] cv.subrange(0, i as int)[k]).file_path == q;
                    assert(cv.subrange(0, i as int)[k] == cv.subrange(0, i + 1)[k]);
                }
                if q == p {
                    assert(cv.subrange(0, i + 1)[i as int] == cv[i as int]);
                }
            }
        }
        if !same {
            let name = changes[i].file_path.clone();
            ps.insert(j, name);
            proof {
                let npv = strings_view(ps@);
                assert(npv =~= pv.insert(j as int, p));
                assert forall|k: int| 0 <= k < pv.len() && k != j implies #[trigger] pv[k] != p by {
                    lemma_chars_lt_irreflexive(p);
                    if k > j {
                        lemma_chars_lt_total(pv[j as int], p);
                        if pv[j as int] != p {
                            lemma_chars_lt_transitive(p, pv[j as int], pv[k]);
                        }
                    }
                }
                assert forall|q: Seq<char>| touches(cv.subrange(0, i + 1), q) <==> npv.contains(q) by {
                    if npv.contains(q) {
                        let k = choose|k: int| 0 <= k < npv.len() && npv[k] == q;
                        if k > j {
                            assert(npv[k] == pv[k - 1]);
                        } else if k < j {
                            assert(npv[k] == pv[k]);
                        }
                    }
                    if pv.contains(q) {
                        let k = choose|k: int| 0 <= k < pv.len() && pv[k] == q;
                        if k >= j {
                            assert(npv[k + 1] == pv[k]);
                        } else {
                            assert(npv[k] == pv[k]);
                        }
                    }
                    if q == p {
                        assert(npv[j as int] == p);
                    }
                }
                assert forall|x: int, y: int| 0 <= x < y < npv.len() implies chars_lt(#[trigger] npv[x], #[trigger] npv[y]) by {
                    if j < pv.len() {
                        lemma_chars_lt_total(pv[j as int], p);
                    }
                    if x < j && y == j {
                    } else if x == j && y > j {
                        assert(npv[y] == pv[y - 1]);
                        if y - 1 > j {
                            lemma_chars_lt_transitive(p, pv[j as int], pv[y - 1]);
                        }
                    } else if x < j && y > j {
                        assert(npv[y] == pv[y - 1]);
                    } else if x > j {
                        assert(npv[x] == pv[x - 1]);
                        assert(npv[y] == pv[y - 1]);
                    }
                }
            }
        } else {
            assert(pv[j as int] == p);
        }
        i += 1;
    }
    assert(cv.subrange(0, cv.len() as int) =~= cv);
    ps
}

/// Builds the review prompt: the repository and window, the analyst's
/// guidance when given, then each touched file in path order with its
/// changes, their sections and added lines.
pub fn build_prompt(repo_path: &str, days_since: u32, changes: &[ContextualChange], custom_prompt: Option<&str>) -> (s: String)
    ensures
        exists|ps: Seq<Seq<char>>|
            file_order(change_views(changes@), ps) && s@ == #[trigger] prompt_text(repo_path@, days_since, change_views(changes@), opt_str_view(custom_prompt), ps),
{
    let ghost cv = change_views(changes@);
    let mut s = String::from_str("You are an AI assistant that reviews Git markdown changes and produces actionable insights.\n");
    s.append("Repository: ");
    let repo = trim_string(repo_path);
    s.append(repo.as_str());
    s.append("\nTime Window: Last ");
    let d = decimal_string(days_since as u64);
    s.append(d.as_str());
    s.append(" day(s)\n\n");
    match custom_prompt {
        Some(text) => {
            let t = trim_string(text);
            if !is_blank(text) {
                proof {
                    assert(t@.len() > 0);
                }
                s.append("Additional Analyst Guidance:\n");
                s.append(t.as_str());
                s.append("\n\n");
            } else {
                assert(t@.len() == 0);
            }
        },
        None => {},
    }
    s.append("Summarize the following contextualized changes. Focus on intent, potential impact, and highlight any documentation or testing gaps.\n\n");
    assert(s@ =~= prompt_head(repo_path@, days_since, opt_str_view(custom_prompt)));
    let ghost head = s@;
    let paths = sorted_paths(changes);
    let ghost ps = strings_view(paths@);
    let mut m: usize = 0;
    assert(ps.subrange(0, 0).map_values(|p: Seq<char>| file_block(cv, p)) =~= Seq::<Seq<char>>::empty());
    while m < paths.len()
        invariant
            m <= paths@.len(),
            cv == change_views(changes@),
            ps == strings_view(paths@),
            s@ == head + concat(ps.subrange(0, m as int).map_values(|p: Seq<char>| file_block(cv, p))),
        decreases paths.len() - m,
    {
        let ghost before = s@;
        let ghost p = ps[m as int];
        s.append("File: ");
        s.append(paths[m].as_str());
        s.append("\n");
        let ghost fhead = s@;
        let mut k: usize = 0;
        assert(changes_at(cv.subrange(0, 0), p).map_values(|c: ChangeView| change_block(c)) =~= Seq::<Seq<char>>::empty());
        while k < changes.len()
            invariant
                k <= changes@.len(),
                m < paths@.len(),
                ps == strings_view(paths@),
                cv == change_views(changes@),
                p == ps[m as int],
                paths@[m as int]@ == p,
                s@ == fhead + concat(changes_at(cv.subrange(0, k as int), p).map_values(|c: ChangeView| change_block(c))),
            decreases changes.len() - k,
        {
            let ghost sub = cv.subrange(0, k as int);
            assert(cv.subrange(0, k + 1).drop_last() =~= sub);
            assert(cv.subrange(0, k + 1).last() == cv[k as int]);
            if str_equal(changes[k].file_path.as_str(), paths[m].as_str()) {
                let block = change_block_string(&changes[k]);
                proof {
                    let f = |c: ChangeView| change_block(c);
                    assert(changes_at(cv.subrange(0, k + 1), p) == changes_at(sub, p).push(cv[k as int]));
                    assert(changes_at(cv.subrange(0, k + 1), p).map_values(f) =~= changes_at(sub, p).map_values(f).push(f(cv[k as int])));
                    lemma_concat_push(changes_at(sub, p).map_values(f), f(cv[k as int]));
                }
                s.append(block.as_str());
            }
            k += 1;
        }
        assert(cv.subrange(0, cv.len() as int) =~= cv);
        proof {
            let g = |q: Seq<char>| file_block(cv, q);
            assert(s@ =~= before + file_block(cv, p));
            assert(ps.subrange(0, m + 1).map_values(g) =~= ps.subrange(0, m as int).map_values(g).push(g(p)));
            lemma_concat_push(ps.subrange(0, m as int).map_values(g), g(p));
        }
        m += 1;
    }
    assert(ps.subrange(0, ps.len() as int) =~= ps);
    let r = trim_end_string(s.as_str());
    assert(r@ == prompt_text(repo_path@, days_since, cv, opt_str_view(custom_prompt), ps));
    r
}


/// The parts before `m` make up the start of the concatenation of all parts.
proof fn lemma_concat_take_prefix(parts: Seq<Seq<char>>, m: int)
    requires
        0 <= m <= parts.len(),
    ensures
        concat(parts.take(m)).len() <= concat(parts).len(),
        concat(parts).subrange(0, concat(parts.take(m)).len() as int) == concat(parts.take(m)),
    decreases parts.len(),
{
    if m == parts.len() {
        assert(parts.take(m) =~= parts);
    } else {
        lemma_concat_take_prefix(parts.drop_last(), m);
        assert(parts.drop_last().take(m) =~= parts.take(m));
        let c = concat(parts.drop_last());
        assert(concat(parts) == c + parts.last());
        assert((c + parts.last()).subrange(0, concat(parts.take(m)).len() as int) =~= c.subrange(0, concat(parts.take(m)).len() as int));
    }
}

/// Every added line of a change is listed in its block, in order, each as
/// `    +<number> <trimmed text>` and a line feed: after the heading line
/// `  Section: <title><level note>`, entry `k` starts where the entries before
/// it end, and after the last entry only a blank line follows.
pub proof fn lemma_block_lists_every_line(c: ChangeView)
    ensures
        ({
            let block = change_block(c);
            let entry = |l: LineKey| "    +"@ + decimal(l.0 as nat) + " "@ + trim(l.1) + "\n"@;
            let entries = c.added_lines.map_values(entry);
            let head = "  Section: "@ + (match c.section_title {
                Some(t) => t,
                None => "(no heading)"@,
            }) + level_note(c.section_level) + "\n"@;
            &&& block.len() == head.len() + concat(entries).len() + 1
            &&& block.subrange(0, head.len() as int) == head
            &&& block[block.len() - 1] == '\n'
            &&& forall|k: int| 0 <= k < c.added_lines.len() ==> {
                let at: int = (head.len() + concat(entries.take(k)).len()) as int;
                block.subrange(at, at + entry(#[trigger] c.added_lines[k]).len() as int) == entry(c.added_lines[k])
            }
        }),
{
    let block = change_block(c);
    let entry = |l: LineKey| "    +"@ + decimal(l.0 as nat) + " "@ + trim(l.1) + "\n"@;
    let entries = c.added_lines.map_values(entry);
    let head = "  Section: "@ + (match c.section_title {
        Some(t) => t,
        None => "(no heading)"@,
    }) + level_note(c.section_level) + "\n"@;
    assert(c.added_lines.map_values(|l: LineKey| prompt_line(l)) =~= entries);
    let body = concat(entries);
    reveal_strlit("\n");
    assert(block =~= head + body + "\n"@);
    assert(block[block.len() - 1] == '\n');
    assert(block.subrange(0, head.len() as int) =~= head);
    assert forall|k: int| 0 <= k < c.added_lines.len() implies {
        let at: int = (head.len() + concat(entries.take(k)).len()) as int;
        block.subrange(at, at + entry(#[trigger] c.added_lines[k]).len() as int) == entry(c.added_lines[k])
    } by {
        lemma_concat_take_prefix(entries, k + 1);
        let before = concat(entries.take(k));
        assert(entries.take(k + 1).drop_last() =~= entries.take(k));
        assert(entries.take(k + 1).last() == entry(c.added_lines[k]));
        assert(concat(entries.take(k + 1)) == before + entry(c.added_lines[k]));
        let at: int = (head.len() + before.len()) as int;
        let e = entry(c.added_lines[k]);
        assert(body.subrange(0, (before + e).len() as int) == before + e);
        assert(block.subrange(at, at + e.len() as int) =~= body.subrange(before.len() as int, (before + e).len() as int));
        assert(body.subrange(before.len() as int, (before + e).len() as int) =~= (before + e).subrange(before.len() as int, (before + e).len() as int));
        assert((before + e).subrange(before.len() as int, (before + e).len() as int) =~= e);
    }
}

} // verus!
