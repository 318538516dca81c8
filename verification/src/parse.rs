//! The entry parser: the lenient line-indexed scanner that recovers
//! structured entries from a date file's text. It never fails; malformed
//! text degrades to field defaults.

use vstd::prelude::*;
use crate::entry::{
    heading_marker, label_blockers, label_description, label_duration, label_entry_type,
    label_links, label_project, label_reflections, label_results, label_tags, label_time_range,
    EntryModel, JiraTicketRef, Link, LinkModel, ParsedJournalEntry, TicketRefModel,
};
use crate::text::{
    begins_with, chars_of, find_from, find_pattern, lemma_find_from_found, match_at, spec_trim,
    split_by, split_pattern, starts_with, string_of, subvec, trim,
};

verus! {

pub open spec fn is_upper_char(c: char) -> bool {
    'A' <= c && c <= 'Z'
}

pub open spec fn is_digit_ascii(c: char) -> bool {
    '0' <= c && c <= '9'
}

/// The issue-key shape: one or more uppercase letters, a dash, one or more
/// digits.
pub open spec fn is_issue_key(t: Seq<char>) -> bool {
    let d = find_from(t, "-"@, 0);
    d >= 1 && d + 1 < t.len() && (forall|i: int| 0 <= i < d ==> is_upper_char(t[i])) && (forall|
        i: int,
    |
        d < i < t.len() ==> is_digit_ascii(t[i]))
}

/// The ticket-link shape of a URL: it holds "browse/" somewhere, with at
/// least one character after it.
pub open spec fn has_browse_tail(u: Seq<char>) -> bool {
    let b = find_from(u, "browse/"@, 0);
    b >= 0 && b + 7 < u.len()
}

pub fn is_issue_key_exec(t: &Vec<char>) -> (r: bool)
    ensures
        r == is_issue_key(t@),
{
    let dash = chars_of("-");
    proof {
        reveal_strlit("-");
    }
    let n = t.len();
    match find_pattern(t, &dash, 0) {
        None => false,
        Some(d) => {
            proof {
                lemma_find_from_found(t@, "-"@, 0);
            }
            if d < 1 || d + 1 >= n {
                return false;
            }
            let mut i: usize = 0;
            while i < d
                invariant
                    find_from(t@, "-"@, 0) == d as int,
                    1 <= d,
                    d + 1 < n == t@.len(),
                    i <= d,
                    forall|j: int| 0 <= j < i ==> is_upper_char(t@[j]),
                decreases d - i,
            {
                let c = t[i];
                if !('A' <= c && c <= 'Z') {
                    return false;
                }
                i = i + 1;
            }
            let mut k: usize = d + 1;
            while k < n
                invariant
                    find_from(t@, "-"@, 0) == d as int,
                    1 <= d,
                    d + 1 < n == t@.len(),
                    d + 1 <= k <= n,
                    forall|j: int| d < j < k ==> is_digit_ascii(t@[j]),
                decreases n - k,
            {
                let c = t[k];
                if !('0' <= c && c <= '9') {
                    return false;
                }
                k = k + 1;
            }
            true
        },
    }
}

pub fn has_browse_tail_exec(u: &Vec<char>) -> (r: bool)
    ensures
        r == has_browse_tail(u@),
{
    let pat = chars_of("browse/");
    proof {
        reveal_strlit("browse/");
    }
    let n = u.len();
    match find_pattern(u, &pat, 0) {
        None => false,
        Some(b) => {
            proof {
                lemma_find_from_found(u@, "browse/"@, 0);
            }
            b + 7 < n
        },
    }
}

/// All `[text](url)` spans of `s`, scanned left to right: at each `[`, the
/// text runs to the first `]` and must be non-empty and the `]` must be
/// followed by `(`; the url runs to the first `)` and must be non-empty.
/// After a span the scan resumes past its `)`; otherwise it moves on one
/// character.
pub open spec fn spans_from(s: Seq<char>, p: int) -> Seq<LinkModel>
    decreases s.len() - p,
    via spans_from_dec
{
    if p < 0 || p >= s.len() {
        Seq::empty()
    } else if s[p] == '[' {
        let cb = find_from(s, "]"@, p + 1);
        if cb >= 0 && cb > p + 1 && cb + 1 < s.len() && s[cb + 1] == '(' {
            let cp = find_from(s, ")"@, cb + 2);
            if cp >= 0 && cp > cb + 2 {
                seq![
                    LinkModel { text: s.subrange(p + 1, cb), url: s.subrange(cb + 2, cp) },
                ] + spans_from(s, cp + 1)
            } else {
                spans_from(s, p + 1)
            }
        } else {
            spans_from(s, p + 1)
        }
    } else {
        spans_from(s, p + 1)
    }
}

#[via_fn]
proof fn spans_from_dec(s: Seq<char>, p: int) {
    if 0 <= p < s.len() && s[p] == '[' {
        let cb = find_from(s, "]"@, p + 1);
        if cb >= 0 {
            lemma_find_from_found(s, "]"@, p + 1);
            reveal_strlit("]");
            let cp = find_from(s, ")"@, cb + 2);
            if cp >= 0 {
                lemma_find_from_found(s, ")"@, cb + 2);
                reveal_strlit(")");
            }
        }
    }
}

/// Exec counterpart of `spans_from`, from the start of `s`.
fn extract_spans(s: &Vec<char>) -> (r: Vec<Link>)
    ensures
        r.deep_view() == spans_from(s@, 0),
{
    let close_b = chars_of("]");
    let close_p = chars_of(")");
    proof {
        reveal_strlit("]");
        reveal_strlit(")");
    }
    let mut out: Vec<Link> = Vec::new();
    let mut p: usize = 0;
    proof {
        assert(out.deep_view() + spans_from(s@, 0) =~~= spans_from(s@, 0));
    }
    while p < s.len()
        invariant
            close_b@ == "]"@,
            close_p@ == ")"@,
            "]"@.len() == 1,
            ")"@.len() == 1,
            spans_from(s@, 0) == out.deep_view() + spans_from(s@, p as int),
        decreases s.len() - p,
    {
        let ghost pre = out.deep_view();
        if s[p] == '[' {
            match find_pattern(s, &close_b, p + 1) {
                Some(cb) => {
                    proof {
                        lemma_find_from_found(s@, "]"@, p + 1 as int);
                    }
                    if cb > p + 1 && cb + 1 < s.len() && s[cb + 1] == '(' {
                        match find_pattern(s, &close_p, cb + 2) {
                            Some(cp) => {
                                proof {
                                    lemma_find_from_found(s@, ")"@, cb + 2 as int);
                                }
                                if cp > cb + 2 {
                                    let text = subvec(s, p + 1, cb);
                                    let url = subvec(s, cb + 2, cp);
                                    let link = Link {
                                        text: string_of(&text),
                                        url: string_of(&url),
                                    };
                                    out.push(link);
                                    proof {
                                        assert(out.deep_view() =~~= pre.push(
                                            LinkModel {
                                                text: s@.subrange(p + 1, cb as int),
                                                url: s@.subrange(cb + 2, cp as int),
                                            },
                                        ));
                                        assert(out.deep_view() + spans_from(s@, cp + 1 as int)
                                            =~~= pre + spans_from(s@, p as int));
                                    }
                                    p = cp + 1;
                                } else {
                                    p = p + 1;
                                }
                            },
                            None => {
                                p = p + 1;
                            },
                        }
                    } else {
                        p = p + 1;
                    }
                },
                None => {
                    p = p + 1;
                },
            }
        } else {
            p = p + 1;
        }
    }
    proof {
        assert(out.deep_view() =~~= spans_from(s@, 0));
    }
    out
}

/// The spans that count as ticket references: key-shaped text and a
/// "browse/" URL. Only the key is kept; the summary stays unset.
pub open spec fn jira_of(spans: Seq<LinkModel>) -> Seq<TicketRefModel>
    decreases spans.len(),
{
    if spans.len() == 0 {
        Seq::empty()
    } else {
        let rest = jira_of(spans.drop_first());
        if is_issue_key(spans[0].text) && has_browse_tail(spans[0].url) {
            seq![TicketRefModel { key: spans[0].text, summary: None }] + rest
        } else {
            rest
        }
    }
}

/// The spans kept as plain links: those whose text is not key-shaped.
pub open spec fn plain_of(spans: Seq<LinkModel>) -> Seq<LinkModel>
    decreases spans.len(),
{
    if spans.len() == 0 {
        Seq::empty()
    } else {
        let rest = plain_of(spans.drop_first());
        if !is_issue_key(spans[0].text) {
            seq![spans[0]] + rest
        } else {
            rest
        }
    }
}

/// What the "Liens" value yields: ticket references and plain links.
pub open spec fn links_value(v: Seq<char>) -> (Seq<LinkModel>, Seq<TicketRefModel>) {
    if v.len() == 0 || v == "Aucun"@ {
        (Seq::empty(), Seq::empty())
    } else {
        (plain_of(spans_from(v, 0)), jira_of(spans_from(v, 0)))
    }
}

/// Splits the spans of a non-sentinel "Liens" value into plain links and
/// ticket references.
fn parse_links_value(v: &Vec<char>) -> (r: (Vec<Link>, Vec<JiraTicketRef>))
    requires
        v@.len() > 0,
        v@ != "Aucun"@,
    ensures
        r.0.deep_view() == links_value(v@).0,
        r.1.deep_view() == links_value(v@).1,
{
    let spans = extract_spans(v);
    let ghost sv = spans.deep_view();
    let mut links: Vec<Link> = Vec::new();
    let mut tickets: Vec<JiraTicketRef> = Vec::new();
    let mut i: usize = 0;
    proof {
        assert(sv.skip(0) =~= sv);
        assert(links.deep_view() + plain_of(sv.skip(0)) =~~= plain_of(sv));
        assert(tickets.deep_view() + jira_of(sv.skip(0)) =~~= jira_of(sv));
    }
    while i < spans.len()
        invariant
            i <= spans.len(),
            sv == spans.deep_view(),
            plain_of(sv) == links.deep_view() + plain_of(sv.skip(i as int)),
            jira_of(sv) == tickets.deep_view() + jira_of(sv.skip(i as int)),
        decreases spans.len() - i,
    {
        proof {
            assert(sv.skip(i as int)[0] == sv[i as int]);
            assert(sv.skip(i as int).drop_first() =~= sv.skip(i + 1 as int));
            assert(sv[i as int] == spans@[i as int]@);
        }
        let tchars = chars_of(spans[i].text.as_str());
        let key_shaped = is_issue_key_exec(&tchars);
        if key_shaped {
            let uchars = chars_of(spans[i].url.as_str());
            if has_browse_tail_exec(&uchars) {
                let ghost pre = tickets.deep_view();
                tickets.push(JiraTicketRef { key: spans[i].text.clone(), summary: None });
                proof {
                    assert(tickets.deep_view() =~~= pre.push(
                        TicketRefModel { key: sv[i as int].text, summary: None },
                    ));
                    assert(tickets.deep_view() + jira_of(sv.skip(i + 1 as int)) =~~= pre
                        + jira_of(sv.skip(i as int)));
                }
            }
            proof {
                assert(links.deep_view() + plain_of(sv.skip(i + 1 as int)) =~~= links.deep_view()
                    + plain_of(sv.skip(i as int)));
            }
        } else {
            let ghost pre = links.deep_view();
            links.push(Link { text: spans[i].text.clone(), url: spans[i].url.clone() });
            proof {
                assert(links.deep_view() =~~= pre.push(sv[i as int]));
                assert(links.deep_view() + plain_of(sv.skip(i + 1 as int)) =~~= pre + plain_of(
                    sv.skip(i as int),
                ));
                assert(tickets.deep_view() + jira_of(sv.skip(i + 1 as int))
                    =~~= tickets.deep_view() + jira_of(sv.skip(i as int)));
            }
        }
        i = i + 1;
    }
    proof {
        assert(sv.skip(sv.len() as int) =~= Seq::<LinkModel>::empty());
        assert(links.deep_view() =~~= plain_of(sv));
        assert(tickets.deep_view() =~~= jira_of(sv));
    }
    (links, tickets)
}

/// A tag token with one leading '#' stripped.
pub open spec fn clean_tag(t: Seq<char>) -> Seq<char> {
    if t.len() > 0 && t[0] == '#' {
        t.drop_first()
    } else {
        t
    }
}

/// Cleaned tokens, empty ones dropped.
pub open spec fn clean_tags(ts: Seq<Seq<char>>) -> Seq<Seq<char>>
    decreases ts.len(),
{
    if ts.len() == 0 {
        Seq::empty()
    } else {
        let rest = clean_tags(ts.drop_first());
        if clean_tag(ts[0]).len() > 0 {
            seq![clean_tag(ts[0])] + rest
        } else {
            rest
        }
    }
}

/// What the "Tags" value yields: whitespace-separated tokens, each with a
/// leading '#' stripped, empty tokens dropped; the sentinel or an empty
/// value yields no tags.
pub open spec fn tags_value(v: Seq<char>) -> Seq<Seq<char>> {
    if v.len() == 0 || v == "Aucun"@ {
        Seq::empty()
    } else {
        clean_tags(crate::text::split_ws(v))
    }
}

fn parse_tags_value(v: &Vec<char>) -> (r: Vec<String>)
    requires
        v@.len() > 0,
        v@ != "Aucun"@,
    ensures
        r.deep_view() == tags_value(v@),
{
    let tokens = crate::text::split_whitespace(v);
    let ghost tv = tokens.deep_view();
    let mut out: Vec<String> = Vec::new();
    let mut i: usize = 0;
    proof {
        assert(tv.skip(0) =~= tv);
        assert(out.deep_view() + clean_tags(tv.skip(0)) =~~= clean_tags(tv));
    }
    while i < tokens.len()
        invariant
            i <= tokens.len(),
            tv == tokens.deep_view(),
            clean_tags(tv) == out.deep_view() + clean_tags(tv.skip(i as int)),
        decreases tokens.len() - i,
    {
        proof {
            assert(tv.skip(i as int)[0] == tv[i as int]);
            assert(tv.skip(i as int).drop_first() =~= tv.skip(i + 1 as int));
            assert(tv[i as int] == tokens@[i as int]@);
        }
        let tok = &tokens[i];
        let cleaned: Vec<char> = if tok.len() > 0 && tok[0] == '#' {
            let c = subvec(tok, 1, tok.len());
            proof {
                assert(c@ =~= clean_tag(tv[i as int]));
            }
            c
        } else {
            let c = subvec(tok, 0, tok.len());
            proof {
                assert(c@ =~= tv[i as int]);
                assert(c@ =~= clean_tag(tv[i as int]));
            }
            c
        };
        if cleaned.len() > 0 {
            let ghost pre = out.deep_view();
            out.push(string_of(&cleaned));
            proof {
                assert(out.deep_view() =~~= pre.push(clean_tag(tv[i as int])));
                assert(out.deep_view() + clean_tags(tv.skip(i + 1 as int)) =~~= pre + clean_tags(
                    tv.skip(i as int),
                ));
            }
        } else {
            proof {
                assert(out.deep_view() + clean_tags(tv.skip(i + 1 as int)) =~~= out.deep_view()
                    + clean_tags(tv.skip(i as int)));
            }
        }
        i = i + 1;
    }
    proof {
        assert(tv.skip(tv.len() as int) =~= Seq::<Seq<char>>::empty());
        assert(out.deep_view() =~~= clean_tags(tv));
    }
    out
}

/// A line that starts (after trimming) one of the recognized field labels.
pub open spec fn is_field_line(l: Seq<char>) -> bool {
    let t = spec_trim(l);
    starts_with(t, label_project()) || starts_with(t, label_description()) || starts_with(
        t,
        label_duration(),
    ) || starts_with(t, label_tags()) || starts_with(t, label_time_range()) || starts_with(
        t,
        label_entry_type(),
    ) || starts_with(t, label_results()) || starts_with(t, label_blockers()) || starts_with(
        t,
        label_reflections(),
    ) || starts_with(t, label_links())
}

/// First index at or after `j` whose line starts a recognized label, or
/// the number of lines.
pub open spec fn span_end(lines: Seq<Seq<char>>, j: int) -> int
    decreases lines.len() - j,
{
    if j < 0 || j >= lines.len() {
        lines.len() as int
    } else if is_field_line(lines[j]) {
        j
    } else {
        span_end(lines, j + 1)
    }
}

pub proof fn lemma_span_end_bounds(lines: Seq<Seq<char>>, j: int)
    requires
        0 <= j <= lines.len(),
    ensures
        j <= span_end(lines, j) <= lines.len(),
    decreases lines.len() - j,
{
    if j < lines.len() && !is_field_line(lines[j]) {
        lemma_span_end_bounds(lines, j + 1);
    }
}

proof fn lemma_span_end_skip(lines: Seq<Seq<char>>, start: int, j: int)
    requires
        0 <= start <= j <= lines.len(),
        forall|k: int| start <= k < j ==> !is_field_line(lines[k]),
        j == lines.len() || is_field_line(lines[j]),
    ensures
        span_end(lines, start) == j,
    decreases j - start,
{
    if start < j {
        lemma_span_end_skip(lines, start + 1, j);
    }
}

/// The value of a multi-line field: the remainder of the label's own line,
/// then every line of `[j, end)`; blank lines are skipped and the kept
/// lines are joined with a newline.
pub open spec fn join_cont(acc: Seq<char>, lines: Seq<Seq<char>>, j: int, end: int) -> Seq<char>
    decreases end - j,
{
    if j < 0 || j >= end || j >= lines.len() {
        acc
    } else {
        let l = lines[j];
        if spec_trim(l).len() == 0 {
            join_cont(acc, lines, j + 1, end)
        } else if acc.len() == 0 {
            join_cont(l, lines, j + 1, end)
        } else {
            join_cont(acc + "\n"@ + l, lines, j + 1, end)
        }
    }
}

proof fn lemma_join_cont_extend(acc: Seq<char>, lines: Seq<Seq<char>>, j: int, end: int)
    requires
        0 <= j <= end < lines.len(),
    ensures
        join_cont(acc, lines, j, end + 1) == ({
            let v = join_cont(acc, lines, j, end);
            let l = lines[end];
            if spec_trim(l).len() == 0 {
                v
            } else if v.len() == 0 {
                l
            } else {
                v + "\n"@ + l
            }
        }),
    decreases end - j,
{
    if j < end {
        let l = lines[j];
        if spec_trim(l).len() == 0 {
            lemma_join_cont_extend(acc, lines, j + 1, end);
        } else if acc.len() == 0 {
            lemma_join_cont_extend(l, lines, j + 1, end);
        } else {
            lemma_join_cont_extend(acc + "\n"@ + l, lines, j + 1, end);
        }
    } else {
        let l = lines[end];
        assert(join_cont(acc, lines, end, end) == acc);
        if spec_trim(l).len() == 0 {
            assert(join_cont(acc, lines, end, end + 1) == join_cont(acc, lines, end + 1, end + 1));
            assert(join_cont(acc, lines, end + 1, end + 1) == acc);
        } else if acc.len() == 0 {
            assert(join_cont(acc, lines, end, end + 1) == join_cont(l, lines, end + 1, end + 1));
            assert(join_cont(l, lines, end + 1, end + 1) == l);
        } else {
            assert(join_cont(acc, lines, end, end + 1) == join_cont(
                acc + "\n"@ + l,
                lines,
                end + 1,
                end + 1,
            ));
            assert(join_cont(acc + "\n"@ + l, lines, end + 1, end + 1) == acc + "\n"@ + l);
        }
    }
}

/// The trimmed remainder of a recognized label's line.
pub open spec fn value_after(t: Seq<char>, label: Seq<char>) -> Seq<char> {
    spec_trim(t.skip(label.len() as int))
}

/// The entry every block starts from: only the timestamp is set; the
/// entry type defaults to "développement" and the duration to "0".
pub open spec fn default_model(ts: Seq<char>) -> EntryModel {
    EntryModel {
        timestamp: ts,
        project: Seq::empty(),
        description: Seq::empty(),
        duration: "0"@,
        tags: Seq::empty(),
        time_range: Seq::empty(),
        entry_type: "développement"@,
        results: Seq::empty(),
        blockers: Seq::empty(),
        links: Seq::empty(),
        reflections: Seq::empty(),
        jira_tickets: Seq::empty(),
    }
}

/// The field scanner: walks the lines from `i`, recognizing labels in a
/// fixed order; single-line fields take the rest of their line, multi-line
/// fields also take every following line up to the next recognized label.
pub open spec fn scan_fields(lines: Seq<Seq<char>>, i: int, e: EntryModel) -> EntryModel
    decreases lines.len() - i,
    via scan_fields_dec
{
    if i < 0 || i >= lines.len() {
        e
    } else {
        let t = spec_trim(lines[i]);
        if starts_with(t, label_project()) {
            scan_fields(lines, i + 1, EntryModel { project: value_after(t, label_project()), ..e })
        } else if starts_with(t, label_description()) {
            let end = span_end(lines, i + 1);
            scan_fields(
                lines,
                end,
                EntryModel {
                    description: join_cont(value_after(t, label_description()), lines, i + 1, end),
                    ..e
                },
            )
        } else if starts_with(t, label_duration()) {
            scan_fields(
                lines,
                i + 1,
                EntryModel {
                    duration: spec_trim(
                        crate::text::remove_all(t.skip(label_duration().len() as int), "minutes"@),
                    ),
                    ..e
                },
            )
        } else if starts_with(t, label_tags()) {
            scan_fields(
                lines,
                i + 1,
                EntryModel { tags: tags_value(value_after(t, label_tags())), ..e },
            )
        } else if starts_with(t, label_time_range()) {
            scan_fields(
                lines,
                i + 1,
                EntryModel { time_range: value_after(t, label_time_range()), ..e },
            )
        } else if starts_with(t, label_entry_type()) {
            scan_fields(
                lines,
                i + 1,
                EntryModel { entry_type: value_after(t, label_entry_type()), ..e },
            )
        } else if starts_with(t, label_results()) {
            let end = span_end(lines, i + 1);
            scan_fields(
                lines,
                end,
                EntryModel {
                    results: join_cont(value_after(t, label_results()), lines, i + 1, end),
                    ..e
                },
            )
        } else if starts_with(t, label_blockers()) {
            let end = span_end(lines, i + 1);
            scan_fields(
                lines,
                end,
                EntryModel {
                    blockers: join_cont(value_after(t, label_blockers()), lines, i + 1, end),
                    ..e
                },
            )
        } else if starts_with(t, label_reflections()) {
            let end = span_end(lines, i + 1);
            scan_fields(
                lines,
                end,
                EntryModel {
                    reflections: join_cont(value_after(t, label_reflections()), lines, i + 1, end),
                    ..e
                },
            )
        } else if starts_with(t, label_links()) {
            let v = value_after(t, label_links());
            scan_fields(
                lines,
                i + 1,
                EntryModel { links: links_value(v).0, jira_tickets: links_value(v).1, ..e },
            )
        } else {
            scan_fields(lines, i + 1, e)
        }
    }
}

#[via_fn]
proof fn scan_fields_dec(lines: Seq<Seq<char>>, i: int, e: EntryModel) {
    if 0 <= i < lines.len() {
        lemma_span_end_bounds(lines, i + 1);
    }
}

/// An unrecognized line inside a block is inert: the field scanner sets
/// no field on it and moves on with the entry unchanged, and such a line
/// does not end a multi-line span — so a stray label between recognized
/// fields corrupts none of its neighbors.
pub proof fn lemma_unrecognized_line_inert(lines: Seq<Seq<char>>, i: int, e: EntryModel)
    requires
        0 <= i < lines.len(),
        !is_field_line(lines[i]),
    ensures
        scan_fields(lines, i, e) == scan_fields(lines, i + 1, e),
        span_end(lines, i) == span_end(lines, i + 1),
{
}

/// One section of the file: `None` when it is blank or its first line
/// (the timestamp) is empty; otherwise the scanned entry.
pub open spec fn parse_section(s: Seq<char>) -> Option<EntryModel> {
    if spec_trim(s).len() == 0 {
        None
    } else {
        let lines = split_by(s, "\n"@);
        let ts = spec_trim(lines[0]);
        if ts.len() == 0 {
            None
        } else {
            Some(scan_fields(lines, 1, default_model(ts)))
        }
    }
}

pub open spec fn parse_sections(ss: Seq<Seq<char>>) -> Seq<EntryModel>
    decreases ss.len(),
{
    if ss.len() == 0 {
        Seq::empty()
    } else {
        let rest = parse_sections(ss.drop_first());
        match parse_section(ss[0]) {
            Some(e) => seq![e] + rest,
            None => rest,
        }
    }
}

/// What parsing a whole date file yields: the text is split on the heading
/// marker, anything before the first heading is discarded, and each
/// remaining fragment becomes at most one entry, in order.
pub open spec fn spec_parse(content: Seq<char>) -> Seq<EntryModel> {
    if content.len() == 0 {
        Seq::empty()
    } else {
        parse_sections(split_by(content, heading_marker()).drop_first())
    }
}

proof fn lemma_split_by_nonempty(s: Seq<char>, p: Seq<char>)
    ensures
        split_by(s, p).len() >= 1,
{
    if find_from(s, p, 0) < 0 {
    }
}

/// The label texts, built once per parse.
struct Labels {
    project: Vec<char>,
    description: Vec<char>,
    duration: Vec<char>,
    tags: Vec<char>,
    time_range: Vec<char>,
    entry_type: Vec<char>,
    results: Vec<char>,
    blockers: Vec<char>,
    reflections: Vec<char>,
    links: Vec<char>,
}

spec fn labels_wf(l: &Labels) -> bool {
    l.project@ == label_project() && l.description@ == label_description() && l.duration@
        == label_duration() && l.tags@ == label_tags() && l.time_range@ == label_time_range()
        && l.entry_type@ == label_entry_type() && l.results@ == label_results() && l.blockers@
        == label_blockers() && l.reflections@ == label_reflections() && l.links@ == label_links()
}

fn build_labels() -> (r: Labels)
    ensures
        labels_wf(&r),
{
    Labels {
        project: chars_of("**Projet**:"),
        description: chars_of("**Description**:"),
        duration: chars_of("**Durée**:"),
        tags: chars_of("**Tags**:"),
        time_range: chars_of("**Plage horaire**:"),
        entry_type: chars_of("**Type d'activité**:"),
        results: chars_of("**Résultats**:"),
        blockers: chars_of("**Blocages**:"),
        reflections: chars_of("**Réflexions**:"),
        links: chars_of("**Liens**:"),
    }
}

fn is_field_line_exec(line: &Vec<char>, labels: &Labels) -> (r: bool)
    requires
        labels_wf(labels),
    ensures
        r == is_field_line(line@),
{
    let t = trim(line);
    begins_with(&t, &labels.project) || begins_with(&t, &labels.description) || begins_with(
        &t,
        &labels.duration,
    ) || begins_with(&t, &labels.tags) || begins_with(&t, &labels.time_range) || begins_with(
        &t,
        &labels.entry_type,
    ) || begins_with(&t, &labels.results) || begins_with(&t, &labels.blockers) || begins_with(
        &t,
        &labels.reflections,
    ) || begins_with(&t, &labels.links)
}

/// Collects a multi-line span: every line from `start` up to the next
/// recognized label, folded onto `first`.
fn collect_span(lines: &Vec<Vec<char>>, start: usize, first: Vec<char>, labels: &Labels) -> (r: (
    Vec<char>,
    usize,
))
    requires
        labels_wf(labels),
        start <= lines.len(),
    ensures
        start <= r.1 <= lines.len(),
        r.1 == span_end(lines.deep_view(), start as int),
        r.0@ == join_cont(first@, lines.deep_view(), start as int, r.1 as int),
{
    let ghost lv = lines.deep_view();
    let ghost f0 = first@;
    let mut acc = first;
    let mut j: usize = start;
    proof {
        assert(join_cont(f0, lv, start as int, start as int) == f0);
    }
    loop
        invariant
            labels_wf(labels),
            lv == lines.deep_view(),
            f0 == first@,
            start <= j <= lines.len(),
            forall|k: int| start <= k < j ==> !is_field_line(lv[k]),
            acc@ == join_cont(f0, lv, start as int, j as int),
        decreases lines.len() - j,
    {
        if j >= lines.len() {
            proof {
                lemma_span_end_skip(lv, start as int, j as int);
            }
            return (acc, j);
        }
        if is_field_line_exec(&lines[j], labels) {
            proof {
                assert(lv[j as int] == lines@[j as int]@);
                lemma_span_end_skip(lv, start as int, j as int);
            }
            return (acc, j);
        }
        proof {
            assert(lv[j as int] == lines@[j as int]@);
        }
        let tl = trim(&lines[j]);
        if tl.len() > 0 {
            if acc.len() == 0 {
                acc = subvec(&lines[j], 0, lines[j].len());
                proof {
                    assert(acc@ =~= lv[j as int]);
                }
            } else {
                let nl = chars_of("\n");
                crate::text::push_all(&mut acc, &nl);
                crate::text::push_all(&mut acc, &lines[j]);
            }
        }
        proof {
            lemma_join_cont_extend(f0, lv, start as int, j as int);
            assert(acc@ =~= join_cont(f0, lv, start as int, j + 1 as int));
        }
        j = j + 1;
    }
}

/// Parses one section: the first line is the timestamp; blank sections and
/// empty timestamps yield nothing.
#[verifier::rlimit(100)]
fn parse_section_exec(s: &Vec<char>, labels: &Labels) -> (r: Option<ParsedJournalEntry>)
    requires
        labels_wf(labels),
    ensures
        r is Some <==> parse_section(s@) is Some,
        r is Some ==> r->0@ == parse_section(s@)->0,
{
    let st = trim(s);
    if st.len() == 0 {
        return None;
    }
    let nl = chars_of("\n");
    proof {
        reveal_strlit("\n");
    }
    let lines = split_pattern(s, &nl);
    let ghost lv = lines.deep_view();
    proof {
        lemma_split_by_nonempty(s@, "\n"@);
        assert(lines@.len() == lv.len());
    }
    let ts = trim(&lines[0]);
    proof {
        assert(lv[0] == lines@[0]@);
    }
    if ts.len() == 0 {
        return None;
    }
    let mut cur = ParsedJournalEntry {
        timestamp: string_of(&ts),
        project: String::new(),
        description: String::new(),
        duration: "0".to_owned(),
        tags: Vec::new(),
        time_range: String::new(),
        entry_type: "développement".to_owned(),
        results: String::new(),
        blockers: String::new(),
        links: Vec::new(),
        reflections: String::new(),
        jira_tickets: Vec::new(),
    };
    let ghost init = default_model(spec_trim(lv[0]));
    proof {
        assert(cur@.tags =~= init.tags);
        assert(cur@.links =~= init.links);
        assert(cur@.jira_tickets =~= init.jira_tickets);
        assert(cur@ == init);
    }
    let mut i: usize = 1;
    while i < lines.len()
        invariant
            labels_wf(labels),
            lv == lines.deep_view(),
            1 <= i <= lines.len(),
            scan_fields(lv, i as int, cur@) == scan_fields(lv, 1, init),
        decreases lines.len() - i,
    {
        proof {
            assert(lv[i as int] == lines@[i as int]@);
        }
        let ghost prev = cur@;
        let tl = trim(&lines[i]);
        let ghost t = spec_trim(lv[i as int]);
        if begins_with(&tl, &labels.project) {
            let value = trim(&subvec(&tl, labels.project.len(), tl.len()));
            proof {
                assert(tl@.subrange(label_project().len() as int, tl@.len() as int) =~= tl@.skip(
                    label_project().len() as int,
                ));
            }
            cur.project = string_of(&value);
            proof {
                assert(cur@ == EntryModel { project: value_after(t, label_project()), ..prev });
            }
            i = i + 1;
        } else if begins_with(&tl, &labels.description) {
            let value = trim(&subvec(&tl, labels.description.len(), tl.len()));
            proof {
                assert(tl@.subrange(label_description().len() as int, tl@.len() as int)
                    =~= tl@.skip(label_description().len() as int));
            }
            let (joined, end) = collect_span(&lines, i + 1, value, labels);
            cur.description = string_of(&joined);
            proof {
                let e = span_end(lv, i + 1 as int);
                assert(cur@ == EntryModel {
                    description: join_cont(
                        value_after(t, label_description()),
                        lv,
                        i + 1 as int,
                        e,
                    ),
                    ..prev
                });
            }
            i = end;
        } else if begins_with(&tl, &labels.duration) {
            let raw = subvec(&tl, labels.duration.len(), tl.len());
            let minutes_pat = chars_of("minutes");
            proof {
                reveal_strlit("minutes");
                assert(tl@.subrange(label_duration().len() as int, tl@.len() as int) =~= tl@.skip(
                    label_duration().len() as int,
                ));
            }
            let stripped = crate::text::remove_pattern(&raw, &minutes_pat);
            let value = trim(&stripped);
            cur.duration = string_of(&value);
            proof {
                assert(cur@ == EntryModel {
                    duration: spec_trim(
                        crate::text::remove_all(
                            t.skip(label_duration().len() as int),
                            "minutes"@,
                        ),
                    ),
                    ..prev
                });
            }
            i = i + 1;
        } else if begins_with(&tl, &labels.tags) {
            let value = trim(&subvec(&tl, labels.tags.len(), tl.len()));
            proof {
                assert(tl@.subrange(label_tags().len() as int, tl@.len() as int) =~= tl@.skip(
                    label_tags().len() as int,
                ));
            }
            let aucun = chars_of("Aucun");
            if value.len() == 0 || crate::text::vec_eq(&value, &aucun) {
                cur.tags = Vec::new();
                proof {
                    assert(cur@.tags =~= tags_value(value_after(t, label_tags())));
                    assert(cur@ == EntryModel {
                        tags: tags_value(value_after(t, label_tags())),
                        ..prev
                    });
                }
            } else {
                let parsed = parse_tags_value(&value);
                cur.tags = parsed;
                proof {
                    assert(cur@ == EntryModel {
                        tags: tags_value(value_after(t, label_tags())),
                        ..prev
                    });
                }
            }
            i = i + 1;
        } else if begins_with(&tl, &labels.time_range) {
            let value = trim(&subvec(&tl, labels.time_range.len(), tl.len()));
            proof {
                assert(tl@.subrange(label_time_range().len() as int, tl@.len() as int)
                    =~= tl@.skip(label_time_range().len() as int));
            }
            cur.time_range = string_of(&value);
            proof {
                assert(cur@ == EntryModel {
                    time_range: value_after(t, label_time_range()),
                    ..prev
                });
            }
            i = i + 1;
        } else if begins_with(&tl, &labels.entry_type) {
            let value = trim(&subvec(&tl, labels.entry_type.len(), tl.len()));
            proof {
                assert(tl@.subrange(label_entry_type().len() as int, tl@.len() as int)
                    =~= tl@.skip(label_entry_type().len() as int));
            }
            cur.entry_type = string_of(&value);
            proof {
                assert(cur@ == EntryModel {
                    entry_type: value_after(t, label_entry_type()),
                    ..prev
                });
            }
            i = i + 1;
        } else if begins_with(&tl, &labels.results) {
            let value = trim(&subvec(&tl, labels.results.len(), tl.len()));
            proof {
                assert(tl@.subrange(label_results().len() as int, tl@.len() as int) =~= tl@.skip(
                    label_results().len() as int,
                ));
            }
            let (joined, end) = collect_span(&lines, i + 1, value, labels);
            cur.results = string_of(&joined);
            proof {
                let e = span_end(lv, i + 1 as int);
                assert(cur@ == EntryModel {
                    results: join_cont(value_after(t, label_results()), lv, i + 1 as int, e),
                    ..prev
                });
            }
            i = end;
        } else if begins_with(&tl, &labels.blockers) {
            let value = trim(&subvec(&tl, labels.blockers.len(), tl.len()));
            proof {
                assert(tl@.subrange(label_blockers().len() as int, tl@.len() as int) =~= tl@.skip(
                    label_blockers().len() as int,
                ));
            }
            let (joined, end) = collect_span(&lines, i + 1, value, labels);
            cur.blockers = string_of(&joined);
            proof {
                let e = span_end(lv, i + 1 as int);
                assert(cur@ == EntryModel {
                    blockers: join_cont(value_after(t, label_blockers()), lv, i + 1 as int, e),
                    ..prev
                });
            }
            i = end;
        } else if begins_with(&tl, &labels.reflections) {
            let value = trim(&subvec(&tl, labels.reflections.len(), tl.len()));
            proof {
                assert(tl@.subrange(label_reflections().len() as int, tl@.len() as int)
                    =~= tl@.skip(label_reflections().len() as int));
            }
            let (joined, end) = collect_span(&lines, i + 1, value, labels);
            cur.reflections = string_of(&joined);
            proof {
                let e = span_end(lv, i + 1 as int);
                assert(cur@ == EntryModel {
                    reflections: join_cont(
                        value_after(t, label_reflections()),
                        lv,
                        i + 1 as int,
                        e,
                    ),
                    ..prev
                });
            }
            i = end;
        } else if begins_with(&tl, &labels.links) {
            let value = trim(&subvec(&tl, labels.links.len(), tl.len()));
            proof {
                assert(tl@.subrange(label_links().len() as int, tl@.len() as int) =~= tl@.skip(
                    label_links().len() as int,
                ));
            }
            let aucun = chars_of("Aucun");
            if value.len() == 0 || crate::text::vec_eq(&value, &aucun) {
                cur.links = Vec::new();
                cur.jira_tickets = Vec::new();
                proof {
                    let v = value_after(t, label_links());
                    assert(cur@.links =~= links_value(v).0);
                    assert(cur@.jira_tickets =~= links_value(v).1);
                    assert(cur@ == EntryModel {
                        links: links_value(v).0,
                        jira_tickets: links_value(v).1,
                        ..prev
                    });
                }
            } else {
                let (pl, jt) = parse_links_value(&value);
                cur.links = pl;
                cur.jira_tickets = jt;
                proof {
                    let v = value_after(t, label_links());
                    assert(cur@ == EntryModel {
                        links: links_value(v).0,
                        jira_tickets: links_value(v).1,
                        ..prev
                    });
                }
            }
            i = i + 1;
        } else {
            i = i + 1;
        }
    }
    proof {
        assert(scan_fields(lv, lines@.len() as int, cur@) == cur@);
    }
    Some(cur)
}

/// Parses the full text of one date file into its entries, in file order.
/// Text before the first heading is discarded. Never fails: malformed
/// blocks degrade to field defaults.
pub fn parse_journal_entries(content: &str) -> (r: Vec<ParsedJournalEntry>)
    ensures
        r.deep_view() == spec_parse(content@),
{
    let cv = chars_of(content);
    let mut out: Vec<ParsedJournalEntry> = Vec::new();
    if cv.len() == 0 {
        proof {
            assert(out.deep_view() =~~= spec_parse(content@));
        }
        return out;
    }
    let marker = chars_of("## ");
    proof {
        reveal_strlit("## ");
    }
    let sections = split_pattern(&cv, &marker);
    let ghost sv = sections.deep_view();
    let labels = build_labels();
    // everything before the first heading marker is discarded
    let mut k: usize = 1;
    proof {
        lemma_split_by_nonempty(cv@, "## "@);
        assert(sv.skip(1) =~= sv.drop_first());
        assert(out.deep_view() + parse_sections(sv.skip(1)) =~~= spec_parse(content@));
    }
    while k < sections.len()
        invariant
            labels_wf(&labels),
            sv == sections.deep_view(),
            k <= sections.len(),
            spec_parse(content@) == out.deep_view() + parse_sections(sv.skip(k as int)),
        decreases sections.len() - k,
    {
        proof {
            assert(sv.skip(k as int)[0] == sv[k as int]);
            assert(sv.skip(k as int).drop_first() =~= sv.skip(k + 1 as int));
            assert(sv[k as int] == sections@[k as int]@);
        }
        match parse_section_exec(&sections[k], &labels) {
            Some(e) => {
                let ghost pre = out.deep_view();
                out.push(e);
                proof {
                    assert(out.deep_view() =~~= pre.push(parse_section(sv[k as int])->0));
                    assert(out.deep_view() + parse_sections(sv.skip(k + 1 as int)) =~~= pre
                        + parse_sections(sv.skip(k as int)));
                }
            },
            None => {
                proof {
                    assert(out.deep_view() + parse_sections(sv.skip(k + 1 as int))
                        =~~= out.deep_view() + parse_sections(sv.skip(k as int)));
                }
            },
        }
        k = k + 1;
    }
    proof {
        assert(sv.skip(sv.len() as int) =~= Seq::<Seq<char>>::empty());
        assert(out.deep_view() =~~= spec_parse(content@));
    }
    out
}

} // verus!
