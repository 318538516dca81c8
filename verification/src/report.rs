//! The activity aggregator: entries of a date range folded into buckets by
//! project, tag, activity type, day and month. Times are micro-minutes,
//! saturating at `u64::MAX`; counts saturate the same way.

use vstd::prelude::*;
use vstd::string::StringExecFns;
use crate::duration::{
    cap64, lemma_cap64_add, lemma_cap64_mul, lemma_duration_nonneg, normalize_duration,
    spec_duration_micro_min,
};
use crate::entry::{EntryModel, ParsedJournalEntry};
use crate::parse::{parse_journal_entries, spec_parse};
use crate::serialize::{clone_links, clone_string_vec, clone_tickets};
use crate::text::{
    chars_of, find_from, find_pattern, lemma_find_from_found, lemma_seq_lt_total,
    lemma_seq_lt_trans, seq_lt, string_of, subvec, vec_eq, vec_lt,
};

verus! {

// --- The model: the entries of the range, timestamps prefixed by date. ---

/// An entry as the report sees it: the source date is prefixed to the
/// timestamp, so entries of different files stay distinguishable.
pub open spec fn prefixed(e: EntryModel, date: Seq<char>) -> EntryModel {
    EntryModel { timestamp: date + " "@ + e.timestamp, ..e }
}

pub open spec fn file_entries(date: Seq<char>, content: Seq<char>) -> Seq<EntryModel> {
    spec_parse(content).map_values(|e: EntryModel| prefixed(e, date))
}

/// Every entry of every file, in file order then entry order.
pub open spec fn all_entries(files: Seq<(Seq<char>, Seq<char>)>) -> Seq<EntryModel>
    decreases files.len(),
{
    if files.len() == 0 {
        Seq::empty()
    } else {
        all_entries(files.drop_last()) + file_entries(files.last().0, files.last().1)
    }
}

// --- Bucket measures. ---

pub open spec fn entry_micro(e: EntryModel) -> int {
    spec_duration_micro_min(e.duration)
}

pub open spec fn total_micro(es: Seq<EntryModel>) -> int
    decreases es.len(),
{
    if es.len() == 0 {
        0
    } else {
        total_micro(es.drop_last()) + entry_micro(es.last())
    }
}

pub open spec fn count_project(es: Seq<EntryModel>, name: Seq<char>) -> int
    decreases es.len(),
{
    if es.len() == 0 {
        0
    } else {
        count_project(es.drop_last(), name) + if es.last().project == name {
            1int
        } else {
            0int
        }
    }
}

pub open spec fn time_project(es: Seq<EntryModel>, name: Seq<char>) -> int
    decreases es.len(),
{
    if es.len() == 0 {
        0
    } else {
        time_project(es.drop_last(), name) + if es.last().project == name {
            entry_micro(es.last())
        } else {
            0int
        }
    }
}

/// Occurrences of `tag` in one entry's tag list (duplicates count).
pub open spec fn occ_tag(tags: Seq<Seq<char>>, tag: Seq<char>) -> int
    decreases tags.len(),
{
    if tags.len() == 0 {
        0
    } else {
        occ_tag(tags.drop_last(), tag) + if tags.last() == tag {
            1int
        } else {
            0int
        }
    }
}

pub open spec fn count_tag(es: Seq<EntryModel>, tag: Seq<char>) -> int
    decreases es.len(),
{
    if es.len() == 0 {
        0
    } else {
        count_tag(es.drop_last(), tag) + occ_tag(es.last().tags, tag)
    }
}

pub open spec fn count_type(es: Seq<EntryModel>, name: Seq<char>) -> int
    decreases es.len(),
{
    if es.len() == 0 {
        0
    } else {
        count_type(es.drop_last(), name) + if es.last().entry_type == name {
            1int
        } else {
            0int
        }
    }
}

/// The day bucket of a timestamp: its text up to the first space — the
/// source date, for entries the aggregator prefixed.
pub open spec fn day_of(ts: Seq<char>) -> Seq<char> {
    let i = find_from(ts, " "@, 0);
    if i < 0 {
        ts
    } else {
        ts.subrange(0, i)
    }
}

pub open spec fn time_day(es: Seq<EntryModel>, day: Seq<char>) -> int
    decreases es.len(),
{
    if es.len() == 0 {
        0
    } else {
        time_day(es.drop_last(), day) + if day_of(es.last().timestamp) == day {
            entry_micro(es.last())
        } else {
            0int
        }
    }
}

/// An entry belongs to a month when its day key has at least seven
/// characters; the month is those first seven.
pub open spec fn in_month(e: EntryModel, m: Seq<char>) -> bool {
    day_of(e.timestamp).len() >= 7 && day_of(e.timestamp).subrange(0, 7) == m
}

pub open spec fn time_month(es: Seq<EntryModel>, m: Seq<char>) -> int
    decreases es.len(),
{
    if es.len() == 0 {
        0
    } else {
        time_month(es.drop_last(), m) + if in_month(es.last(), m) {
            entry_micro(es.last())
        } else {
            0int
        }
    }
}

pub open spec fn time_project_month(es: Seq<EntryModel>, m: Seq<char>, name: Seq<char>) -> int
    decreases es.len(),
{
    if es.len() == 0 {
        0
    } else {
        time_project_month(es.drop_last(), m, name) + if in_month(es.last(), m) && es.last().project
            == name {
            entry_micro(es.last())
        } else {
            0int
        }
    }
}

/// Per-tag month time: each occurrence of the tag adds the entry's time.
pub open spec fn time_tag_month(es: Seq<EntryModel>, m: Seq<char>, tag: Seq<char>) -> int
    decreases es.len(),
{
    if es.len() == 0 {
        0
    } else {
        time_tag_month(es.drop_last(), m, tag) + if in_month(es.last(), m) {
            occ_tag(es.last().tags, tag) * entry_micro(es.last())
        } else {
            0int
        }
    }
}

// --- String-list helpers. ---

pub open spec fn contains_str(ss: Seq<Seq<char>>, x: Seq<char>) -> bool {
    exists|i: int| 0 <= i < ss.len() && ss[i] == x
}

pub open spec fn distinct_strs(ss: Seq<Seq<char>>) -> bool {
    forall|i: int, j: int| 0 <= i < j < ss.len() ==> ss[i] != ss[j]
}

pub open spec fn sorted_strict(ss: Seq<Seq<char>>) -> bool {
    forall|i: int, j: int| 0 <= i < j < ss.len() ==> seq_lt(ss[i], ss[j])
}

/// Keeps the first occurrence of each string.
fn distinct_of(keys: &Vec<String>) -> (r: Vec<String>)
    ensures
        distinct_strs(r.deep_view()),
        forall|k: int|
            0 <= k < keys.deep_view().len() ==> contains_str(
                r.deep_view(),
                keys.deep_view()[k],
            ),
        forall|j: int|
            0 <= j < r.deep_view().len() ==> contains_str(keys.deep_view(), r.deep_view()[j]),
{
    let ghost kv = keys.deep_view();
    let mut out: Vec<String> = Vec::new();
    let mut i: usize = 0;
    while i < keys.len()
        invariant
            kv == keys.deep_view(),
            i <= keys.len(),
            distinct_strs(out.deep_view()),
            forall|k: int| 0 <= k < i ==> contains_str(out.deep_view(), kv[k]),
            forall|j: int|
                0 <= j < out.deep_view().len() ==> contains_str(kv, out.deep_view()[j]),
        decreases keys.len() - i,
    {
        proof {
            assert(kv[i as int] == keys@[i as int]@);
        }
        let mut present: bool = false;
        let mut j: usize = 0;
        while !present && j < out.len()
            invariant
                kv == keys.deep_view(),
                i < keys.len(),
                j <= out.len(),
                present ==> contains_str(out.deep_view(), kv[i as int]),
                !present ==> forall|t: int| 0 <= t < j ==> out.deep_view()[t] != kv[i as int],
            decreases out.len() - j + (if present {
                0int
            } else {
                1int
            }),
        {
            if out[j] == keys[i] {
                present = true;
                proof {
                    assert(out.deep_view()[j as int] == kv[i as int]);
                }
            } else {
                j = j + 1;
            }
        }
        if !present {
            let ghost pre = out.deep_view();
            out.push(keys[i].clone());
            proof {
                assert(out.deep_view() =~~= pre.push(kv[i as int]));
                assert(contains_str(out.deep_view(), kv[i as int])) by {
                    assert(out.deep_view()[pre.len() as int] == kv[i as int]);
                }
                assert forall|k: int| 0 <= k < i + 1 implies contains_str(
                    out.deep_view(),
                    kv[k],
                ) by {
                    if k < i {
                        let w = choose|w: int| 0 <= w < pre.len() && pre[w] == kv[k];
                        assert(out.deep_view()[w] == kv[k]);
                    } else {
                        assert(out.deep_view()[pre.len() as int] == kv[k]);
                    }
                }
            }
        } else {
            proof {
                assert forall|k: int| 0 <= k < i + 1 implies contains_str(
                    out.deep_view(),
                    kv[k],
                ) by {}
            }
        }
        i = i + 1;
    }
    out
}

/// Inserts a string into a strictly ascending list, keeping it sorted and
/// duplicate-free.
fn insert_sorted_distinct(v: &mut Vec<String>, x: &Vec<char>)
    requires
        sorted_strict(old(v).deep_view()),
    ensures
        sorted_strict(final(v).deep_view()),
        forall|y: Seq<char>|
            #[trigger] contains_str(final(v).deep_view(), y) <==> (contains_str(
                old(v).deep_view(),
                y,
            ) || y == x@),
{
    let ghost before = v.deep_view();
    let mut pos: usize = 0;
    let mut found: bool = false;
    while !found && pos < v.len()
        invariant
            before == v.deep_view(),
            pos <= v.len(),
            forall|k: int| 0 <= k < pos ==> seq_lt(before[k], x@),
            found ==> pos < v.len() && !seq_lt(before[pos as int], x@),
        decreases v.len() - pos + (if found {
            0int
        } else {
            1int
        }),
    {
        let cand = chars_of(v[pos].as_str());
        proof {
            assert(cand@ == before[pos as int]);
        }
        if vec_lt(&cand, x) {
            pos = pos + 1;
        } else {
            found = true;
        }
    }
    if found {
        let cand = chars_of(v[pos].as_str());
        proof {
            assert(cand@ == before[pos as int]);
        }
        if vec_eq(&cand, x) {
            proof {
                assert(contains_str(before, x@)) by {
                    assert(before[pos as int] == x@);
                }
            }
            return ;
        }
    }
    let ghost p = pos as int;
    v.insert(pos, string_of(x));
    proof {
        let now = v.deep_view();
        assert(now =~~= before.insert(p, x@));
        if p < before.len() {
            assert(!seq_lt(before[p], x@) && before[p] != x@);
            lemma_seq_lt_total(before[p], x@);
            assert(seq_lt(x@, before[p]));
        }
        assert forall|a: int, b: int| 0 <= a < b < now.len() implies seq_lt(now[a], now[b]) by {
            if b < p {
                assert(now[a] == before[a] && now[b] == before[b]);
            } else if a < p && b == p {
                assert(now[a] == before[a] && now[b] == x@);
            } else if a == p {
                assert(now[a] == x@ && now[b] == before[b - 1]);
                assert(b - 1 >= p);
                if b - 1 == p {
                    assert(seq_lt(x@, before[p]));
                } else {
                    assert(seq_lt(before[p], before[b - 1]));
                    lemma_seq_lt_trans(x@, before[p], before[b - 1]);
                }
            } else if a < p {
                assert(now[a] == before[a] && now[b] == before[b - 1]);
                if a == b - 1 {
                    assert(seq_lt(before[a], x@));
                    assert(p <= a);
                } else {
                    assert(seq_lt(before[a], before[b - 1]));
                }
            } else {
                assert(now[a] == before[a - 1] && now[b] == before[b - 1]);
                assert(seq_lt(before[a - 1], before[b - 1]));
            }
        }
        assert forall|y: Seq<char>| #[trigger]
            contains_str(now, y) <==> (contains_str(before, y) || y == x@) by {
            if contains_str(now, y) {
                let w = choose|w: int| 0 <= w < now.len() && now[w] == y;
                if w < p {
                    assert(before[w] == y);
                } else if w == p {
                } else {
                    assert(before[w - 1] == y);
                }
            }
            if contains_str(before, y) {
                let w = choose|w: int| 0 <= w < before.len() && before[w] == y;
                if w < p {
                    assert(now[w] == y);
                } else {
                    assert(now[w + 1] == y);
                }
            }
            if y == x@ {
                assert(now[p] == y);
            }
        }
    }
}

// --- Gathering the entries. ---

/// Loads the parsed entries of every file, prefixing each timestamp with
/// its source date. Empty files contribute nothing.
pub fn collect_range_entries(files: &Vec<(String, String)>) -> (r: Vec<ParsedJournalEntry>)
    ensures
        r.deep_view() == all_entries(files.deep_view()),
{
    let ghost fv = files.deep_view();
    let mut out: Vec<ParsedJournalEntry> = Vec::new();
    let mut i: usize = 0;
    proof {
        assert(fv.subrange(0, 0) =~= Seq::<(Seq<char>, Seq<char>)>::empty());
        assert(out.deep_view() =~~= all_entries(fv.subrange(0, 0)));
    }
    while i < files.len()
        invariant
            fv == files.deep_view(),
            i <= files.len(),
            out.deep_view() == all_entries(fv.subrange(0, i as int)),
        decreases files.len() - i,
    {
        proof {
            assert(fv.subrange(0, i + 1 as int).drop_last() =~= fv.subrange(0, i as int));
            assert(fv.subrange(0, i + 1 as int).last() == fv[i as int]);
            assert(fv[i as int].0 == files@[i as int].0@);
            assert(fv[i as int].1 == files@[i as int].1@);
        }
        let ghost date = fv[i as int].0;
        let ghost content = fv[i as int].1;
        let ghost seg = all_entries(fv.subrange(0, i as int));
        if !files[i].1.as_str().is_empty() {
            let parsed = parse_journal_entries(files[i].1.as_str());
            let ghost pv = parsed.deep_view();
            let mut k: usize = 0;
            proof {
                assert(file_entries(date, content) =~= pv.map_values(
                    |e: EntryModel| prefixed(e, date),
                ));
            }
            while k < parsed.len()
                invariant
                    fv == files.deep_view(),
                    i < files.len(),
                    date == fv[i as int].0,
                    pv == parsed.deep_view(),
                    k <= parsed.len(),
                    seg == all_entries(fv.subrange(0, i as int)),
                    out.deep_view() == seg + pv.map_values(
                        |e: EntryModel| prefixed(e, date),
                    ).subrange(0, k as int),
                decreases parsed.len() - k,
            {
                proof {
                    assert(pv[k as int] == parsed@[k as int]@);
                }
                let mut nts = String::new();
                nts.append(files[i].0.as_str());
                nts.append(" ");
                nts.append(parsed[k].timestamp.as_str());
                let moved = ParsedJournalEntry {
                    timestamp: nts,
                    project: parsed[k].project.clone(),
                    description: parsed[k].description.clone(),
                    duration: parsed[k].duration.clone(),
                    tags: clone_string_vec(&parsed[k].tags),
                    time_range: parsed[k].time_range.clone(),
                    entry_type: parsed[k].entry_type.clone(),
                    results: parsed[k].results.clone(),
                    blockers: parsed[k].blockers.clone(),
                    links: clone_links(&parsed[k].links),
                    reflections: parsed[k].reflections.clone(),
                    jira_tickets: clone_tickets(&parsed[k].jira_tickets),
                };
                let ghost pre = out.deep_view();
                out.push(moved);
                proof {
                    let mapped = pv.map_values(|e: EntryModel| prefixed(e, date));
                    assert(out.deep_view() =~~= pre.push(prefixed(pv[k as int], date)));
                    assert(mapped[k as int] == prefixed(pv[k as int], date));
                    assert(out.deep_view() =~~= seg + mapped.subrange(0, k + 1 as int));
                }
                k = k + 1;
            }
            proof {
                let mapped = pv.map_values(|e: EntryModel| prefixed(e, date));
                assert(mapped.subrange(0, mapped.len() as int) =~= mapped);
                assert(out.deep_view() =~~= all_entries(fv.subrange(0, i + 1 as int)));
            }
        } else {
            proof {
                assert(content.len() == 0);
                assert(file_entries(date, content) =~= Seq::<EntryModel>::empty());
                assert(out.deep_view() =~~= all_entries(fv.subrange(0, i + 1 as int)));
            }
        }
        i = i + 1;
    }
    proof {
        assert(fv.subrange(0, fv.len() as int) =~= fv);
    }
    out
}

// --- Exec folds over the collected entries. ---

fn total_time_exec(entries: &Vec<ParsedJournalEntry>) -> (r: u64)
    ensures
        r == cap64(total_micro(entries.deep_view())),
{
    let ghost ev = entries.deep_view();
    let mut acc: u64 = 0;
    let mut i: usize = 0;
    proof {
        assert(ev.subrange(0, 0) =~= Seq::<EntryModel>::empty());
    }
    while i < entries.len()
        invariant
            ev == entries.deep_view(),
            i <= entries.len(),
            acc == cap64(total_micro(ev.subrange(0, i as int))),
            total_micro(ev.subrange(0, i as int)) >= 0,
        decreases entries.len() - i,
    {
        proof {
            assert(ev[i as int] == entries@[i as int]@);
        }
        let d = normalize_duration(entries[i].duration.as_str());
        proof {
            let pre = ev.subrange(0, i as int);
            let post = ev.subrange(0, i + 1 as int);
            assert(post.drop_last() =~= pre);
            assert(post.last() == ev[i as int]);
            lemma_duration_nonneg(ev[i as int].duration);
            lemma_cap64_add(total_micro(pre), entry_micro(ev[i as int]));
        }
        acc = acc.saturating_add(d);
        i = i + 1;
    }
    proof {
        assert(ev.subrange(0, ev.len() as int) =~= ev);
    }
    acc
}

fn count_project_exec(entries: &Vec<ParsedJournalEntry>, name: &String) -> (r: u64)
    ensures
        r == cap64(count_project(entries.deep_view(), name@)),
{
    let ghost ev = entries.deep_view();
    let mut acc: u64 = 0;
    let mut i: usize = 0;
    proof {
        assert(ev.subrange(0, 0) =~= Seq::<EntryModel>::empty());
    }
    while i < entries.len()
        invariant
            ev == entries.deep_view(),
            i <= entries.len(),
            acc == cap64(count_project(ev.subrange(0, i as int), name@)),
            count_project(ev.subrange(0, i as int), name@) >= 0,
        decreases entries.len() - i,
    {
        proof {
            assert(ev[i as int] == entries@[i as int]@);
            let pre = ev.subrange(0, i as int);
            let post = ev.subrange(0, i + 1 as int);
            assert(post.drop_last() =~= pre);
            assert(post.last() == ev[i as int]);
            lemma_cap64_add(count_project(pre, name@), 1);
        }
        if entries[i].project == *name {
            acc = acc.saturating_add(1);
        }
        i = i + 1;
    }
    proof {
        assert(ev.subrange(0, ev.len() as int) =~= ev);
    }
    acc
}

fn time_project_exec(entries: &Vec<ParsedJournalEntry>, name: &String) -> (r: u64)
    ensures
        r == cap64(time_project(entries.deep_view(), name@)),
{
    let ghost ev = entries.deep_view();
    let mut acc: u64 = 0;
    let mut i: usize = 0;
    proof {
        assert(ev.subrange(0, 0) =~= Seq::<EntryModel>::empty());
    }
    while i < entries.len()
        invariant
            ev == entries.deep_view(),
            i <= entries.len(),
            acc == cap64(time_project(ev.subrange(0, i as int), name@)),
            time_project(ev.subrange(0, i as int), name@) >= 0,
        decreases entries.len() - i,
    {
        proof {
            assert(ev[i as int] == entries@[i as int]@);
            let pre = ev.subrange(0, i as int);
            let post = ev.subrange(0, i + 1 as int);
            assert(post.drop_last() =~= pre);
            assert(post.last() == ev[i as int]);
            lemma_duration_nonneg(ev[i as int].duration);
            lemma_cap64_add(time_project(pre, name@), entry_micro(ev[i as int]));
        }
        if entries[i].project == *name {
            let d = normalize_duration(entries[i].duration.as_str());
            acc = acc.saturating_add(d);
        }
        i = i + 1;
    }
    proof {
        assert(ev.subrange(0, ev.len() as int) =~= ev);
    }
    acc
}

fn occ_tag_exec(tags: &Vec<String>, tag: &String) -> (r: usize)
    ensures
        r as int == occ_tag(tags.deep_view(), tag@),
        r <= tags.len(),
{
    let ghost tv = tags.deep_view();
    let mut acc: usize = 0;
    let mut i: usize = 0;
    proof {
        assert(tv.subrange(0, 0) =~= Seq::<Seq<char>>::empty());
    }
    while i < tags.len()
        invariant
            tv == tags.deep_view(),
            i <= tags.len(),
            acc as int == occ_tag(tv.subrange(0, i as int), tag@),
            acc <= i,
        decreases tags.len() - i,
    {
        proof {
            assert(tv[i as int] == tags@[i as int]@);
            let pre = tv.subrange(0, i as int);
            let post = tv.subrange(0, i + 1 as int);
            assert(post.drop_last() =~= pre);
            assert(post.last() == tv[i as int]);
        }
        if tags[i] == *tag {
            acc = acc + 1;
        }
        i = i + 1;
    }
    proof {
        assert(tv.subrange(0, tv.len() as int) =~= tv);
    }
    acc
}

fn count_tag_exec(entries: &Vec<ParsedJournalEntry>, tag: &String) -> (r: u64)
    ensures
        r == cap64(count_tag(entries.deep_view(), tag@)),
{
    let ghost ev = entries.deep_view();
    let mut acc: u64 = 0;
    let mut i: usize = 0;
    proof {
        assert(ev.subrange(0, 0) =~= Seq::<EntryModel>::empty());
    }
    while i < entries.len()
        invariant
            ev == entries.deep_view(),
            i <= entries.len(),
            acc == cap64(count_tag(ev.subrange(0, i as int), tag@)),
            count_tag(ev.subrange(0, i as int), tag@) >= 0,
        decreases entries.len() - i,
    {
        proof {
            assert(ev[i as int] == entries@[i as int]@);
        }
        let occ = occ_tag_exec(&entries[i].tags, tag);
        proof {
            let pre = ev.subrange(0, i as int);
            let post = ev.subrange(0, i + 1 as int);
            assert(post.drop_last() =~= pre);
            assert(post.last() == ev[i as int]);
            assert(ev[i as int].tags == entries@[i as int].tags.deep_view());
            lemma_cap64_add(count_tag(pre, tag@), occ as int);
        }
        acc = acc.saturating_add(occ as u64);
        i = i + 1;
    }
    proof {
        assert(ev.subrange(0, ev.len() as int) =~= ev);
    }
    acc
}

fn count_type_exec(entries: &Vec<ParsedJournalEntry>, name: &String) -> (r: u64)
    ensures
        r == cap64(count_type(entries.deep_view(), name@)),
{
    let ghost ev = entries.deep_view();
    let mut acc: u64 = 0;
    let mut i: usize = 0;
    proof {
        assert(ev.subrange(0, 0) =~= Seq::<EntryModel>::empty());
    }
    while i < entries.len()
        invariant
            ev == entries.deep_view(),
            i <= entries.len(),
            acc == cap64(count_type(ev.subrange(0, i as int), name@)),
            count_type(ev.subrange(0, i as int), name@) >= 0,
        decreases entries.len() - i,
    {
        proof {
            assert(ev[i as int] == entries@[i as int]@);
            let pre = ev.subrange(0, i as int);
            let post = ev.subrange(0, i + 1 as int);
            assert(post.drop_last() =~= pre);
            assert(post.last() == ev[i as int]);
            lemma_cap64_add(count_type(pre, name@), 1);
        }
        if entries[i].entry_type == *name {
            acc = acc.saturating_add(1);
        }
        i = i + 1;
    }
    proof {
        assert(ev.subrange(0, ev.len() as int) =~= ev);
    }
    acc
}

/// The day key of one timestamp.
fn day_key_of(ts: &String) -> (r: Vec<char>)
    ensures
        r@ == day_of(ts@),
{
    let cs = chars_of(ts.as_str());
    let sp = chars_of(" ");
    proof {
        reveal_strlit(" ");
    }
    match find_pattern(&cs, &sp, 0) {
        None => cs,
        Some(i) => {
            proof {
                lemma_find_from_found(cs@, " "@, 0);
            }
            subvec(&cs, 0, i)
        },
    }
}

fn time_day_exec(entries: &Vec<ParsedJournalEntry>, day: &String) -> (r: u64)
    ensures
        r == cap64(time_day(entries.deep_view(), day@)),
{
    let ghost ev = entries.deep_view();
    let dayc = chars_of(day.as_str());
    let mut acc: u64 = 0;
    let mut i: usize = 0;
    proof {
        assert(ev.subrange(0, 0) =~= Seq::<EntryModel>::empty());
    }
    while i < entries.len()
        invariant
            ev == entries.deep_view(),
            dayc@ == day@,
            i <= entries.len(),
            acc == cap64(time_day(ev.subrange(0, i as int), day@)),
            time_day(ev.subrange(0, i as int), day@) >= 0,
        decreases entries.len() - i,
    {
        proof {
            assert(ev[i as int] == entries@[i as int]@);
            let pre = ev.subrange(0, i as int);
            let post = ev.subrange(0, i + 1 as int);
            assert(post.drop_last() =~= pre);
            assert(post.last() == ev[i as int]);
            lemma_duration_nonneg(ev[i as int].duration);
            lemma_cap64_add(time_day(pre, day@), entry_micro(ev[i as int]));
        }
        let ek = day_key_of(&entries[i].timestamp);
        if vec_eq(&ek, &dayc) {
            let d = normalize_duration(entries[i].duration.as_str());
            acc = acc.saturating_add(d);
        }
        i = i + 1;
    }
    proof {
        assert(ev.subrange(0, ev.len() as int) =~= ev);
    }
    acc
}

/// Whether the entry belongs to the month (exec form of `in_month`).
fn in_month_exec(entry: &ParsedJournalEntry, month: &Vec<char>) -> (r: bool)
    ensures
        r == in_month(entry@, month@),
{
    let day = day_key_of(&entry.timestamp);
    if day.len() >= 7 {
        let m = subvec(&day, 0, 7);
        vec_eq(&m, month)
    } else {
        false
    }
}

fn time_month_exec(entries: &Vec<ParsedJournalEntry>, month: &Vec<char>) -> (r: u64)
    ensures
        r == cap64(time_month(entries.deep_view(), month@)),
{
    let ghost ev = entries.deep_view();
    let mut acc: u64 = 0;
    let mut i: usize = 0;
    proof {
        assert(ev.subrange(0, 0) =~= Seq::<EntryModel>::empty());
    }
    while i < entries.len()
        invariant
            ev == entries.deep_view(),
            i <= entries.len(),
            acc == cap64(time_month(ev.subrange(0, i as int), month@)),
            time_month(ev.subrange(0, i as int), month@) >= 0,
        decreases entries.len() - i,
    {
        proof {
            assert(ev[i as int] == entries@[i as int]@);
            let pre = ev.subrange(0, i as int);
            let post = ev.subrange(0, i + 1 as int);
            assert(post.drop_last() =~= pre);
            assert(post.last() == ev[i as int]);
            lemma_duration_nonneg(ev[i as int].duration);
            lemma_cap64_add(time_month(pre, month@), entry_micro(ev[i as int]));
        }
        if in_month_exec(&entries[i], month) {
            let d = normalize_duration(entries[i].duration.as_str());
            acc = acc.saturating_add(d);
        }
        i = i + 1;
    }
    proof {
        assert(ev.subrange(0, ev.len() as int) =~= ev);
    }
    acc
}

fn time_project_month_exec(
    entries: &Vec<ParsedJournalEntry>,
    month: &Vec<char>,
    name: &String,
) -> (r: u64)
    ensures
        r == cap64(time_project_month(entries.deep_view(), month@, name@)),
{
    let ghost ev = entries.deep_view();
    let mut acc: u64 = 0;
    let mut i: usize = 0;
    proof {
        assert(ev.subrange(0, 0) =~= Seq::<EntryModel>::empty());
    }
    while i < entries.len()
        invariant
            ev == entries.deep_view(),
            i <= entries.len(),
            acc == cap64(time_project_month(ev.subrange(0, i as int), month@, name@)),
            time_project_month(ev.subrange(0, i as int), month@, name@) >= 0,
        decreases entries.len() - i,
    {
        proof {
            assert(ev[i as int] == entries@[i as int]@);
            let pre = ev.subrange(0, i as int);
            let post = ev.subrange(0, i + 1 as int);
            assert(post.drop_last() =~= pre);
            assert(post.last() == ev[i as int]);
            lemma_duration_nonneg(ev[i as int].duration);
            lemma_cap64_add(
                time_project_month(pre, month@, name@),
                entry_micro(ev[i as int]),
            );
        }
        if in_month_exec(&entries[i], month) && entries[i].project == *name {
            let d = normalize_duration(entries[i].duration.as_str());
            acc = acc.saturating_add(d);
        }
        i = i + 1;
    }
    proof {
        assert(ev.subrange(0, ev.len() as int) =~= ev);
    }
    acc
}

fn time_tag_month_exec(entries: &Vec<ParsedJournalEntry>, month: &Vec<char>, tag: &String) -> (r:
    u64)
    ensures
        r == cap64(time_tag_month(entries.deep_view(), month@, tag@)),
{
    let ghost ev = entries.deep_view();
    let mut acc: u64 = 0;
    let mut i: usize = 0;
    proof {
        assert(ev.subrange(0, 0) =~= Seq::<EntryModel>::empty());
    }
    while i < entries.len()
        invariant
            ev == entries.deep_view(),
            i <= entries.len(),
            acc == cap64(time_tag_month(ev.subrange(0, i as int), month@, tag@)),
            time_tag_month(ev.subrange(0, i as int), month@, tag@) >= 0,
        decreases entries.len() - i,
    {
        proof {
            assert(ev[i as int] == entries@[i as int]@);
            assert(ev[i as int].tags == entries@[i as int].tags.deep_view());
        }
        let ghost pre = ev.subrange(0, i as int);
        let ghost post = ev.subrange(0, i + 1 as int);
        proof {
            assert(post.drop_last() =~= pre);
            assert(post.last() == ev[i as int]);
            lemma_duration_nonneg(ev[i as int].duration);
        }
        if in_month_exec(&entries[i], month) {
            let occ = occ_tag_exec(&entries[i].tags, tag);
            if occ > 0 {
                let d = normalize_duration(entries[i].duration.as_str());
                let ghost micro = entry_micro(ev[i as int]);
                proof {
                    lemma_cap64_mul(micro, occ as int);
                }
                let inc: u64 = match d.checked_mul(occ as u64) {
                    Some(x) => x,
                    None => u64::MAX,
                };
                proof {
                    assert(occ * micro == micro * occ) by (nonlinear_arith);
                    assert(inc == cap64(occ_tag(ev[i as int].tags, tag@) * micro));
                    assert(occ_tag(ev[i as int].tags, tag@) * micro >= 0) by (nonlinear_arith)
                        requires
                            occ_tag(ev[i as int].tags, tag@) >= 0,
                            micro >= 0,
                    ;
                    lemma_cap64_add(
                        time_tag_month(pre, month@, tag@),
                        occ_tag(ev[i as int].tags, tag@) * micro,
                    );
                }
                acc = acc.saturating_add(inc);
            } else {
                proof {
                    assert(occ_tag(ev[i as int].tags, tag@) * entry_micro(ev[i as int]) == 0)
                        by (nonlinear_arith)
                        requires
                            occ_tag(ev[i as int].tags, tag@) == 0,
                    ;
                }
            }
        }
        i = i + 1;
    }
    proof {
        assert(ev.subrange(0, ev.len() as int) =~= ev);
    }
    acc
}

// --- Key extraction. ---

fn project_keys(entries: &Vec<ParsedJournalEntry>) -> (r: Vec<String>)
    ensures
        r.deep_view().len() == entries.deep_view().len(),
        forall|i: int|
            0 <= i < entries.deep_view().len() ==> r.deep_view()[i]
                == entries.deep_view()[i].project,
{
    let ghost ev = entries.deep_view();
    let mut out: Vec<String> = Vec::new();
    let mut i: usize = 0;
    while i < entries.len()
        invariant
            ev == entries.deep_view(),
            i <= entries.len(),
            out.deep_view().len() == i,
            forall|j: int| 0 <= j < i ==> out.deep_view()[j] == ev[j].project,
        decreases entries.len() - i,
    {
        proof {
            assert(ev[i as int] == entries@[i as int]@);
        }
        let ghost pre = out.deep_view();
        out.push(entries[i].project.clone());
        proof {
            assert(out.deep_view() =~~= pre.push(ev[i as int].project));
        }
        i = i + 1;
    }
    out
}

fn type_keys(entries: &Vec<ParsedJournalEntry>) -> (r: Vec<String>)
    ensures
        r.deep_view().len() == entries.deep_view().len(),
        forall|i: int|
            0 <= i < entries.deep_view().len() ==> r.deep_view()[i]
                == entries.deep_view()[i].entry_type,
{
    let ghost ev = entries.deep_view();
    let mut out: Vec<String> = Vec::new();
    let mut i: usize = 0;
    while i < entries.len()
        invariant
            ev == entries.deep_view(),
            i <= entries.len(),
            out.deep_view().len() == i,
            forall|j: int| 0 <= j < i ==> out.deep_view()[j] == ev[j].entry_type,
        decreases entries.len() - i,
    {
        proof {
            assert(ev[i as int] == entries@[i as int]@);
        }
        let ghost pre = out.deep_view();
        out.push(entries[i].entry_type.clone());
        proof {
            assert(out.deep_view() =~~= pre.push(ev[i as int].entry_type));
        }
        i = i + 1;
    }
    out
}

fn day_keys(entries: &Vec<ParsedJournalEntry>) -> (r: Vec<String>)
    ensures
        r.deep_view().len() == entries.deep_view().len(),
        forall|i: int|
            0 <= i < entries.deep_view().len() ==> r.deep_view()[i] == day_of(
                entries.deep_view()[i].timestamp,
            ),
{
    let ghost ev = entries.deep_view();
    let mut out: Vec<String> = Vec::new();
    let mut i: usize = 0;
    while i < entries.len()
        invariant
            ev == entries.deep_view(),
            i <= entries.len(),
            out.deep_view().len() == i,
            forall|j: int| 0 <= j < i ==> out.deep_view()[j] == day_of(ev[j].timestamp),
        decreases entries.len() - i,
    {
        proof {
            assert(ev[i as int] == entries@[i as int]@);
        }
        let day = day_key_of(&entries[i].timestamp);
        let ghost pre = out.deep_view();
        out.push(string_of(&day));
        proof {
            assert(out.deep_view() =~~= pre.push(day_of(ev[i as int].timestamp)));
        }
        i = i + 1;
    }
    out
}


// --- Named occurrence predicates (shared by the report's contracts). ---

pub open spec fn project_occurs(es: Seq<EntryModel>, y: Seq<char>) -> bool {
    exists|k: int| 0 <= k < es.len() && (#[trigger] es[k]).project == y
}

pub open spec fn type_occurs(es: Seq<EntryModel>, y: Seq<char>) -> bool {
    exists|k: int| 0 <= k < es.len() && (#[trigger] es[k]).entry_type == y
}

pub open spec fn day_occurs(es: Seq<EntryModel>, y: Seq<char>) -> bool {
    exists|k: int| 0 <= k < es.len() && day_of((#[trigger] es[k]).timestamp) == y
}

pub open spec fn tag_occurs(es: Seq<EntryModel>, y: Seq<char>) -> bool {
    exists|k: int, t: int|
        0 <= k < es.len() && 0 <= t < es[k].tags.len() && #[trigger] es[k].tags[t] == y
}

pub open spec fn month_occurs(es: Seq<EntryModel>, y: Seq<char>) -> bool {
    exists|k: int| 0 <= k < es.len() && in_month(#[trigger] es[k], y)
}

pub open spec fn project_in_month_occurs(es: Seq<EntryModel>, m: Seq<char>, y: Seq<char>) -> bool {
    exists|k: int| 0 <= k < es.len() && in_month(#[trigger] es[k], m) && es[k].project == y
}

pub open spec fn tag_in_month_occurs(es: Seq<EntryModel>, m: Seq<char>, y: Seq<char>) -> bool {
    exists|k: int, t: int|
        0 <= k < es.len() && in_month(es[k], m) && 0 <= t < es[k].tags.len()
            && #[trigger] es[k].tags[t] == y
}

fn tag_keys(entries: &Vec<ParsedJournalEntry>) -> (r: Vec<String>)
    ensures
        forall|k: int, t: int|
            0 <= k < entries.deep_view().len() && 0 <= t
                < entries.deep_view()[k].tags.len() ==> contains_str(
                r.deep_view(),
                #[trigger] entries.deep_view()[k].tags[t],
            ),
        forall|j: int|
            #![trigger r.deep_view()[j]]
            0 <= j < r.deep_view().len() ==> tag_occurs(entries.deep_view(), r.deep_view()[j]),
{
    let ghost ev = entries.deep_view();
    let mut out: Vec<String> = Vec::new();
    let mut i: usize = 0;
    while i < entries.len()
        invariant
            ev == entries.deep_view(),
            i <= entries.len(),
            forall|k: int, t: int|
                0 <= k < i && 0 <= t < ev[k].tags.len() ==> contains_str(
                    out.deep_view(),
                    #[trigger] ev[k].tags[t],
                ),
            forall|j: int|
                #![trigger out.deep_view()[j]]
                0 <= j < out.deep_view().len() ==> tag_occurs(ev, out.deep_view()[j]),
        decreases entries.len() - i,
    {
        proof {
            assert(ev[i as int] == entries@[i as int]@);
            assert(ev[i as int].tags == entries@[i as int].tags.deep_view());
        }
        let mut t: usize = 0;
        while t < entries[i].tags.len()
            invariant
                ev == entries.deep_view(),
                i < entries.len(),
                ev[i as int].tags == entries@[i as int].tags.deep_view(),
                t <= ev[i as int].tags.len(),
                forall|k: int, u: int|
                    0 <= k < i && 0 <= u < ev[k].tags.len() ==> contains_str(
                        out.deep_view(),
                        #[trigger] ev[k].tags[u],
                    ),
                forall|u: int|
                    0 <= u < t ==> contains_str(out.deep_view(), #[trigger] ev[i as int].tags[u]),
                forall|j: int|
                    #![trigger out.deep_view()[j]]
                    0 <= j < out.deep_view().len() ==> tag_occurs(ev, out.deep_view()[j]),
            decreases ev[i as int].tags.len() - t,
        {
            proof {
                assert(ev[i as int].tags[t as int] == entries@[i as int].tags@[t as int]@);
            }
            let ghost pre = out.deep_view();
            out.push(entries[i].tags[t].clone());
            proof {
                assert(out.deep_view() =~~= pre.push(ev[i as int].tags[t as int]));
                assert forall|k: int, u: int|
                    0 <= k < i && 0 <= u < ev[k].tags.len() implies contains_str(
                    out.deep_view(),
                    #[trigger] ev[k].tags[u],
                ) by {
                    let w = choose|w: int| 0 <= w < pre.len() && pre[w] == ev[k].tags[u];
                    assert(out.deep_view()[w] == ev[k].tags[u]);
                }
                assert forall|u: int| 0 <= u < t + 1 implies contains_str(
                    out.deep_view(),
                    #[trigger] ev[i as int].tags[u],
                ) by {
                    if u < t {
                        let w = choose|w: int|
                            0 <= w < pre.len() && pre[w] == ev[i as int].tags[u];
                        assert(out.deep_view()[w] == ev[i as int].tags[u]);
                    } else {
                        assert(out.deep_view()[pre.len() as int] == ev[i as int].tags[u]);
                    }
                }
                assert forall|j: int|
                    #![trigger out.deep_view()[j]]
                    0 <= j < out.deep_view().len() implies tag_occurs(ev, out.deep_view()[j]) by {
                    if j < pre.len() {
                        assert(out.deep_view()[j] == pre[j]);
                    } else {
                        assert(out.deep_view()[j] == ev[i as int].tags[t as int]);
                        assert(tag_occurs(ev, out.deep_view()[j]));
                    }
                }
            }
            t = t + 1;
        }
        i = i + 1;
    }
    out
}

/// The months of the entries, strictly ascending.
fn collect_months(entries: &Vec<ParsedJournalEntry>) -> (r: Vec<String>)
    ensures
        sorted_strict(r.deep_view()),
        forall|y: Seq<char>|
            #[trigger] contains_str(r.deep_view(), y) <==> month_occurs(entries.deep_view(), y),
{
    let ghost ev = entries.deep_view();
    let mut out: Vec<String> = Vec::new();
    let mut i: usize = 0;
    proof {
        assert(ev.subrange(0, 0) =~= Seq::<EntryModel>::empty());
    }
    while i < entries.len()
        invariant
            ev == entries.deep_view(),
            i <= entries.len(),
            sorted_strict(out.deep_view()),
            forall|y: Seq<char>|
                #[trigger] contains_str(out.deep_view(), y) <==> month_occurs(
                    ev.subrange(0, i as int),
                    y,
                ),
        decreases entries.len() - i,
    {
        proof {
            assert(ev[i as int] == entries@[i as int]@);
            assert(ev.subrange(0, i + 1 as int).drop_last() =~= ev.subrange(0, i as int));
        }
        let ghost before = out.deep_view();
        let ghost pre_seg = ev.subrange(0, i as int);
        let ghost post_seg = ev.subrange(0, i + 1 as int);
        let day = day_key_of(&entries[i].timestamp);
        if day.len() >= 7 {
            let m = subvec(&day, 0, 7);
            proof {
                assert(in_month(ev[i as int], m@));
            }
            insert_sorted_distinct(&mut out, &m);
            proof {
                assert forall|y: Seq<char>| #[trigger]
                    contains_str(out.deep_view(), y) <==> month_occurs(post_seg, y) by {
                    if contains_str(out.deep_view(), y) {
                        if y == m@ {
                            assert(post_seg[i as int] == ev[i as int]);
                            assert(month_occurs(post_seg, y));
                        } else {
                            assert(contains_str(before, y));
                            let k = choose|k: int|
                                0 <= k < pre_seg.len() && in_month(#[trigger] pre_seg[k], y);
                            assert(post_seg[k] == pre_seg[k]);
                            assert(month_occurs(post_seg, y));
                        }
                    }
                    if month_occurs(post_seg, y) {
                        let k = choose|k: int|
                            0 <= k < post_seg.len() && in_month(#[trigger] post_seg[k], y);
                        if k < i {
                            assert(pre_seg[k] == post_seg[k]);
                            assert(month_occurs(pre_seg, y));
                            assert(contains_str(before, y));
                            assert(contains_str(out.deep_view(), y));
                        } else {
                            assert(post_seg[k] == ev[i as int]);
                            assert(y == m@);
                            assert(contains_str(out.deep_view(), y));
                        }
                    }
                }
            }
        } else {
            proof {
                assert forall|y: Seq<char>| #[trigger]
                    contains_str(out.deep_view(), y) <==> month_occurs(post_seg, y) by {
                    if contains_str(out.deep_view(), y) {
                        let k = choose|k: int|
                            0 <= k < pre_seg.len() && in_month(#[trigger] pre_seg[k], y);
                        assert(post_seg[k] == pre_seg[k]);
                        assert(month_occurs(post_seg, y));
                    }
                    if month_occurs(post_seg, y) {
                        let k = choose|k: int|
                            0 <= k < post_seg.len() && in_month(#[trigger] post_seg[k], y);
                        assert(k < i);
                        assert(pre_seg[k] == post_seg[k]);
                        assert(month_occurs(pre_seg, y));
                    }
                }
            }
        }
        i = i + 1;
    }
    proof {
        assert(ev.subrange(0, ev.len() as int) =~= ev);
    }
    out
}

// --- The report and its parts. ---

#[derive(Debug)]
pub struct ProjectSummary {
    pub name: String,
    pub entries: u64,
    pub micro_minutes: u64,
    pub color: String,
}

#[derive(Debug)]
pub struct TagSummary {
    pub name: String,
    pub count: u64,
    pub color: String,
}

#[derive(Debug)]
pub struct TypeCount {
    pub name: String,
    pub count: u64,
}

#[derive(Debug)]
pub struct DayTime {
    pub day: String,
    pub micro_minutes: u64,
}

#[derive(Debug)]
pub struct MonthTime {
    pub month: String,
    pub micro_minutes: u64,
}

#[derive(Debug)]
pub struct NameTime {
    pub name: String,
    pub micro_minutes: u64,
}

#[derive(Debug)]
pub struct MonthlyDetail {
    pub month: String,
    pub micro_minutes: u64,
    pub projects: Vec<String>,
    pub tags: Vec<String>,
    pub project_hours: Vec<NameTime>,
    pub tag_hours: Vec<NameTime>,
}

#[derive(Debug)]
pub struct ActivityReport {
    pub period_start: String,
    pub period_end: String,
    pub total_entries: usize,
    pub total_micro_minutes: u64,
    pub projects_summary: Vec<ProjectSummary>,
    pub tags_summary: Vec<TagSummary>,
    pub activity_types: Vec<TypeCount>,
    pub daily_breakdown: Vec<DayTime>,
    pub monthly_breakdown: Vec<MonthTime>,
    pub monthly_details: Vec<MonthlyDetail>,
}

pub open spec fn summary_names(ps: Seq<ProjectSummary>) -> Seq<Seq<char>> {
    ps.map_values(|p: ProjectSummary| p.name@)
}

pub open spec fn tag_names(ts: Seq<TagSummary>) -> Seq<Seq<char>> {
    ts.map_values(|t: TagSummary| t.name@)
}

pub open spec fn type_names(tc: Seq<TypeCount>) -> Seq<Seq<char>> {
    tc.map_values(|t: TypeCount| t.name@)
}

pub open spec fn day_names(db: Seq<DayTime>) -> Seq<Seq<char>> {
    db.map_values(|d: DayTime| d.day@)
}

pub open spec fn detail_months(md: Seq<MonthlyDetail>) -> Seq<Seq<char>> {
    md.map_values(|d: MonthlyDetail| d.month@)
}

/// One line per project that occurs: its entry count and its time.
pub open spec fn projects_summary_ok(ps: Seq<ProjectSummary>, es: Seq<EntryModel>) -> bool {
    &&& distinct_strs(summary_names(ps))
    &&& forall|i: int|
        0 <= i < ps.len() ==> (#[trigger] ps[i]).entries == cap64(count_project(es, ps[i].name@))
            && ps[i].micro_minutes == cap64(time_project(es, ps[i].name@)) && ps[i].color@
            == "#007bff"@ && project_occurs(es, ps[i].name@)
    &&& forall|k: int|
        0 <= k < es.len() ==> contains_str(summary_names(ps), (#[trigger] es[k]).project)
}

/// One line per tag that occurs: how many times it was used.
pub open spec fn tags_summary_ok(ts: Seq<TagSummary>, es: Seq<EntryModel>) -> bool {
    &&& distinct_strs(tag_names(ts))
    &&& forall|i: int|
        0 <= i < ts.len() ==> (#[trigger] ts[i]).count == cap64(count_tag(es, ts[i].name@))
            && ts[i].color@ == "#6c757d"@ && tag_occurs(es, ts[i].name@)
    &&& forall|k: int, t: int|
        0 <= k < es.len() && 0 <= t < es[k].tags.len() ==> contains_str(
            tag_names(ts),
            #[trigger] es[k].tags[t],
        )
}

pub open spec fn types_ok(tc: Seq<TypeCount>, es: Seq<EntryModel>) -> bool {
    &&& distinct_strs(type_names(tc))
    &&& forall|i: int|
        0 <= i < tc.len() ==> (#[trigger] tc[i]).count == cap64(count_type(es, tc[i].name@))
            && type_occurs(es, tc[i].name@)
    &&& forall|k: int|
        0 <= k < es.len() ==> contains_str(type_names(tc), (#[trigger] es[k]).entry_type)
}

pub open spec fn daily_ok(db: Seq<DayTime>, es: Seq<EntryModel>) -> bool {
    &&& distinct_strs(day_names(db))
    &&& forall|i: int|
        0 <= i < db.len() ==> (#[trigger] db[i]).micro_minutes == cap64(time_day(es, db[i].day@))
            && day_occurs(es, db[i].day@)
    &&& forall|k: int|
        0 <= k < es.len() ==> contains_str(day_names(db), day_of((#[trigger] es[k]).timestamp))
}

/// One month's detail: its time, and its projects and tags each sorted
/// ascending and paired with their per-month times.
pub open spec fn month_detail_ok(d: MonthlyDetail, es: Seq<EntryModel>) -> bool {
    &&& d.micro_minutes == cap64(time_month(es, d.month@))
    &&& sorted_strict(d.projects.deep_view())
    &&& forall|y: Seq<char>|
        #[trigger] contains_str(d.projects.deep_view(), y) <==> project_in_month_occurs(
            es,
            d.month@,
            y,
        )
    &&& sorted_strict(d.tags.deep_view())
    &&& forall|y: Seq<char>|
        #[trigger] contains_str(d.tags.deep_view(), y) <==> tag_in_month_occurs(es, d.month@, y)
    &&& d.project_hours.len() == d.projects.len()
    &&& forall|i: int|
        0 <= i < d.project_hours.len() ==> (#[trigger] d.project_hours[i]).name@
            == d.projects.deep_view()[i] && d.project_hours[i].micro_minutes == cap64(
            time_project_month(es, d.month@, d.project_hours[i].name@),
        )
    &&& d.tag_hours.len() == d.tags.len()
    &&& forall|i: int|
        0 <= i < d.tag_hours.len() ==> (#[trigger] d.tag_hours[i]).name@
            == d.tags.deep_view()[i] && d.tag_hours[i].micro_minutes == cap64(
            time_tag_month(es, d.month@, d.tag_hours[i].name@),
        )
}

/// The monthly lists: one slot per month that occurs, strictly ascending
/// by month key, the plain breakdown aligned with the details.
pub open spec fn monthly_ok(
    mb: Seq<MonthTime>,
    md: Seq<MonthlyDetail>,
    es: Seq<EntryModel>,
) -> bool {
    &&& mb.len() == md.len()
    &&& forall|i: int|
        0 <= i < mb.len() ==> (#[trigger] mb[i]).month@ == (#[trigger] md[i]).month@
            && mb[i].micro_minutes == md[i].micro_minutes
    &&& sorted_strict(detail_months(md))
    &&& forall|i: int| 0 <= i < md.len() ==> month_detail_ok(#[trigger] md[i], es)
    &&& forall|i: int| 0 <= i < md.len() ==> month_occurs(es, (#[trigger] md[i]).month@)
    &&& forall|k: int|
        0 <= k < es.len() && day_of((#[trigger] es[k]).timestamp).len() >= 7 ==> contains_str(
            detail_months(md),
            day_of(es[k].timestamp).subrange(0, 7),
        )
}

// --- Building the report. ---

fn build_projects_summary(entries: &Vec<ParsedJournalEntry>) -> (r: Vec<ProjectSummary>)
    ensures
        projects_summary_ok(r@, entries.deep_view()),
{
    let ghost ev = entries.deep_view();
    let keys = project_keys(entries);
    let ghost kv = keys.deep_view();
    let names = distinct_of(&keys);
    let ghost nv = names.deep_view();
    let mut out: Vec<ProjectSummary> = Vec::new();
    let mut i: usize = 0;
    while i < names.len()
        invariant
            ev == entries.deep_view(),
            nv == names.deep_view(),
            i <= names.len(),
            out@.len() == i,
            forall|j: int|
                0 <= j < i ==> (#[trigger] out@[j]).name@ == nv[j] && out@[j].entries == cap64(
                    count_project(ev, nv[j]),
                ) && out@[j].micro_minutes == cap64(time_project(ev, nv[j])) && out@[j].color@
                    == "#007bff"@,
        decreases names.len() - i,
    {
        proof {
            assert(nv[i as int] == names@[i as int]@);
        }
        let count = count_project_exec(entries, &names[i]);
        let micro = time_project_exec(entries, &names[i]);
        out.push(
            ProjectSummary {
                name: names[i].clone(),
                entries: count,
                micro_minutes: micro,
                color: "#007bff".to_owned(),
            },
        );
        i = i + 1;
    }
    proof {
        assert(summary_names(out@) =~= nv);
        assert forall|j: int| 0 <= j < out@.len() implies project_occurs(
            ev,
            (#[trigger] out@[j]).name@,
        ) by {
            assert(contains_str(kv, nv[j]));
            let w = choose|w: int| 0 <= w < kv.len() && kv[w] == nv[j];
            assert(ev[w].project == nv[j]);
        }
        assert forall|k: int| 0 <= k < ev.len() implies contains_str(
            summary_names(out@),
            (#[trigger] ev[k]).project,
        ) by {
            assert(kv[k] == ev[k].project);
            assert(contains_str(nv, kv[k]));
        }
    }
    out
}

fn build_tags_summary(entries: &Vec<ParsedJournalEntry>) -> (r: Vec<TagSummary>)
    ensures
        tags_summary_ok(r@, entries.deep_view()),
{
    let ghost ev = entries.deep_view();
    let keys = tag_keys(entries);
    let ghost kv = keys.deep_view();
    let names = distinct_of(&keys);
    let ghost nv = names.deep_view();
    let mut out: Vec<TagSummary> = Vec::new();
    let mut i: usize = 0;
    while i < names.len()
        invariant
            ev == entries.deep_view(),
            nv == names.deep_view(),
            i <= names.len(),
            out@.len() == i,
            forall|j: int|
                0 <= j < i ==> (#[trigger] out@[j]).name@ == nv[j] && out@[j].count == cap64(
                    count_tag(ev, nv[j]),
                ) && out@[j].color@ == "#6c757d"@,
        decreases names.len() - i,
    {
        proof {
            assert(nv[i as int] == names@[i as int]@);
        }
        let count = count_tag_exec(entries, &names[i]);
        out.push(TagSummary { name: names[i].clone(), count, color: "#6c757d".to_owned() });
        i = i + 1;
    }
    proof {
        assert(tag_names(out@) =~= nv);
        assert forall|j: int| 0 <= j < out@.len() implies tag_occurs(
            ev,
            (#[trigger] out@[j]).name@,
        ) by {
            assert(contains_str(kv, nv[j]));
            let w = choose|w: int| 0 <= w < kv.len() && kv[w] == nv[j];
            assert(tag_occurs(ev, kv[w]));
        }
        assert forall|k: int, t: int|
            0 <= k < ev.len() && 0 <= t < ev[k].tags.len() implies contains_str(
            tag_names(out@),
            #[trigger] ev[k].tags[t],
        ) by {
            assert(contains_str(kv, ev[k].tags[t]));
            let w = choose|w: int| 0 <= w < kv.len() && kv[w] == ev[k].tags[t];
            assert(contains_str(nv, kv[w]));
        }
    }
    out
}

fn build_types(entries: &Vec<ParsedJournalEntry>) -> (r: Vec<TypeCount>)
    ensures
        types_ok(r@, entries.deep_view()),
{
    let ghost ev = entries.deep_view();
    let keys = type_keys(entries);
    let ghost kv = keys.deep_view();
    let names = distinct_of(&keys);
    let ghost nv = names.deep_view();
    let mut out: Vec<TypeCount> = Vec::new();
    let mut i: usize = 0;
    while i < names.len()
        invariant
            ev == entries.deep_view(),
            nv == names.deep_view(),
            i <= names.len(),
            out@.len() == i,
            forall|j: int|
                0 <= j < i ==> (#[trigger] out@[j]).name@ == nv[j] && out@[j].count == cap64(
                    count_type(ev, nv[j]),
                ),
        decreases names.len() - i,
    {
        proof {
            assert(nv[i as int] == names@[i as int]@);
        }
        let count = count_type_exec(entries, &names[i]);
        out.push(TypeCount { name: names[i].clone(), count });
        i = i + 1;
    }
    proof {
        assert(type_names(out@) =~= nv);
        assert forall|j: int| 0 <= j < out@.len() implies type_occurs(
            ev,
            (#[trigger] out@[j]).name@,
        ) by {
            assert(contains_str(kv, nv[j]));
            let w = choose|w: int| 0 <= w < kv.len() && kv[w] == nv[j];
            assert(ev[w].entry_type == nv[j]);
        }
        assert forall|k: int| 0 <= k < ev.len() implies contains_str(
            type_names(out@),
            (#[trigger] ev[k]).entry_type,
        ) by {
            assert(kv[k] == ev[k].entry_type);
            assert(contains_str(nv, kv[k]));
        }
    }
    out
}

fn build_daily(entries: &Vec<ParsedJournalEntry>) -> (r: Vec<DayTime>)
    ensures
        daily_ok(r@, entries.deep_view()),
{
    let ghost ev = entries.deep_view();
    let keys = day_keys(entries);
    let ghost kv = keys.deep_view();
    let names = distinct_of(&keys);
    let ghost nv = names.deep_view();
    let mut out: Vec<DayTime> = Vec::new();
    let mut i: usize = 0;
    while i < names.len()
        invariant
            ev == entries.deep_view(),
            nv == names.deep_view(),
            i <= names.len(),
            out@.len() == i,
            forall|j: int|
                0 <= j < i ==> (#[trigger] out@[j]).day@ == nv[j] && out@[j].micro_minutes
                    == cap64(time_day(ev, nv[j])),
        decreases names.len() - i,
    {
        proof {
            assert(nv[i as int] == names@[i as int]@);
        }
        let micro = time_day_exec(entries, &names[i]);
        out.push(DayTime { day: names[i].clone(), micro_minutes: micro });
        i = i + 1;
    }
    proof {
        assert(day_names(out@) =~= nv);
        assert forall|j: int| 0 <= j < out@.len() implies day_occurs(
            ev,
            (#[trigger] out@[j]).day@,
        ) by {
            assert(contains_str(kv, nv[j]));
            let w = choose|w: int| 0 <= w < kv.len() && kv[w] == nv[j];
            assert(day_of(ev[w].timestamp) == nv[j]);
        }
        assert forall|k: int| 0 <= k < ev.len() implies contains_str(
            day_names(out@),
            day_of((#[trigger] ev[k]).timestamp),
        ) by {
            assert(kv[k] == day_of(ev[k].timestamp));
            assert(contains_str(nv, kv[k]));
        }
    }
    out
}

/// Tags seen among the first `t` tags of one entry.
pub open spec fn tag_of_entry_upto(e: EntryModel, t: int, y: Seq<char>) -> bool {
    exists|u: int| 0 <= u < t && u < e.tags.len() && #[trigger] e.tags[u] == y
}

/// The projects of one month, strictly ascending.
fn month_projects(entries: &Vec<ParsedJournalEntry>, month: &Vec<char>) -> (r: Vec<String>)
    ensures
        sorted_strict(r.deep_view()),
        forall|y: Seq<char>|
            #[trigger] contains_str(r.deep_view(), y) <==> project_in_month_occurs(
                entries.deep_view(),
                month@,
                y,
            ),
{
    let ghost ev = entries.deep_view();
    let mut out: Vec<String> = Vec::new();
    let mut k: usize = 0;
    proof {
        assert(ev.subrange(0, 0) =~= Seq::<EntryModel>::empty());
    }
    while k < entries.len()
        invariant
            ev == entries.deep_view(),
            k <= entries.len(),
            sorted_strict(out.deep_view()),
            forall|y: Seq<char>|
                #[trigger] contains_str(out.deep_view(), y) <==> project_in_month_occurs(
                    ev.subrange(0, k as int),
                    month@,
                    y,
                ),
        decreases entries.len() - k,
    {
        proof {
            assert(ev[k as int] == entries@[k as int]@);
            assert(ev.subrange(0, k + 1 as int).drop_last() =~= ev.subrange(0, k as int));
        }
        let ghost before = out.deep_view();
        let ghost pre_seg = ev.subrange(0, k as int);
        let ghost post_seg = ev.subrange(0, k + 1 as int);
        if in_month_exec(&entries[k], month) {
            let p = chars_of(entries[k].project.as_str());
            proof {
                assert(p@ == ev[k as int].project);
            }
            insert_sorted_distinct(&mut out, &p);
            proof {
                assert forall|y: Seq<char>| #[trigger]
                    contains_str(out.deep_view(), y) <==> project_in_month_occurs(
                    post_seg,
                    month@,
                    y,
                ) by {
                    if contains_str(out.deep_view(), y) {
                        if y == p@ {
                            assert(post_seg[k as int] == ev[k as int]);
                            assert(project_in_month_occurs(post_seg, month@, y));
                        } else {
                            assert(contains_str(before, y));
                            let w = choose|w: int|
                                0 <= w < pre_seg.len() && in_month(#[trigger] pre_seg[w], month@)
                                    && pre_seg[w].project == y;
                            assert(post_seg[w] == pre_seg[w]);
                            assert(project_in_month_occurs(post_seg, month@, y));
                        }
                    }
                    if project_in_month_occurs(post_seg, month@, y) {
                        let w = choose|w: int|
                            0 <= w < post_seg.len() && in_month(#[trigger] post_seg[w], month@)
                                && post_seg[w].project == y;
                        if w < k {
                            assert(pre_seg[w] == post_seg[w]);
                            assert(project_in_month_occurs(pre_seg, month@, y));
                            assert(contains_str(before, y));
                        } else {
                            assert(post_seg[w] == ev[k as int]);
                            assert(y == p@);
                        }
                        assert(contains_str(out.deep_view(), y));
                    }
                }
            }
        } else {
            proof {
                assert forall|y: Seq<char>| #[trigger]
                    contains_str(out.deep_view(), y) <==> project_in_month_occurs(
                    post_seg,
                    month@,
                    y,
                ) by {
                    if contains_str(out.deep_view(), y) {
                        let w = choose|w: int|
                            0 <= w < pre_seg.len() && in_month(#[trigger] pre_seg[w], month@)
                                && pre_seg[w].project == y;
                        assert(post_seg[w] == pre_seg[w]);
                        assert(project_in_month_occurs(post_seg, month@, y));
                    }
                    if project_in_month_occurs(post_seg, month@, y) {
                        let w = choose|w: int|
                            0 <= w < post_seg.len() && in_month(#[trigger] post_seg[w], month@)
                                && post_seg[w].project == y;
                        assert(w < k);
                        assert(pre_seg[w] == post_seg[w]);
                        assert(project_in_month_occurs(pre_seg, month@, y));
                    }
                }
            }
        }
        k = k + 1;
    }
    proof {
        assert(ev.subrange(0, ev.len() as int) =~= ev);
    }
    out
}

/// The tags of one month, strictly ascending.
#[verifier::rlimit(60)]
fn month_tags(entries: &Vec<ParsedJournalEntry>, month: &Vec<char>) -> (r: Vec<String>)
    ensures
        sorted_strict(r.deep_view()),
        forall|y: Seq<char>|
            #[trigger] contains_str(r.deep_view(), y) <==> tag_in_month_occurs(
                entries.deep_view(),
                month@,
                y,
            ),
{
    let ghost ev = entries.deep_view();
    let mut out: Vec<String> = Vec::new();
    let mut k: usize = 0;
    proof {
        assert(ev.subrange(0, 0) =~= Seq::<EntryModel>::empty());
    }
    while k < entries.len()
        invariant
            ev == entries.deep_view(),
            k <= entries.len(),
            sorted_strict(out.deep_view()),
            forall|y: Seq<char>|
                #[trigger] contains_str(out.deep_view(), y) <==> tag_in_month_occurs(
                    ev.subrange(0, k as int),
                    month@,
                    y,
                ),
        decreases entries.len() - k,
    {
        proof {
            assert(ev[k as int] == entries@[k as int]@);
            assert(ev[k as int].tags == entries@[k as int].tags.deep_view());
            assert(ev.subrange(0, k + 1 as int).drop_last() =~= ev.subrange(0, k as int));
        }
        let ghost pre_seg = ev.subrange(0, k as int);
        let ghost post_seg = ev.subrange(0, k + 1 as int);
        if in_month_exec(&entries[k], month) {
            let mut t: usize = 0;
            proof {
                assert forall|y: Seq<char>| #[trigger]
                    contains_str(out.deep_view(), y) <==> (tag_in_month_occurs(
                    pre_seg,
                    month@,
                    y,
                ) || tag_of_entry_upto(ev[k as int], 0, y)) by {}
            }
            while t < entries[k].tags.len()
                invariant
                    ev == entries.deep_view(),
                    k < entries.len(),
                    ev[k as int].tags == entries@[k as int].tags.deep_view(),
                    in_month(ev[k as int], month@),
                    pre_seg == ev.subrange(0, k as int),
                    t <= ev[k as int].tags.len(),
                    sorted_strict(out.deep_view()),
                    forall|y: Seq<char>|
                        #[trigger] contains_str(out.deep_view(), y) <==> (tag_in_month_occurs(
                            pre_seg,
                            month@,
                            y,
                        ) || tag_of_entry_upto(ev[k as int], t as int, y)),
                decreases ev[k as int].tags.len() - t,
            {
                proof {
                    assert(ev[k as int].tags[t as int] == entries@[k as int].tags@[t as int]@);
                }
                let ghost before = out.deep_view();
                let tagc = chars_of(entries[k].tags[t].as_str());
                proof {
                    assert(tagc@ == ev[k as int].tags[t as int]);
                }
                insert_sorted_distinct(&mut out, &tagc);
                proof {
                    assert forall|y: Seq<char>| #[trigger]
                        contains_str(out.deep_view(), y) <==> (tag_in_month_occurs(
                        pre_seg,
                        month@,
                        y,
                    ) || tag_of_entry_upto(ev[k as int], t + 1 as int, y)) by {
                        if contains_str(out.deep_view(), y) {
                            if y == tagc@ {
                                assert(ev[k as int].tags[t as int] == y);
                                assert(tag_of_entry_upto(ev[k as int], t + 1 as int, y));
                            } else {
                                assert(contains_str(before, y));
                                if tag_of_entry_upto(ev[k as int], t as int, y) {
                                    let u = choose|u: int|
                                        0 <= u < t && u < ev[k as int].tags.len() && #[trigger] ev[k as int].tags[u] == y;
                                    assert(tag_of_entry_upto(ev[k as int], t + 1 as int, y));
                                }
                            }
                        }
                        if tag_in_month_occurs(pre_seg, month@, y) {
                            assert(contains_str(before, y));
                            assert(contains_str(out.deep_view(), y));
                        }
                        if tag_of_entry_upto(ev[k as int], t + 1 as int, y) {
                            let u = choose|u: int|
                                0 <= u < t + 1 && u < ev[k as int].tags.len() && #[trigger] ev[k as int].tags[u] == y;
                            if u < t {
                                assert(tag_of_entry_upto(ev[k as int], t as int, y));
                                assert(contains_str(before, y));
                                assert(contains_str(out.deep_view(), y));
                            } else {
                                assert(y == tagc@);
                                assert(contains_str(out.deep_view(), y));
                            }
                        }
                    }
                }
                t = t + 1;
            }
            proof {
                assert forall|y: Seq<char>| #[trigger]
                    contains_str(out.deep_view(), y) <==> tag_in_month_occurs(
                    post_seg,
                    month@,
                    y,
                ) by {
                    if contains_str(out.deep_view(), y) {
                        if tag_in_month_occurs(pre_seg, month@, y) {
                            let (w, u) = choose|w: int, u: int|
                                0 <= w < pre_seg.len() && in_month(pre_seg[w], month@) && 0 <= u
                                    < pre_seg[w].tags.len() && #[trigger] pre_seg[w].tags[u] == y;
                            assert(post_seg[w] == pre_seg[w]);
                            assert(tag_in_month_occurs(post_seg, month@, y));
                        } else {
                            let u = choose|u: int|
                                0 <= u < ev[k as int].tags.len() && #[trigger] ev[k as int].tags[u] == y;
                            assert(post_seg[k as int] == ev[k as int]);
                            assert(tag_in_month_occurs(post_seg, month@, y));
                        }
                    }
                    if tag_in_month_occurs(post_seg, month@, y) {
                        let (w, u) = choose|w: int, u: int|
                            0 <= w < post_seg.len() && in_month(post_seg[w], month@) && 0 <= u
                                < post_seg[w].tags.len() && #[trigger] post_seg[w].tags[u] == y;
                        if w < k {
                            assert(pre_seg[w] == post_seg[w]);
                            assert(tag_in_month_occurs(pre_seg, month@, y));
                        } else {
                            assert(post_seg[w] == ev[k as int]);
                            assert(tag_of_entry_upto(ev[k as int], ev[k as int].tags.len() as int, y));
                        }
                        assert(contains_str(out.deep_view(), y));
                    }
                }
            }
        } else {
            proof {
                assert forall|y: Seq<char>| #[trigger]
                    contains_str(out.deep_view(), y) <==> tag_in_month_occurs(
                    post_seg,
                    month@,
                    y,
                ) by {
                    if contains_str(out.deep_view(), y) {
                        let (w, u) = choose|w: int, u: int|
                            0 <= w < pre_seg.len() && in_month(pre_seg[w], month@) && 0 <= u
                                < pre_seg[w].tags.len() && #[trigger] pre_seg[w].tags[u] == y;
                        assert(post_seg[w] == pre_seg[w]);
                        assert(tag_in_month_occurs(post_seg, month@, y));
                    }
                    if tag_in_month_occurs(post_seg, month@, y) {
                        let (w, u) = choose|w: int, u: int|
                            0 <= w < post_seg.len() && in_month(post_seg[w], month@) && 0 <= u
                                < post_seg[w].tags.len() && #[trigger] post_seg[w].tags[u] == y;
                        assert(w < k);
                        assert(pre_seg[w] == post_seg[w]);
                        assert(tag_in_month_occurs(pre_seg, month@, y));
                    }
                }
            }
        }
        k = k + 1;
    }
    proof {
        assert(ev.subrange(0, ev.len() as int) =~= ev);
    }
    out
}

fn month_project_hours(
    entries: &Vec<ParsedJournalEntry>,
    month: &Vec<char>,
    names: &Vec<String>,
) -> (r: Vec<NameTime>)
    ensures
        r@.len() == names.deep_view().len(),
        forall|i: int|
            0 <= i < r@.len() ==> (#[trigger] r@[i]).name@ == names.deep_view()[i]
                && r@[i].micro_minutes == cap64(
                time_project_month(entries.deep_view(), month@, r@[i].name@),
            ),
{
    let ghost ev = entries.deep_view();
    let ghost nv = names.deep_view();
    let mut out: Vec<NameTime> = Vec::new();
    let mut i: usize = 0;
    while i < names.len()
        invariant
            ev == entries.deep_view(),
            nv == names.deep_view(),
            i <= names.len(),
            out@.len() == i,
            forall|j: int|
                0 <= j < i ==> (#[trigger] out@[j]).name@ == nv[j] && out@[j].micro_minutes
                    == cap64(time_project_month(ev, month@, nv[j])),
        decreases names.len() - i,
    {
        proof {
            assert(nv[i as int] == names@[i as int]@);
        }
        let micro = time_project_month_exec(entries, month, &names[i]);
        out.push(NameTime { name: names[i].clone(), micro_minutes: micro });
        i = i + 1;
    }
    out
}

fn month_tag_hours(entries: &Vec<ParsedJournalEntry>, month: &Vec<char>, names: &Vec<String>) -> (r:
    Vec<NameTime>)
    ensures
        r@.len() == names.deep_view().len(),
        forall|i: int|
            0 <= i < r@.len() ==> (#[trigger] r@[i]).name@ == names.deep_view()[i]
                && r@[i].micro_minutes == cap64(
                time_tag_month(entries.deep_view(), month@, r@[i].name@),
            ),
{
    let ghost ev = entries.deep_view();
    let ghost nv = names.deep_view();
    let mut out: Vec<NameTime> = Vec::new();
    let mut i: usize = 0;
    while i < names.len()
        invariant
            ev == entries.deep_view(),
            nv == names.deep_view(),
            i <= names.len(),
            out@.len() == i,
            forall|j: int|
                0 <= j < i ==> (#[trigger] out@[j]).name@ == nv[j] && out@[j].micro_minutes
                    == cap64(time_tag_month(ev, month@, nv[j])),
        decreases names.len() - i,
    {
        proof {
            assert(nv[i as int] == names@[i as int]@);
        }
        let micro = time_tag_month_exec(entries, month, &names[i]);
        out.push(NameTime { name: names[i].clone(), micro_minutes: micro });
        i = i + 1;
    }
    out
}

fn build_monthly(entries: &Vec<ParsedJournalEntry>) -> (r: (Vec<MonthTime>, Vec<MonthlyDetail>))
    ensures
        monthly_ok(r.0@, r.1@, entries.deep_view()),
{
    let ghost ev = entries.deep_view();
    let months = collect_months(entries);
    let ghost mv = months.deep_view();
    let mut mb: Vec<MonthTime> = Vec::new();
    let mut md: Vec<MonthlyDetail> = Vec::new();
    let mut i: usize = 0;
    while i < months.len()
        invariant
            ev == entries.deep_view(),
            mv == months.deep_view(),
            sorted_strict(mv),
            forall|y: Seq<char>| #[trigger] contains_str(mv, y) <==> month_occurs(ev, y),
            i <= months.len(),
            mb@.len() == i,
            md@.len() == i,
            forall|j: int| 0 <= j < i ==> (#[trigger] md@[j]).month@ == mv[j],
            forall|j: int| 0 <= j < i ==> (#[trigger] mb@[j]).month@ == mv[j],
            forall|j: int|
                0 <= j < i ==> (#[trigger] mb@[j]).micro_minutes == md@[j].micro_minutes,
            forall|j: int| 0 <= j < i ==> month_detail_ok(#[trigger] md@[j], ev),
        decreases months.len() - i,
    {
        proof {
            assert(mv[i as int] == months@[i as int]@);
        }
        let mchars = chars_of(months[i].as_str());
        let micro = time_month_exec(entries, &mchars);
        let projects = month_projects(entries, &mchars);
        let tags = month_tags(entries, &mchars);
        let project_hours = month_project_hours(entries, &mchars, &projects);
        let tag_hours = month_tag_hours(entries, &mchars, &tags);
        let detail = MonthlyDetail {
            month: months[i].clone(),
            micro_minutes: micro,
            projects,
            tags,
            project_hours,
            tag_hours,
        };
        proof {
            assert(month_detail_ok(detail, ev));
        }
        let ghost md_pre = md@;
        let ghost mb_pre = mb@;
        proof {
            assert(detail.month@ == mv[i as int]);
        }
        md.push(detail);
        mb.push(MonthTime { month: months[i].clone(), micro_minutes: micro });
        proof {
            assert(md@[i as int].month@ == mv[i as int]);
            assert(mb@[i as int].month@ == mv[i as int]);
            assert(mb@[i as int].micro_minutes == md@[i as int].micro_minutes);
            assert(forall|j: int| 0 <= j < i ==> (#[trigger] md@[j]) == md_pre[j]);
            assert(forall|j: int| 0 <= j < i ==> (#[trigger] mb@[j]) == mb_pre[j]);
            assert forall|j: int| 0 <= j < i + 1 implies ((#[trigger] md@[j]).month@ == mv[j] && (
            #[trigger] mb@[j]).month@ == mv[j] && mb@[j].micro_minutes
                == md@[j].micro_minutes) by {
                if j < i {
                    assert(md@[j] == md_pre[j]);
                    assert(mb@[j] == mb_pre[j]);
                    assert(md_pre[j].month@ == mv[j]);
                }
            }
            assert forall|j: int| 0 <= j < i + 1 implies month_detail_ok(
                #[trigger] md@[j],
                ev,
            ) by {
                if j < i {
                    assert(md@[j] == md_pre[j]);
                    assert(month_detail_ok(md_pre[j], ev));
                }
            }
        }
        i = i + 1;
    }
    proof {
        assert(detail_months(md@) =~= mv);
        assert forall|j: int| 0 <= j < md@.len() implies month_occurs(
            ev,
            (#[trigger] md@[j]).month@,
        ) by {
            assert(contains_str(mv, mv[j])) by {
                assert(mv[j] == mv[j]);
            }
        }
        assert forall|k: int|
            0 <= k < ev.len() && day_of((#[trigger] ev[k]).timestamp).len() >= 7 implies
            contains_str(detail_months(md@), day_of(ev[k].timestamp).subrange(0, 7)) by {
            let m = day_of(ev[k].timestamp).subrange(0, 7);
            assert(in_month(ev[k], m));
            assert(month_occurs(ev, m));
            assert(contains_str(mv, m));
        }
    }
    (mb, md)
}

/// Folds the loaded files of a date range into the activity report. The
/// caller lists and loads the files; unreadable dates are simply left out
/// of `files` and the rest still make a report.
pub fn generate_activity_report(
    start_date: &str,
    end_date: &str,
    files: &Vec<(String, String)>,
) -> (r: ActivityReport)
    ensures
        r.period_start@ == start_date@,
        r.period_end@ == end_date@,
        r.total_entries == all_entries(files.deep_view()).len(),
        r.total_micro_minutes == cap64(total_micro(all_entries(files.deep_view()))),
        projects_summary_ok(r.projects_summary@, all_entries(files.deep_view())),
        tags_summary_ok(r.tags_summary@, all_entries(files.deep_view())),
        types_ok(r.activity_types@, all_entries(files.deep_view())),
        daily_ok(r.daily_breakdown@, all_entries(files.deep_view())),
        monthly_ok(r.monthly_breakdown@, r.monthly_details@, all_entries(files.deep_view())),
{
    let entries = collect_range_entries(files);
    let total_micro_minutes = total_time_exec(&entries);
    let projects_summary = build_projects_summary(&entries);
    let tags_summary = build_tags_summary(&entries);
    let activity_types = build_types(&entries);
    let daily_breakdown = build_daily(&entries);
    let (monthly_breakdown, monthly_details) = build_monthly(&entries);
    ActivityReport {
        period_start: start_date.to_owned(),
        period_end: end_date.to_owned(),
        total_entries: entries.len(),
        total_micro_minutes,
        projects_summary,
        tags_summary,
        activity_types,
        daily_breakdown,
        monthly_breakdown,
        monthly_details,
    }
}

} // verus!
