//! The per-date file lifecycle, as pure content transforms: what saving
//! appends, what update and delete rewrite, and which file names count as
//! date files. The callers do the actual reading and writing.

use vstd::prelude::*;
use vstd::string::StringExecFns;
use crate::entry::{journal_entry_model, EntryModel, JournalEntry, ParsedJournalEntry};
use crate::parse::{parse_journal_entries, spec_parse};
use crate::serialize::{
    clone_links, clone_string_vec, clone_tickets, format_entry_as_markdown,
    generate_markdown_entry, join_pieces, join_with, spec_serialize,
};
use crate::text::{chars_of, seq_lt, lemma_seq_lt_irrefl, lemma_seq_lt_total, lemma_seq_lt_trans, vec_lt};

verus! {

/// What a save writes: the new block alone for a fresh file, else the old
/// content, the literal separator, and the block.
pub open spec fn appended_content(existing: Seq<char>, file_exists: bool, block: Seq<char>) -> Seq<
    char,
> {
    if file_exists {
        existing + "\n\n---\n\n"@ + block
    } else {
        block
    }
}

/// The full file content after saving `entry` with the given timestamp.
pub fn saved_file_content(
    existing: &str,
    file_exists: bool,
    entry: &JournalEntry,
    timestamp: &str,
    base_url: &str,
) -> (r: String)
    ensures
        r@ == appended_content(
            existing@,
            file_exists,
            spec_serialize(journal_entry_model(entry, timestamp@), base_url@),
        ),
{
    let block = format_entry_as_markdown(entry, timestamp, base_url);
    if file_exists {
        let mut out = String::new();
        out.append(existing);
        out.append("\n\n---\n\n");
        out.append(block.as_str());
        proof {
            assert(out@ =~= existing@ + "\n\n---\n\n"@ + block@);
        }
        out
    } else {
        block
    }
}

/// The blocks of the entries in order, each serialized.
pub open spec fn rendered_pieces(es: Seq<EntryModel>, base: Seq<char>) -> Seq<Seq<char>>
    decreases es.len(),
{
    if es.len() == 0 {
        Seq::empty()
    } else {
        rendered_pieces(es.drop_last(), base).push(spec_serialize(es.last(), base))
    }
}

/// A whole rewritten file: the serialized entries joined by a blank line.
pub open spec fn rendered_content(es: Seq<EntryModel>, base: Seq<char>) -> Seq<char> {
    join_with(rendered_pieces(es, base), "\n\n"@)
}

/// Serializes every entry and joins the blocks.
fn render_entries(entries: &Vec<ParsedJournalEntry>, base_url: &str) -> (r: String)
    ensures
        r@ == rendered_content(entries.deep_view(), base_url@),
{
    let ghost ev = entries.deep_view();
    let mut pieces: Vec<String> = Vec::new();
    let mut i: usize = 0;
    proof {
        assert(ev.subrange(0, 0) =~= Seq::<EntryModel>::empty());
        assert(pieces.deep_view() =~~= rendered_pieces(ev.subrange(0, 0), base_url@));
    }
    while i < entries.len()
        invariant
            i <= entries.len(),
            ev == entries.deep_view(),
            pieces.deep_view() == rendered_pieces(ev.subrange(0, i as int), base_url@),
        decreases entries.len() - i,
    {
        let block = generate_markdown_entry(&entries[i], base_url);
        let ghost pre = pieces.deep_view();
        pieces.push(block);
        proof {
            assert(ev.subrange(0, i + 1 as int).drop_last() =~= ev.subrange(0, i as int));
            assert(ev.subrange(0, i + 1 as int).last() == ev[i as int]);
            assert(ev[i as int] == entries@[i as int]@);
            assert(pieces.deep_view() =~~= pre.push(spec_serialize(ev[i as int], base_url@)));
            assert(pieces.deep_view() =~~= rendered_pieces(
                ev.subrange(0, i + 1 as int),
                base_url@,
            ));
        }
        i = i + 1;
    }
    proof {
        assert(ev.subrange(0, ev.len() as int) =~= ev);
    }
    join_pieces(&pieces, "\n\n")
}

/// The entry that replaces position `i`: every field from `updated`, but
/// the timestamp that already stood there.
pub open spec fn merged_entry(original: EntryModel, updated: EntryModel) -> EntryModel {
    EntryModel { timestamp: original.timestamp, ..updated }
}

fn merge_entry(original_timestamp: &String, updated: &ParsedJournalEntry) -> (r:
    ParsedJournalEntry)
    ensures
        r@ == (EntryModel { timestamp: original_timestamp@, ..updated@ }),
{
    ParsedJournalEntry {
        timestamp: original_timestamp.clone(),
        project: updated.project.clone(),
        description: updated.description.clone(),
        duration: updated.duration.clone(),
        tags: clone_string_vec(&updated.tags),
        time_range: updated.time_range.clone(),
        entry_type: updated.entry_type.clone(),
        results: updated.results.clone(),
        blockers: updated.blockers.clone(),
        links: clone_links(&updated.links),
        reflections: updated.reflections.clone(),
        jira_tickets: clone_tickets(&updated.jira_tickets),
    }
}

/// The new file content after replacing the entry at `entry_index`, or
/// `None` (and no change) when the index is out of bounds. The replaced
/// entry keeps its original timestamp.
pub fn update_journal_entry_content(
    content: &str,
    entry_index: usize,
    updated_entry: &ParsedJournalEntry,
    base_url: &str,
) -> (r: Option<String>)
    ensures
        r is Some <==> entry_index < spec_parse(content@).len(),
        r is Some ==> r->0@ == rendered_content(
            spec_parse(content@).update(
                entry_index as int,
                merged_entry(spec_parse(content@)[entry_index as int], updated_entry@),
            ),
            base_url@,
        ),
{
    let entries = parse_journal_entries(content);
    let ghost ev = entries.deep_view();
    if entry_index >= entries.len() {
        return None;
    }
    let mut rewritten: Vec<ParsedJournalEntry> = Vec::new();
    let ghost goal = ev.update(entry_index as int, merged_entry(ev[entry_index as int], updated_entry@));
    let mut k: usize = 0;
    proof {
        assert(rewritten.deep_view() =~~= goal.subrange(0, 0));
    }
    while k < entries.len()
        invariant
            k <= entries.len(),
            ev == entries.deep_view(),
            entry_index < ev.len(),
            goal == ev.update(
                entry_index as int,
                merged_entry(ev[entry_index as int], updated_entry@),
            ),
            rewritten.deep_view() == goal.subrange(0, k as int),
        decreases entries.len() - k,
    {
        let ghost pre = rewritten.deep_view();
        if k == entry_index {
            let merged = merge_entry(&entries[k].timestamp, updated_entry);
            rewritten.push(merged);
            proof {
                assert(ev[k as int] == entries@[k as int]@);
                assert(goal[k as int] == merged_entry(ev[entry_index as int], updated_entry@));
            }
        } else {
            let copy = merge_entry(&entries[k].timestamp, &entries[k]);
            rewritten.push(copy);
            proof {
                assert(ev[k as int] == entries@[k as int]@);
                assert(goal[k as int] == ev[k as int]);
            }
        }
        proof {
            assert(rewritten.deep_view() =~~= pre.push(goal[k as int]));
            assert(rewritten.deep_view() =~~= goal.subrange(0, k + 1 as int));
        }
        k = k + 1;
    }
    proof {
        assert(goal.subrange(0, goal.len() as int) =~= goal);
    }
    Some(render_entries(&rewritten, base_url))
}

/// The new file content after removing the entry at `entry_index`, or
/// `None` (and no change) when the index is out of bounds. When the last
/// entry goes, the content becomes empty, not absent.
pub fn delete_journal_entry_content(content: &str, entry_index: usize, base_url: &str) -> (r:
    Option<String>)
    ensures
        r is Some <==> entry_index < spec_parse(content@).len(),
        r is Some ==> r->0@ == rendered_content(
            spec_parse(content@).remove(entry_index as int),
            base_url@,
        ),
{
    let entries = parse_journal_entries(content);
    let ghost ev = entries.deep_view();
    if entry_index >= entries.len() {
        return None;
    }
    let mut kept: Vec<ParsedJournalEntry> = Vec::new();
    let ghost goal = ev.remove(entry_index as int);
    let mut k: usize = 0;
    proof {
        assert(kept.deep_view() =~~= goal.subrange(0, 0));
    }
    while k < entries.len()
        invariant
            k <= entries.len(),
            ev == entries.deep_view(),
            entry_index < ev.len(),
            goal == ev.remove(entry_index as int),
            kept.deep_view() == goal.subrange(0, if k <= entry_index {
                k as int
            } else {
                k - 1
            }),
        decreases entries.len() - k,
    {
        let ghost pre = kept.deep_view();
        if k != entry_index {
            let copy = merge_entry(&entries[k].timestamp, &entries[k]);
            kept.push(copy);
            proof {
                assert(ev[k as int] == entries@[k as int]@);
                if k < entry_index {
                    assert(goal[k as int] == ev[k as int]);
                    assert(kept.deep_view() =~~= pre.push(goal[k as int]));
                    assert(kept.deep_view() =~~= goal.subrange(0, k + 1 as int));
                } else {
                    assert(goal[k - 1] == ev[k as int]);
                    assert(kept.deep_view() =~~= pre.push(goal[k - 1]));
                    assert(kept.deep_view() =~~= goal.subrange(0, k as int));
                }
            }
        }
        k = k + 1;
    }
    proof {
        assert(goal.subrange(0, goal.len() as int) =~= goal);
    }
    Some(render_entries(&kept, base_url))
}

// --- Date-file names. ---

/// Index of the last '.' of `s`, or -1.
pub open spec fn last_dot(s: Seq<char>) -> int
    decreases s.len(),
{
    if s.len() == 0 {
        -1
    } else if s.last() == '.' {
        s.len() - 1
    } else {
        last_dot(s.drop_last())
    }
}

pub proof fn lemma_last_dot_bounds(s: Seq<char>)
    ensures
        -1 <= last_dot(s) < s.len(),
    decreases s.len(),
{
    if s.len() > 0 && s.last() != '.' {
        lemma_last_dot_bounds(s.drop_last());
    }
}

/// Number of '-' characters in `s`.
pub open spec fn dash_count(s: Seq<char>) -> int
    decreases s.len(),
{
    if s.len() == 0 {
        0
    } else {
        dash_count(s.drop_last()) + if s.last() == '-' {
            1int
        } else {
            0int
        }
    }
}

/// A date-file name: an "md" extension whose stem has the ten-character,
/// two-dash date shape.
pub open spec fn is_journal_file_name(name: Seq<char>) -> bool {
    let d = last_dot(name);
    d >= 1 && name.subrange(d + 1, name.len() as int) == "md"@ && date_stem(name).len() == 10
        && dash_count(date_stem(name)) == 2
}

/// The name without its extension.
pub open spec fn date_stem(name: Seq<char>) -> Seq<char> {
    name.subrange(0, last_dot(name))
}

proof fn lemma_last_dot_at(s: Seq<char>, d: int)
    requires
        0 <= d < s.len(),
        s[d] == '.',
        forall|j: int| d < j < s.len() ==> s[j] != '.',
    ensures
        last_dot(s) == d,
    decreases s.len(),
{
    if s.last() != '.' {
        lemma_last_dot_at(s.drop_last(), d);
    }
}

proof fn lemma_no_dot(s: Seq<char>)
    requires
        forall|j: int| 0 <= j < s.len() ==> s[j] != '.',
    ensures
        last_dot(s) == -1,
    decreases s.len(),
{
    if s.len() > 0 {
        lemma_no_dot(s.drop_last());
    }
}

/// Decides `is_journal_file_name` for a name given as characters.
fn is_journal_file_name_exec(name: &Vec<char>) -> (r: (bool, usize))
    ensures
        r.0 == is_journal_file_name(name@),
        r.0 ==> r.1 as int == last_dot(name@),
{
    // find the last dot by scanning from the end
    let n = name.len();
    let mut j: usize = n;
    while j > 0
        invariant
            j <= n == name@.len(),
            forall|k: int| j <= k < n ==> name@[k] != '.',
        decreases j,
    {
        if name[j - 1] == '.' {
            proof {
                lemma_last_dot_at(name@, j - 1 as int);
            }
            let d = j - 1;
            if d < 1 {
                return (false, 0);
            }
            // extension must be exactly "md"
            let ext = crate::text::subvec(name, d + 1, n);
            let md = chars_of("md");
            if !crate::text::vec_eq(&ext, &md) {
                proof {
                    assert(name@.subrange(d + 1 as int, n as int) == ext@);
                }
                return (false, 0);
            }
            // the stem must be a ten-character date with two dashes
            if d != 10 {
                return (false, 0);
            }
            let stem = crate::text::subvec(name, 0, d);
            proof {
                assert(stem@ == date_stem(name@));
            }
            let mut dashes: usize = 0;
            let mut i: usize = 0;
            proof {
                assert(stem@.subrange(0, 0) =~= Seq::<char>::empty());
            }
            while i < stem.len()
                invariant
                    i <= stem.len(),
                    dashes <= i,
                    dashes as int == dash_count(stem@.subrange(0, i as int)),
                decreases stem.len() - i,
            {
                if stem[i] == '-' {
                    dashes = dashes + 1;
                }
                proof {
                    assert(stem@.subrange(0, i + 1 as int).drop_last() =~= stem@.subrange(
                        0,
                        i as int,
                    ));
                }
                i = i + 1;
            }
            proof {
                assert(stem@.subrange(0, stem@.len() as int) =~= stem@);
            }
            return (dashes == 2, d);
        }
        j = j - 1;
    }
    proof {
        lemma_no_dot(name@);
    }
    (false, 0)
}

/// The stems of the names that pass the date-file filter, in input order.
pub open spec fn journal_stems(names: Seq<Seq<char>>) -> Seq<Seq<char>>
    decreases names.len(),
{
    if names.len() == 0 {
        Seq::empty()
    } else {
        journal_stems(names.drop_last()) + if is_journal_file_name(names.last()) {
            seq![date_stem(names.last())]
        } else {
            Seq::empty()
        }
    }
}

/// Non-increasing by code-point order: newest date first.
pub open spec fn sorted_desc(ss: Seq<Seq<char>>) -> bool {
    forall|i: int, j: int| 0 <= i < j < ss.len() ==> !seq_lt(ss[i], ss[j])
}

proof fn lemma_insert_multiset(s: Seq<Seq<char>>, i: int, x: Seq<char>)
    requires
        0 <= i <= s.len(),
    ensures
        s.insert(i, x).to_multiset() == s.to_multiset().insert(x),
{
    broadcast use vstd::seq_lib::group_to_multiset_ensures;

    let a = s.subrange(0, i);
    let b = s.subrange(i, s.len() as int);
    assert(s.insert(i, x) =~= a + (seq![x] + b));
    assert(s =~= a + b);
    vstd::seq_lib::lemma_multiset_commutative(a, seq![x] + b);
    vstd::seq_lib::lemma_multiset_commutative(a, b);
    assert(seq![x] + b =~= b.insert(0, x));
    assert(b.insert(0, x).to_multiset() == b.to_multiset().insert(x)) by {
        assert(b.insert(0, x) =~= seq![x] + b);
        lemma_prepend_multiset(x, b);
    }
    assert(s.insert(i, x).to_multiset() =~= s.to_multiset().insert(x));
}

proof fn lemma_prepend_multiset(x: Seq<char>, b: Seq<Seq<char>>)
    ensures
        (seq![x] + b).to_multiset() == b.to_multiset().insert(x),
    decreases b.len(),
{
    broadcast use vstd::seq_lib::group_to_multiset_ensures;

    if b.len() == 0 {
        assert(seq![x] + b =~= Seq::<Seq<char>>::empty().push(x));
        assert((Seq::<Seq<char>>::empty().push(x)).to_multiset() =~= Seq::<
            Seq<char>,
        >::empty().to_multiset().insert(x));
        assert(b.to_multiset() =~= Seq::<Seq<char>>::empty().to_multiset());
    } else {
        lemma_prepend_multiset(x, b.drop_last());
        assert(seq![x] + b =~= (seq![x] + b.drop_last()).push(b.last()));
        assert(b =~= b.drop_last().push(b.last()));
        assert((seq![x] + b).to_multiset() =~= (seq![x] + b.drop_last()).to_multiset().insert(
            b.last(),
        ));
        assert(b.to_multiset() =~= b.drop_last().to_multiset().insert(b.last()));
        assert(b.drop_last().to_multiset().insert(x).insert(b.last())
            =~= b.drop_last().to_multiset().insert(b.last()).insert(x));
    }
}

/// Keeps the names shaped like date files, drops the extension, and sorts
/// the dates newest-first. Other names are ignored.
pub fn get_available_journal_dates(file_names: &Vec<String>) -> (r: Vec<String>)
    ensures
        sorted_desc(r.deep_view()),
        r.deep_view().to_multiset() == journal_stems(file_names.deep_view()).to_multiset(),
{
    let ghost nv = file_names.deep_view();
    let mut out: Vec<String> = Vec::new();
    let mut i: usize = 0;
    proof {
        broadcast use vstd::seq_lib::group_to_multiset_ensures;

        assert(nv.subrange(0, 0) =~= Seq::<Seq<char>>::empty());
        assert(out.deep_view().to_multiset() =~= journal_stems(nv.subrange(0, 0)).to_multiset());
    }
    while i < file_names.len()
        invariant
            i <= file_names.len(),
            nv == file_names.deep_view(),
            sorted_desc(out.deep_view()),
            out.deep_view().to_multiset() == journal_stems(nv.subrange(0, i as int)).to_multiset(),
        decreases file_names.len() - i,
    {
        let name = chars_of(file_names[i].as_str());
        proof {
            assert(name@ == nv[i as int]);
            assert(nv.subrange(0, i + 1 as int).drop_last() =~= nv.subrange(0, i as int));
            assert(nv.subrange(0, i + 1 as int).last() == nv[i as int]);
        }
        let (ok, d) = is_journal_file_name_exec(&name);
        if ok {
            proof {
                lemma_last_dot_bounds(name@);
            }
            let stem = crate::text::subvec(&name, 0, d);
            let ghost sv = stem@;
            proof {
                assert(sv == date_stem(nv[i as int]));
            }
            // find the first position whose date is older (smaller)
            let ghost before = out.deep_view();
            let mut pos: usize = 0;
            let mut found: bool = false;
            while !found && pos < out.len()
                invariant
                    pos <= out.len(),
                    before == out.deep_view(),
                    sv == stem@,
                    forall|k: int| 0 <= k < pos ==> !seq_lt(before[k], sv),
                    found ==> pos < out.len() && seq_lt(before[pos as int], sv),
                decreases out.len() - pos + (if found {
                    0int
                } else {
                    1int
                }),
            {
                let cand = chars_of(out[pos].as_str());
                proof {
                    assert(cand@ == before[pos as int]);
                }
                if vec_lt(&cand, &stem) {
                    found = true;
                } else {
                    pos = pos + 1;
                }
            }
            let ghost p = pos as int;
            proof {
                if p < before.len() {
                    assert(found);
                    assert(seq_lt(before[p], sv));
                }
            }
            out.insert(pos, crate::text::string_of(&stem));
            proof {
                broadcast use vstd::seq_lib::group_to_multiset_ensures;

                let now = out.deep_view();
                assert(now =~~= before.insert(p, sv));
                lemma_insert_multiset(before, p, sv);
                assert(journal_stems(nv.subrange(0, i + 1 as int)) =~= journal_stems(
                    nv.subrange(0, i as int),
                ) + seq![sv]);
                lemma_prepend_multiset(sv, Seq::<Seq<char>>::empty());
                assert(journal_stems(nv.subrange(0, i as int)) + seq![sv] =~= journal_stems(
                    nv.subrange(0, i as int),
                ).push(sv));
                assert(now.to_multiset() =~= journal_stems(
                    nv.subrange(0, i + 1 as int),
                ).to_multiset());
                // sortedness: everything before p is >= sv, everything after is < sv
                assert forall|a: int, b: int| 0 <= a < b < now.len() implies !seq_lt(
                    now[a],
                    now[b],
                ) by {
                    if a < p && b == p {
                        assert(now[a] == before[a]);
                        assert(!seq_lt(before[a], sv));
                    } else if a == p && b > p {
                        assert(now[b] == before[b - 1]);
                        assert(b - 1 >= p);
                        if seq_lt(sv, before[b - 1]) {
                            if p < b - 1 {
                                assert(!seq_lt(before[p], before[b - 1]));
                                lemma_seq_lt_total(before[p], before[b - 1]);
                                if seq_lt(before[b - 1], before[p]) {
                                    lemma_seq_lt_trans(sv, before[b - 1], before[p]);
                                }
                                lemma_seq_lt_trans(before[p], sv, before[p]);
                                lemma_seq_lt_irrefl(before[p]);
                                if before[b - 1] == before[p] {
                                    lemma_seq_lt_trans(before[p], sv, before[p]);
                                }
                            } else {
                                lemma_seq_lt_trans(before[p], sv, before[p]);
                                lemma_seq_lt_irrefl(before[p]);
                            }
                        }
                    } else if a < p && b > p {
                        assert(now[a] == before[a]);
                        assert(now[b] == before[b - 1]);
                        assert(!seq_lt(before[a], before[b - 1]) || a == b - 1);
                        if a == b - 1 {
                            assert(!seq_lt(before[a], sv));
                            assert(seq_lt(before[p], sv));
                        }
                    } else if a != p && b != p {
                        let a0 = if a < p {
                            a
                        } else {
                            a - 1
                        };
                        let b0 = if b < p {
                            b
                        } else {
                            b - 1
                        };
                        assert(now[a] == before[a0]);
                        assert(now[b] == before[b0]);
                        if a0 < b0 {
                            assert(!seq_lt(before[a0], before[b0]));
                        } else {
                            assert(a0 == b0);
                        }
                    }
                }
            }
        } else {
            proof {
                assert(journal_stems(nv.subrange(0, i + 1 as int)) =~= journal_stems(
                    nv.subrange(0, i as int),
                ));
            }
        }
        i = i + 1;
    }
    proof {
        assert(nv.subrange(0, nv.len() as int) =~= nv);
    }
    out
}

/// Keeps, in order, the dates within the closed range; the fixed-width
/// date form makes code-point comparison the date order.
pub open spec fn in_range(d: Seq<char>, start: Seq<char>, end: Seq<char>) -> bool {
    !seq_lt(d, start) && !seq_lt(end, d)
}

pub open spec fn dates_in_range(ds: Seq<Seq<char>>, start: Seq<char>, end: Seq<char>) -> Seq<
    Seq<char>,
>
    decreases ds.len(),
{
    if ds.len() == 0 {
        Seq::empty()
    } else {
        dates_in_range(ds.drop_last(), start, end) + if in_range(ds.last(), start, end) {
            seq![ds.last()]
        } else {
            Seq::empty()
        }
    }
}

pub fn filter_dates_in_range(dates: &Vec<String>, start_date: &str, end_date: &str) -> (r: Vec<
    String,
>)
    ensures
        r.deep_view() == dates_in_range(dates.deep_view(), start_date@, end_date@),
{
    let ghost dv = dates.deep_view();
    let sv = chars_of(start_date);
    let ev = chars_of(end_date);
    let mut out: Vec<String> = Vec::new();
    let mut i: usize = 0;
    proof {
        assert(dv.subrange(0, 0) =~= Seq::<Seq<char>>::empty());
        assert(out.deep_view() =~~= dates_in_range(dv.subrange(0, 0), start_date@, end_date@));
    }
    while i < dates.len()
        invariant
            i <= dates.len(),
            dv == dates.deep_view(),
            sv@ == start_date@,
            ev@ == end_date@,
            out.deep_view() == dates_in_range(dv.subrange(0, i as int), start_date@, end_date@),
        decreases dates.len() - i,
    {
        let d = chars_of(dates[i].as_str());
        proof {
            assert(d@ == dv[i as int]);
            assert(dv.subrange(0, i + 1 as int).drop_last() =~= dv.subrange(0, i as int));
            assert(dv.subrange(0, i + 1 as int).last() == dv[i as int]);
        }
        let ghost pre = out.deep_view();
        if !vec_lt(&d, &sv) && !vec_lt(&ev, &d) {
            out.push(dates[i].clone());
            proof {
                assert(out.deep_view() =~~= pre.push(dv[i as int]));
                assert(out.deep_view() =~~= dates_in_range(
                    dv.subrange(0, i + 1 as int),
                    start_date@,
                    end_date@,
                ));
            }
        } else {
            proof {
                assert(out.deep_view() =~~= dates_in_range(
                    dv.subrange(0, i + 1 as int),
                    start_date@,
                    end_date@,
                ));
            }
        }
        i = i + 1;
    }
    proof {
        assert(dv.subrange(0, dv.len() as int) =~= dv);
    }
    out
}

} // verus!
