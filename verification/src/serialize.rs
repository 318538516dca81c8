//! The entry serializer: one structured entry in, one canonical text block
//! out, fields in a fixed order. `spec_serialize` is the exact statement of
//! that block, character for character.

use vstd::prelude::*;
use vstd::string::StringExecFns;
use crate::entry::{
    heading_marker, journal_entry_model, label_blockers, label_description, label_duration,
    label_entry_type, label_links, label_project, label_reflections, label_results, label_tags,
    label_time_range, sentinel_none, EntryModel, JournalEntry, Link, LinkModel,
    ParsedJournalEntry, TicketRefModel, JiraTicketRef,
};

verus! {

/// `[KEY]({base}/browse/KEY)`.
pub open spec fn jira_link_text(key: Seq<char>, base: Seq<char>) -> Seq<char> {
    "["@ + key + "]("@ + base + "/browse/"@ + key + ")"@
}

/// `[text](url)`.
pub open spec fn plain_link_text(l: LinkModel) -> Seq<char> {
    "["@ + l.text + "]("@ + l.url + ")"@
}

/// Only links with both parts non-empty are written out.
pub open spec fn link_emitted(l: LinkModel) -> bool {
    l.text.len() > 0 && l.url.len() > 0
}

pub open spec fn jira_pieces(ts: Seq<TicketRefModel>, base: Seq<char>) -> Seq<Seq<char>>
    decreases ts.len(),
{
    if ts.len() == 0 {
        Seq::empty()
    } else {
        jira_pieces(ts.drop_last(), base).push(jira_link_text(ts.last().key, base))
    }
}

pub open spec fn link_pieces(ls: Seq<LinkModel>) -> Seq<Seq<char>>
    decreases ls.len(),
{
    if ls.len() == 0 {
        Seq::empty()
    } else if link_emitted(ls.last()) {
        link_pieces(ls.drop_last()).push(plain_link_text(ls.last()))
    } else {
        link_pieces(ls.drop_last())
    }
}

/// Ticket links first, then the plain links that are written out.
pub open spec fn all_link_pieces(e: EntryModel, base: Seq<char>) -> Seq<Seq<char>> {
    jira_pieces(e.jira_tickets, base) + link_pieces(e.links)
}

/// Pieces joined by `sep`.
pub open spec fn join_with(ps: Seq<Seq<char>>, sep: Seq<char>) -> Seq<char>
    decreases ps.len(),
{
    if ps.len() == 0 {
        Seq::empty()
    } else if ps.len() == 1 {
        ps[0]
    } else {
        join_with(ps.drop_last(), sep) + sep + ps.last()
    }
}

pub open spec fn tag_pieces(tags: Seq<Seq<char>>) -> Seq<Seq<char>>
    decreases tags.len(),
{
    if tags.len() == 0 {
        Seq::empty()
    } else {
        tag_pieces(tags.drop_last()).push("#"@ + tags.last())
    }
}

/// Space-joined `#tag` tokens, or the sentinel when there are none.
pub open spec fn tags_text(tags: Seq<Seq<char>>) -> Seq<char> {
    if tags.len() == 0 {
        sentinel_none()
    } else {
        join_with(tag_pieces(tags), " "@)
    }
}

pub open spec fn heading_line(e: EntryModel) -> Seq<char> {
    heading_marker() + e.timestamp + "\n"@
}

pub open spec fn field_line(label: Seq<char>, value: Seq<char>) -> Seq<char> {
    label + " "@ + value + "  \n"@
}

pub open spec fn links_line(e: EntryModel, base: Seq<char>) -> Seq<char> {
    if all_link_pieces(e, base).len() > 0 {
        field_line(label_links(), join_with(all_link_pieces(e, base), ", "@))
    } else {
        Seq::empty()
    }
}

pub open spec fn optional_line(label: Seq<char>, value: Seq<char>) -> Seq<char> {
    if value.len() > 0 {
        field_line(label, value)
    } else {
        Seq::empty()
    }
}

/// The canonical text block of an entry: heading with the timestamp, then
/// the fields in fixed order; empty optional fields are omitted.
pub open spec fn spec_serialize(e: EntryModel, base: Seq<char>) -> Seq<char> {
    heading_line(e) + field_line(label_project(), e.project) + optional_line(
        label_time_range(),
        e.time_range,
    ) + field_line(label_entry_type(), e.entry_type) + field_line(
        label_description(),
        e.description,
    ) + field_line(label_duration(), e.duration + " minutes"@) + optional_line(
        label_results(),
        e.results,
    ) + optional_line(label_blockers(), e.blockers) + links_line(e, base) + field_line(
        label_tags(),
        tags_text(e.tags),
    ) + optional_line(label_reflections(), e.reflections)
}

/// Joins already-built pieces with a separator.
pub(crate) fn join_pieces(pieces: &Vec<String>, sep: &str) -> (r: String)
    ensures
        r@ == join_with(pieces.deep_view(), sep@),
{
    let mut out = String::new();
    if pieces.len() == 0 {
        return out;
    }
    out.append(pieces[0].as_str());
    let mut i: usize = 1;
    proof {
        assert(pieces.deep_view().subrange(0, 1).len() == 1);
        assert(pieces.deep_view().subrange(0, 1)[0] == pieces@[0]@);
        assert(out@ == join_with(pieces.deep_view().subrange(0, 1), sep@));
    }
    while i < pieces.len()
        invariant
            1 <= i <= pieces.len(),
            out@ == join_with(pieces.deep_view().subrange(0, i as int), sep@),
        decreases pieces.len() - i,
    {
        out.append(sep);
        out.append(pieces[i].as_str());
        proof {
            let ps = pieces.deep_view();
            let pre = ps.subrange(0, i as int);
            let post = ps.subrange(0, i + 1 as int);
            assert(post.drop_last() =~= pre);
            assert(post.last() == ps[i as int]);
            assert(join_with(post, sep@) == join_with(pre, sep@) + sep@ + ps[i as int]);
        }
        i = i + 1;
    }
    proof {
        assert(pieces.deep_view().subrange(0, pieces@.len() as int) =~= pieces.deep_view());
    }
    out
}

/// Builds the comma-joined pieces of the "Liens" field: ticket links from
/// the keys, then the plain links with both parts non-empty.
fn build_link_pieces(
    tickets: &Vec<JiraTicketRef>,
    links: &Vec<Link>,
    base_url: &str,
) -> (r: Vec<String>)
    ensures
        r.deep_view() == jira_pieces(tickets.deep_view(), base_url@) + link_pieces(
            links.deep_view(),
        ),
{
    let mut pieces: Vec<String> = Vec::new();
    let mut i: usize = 0;
    proof {
        assert(tickets.deep_view().subrange(0, 0) =~= Seq::<TicketRefModel>::empty());
        assert(pieces.deep_view() =~~= jira_pieces(tickets.deep_view().subrange(0, 0), base_url@));
    }
    while i < tickets.len()
        invariant
            i <= tickets.len(),
            pieces.deep_view() == jira_pieces(
                tickets.deep_view().subrange(0, i as int),
                base_url@,
            ),
        decreases tickets.len() - i,
    {
        let mut piece = String::new();
        piece.append("[");
        piece.append(tickets[i].key.as_str());
        piece.append("](");
        piece.append(base_url);
        piece.append("/browse/");
        piece.append(tickets[i].key.as_str());
        piece.append(")");
        let ghost pre = pieces.deep_view();
        pieces.push(piece);
        proof {
            let ts = tickets.deep_view();
            assert(ts.subrange(0, i + 1 as int).drop_last() =~= ts.subrange(0, i as int));
            assert(ts.subrange(0, i + 1 as int).last() == ts[i as int]);
            assert(ts[i as int] == tickets@[i as int]@);
            assert(piece@ =~= jira_link_text(ts[i as int].key, base_url@));
            assert(pieces.deep_view() =~~= pre.push(piece@));
            assert(pieces.deep_view() =~~= jira_pieces(ts.subrange(0, i + 1 as int), base_url@));
        }
        i = i + 1;
    }
    proof {
        assert(tickets.deep_view().subrange(0, tickets@.len() as int) =~= tickets.deep_view());
    }
    let ghost jira_all = pieces.deep_view();
    let mut j: usize = 0;
    proof {
        assert(links.deep_view().subrange(0, 0) =~= Seq::<LinkModel>::empty());
        assert(pieces.deep_view() =~~= jira_all + link_pieces(links.deep_view().subrange(0, 0)));
    }
    while j < links.len()
        invariant
            j <= links.len(),
            pieces.deep_view() == jira_all + link_pieces(links.deep_view().subrange(0, j as int)),
        decreases links.len() - j,
    {
        proof {
            let ls = links.deep_view();
            assert(ls.subrange(0, j + 1 as int).drop_last() =~= ls.subrange(0, j as int));
            assert(ls.subrange(0, j + 1 as int).last() == ls[j as int]);
            assert(ls[j as int] == links@[j as int]@);
        }
        if !links[j].text.as_str().is_empty() && !links[j].url.as_str().is_empty() {
            let mut piece = String::new();
            piece.append("[");
            piece.append(links[j].text.as_str());
            piece.append("](");
            piece.append(links[j].url.as_str());
            piece.append(")");
            let ghost pre = pieces.deep_view();
            pieces.push(piece);
            proof {
                let ls = links.deep_view();
                assert(piece@ =~= plain_link_text(ls[j as int]));
                assert(pieces.deep_view() =~~= pre.push(piece@));
                assert(pieces.deep_view() =~~= jira_all + link_pieces(
                    ls.subrange(0, j + 1 as int),
                ));
            }
        } else {
            proof {
                let ls = links.deep_view();
                assert(!link_emitted(ls[j as int]));
                assert(pieces.deep_view() =~~= jira_all + link_pieces(
                    ls.subrange(0, j + 1 as int),
                ));
            }
        }
        j = j + 1;
    }
    proof {
        assert(links.deep_view().subrange(0, links@.len() as int) =~= links.deep_view());
    }
    pieces
}

/// Writes one entry as its canonical text block.
#[verifier::rlimit(100)]
pub fn generate_markdown_entry(entry: &ParsedJournalEntry, base_url: &str) -> (r: String)
    ensures
        r@ == spec_serialize(entry@, base_url@),
{
    let ghost e = entry@;
    let mut out = String::new();
    out.append("## ");
    out.append(entry.timestamp.as_str());
    out.append("\n");
    let ghost s1 = heading_line(e);
    proof {
        assert(out@ =~= s1);
    }
    let ghost o1 = out@;
    out.append("**Projet**:");
    out.append(" ");
    out.append(entry.project.as_str());
    out.append("  \n");
    let ghost s2 = s1 + field_line(label_project(), e.project);
    proof {
        assert(out@ =~= o1 + field_line(label_project(), e.project));
    }
    let ghost o2 = out@;
    if !entry.time_range.as_str().is_empty() {
        out.append("**Plage horaire**:");
        out.append(" ");
        out.append(entry.time_range.as_str());
        out.append("  \n");
    }
    let ghost s3 = s2 + optional_line(label_time_range(), e.time_range);
    proof {
        assert(out@ =~= o2 + optional_line(label_time_range(), e.time_range));
    }
    let ghost o3 = out@;
    out.append("**Type d'activité**:");
    out.append(" ");
    out.append(entry.entry_type.as_str());
    out.append("  \n");
    let ghost s4 = s3 + field_line(label_entry_type(), e.entry_type);
    proof {
        assert(out@ =~= o3 + field_line(label_entry_type(), e.entry_type));
    }
    let ghost o4 = out@;
    out.append("**Description**:");
    out.append(" ");
    out.append(entry.description.as_str());
    out.append("  \n");
    let ghost s5 = s4 + field_line(label_description(), e.description);
    proof {
        assert(out@ =~= o4 + field_line(label_description(), e.description));
    }
    let ghost o5 = out@;
    out.append("**Durée**:");
    out.append(" ");
    out.append(entry.duration.as_str());
    out.append(" minutes");
    out.append("  \n");
    let ghost s6 = s5 + field_line(label_duration(), e.duration + " minutes"@);
    proof {
        assert(out@ =~= o5 + field_line(label_duration(), e.duration + " minutes"@));
    }
    let ghost o6 = out@;
    if !entry.results.as_str().is_empty() {
        out.append("**Résultats**:");
        out.append(" ");
        out.append(entry.results.as_str());
        out.append("  \n");
    }
    let ghost s7 = s6 + optional_line(label_results(), e.results);
    proof {
        assert(out@ =~= o6 + optional_line(label_results(), e.results));
    }
    let ghost o7 = out@;
    if !entry.blockers.as_str().is_empty() {
        out.append("**Blocages**:");
        out.append(" ");
        out.append(entry.blockers.as_str());
        out.append("  \n");
    }
    let ghost s8 = s7 + optional_line(label_blockers(), e.blockers);
    proof {
        assert(out@ =~= o7 + optional_line(label_blockers(), e.blockers));
    }
    let ghost o8 = out@;
    let pieces = build_link_pieces(&entry.jira_tickets, &entry.links, base_url);
    if pieces.len() > 0 {
        out.append("**Liens**:");
        out.append(" ");
        let joined = join_pieces(&pieces, ", ");
        out.append(joined.as_str());
        out.append("  \n");
    }
    let ghost s9 = s8 + links_line(e, base_url@);
    proof {
        assert(pieces.deep_view() == all_link_pieces(e, base_url@));
        assert(out@ =~= o8 + links_line(e, base_url@));
    }
    let ghost o9 = out@;
    out.append("**Tags**:");
    out.append(" ");
    if entry.tags.len() == 0 {
        out.append("Aucun");
        proof {
            assert(e.tags.len() == 0);
        }
    } else {
        let mut tpieces: Vec<String> = Vec::new();
        let mut i: usize = 0;
        proof {
            assert(entry.tags.deep_view().subrange(0, 0) =~= Seq::<Seq<char>>::empty());
            assert(tpieces.deep_view() =~~= tag_pieces(e.tags.subrange(0, 0)));
        }
        while i < entry.tags.len()
            invariant
                i <= entry.tags.len(),
                e == entry@,
                tpieces.deep_view() == tag_pieces(e.tags.subrange(0, i as int)),
            decreases entry.tags.len() - i,
        {
            let mut piece = String::new();
            piece.append("#");
            piece.append(entry.tags[i].as_str());
            let ghost pre = tpieces.deep_view();
            tpieces.push(piece);
            proof {
                let ts = e.tags;
                assert(ts.subrange(0, i + 1 as int).drop_last() =~= ts.subrange(0, i as int));
                assert(ts.subrange(0, i + 1 as int).last() == ts[i as int]);
                assert(ts[i as int] == entry.tags@[i as int]@);
                assert(piece@ =~= "#"@ + ts[i as int]);
                assert(tpieces.deep_view() =~~= pre.push(piece@));
                assert(tpieces.deep_view() =~~= tag_pieces(ts.subrange(0, i + 1 as int)));
            }
            i = i + 1;
        }
        proof {
            assert(e.tags.subrange(0, e.tags.len() as int) =~= e.tags);
        }
        let joined = join_pieces(&tpieces, " ");
        out.append(joined.as_str());
    }
    out.append("  \n");
    let ghost s10 = s9 + field_line(label_tags(), tags_text(e.tags));
    proof {
        assert(out@ =~= o9 + field_line(label_tags(), tags_text(e.tags)));
    }
    let ghost o10 = out@;
    if !entry.reflections.as_str().is_empty() {
        out.append("**Réflexions**:");
        out.append(" ");
        out.append(entry.reflections.as_str());
        out.append("  \n");
    }
    proof {
        assert(out@ =~= o10 + optional_line(label_reflections(), e.reflections));
        assert(out@ == spec_serialize(e, base_url@));
    }
    out
}

pub(crate) fn clone_string_vec(v: &Vec<String>) -> (r: Vec<String>)
    ensures
        r.deep_view() == v.deep_view(),
{
    let mut r: Vec<String> = Vec::new();
    let mut i: usize = 0;
    while i < v.len()
        invariant
            i <= v.len(),
            r.deep_view() == v.deep_view().subrange(0, i as int),
        decreases v.len() - i,
    {
        let ghost pre = r.deep_view();
        r.push(v[i].clone());
        proof {
            assert(r.deep_view() =~~= pre.push(v@[i as int]@));
            assert(r.deep_view() =~~= v.deep_view().subrange(0, i + 1 as int));
        }
        i = i + 1;
    }
    proof {
        assert(v.deep_view().subrange(0, v@.len() as int) =~= v.deep_view());
    }
    r
}

pub(crate) fn clone_links(v: &Vec<Link>) -> (r: Vec<Link>)
    ensures
        r.deep_view() == v.deep_view(),
{
    let mut r: Vec<Link> = Vec::new();
    let mut i: usize = 0;
    while i < v.len()
        invariant
            i <= v.len(),
            r.deep_view() == v.deep_view().subrange(0, i as int),
        decreases v.len() - i,
    {
        let ghost pre = r.deep_view();
        r.push(Link { text: v[i].text.clone(), url: v[i].url.clone() });
        proof {
            assert(r.deep_view() =~~= pre.push(v@[i as int]@));
            assert(r.deep_view() =~~= v.deep_view().subrange(0, i + 1 as int));
        }
        i = i + 1;
    }
    proof {
        assert(v.deep_view().subrange(0, v@.len() as int) =~= v.deep_view());
    }
    r
}

pub(crate) fn clone_tickets(v: &Vec<JiraTicketRef>) -> (r: Vec<JiraTicketRef>)
    ensures
        r.deep_view() == v.deep_view(),
{
    let mut r: Vec<JiraTicketRef> = Vec::new();
    let mut i: usize = 0;
    while i < v.len()
        invariant
            i <= v.len(),
            r.deep_view() == v.deep_view().subrange(0, i as int),
        decreases v.len() - i,
    {
        let summary: Option<String> = match &v[i].summary {
            Some(s) => Some(s.clone()),
            None => None,
        };
        let ghost pre = r.deep_view();
        r.push(JiraTicketRef { key: v[i].key.clone(), summary });
        proof {
            assert(r.deep_view() =~~= pre.push(v@[i as int]@));
            assert(r.deep_view() =~~= v.deep_view().subrange(0, i + 1 as int));
        }
        i = i + 1;
    }
    proof {
        assert(v.deep_view().subrange(0, v@.len() as int) =~= v.deep_view());
    }
    r
}

/// Writes an unsaved entry as its text block, stamping the given timestamp.
pub fn format_entry_as_markdown(entry: &JournalEntry, timestamp: &str, base_url: &str) -> (r:
    String)
    ensures
        r@ == spec_serialize(journal_entry_model(entry, timestamp@), base_url@),
{
    let parsed = ParsedJournalEntry {
        timestamp: timestamp.to_owned(),
        project: entry.project.clone(),
        description: entry.description.clone(),
        duration: entry.duration.clone(),
        tags: clone_string_vec(&entry.tags),
        time_range: entry.time_range.clone(),
        entry_type: entry.entry_type.clone(),
        results: entry.results.clone(),
        blockers: entry.blockers.clone(),
        links: clone_links(&entry.links),
        reflections: entry.reflections.clone(),
        jira_tickets: clone_tickets(&entry.jira_tickets),
    };
    let r = generate_markdown_entry(&parsed, base_url);
    proof {
        assert(parsed@ == journal_entry_model(entry, timestamp@)) by {
            assert(parsed@.tags =~~= journal_entry_model(entry, timestamp@).tags);
            assert(parsed@.links =~~= journal_entry_model(entry, timestamp@).links);
            assert(parsed@.jira_tickets =~~= journal_entry_model(entry, timestamp@).jira_tickets);
        }
    }
    r
}

} // verus!
