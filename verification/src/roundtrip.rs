//! The round-trip law: parsing a serialized entry gives the entry back.
//! Stated and proved for entries whose text fields keep to the format
//! (single-line, trimmed, free of the markers the grammar assigns meaning
//! to), since the on-disk convention cannot carry anything else faithfully.

use vstd::prelude::*;
use crate::entry::{
    heading_marker, label_blockers, label_description, label_duration, label_entry_type,
    label_links, label_project, label_reflections, label_results, label_tags, label_time_range,
    sentinel_none, EntryModel, LinkModel, TicketRefModel,
};
use crate::parse::{
    default_model, is_field_line, join_cont, parse_section, parse_sections, scan_fields,
    span_end, spec_parse, tags_value, value_after,
};
use crate::serialize::{
    all_link_pieces, field_line, jira_link_text, jira_pieces, join_with, link_pieces,
    links_line, optional_line, plain_link_text, spec_serialize, tag_pieces, tags_text,
};
use crate::text::{
    find_from, first_non_space, first_space, is_space_char, last_non_space_end,
    lemma_find_from_found, lemma_find_from_skip, lemma_first_non_space, lemma_first_non_space_skip,
    lemma_first_space_skip, lemma_last_non_space_end, lemma_last_non_space_ge, match_at,
    remove_all, spec_trim, split_by, split_ws, starts_with,
};

verus! {

/// A field whose text survives the trip: it is its own trim and holds no
/// newline.
pub open spec fn plain_text(s: Seq<char>) -> bool {
    spec_trim(s) == s && (forall|i: int| 0 <= i < s.len() ==> s[i] != '\n')
}

proof fn lemma_trim_id_ends(s: Seq<char>)
    requires
        spec_trim(s) == s,
        s.len() > 0,
    ensures
        !is_space_char(s[0]),
        !is_space_char(s.last()),
{
    let a = first_non_space(s, 0);
    let b = last_non_space_end(s);
    lemma_first_non_space(s, 0);
    lemma_last_non_space_end(s);
    if a < b {
        assert(s.subrange(a, b).len() == s.len());
        assert(a == 0 && b == s.len());
    } else {
        assert(spec_trim(s).len() == 0);
    }
}

/// Trimming strips whitespace padding and nothing else.
proof fn lemma_trim_padded(front: Seq<char>, v: Seq<char>, back: Seq<char>)
    requires
        forall|i: int| 0 <= i < front.len() ==> is_space_char(front[i]),
        forall|i: int| 0 <= i < back.len() ==> is_space_char(back[i]),
    ensures
        spec_trim(front + v + back) == spec_trim(v),
{
    let s = front + v + back;
    let av = first_non_space(v, 0);
    let bv = last_non_space_end(v);
    lemma_first_non_space(v, 0);
    lemma_last_non_space_end(v);
    if av < bv {
        lemma_first_non_space_skip(s, 0, (front.len() + av) as int);
        lemma_last_non_space_ge(s, (front.len() + bv) as int);
        assert(spec_trim(s) == s.subrange((front.len() + av) as int, (front.len() + bv) as int));
        assert(s.subrange((front.len() + av) as int, (front.len() + bv) as int) =~= v.subrange(av, bv));
    } else {
        // v is all whitespace, so everything is
        assert(spec_trim(v).len() == 0) by {
            if av < v.len() {
                assert(!is_space_char(v[av]));
                assert(is_space_char(v[av])) by {
                    assert(av < bv || is_space_char(v[av]) || av >= v.len());
                    if av >= bv {
                        lemma_last_non_space_end(v);
                        assert(forall|j: int| bv <= j < v.len() ==> is_space_char(v[j]));
                    }
                }
            }
        }
        assert(forall|i: int| 0 <= i < s.len() ==> is_space_char(s[i])) by {
            assert(forall|j: int|
                0 <= j < v.len() ==> is_space_char(v[j])) by {
                assert(forall|j: int| av <= j ==> j < v.len() ==> is_space_char(v[j]));
                assert(forall|j: int| 0 <= j < av ==> is_space_char(v[j]));
            }
        }
        lemma_first_non_space_skip(s, 0, s.len() as int);
        assert(spec_trim(s).len() == 0) by {
            lemma_last_non_space_end(s);
        }
        assert(spec_trim(s) =~= spec_trim(v));
    }
}

/// One line of a block: the label, one space, the value, two spaces.
pub open spec fn field_text(label: Seq<char>, value: Seq<char>) -> Seq<char> {
    label + " "@ + value + "  "@
}

/// What trimming a field line leaves.
proof fn lemma_trim_field_text(label: Seq<char>, value: Seq<char>)
    requires
        label.len() > 0,
        !is_space_char(label[0]),
        !is_space_char(label.last()),
        value.len() > 0 ==> !is_space_char(value.last()),
    ensures
        value.len() > 0 ==> spec_trim(field_text(label, value)) == label + " "@ + value,
        value.len() == 0 ==> spec_trim(field_text(label, value)) == label,
{
    let s = field_text(label, value);
    reveal_strlit(" ");
    reveal_strlit("  ");
    assert((" "@).len() == 1 && (" "@)[0] == ' ');
    assert(("  "@).len() == 2 && ("  "@)[0] == ' ' && ("  "@)[1] == ' ');
    lemma_first_non_space_skip(s, 0, 0);
    if value.len() > 0 {
        assert(s[(label.len() + value.len()) as int] == value.last());
        assert forall|j: int| label.len() + 1 + value.len() <= j < s.len() implies is_space_char(
            s[j],
        ) by {
            assert(s[j] == ("  "@)[j - (label.len() + 1 + value.len())]);
        }
        lemma_last_non_space_ge(s, (label.len() + 1 + value.len()) as int);
        assert(spec_trim(s) == s.subrange(0, (label.len() + 1 + value.len()) as int));
        assert(s.subrange(0, (label.len() + 1 + value.len()) as int) =~= label + " "@ + value);
    } else {
        assert(s[(label.len() - 1) as int] == label.last());
        assert forall|j: int| label.len() <= j < s.len() implies is_space_char(s[j]) by {
            if j == label.len() {
                assert(s[j] == (" "@)[0]);
            } else {
                assert(s[j] == ("  "@)[j - (label.len() + 1)]);
            }
        }
        lemma_last_non_space_ge(s, label.len() as int);
        assert(spec_trim(s) == s.subrange(0, label.len() as int));
        assert(s.subrange(0, label.len() as int) =~= label);
    }
}

/// A sequence of lines joined, each terminated by a newline.
pub open spec fn joinl(ls: Seq<Seq<char>>) -> Seq<char>
    decreases ls.len(),
{
    if ls.len() == 0 {
        Seq::empty()
    } else {
        ls[0] + "\n"@ + joinl(ls.drop_first())
    }
}

proof fn lemma_joinl_concat(a: Seq<Seq<char>>, b: Seq<Seq<char>>)
    ensures
        joinl(a + b) == joinl(a) + joinl(b),
    decreases a.len(),
{
    if a.len() == 0 {
        assert(a + b =~= b);
        assert(joinl(a) + joinl(b) =~= joinl(b));
    } else {
        lemma_joinl_concat(a.drop_first(), b);
        assert((a + b).drop_first() =~= a.drop_first() + b);
        assert((a + b)[0] == a[0]);
        assert(joinl(a + b) =~= joinl(a) + joinl(b));
    }
}

pub open spec fn no_newline(s: Seq<char>) -> bool {
    forall|i: int| 0 <= i < s.len() ==> s[i] != '\n'
}

/// Splitting joined lines on the newline recovers the lines, plus the
/// empty piece after the final newline.
proof fn lemma_split_joinl(ls: Seq<Seq<char>>)
    requires
        forall|k: int| 0 <= k < ls.len() ==> no_newline(#[trigger] ls[k]),
    ensures
        split_by(joinl(ls), "\n"@) == ls + seq![Seq::<char>::empty()],
    decreases ls.len(),
{
    reveal_strlit("\n");
    if ls.len() == 0 {
        assert(joinl(ls).len() == 0);
        assert(find_from(joinl(ls), "\n"@, 0) == -1);
        assert(split_by(joinl(ls), "\n"@) =~= ls + seq![Seq::<char>::empty()]);
    } else {
        let s = joinl(ls);
        let l0 = ls[0];
        let rest = joinl(ls.drop_first());
        assert(s == l0 + "\n"@ + rest);
        assert(forall|j: int| 0 <= j < l0.len() ==> s[j] == l0[j]);
        assert(s[l0.len() as int] == '\n');
        assert forall|j: int| 0 <= j < l0.len() implies !match_at(s, "\n"@, j) by {
            if match_at(s, "\n"@, j) {
                assert(s.subrange(j, j + 1)[0] == s[j]);
                assert(s[j] == '\n');
                assert(l0[j] != '\n');
            }
        }
        assert(match_at(s, "\n"@, l0.len() as int)) by {
            assert(s.subrange(l0.len() as int, (l0.len() + 1) as int) =~= "\n"@);
        }
        lemma_find_from_skip(s, "\n"@, 0, l0.len() as int);
        assert(find_from(s, "\n"@, l0.len() as int) == l0.len() as int);
        assert(find_from(s, "\n"@, 0) == l0.len() as int);
        assert(s.subrange(0, l0.len() as int) =~= l0);
        assert(s.subrange((l0.len() + 1) as int, s.len() as int) =~= rest);
        lemma_split_joinl(ls.drop_first());
        assert(split_by(s, "\n"@) == seq![l0] + (ls.drop_first() + seq![Seq::<char>::empty()]));
        assert(seq![l0] + (ls.drop_first() + seq![Seq::<char>::empty()]) =~= ls + seq![
            Seq::<char>::empty(),
        ]);
    }
}


/// Strings with non-space ends are their own trim.
proof fn lemma_trim_id_from_ends(s: Seq<char>)
    requires
        s.len() > 0,
        !is_space_char(s[0]),
        !is_space_char(s.last()),
    ensures
        spec_trim(s) == s,
{
    lemma_first_non_space_skip(s, 0, 0);
    lemma_last_non_space_ge(s, s.len() as int);
    assert(spec_trim(s) == s.subrange(0, s.len() as int));
    assert(s.subrange(0, s.len() as int) =~= s);
}

proof fn lemma_trim_empty()
    ensures
        spec_trim(Seq::<char>::empty()) == Seq::<char>::empty(),
{
    assert(spec_trim(Seq::<char>::empty()) =~= Seq::<char>::empty());
}

/// Front decomposition of `join_with`.
proof fn lemma_join_with_front(ps: Seq<Seq<char>>, sep: Seq<char>)
    requires
        ps.len() >= 2,
    ensures
        join_with(ps, sep) == ps[0] + sep + join_with(ps.drop_first(), sep),
    decreases ps.len(),
{
    if ps.len() == 2 {
        assert(ps.drop_last()[0] == ps[0]);
        assert(ps.drop_last().len() == 1);
        assert(join_with(ps.drop_last(), sep) == ps[0]);
        assert(ps.drop_first().len() == 1);
        assert(ps.drop_first()[0] == ps[1]);
        assert(join_with(ps.drop_first(), sep) == ps[1]);
        assert(ps.last() == ps[1]);
    } else {
        lemma_join_with_front(ps.drop_last(), sep);
        assert(ps.drop_last()[0] == ps[0]);
        assert(ps.drop_first().drop_last() =~= ps.drop_last().drop_first());
        assert(ps.drop_first().len() >= 2);
        assert(join_with(ps.drop_first(), sep) == join_with(ps.drop_first().drop_last(), sep)
            + sep + ps.drop_first().last());
        assert(ps.drop_first().last() == ps.last());
        assert(join_with(ps, sep) == join_with(ps.drop_last(), sep) + sep + ps.last());
        assert(join_with(ps.drop_last(), sep) == ps[0] + sep + join_with(
            ps.drop_last().drop_first(),
            sep,
        ));
        assert(ps[0] + sep + join_with(ps.drop_first(), sep) =~= join_with(ps, sep));
    }
}

/// A token: non-empty, free of whitespace.
pub open spec fn ws_free_token(t: Seq<char>) -> bool {
    t.len() > 0 && (forall|j: int| 0 <= j < t.len() ==> !is_space_char(t[j]))
}

/// Splitting space-joined whitespace-free tokens gives the tokens back.
proof fn lemma_split_ws_joined(ps: Seq<Seq<char>>)
    requires
        forall|k: int| 0 <= k < ps.len() ==> ws_free_token(#[trigger] ps[k]),
    ensures
        split_ws(join_with(ps, " "@)) == ps,
    decreases ps.len(),
{
    reveal_strlit(" ");
    if ps.len() == 0 {
        assert(join_with(ps, " "@).len() == 0);
        assert(split_ws(join_with(ps, " "@)) =~= ps);
    } else if ps.len() == 1 {
        let s = join_with(ps, " "@);
        assert(s == ps[0]);
        assert(!is_space_char(s[0]));
        lemma_first_space_skip(s, 0, s.len() as int);
        assert(first_space(s, 0) == s.len() as int);
        assert(s.subrange(0, s.len() as int) =~= s);
        assert(s.subrange(s.len() as int, s.len() as int) =~= Seq::<char>::empty());
        assert(split_ws(Seq::<char>::empty()) =~= Seq::<Seq<char>>::empty());
        assert(split_ws(s) =~= ps);
    } else {
        lemma_join_with_front(ps, " "@);
        let s = join_with(ps, " "@);
        let p0 = ps[0];
        let rest = join_with(ps.drop_first(), " "@);
        assert(s == p0 + " "@ + rest);
        assert(!is_space_char(s[0])) by {
            assert(s[0] == p0[0]);
        }
        assert(s[p0.len() as int] == ' ');
        assert forall|j: int| 0 <= j < p0.len() implies !is_space_char(s[j]) by {
            assert(s[j] == p0[j]);
        }
        lemma_first_space_skip(s, 0, p0.len() as int);
        assert(first_space(s, 0) == p0.len() as int);
        assert(s.subrange(0, p0.len() as int) =~= p0);
        let tail = s.subrange(p0.len() as int, s.len() as int);
        assert(tail =~= " "@ + rest);
        assert(is_space_char(tail[0]));
        assert(tail.subrange(1, tail.len() as int) =~= rest);
        lemma_split_ws_joined(ps.drop_first());
        assert(split_ws(s) == seq![p0] + split_ws(tail));
        assert(split_ws(tail) == split_ws(rest));
        assert(seq![p0] + ps.drop_first() =~= ps);
    }
}

/// Front decomposition of `tag_pieces`.
proof fn lemma_tag_pieces_front(tags: Seq<Seq<char>>)
    requires
        tags.len() >= 1,
    ensures
        tag_pieces(tags) == seq!["#"@ + tags[0]] + tag_pieces(tags.drop_first()),
    decreases tags.len(),
{
    if tags.len() == 1 {
        assert(tags.drop_last().len() == 0);
        assert(tag_pieces(tags) == tag_pieces(tags.drop_last()).push("#"@ + tags.last()));
        assert(tags.last() == tags[0]);
        assert(tags.drop_first().len() == 0);
        assert(tag_pieces(tags) =~= seq!["#"@ + tags[0]] + tag_pieces(tags.drop_first()));
    } else {
        lemma_tag_pieces_front(tags.drop_last());
        assert(tags.drop_last()[0] == tags[0]);
        assert(tags.drop_first().drop_last() =~= tags.drop_last().drop_first());
        assert(tag_pieces(tags.drop_first()) == tag_pieces(
            tags.drop_first().drop_last(),
        ).push("#"@ + tags.drop_first().last()));
        assert(tags.drop_first().last() == tags.last());
        assert(tag_pieces(tags) == tag_pieces(tags.drop_last()).push("#"@ + tags.last()));
        assert(tag_pieces(tags) =~= seq!["#"@ + tags[0]] + tag_pieces(tags.drop_first()));
    }
}

/// A tag free of '#' and whitespace.
pub open spec fn tag_ok(t: Seq<char>) -> bool {
    t.len() > 0 && (forall|j: int|
        0 <= j < t.len() ==> t[j] != '#' && !is_space_char(t[j]))
}

/// Cleaning the rendered `#tag` pieces gives the tags back.
proof fn lemma_clean_tag_pieces(tags: Seq<Seq<char>>)
    requires
        forall|k: int| 0 <= k < tags.len() ==> tag_ok(#[trigger] tags[k]),
    ensures
        crate::parse::clean_tags(tag_pieces(tags)) == tags,
    decreases tags.len(),
{
    reveal_strlit("#");
    if tags.len() == 0 {
        assert(crate::parse::clean_tags(tag_pieces(tags)) =~= tags);
    } else {
        lemma_tag_pieces_front(tags);
        let pieces = tag_pieces(tags);
        assert(pieces[0] == "#"@ + tags[0]);
        assert(pieces[0][0] == '#');
        assert(pieces[0].len() > 1);
        assert(crate::parse::clean_tag(pieces[0]) =~= tags[0]);
        assert(crate::parse::clean_tag(pieces[0]).len() > 0);
        lemma_clean_tag_pieces(tags.drop_first());
        assert(pieces.drop_first() =~= tag_pieces(tags.drop_first()));
        assert(crate::parse::clean_tags(pieces) == seq![crate::parse::clean_tag(pieces[0])]
            + crate::parse::clean_tags(pieces.drop_first()));
        assert(crate::parse::clean_tags(pieces) =~= tags);
    }
}

/// Properties of the rendered tags value: it starts with '#', ends with a
/// tag character, and parses back to the tags.
proof fn lemma_tags_value_round(tags: Seq<Seq<char>>)
    requires
        tags.len() > 0,
        forall|k: int| 0 <= k < tags.len() ==> tag_ok(#[trigger] tags[k]),
    ensures
        tags_text(tags).len() > 0,
        tags_text(tags)[0] == '#',
        !is_space_char(tags_text(tags).last()),
        spec_trim(tags_text(tags)) == tags_text(tags),
        no_newline(tags_text(tags)),
        tags_text(tags) != sentinel_none(),
        tags_value(tags_text(tags)) == tags,
    decreases tags.len(),
{
    reveal_strlit("#");
    reveal_strlit(" ");
    reveal_strlit("Aucun");
    let pieces = tag_pieces(tags);
    let v = tags_text(tags);
    assert(v == join_with(pieces, " "@));
    lemma_tag_pieces_front(tags);
    assert(pieces.len() == tags.len()) by {
        lemma_tag_pieces_len(tags);
    }
    // every piece is a whitespace-free token
    assert forall|k: int| 0 <= k < pieces.len() implies ws_free_token(#[trigger] pieces[k]) by {
        lemma_tag_piece_at(tags, k);
        assert(pieces[k] == "#"@ + tags[k]);
        assert(pieces[k].len() > 0);
        assert forall|j: int| 0 <= j < pieces[k].len() implies !is_space_char(
            pieces[k][j],
        ) by {
            if j == 0 {
                assert(pieces[k][j] == '#');
            } else {
                assert(pieces[k][j] == tags[k][j - 1]);
            }
        }
    }
    // shape of the joined text
    if pieces.len() == 1 {
        assert(v == pieces[0]);
        assert(v[0] == '#');
        assert(v.last() == tags[0].last());
    } else {
        lemma_join_with_front(pieces, " "@);
        assert(v[0] == pieces[0][0]);
        assert(v[0] == '#');
        lemma_join_with_last(pieces, " "@);
        assert(v.last() == pieces.last().last());
        lemma_tag_piece_at(tags, tags.len() - 1);
        assert(pieces.last() == "#"@ + tags.last());
        assert(pieces.last().last() == tags.last().last());
    }
    assert(!is_space_char(v[0]));
    assert(!is_space_char(v.last()));
    lemma_trim_id_from_ends(v);
    assert(no_newline(v)) by {
        lemma_join_with_no_space_newline(pieces, " "@);
    }
    assert(v != sentinel_none()) by {
        if v == sentinel_none() {
            assert(v[0] == 'A');
        }
    }
    lemma_split_ws_joined(pieces);
    lemma_clean_tag_pieces(tags);
    assert(tags_value(v) == crate::parse::clean_tags(split_ws(v)));
}

proof fn lemma_tag_pieces_len(tags: Seq<Seq<char>>)
    ensures
        tag_pieces(tags).len() == tags.len(),
    decreases tags.len(),
{
    if tags.len() > 0 {
        lemma_tag_pieces_len(tags.drop_last());
    }
}

proof fn lemma_tag_piece_at(tags: Seq<Seq<char>>, k: int)
    requires
        0 <= k < tags.len(),
    ensures
        tag_pieces(tags)[k] == "#"@ + tags[k],
    decreases tags.len(),
{
    lemma_tag_pieces_len(tags);
    if k == tags.len() - 1 {
        assert(tag_pieces(tags) == tag_pieces(tags.drop_last()).push("#"@ + tags.last()));
        lemma_tag_pieces_len(tags.drop_last());
    } else {
        lemma_tag_piece_at(tags.drop_last(), k);
        lemma_tag_pieces_len(tags.drop_last());
        assert(tag_pieces(tags) == tag_pieces(tags.drop_last()).push("#"@ + tags.last()));
        assert(tags.drop_last()[k] == tags[k]);
    }
}

proof fn lemma_join_with_last(ps: Seq<Seq<char>>, sep: Seq<char>)
    requires
        ps.len() >= 1,
        ps.last().len() >= 1,
    ensures
        join_with(ps, sep).len() >= 1,
        join_with(ps, sep).last() == ps.last().last(),
{
    if ps.len() == 1 {
        assert(join_with(ps, sep) == ps[0]);
        assert(ps[0] == ps.last());
    } else {
        let j = join_with(ps.drop_last(), sep) + sep + ps.last();
        assert(join_with(ps, sep) == j);
        assert(j.last() == ps.last().last());
    }
}

/// Joined whitespace-free tokens hold no newline (the separator is a
/// plain space).
proof fn lemma_join_with_no_space_newline(ps: Seq<Seq<char>>, sep: Seq<char>)
    requires
        sep == " "@,
        forall|k: int| 0 <= k < ps.len() ==> ws_free_token(#[trigger] ps[k]),
    ensures
        no_newline(join_with(ps, sep)),
    decreases ps.len(),
{
    reveal_strlit(" ");
    if ps.len() == 0 {
    } else if ps.len() == 1 {
        assert(join_with(ps, sep) == ps[0]);
        assert forall|i: int| 0 <= i < ps[0].len() implies ps[0][i] != '\n' by {
            assert(!is_space_char(ps[0][i]));
        }
    } else {
        let pre = join_with(ps.drop_last(), sep);
        lemma_join_with_no_space_newline(ps.drop_last(), sep);
        let s = pre + sep + ps.last();
        assert(join_with(ps, sep) == s);
        assert forall|i: int| 0 <= i < s.len() implies s[i] != '\n' by {
            if i < pre.len() {
                assert(s[i] == pre[i]);
            } else if i == pre.len() {
                assert(s[i] == ' ');
            } else {
                assert(s[i] == ps.last()[i - pre.len() - 1]);
                assert(!is_space_char(ps.last()[i - pre.len() - 1]));
            }
        }
    }
}

/// Stripping the written unit suffix gives the stored duration text back.
proof fn lemma_duration_round(dur: Seq<char>)
    requires
        spec_trim(dur) == dur,
        find_from(dur, "minutes"@, 0) == -1,
    ensures
        spec_trim(remove_all(" "@ + (dur + " minutes"@), "minutes"@)) == dur,
{
    reveal_strlit(" ");
    reveal_strlit("minutes");
    reveal_strlit(" minutes");
    let s = " "@ + (dur + " minutes"@);
    assert(" minutes"@ =~= " "@ + "minutes"@);
    let q = dur.len() + 2;
    assert(s.len() == dur.len() + 9);
    assert(s[0] == ' ');
    assert(forall|j: int| 0 <= j < dur.len() ==> s[j + 1] == dur[j]);
    assert(s[(dur.len() + 1) as int] == ' ');
    assert(forall|k: int| 0 <= k < 7 ==> s[q as int + k] == ("minutes"@)[k]);
    assert(match_at(s, "minutes"@, q as int)) by {
        assert(s.subrange(q as int, (q + 7) as int) =~= "minutes"@);
    }
    assert forall|j: int| 0 <= j < q implies !match_at(s, "minutes"@, j) by {
        if match_at(s, "minutes"@, j) {
            assert(forall|k: int|
                0 <= k < 7 ==> s.subrange(j, j + 7)[k] == ("minutes"@)[k]);
            assert(forall|k: int| 0 <= k < 7 ==> s[j + k] == ("minutes"@)[k]);
            if j == 0 {
                assert(s[j + 0] == ("minutes"@)[0]);
                assert(s[0] == 'm');
            } else if j + 7 <= dur.len() + 1 {
                // the window sits inside the stored text: a forbidden occurrence
                assert(match_at(dur, "minutes"@, j - 1)) by {
                    assert(dur.subrange(j - 1, j + 6) =~= "minutes"@);
                }
                crate::text::lemma_find_from_none(dur, "minutes"@, 0, j - 1);
            } else {
                // the window covers the space before the unit
                let k: int = dur.len() + 1 - j;
                assert(0 <= k < 7);
                assert(s[j + k] == ("minutes"@)[k]);
                assert(s[j + k] == ' ');
                assert(("minutes"@)[k] != ' ');
            }
        }
    }
    crate::text::lemma_find_from_skip(s, "minutes"@, 0, q as int);
    assert(find_from(s, "minutes"@, 0) == q as int);
    let suffix = s.subrange((q + 7) as int, s.len() as int);
    assert(suffix.len() == 0);
    assert(find_from(suffix, "minutes"@, 0) == -1);
    assert(remove_all(suffix, "minutes"@) == suffix);
    assert(remove_all(s, "minutes"@) == s.subrange(0, q as int) + remove_all(suffix, "minutes"@));
    assert(s.subrange(0, q as int) + remove_all(suffix, "minutes"@) =~= " "@ + dur + " "@);
    lemma_trim_padded(" "@, dur, " "@);
}


/// The body lines of a serialized entry (without the trailing newlines),
/// for an entry that carries no links or ticket references.
pub open spec fn opt_line_seq(label: Seq<char>, v: Seq<char>) -> Seq<Seq<char>> {
    if v.len() > 0 {
        seq![field_text(label, v)]
    } else {
        Seq::empty()
    }
}

pub open spec fn links_value_text(e: EntryModel, base: Seq<char>) -> Seq<char> {
    join_with(all_link_pieces(e, base), ", "@)
}

pub open spec fn links_line_seq(e: EntryModel, base: Seq<char>) -> Seq<Seq<char>> {
    if all_link_pieces(e, base).len() > 0 {
        seq![field_text(label_links(), links_value_text(e, base))]
    } else {
        Seq::empty()
    }
}

pub open spec fn body_lines(e: EntryModel, base: Seq<char>) -> Seq<Seq<char>> {
    seq![field_text(label_project(), e.project)] + opt_line_seq(label_time_range(), e.time_range)
        + seq![field_text(label_entry_type(), e.entry_type)] + seq![
        field_text(label_description(), e.description),
    ] + seq![field_text(label_duration(), e.duration + " minutes"@)] + opt_line_seq(
        label_results(),
        e.results,
    ) + opt_line_seq(label_blockers(), e.blockers) + links_line_seq(e, base) + seq![
        field_text(label_tags(), tags_text(e.tags)),
    ] + opt_line_seq(label_reflections(), e.reflections)
}

proof fn lemma_joinl_single(label: Seq<char>, v: Seq<char>)
    ensures
        joinl(seq![field_text(label, v)]) == field_line(label, v),
{
    reveal_strlit("  \n");
    reveal_strlit("  ");
    reveal_strlit("\n");
    let l = seq![field_text(label, v)];
    assert(l.drop_first() =~= Seq::<Seq<char>>::empty());
    assert(joinl(l.drop_first()) =~= Seq::<char>::empty());
    assert(joinl(l) =~= field_line(label, v));
}

proof fn lemma_joinl_opt(label: Seq<char>, v: Seq<char>)
    ensures
        joinl(opt_line_seq(label, v)) == optional_line(label, v),
{
    if v.len() > 0 {
        lemma_joinl_single(label, v);
    } else {
        assert(joinl(opt_line_seq(label, v)) =~= optional_line(label, v));
    }
}

/// `joinl` of the body lines, spelled out.
#[verifier::rlimit(100)]
proof fn lemma_body_joinl(e: EntryModel, base: Seq<char>)
    ensures
        joinl(body_lines(e, base)) == field_line(label_project(), e.project) + optional_line(
            label_time_range(),
            e.time_range,
        ) + field_line(label_entry_type(), e.entry_type) + field_line(
            label_description(),
            e.description,
        ) + field_line(label_duration(), e.duration + " minutes"@) + optional_line(
            label_results(),
            e.results,
        ) + optional_line(label_blockers(), e.blockers) + links_line(e, base) + field_line(
            label_tags(),
            tags_text(e.tags),
        ) + optional_line(label_reflections(), e.reflections),
{
    let l1 = seq![field_text(label_project(), e.project)];
    let l2 = opt_line_seq(label_time_range(), e.time_range);
    let l3 = seq![field_text(label_entry_type(), e.entry_type)];
    let l4 = seq![field_text(label_description(), e.description)];
    let l5 = seq![field_text(label_duration(), e.duration + " minutes"@)];
    let l6 = opt_line_seq(label_results(), e.results);
    let l7 = opt_line_seq(label_blockers(), e.blockers);
    let lk = links_line_seq(e, base);
    let l8 = seq![field_text(label_tags(), tags_text(e.tags))];
    let l9 = opt_line_seq(label_reflections(), e.reflections);
    let fl1 = field_line(label_project(), e.project);
    let ol2 = optional_line(label_time_range(), e.time_range);
    let fl3 = field_line(label_entry_type(), e.entry_type);
    let fl4 = field_line(label_description(), e.description);
    let fl5 = field_line(label_duration(), e.duration + " minutes"@);
    let ol6 = optional_line(label_results(), e.results);
    let ol7 = optional_line(label_blockers(), e.blockers);
    let olk = links_line(e, base);
    let fl8 = field_line(label_tags(), tags_text(e.tags));
    let ol9 = optional_line(label_reflections(), e.reflections);
    lemma_joinl_single(label_project(), e.project);
    lemma_joinl_opt(label_time_range(), e.time_range);
    lemma_joinl_single(label_entry_type(), e.entry_type);
    lemma_joinl_single(label_description(), e.description);
    lemma_joinl_single(label_duration(), e.duration + " minutes"@);
    lemma_joinl_opt(label_results(), e.results);
    lemma_joinl_opt(label_blockers(), e.blockers);
    assert(joinl(lk) == olk) by {
        if all_link_pieces(e, base).len() > 0 {
            lemma_joinl_single(label_links(), links_value_text(e, base));
        } else {
            assert(joinl(lk) =~= olk);
        }
    }
    lemma_joinl_single(label_tags(), tags_text(e.tags));
    lemma_joinl_opt(label_reflections(), e.reflections);
    let c8 = l8 + l9;
    lemma_joinl_concat(l8, l9);
    assert(joinl(c8) == fl8 + ol9);
    let ck = lk + c8;
    lemma_joinl_concat(lk, c8);
    assert(joinl(ck) == olk + (fl8 + ol9));
    let c7 = l7 + ck;
    lemma_joinl_concat(l7, ck);
    assert(joinl(c7) == ol7 + (olk + (fl8 + ol9)));
    let c6 = l6 + c7;
    lemma_joinl_concat(l6, c7);
    assert(joinl(c6) == ol6 + (ol7 + (olk + (fl8 + ol9))));
    let c5 = l5 + c6;
    lemma_joinl_concat(l5, c6);
    assert(joinl(c5) == fl5 + (ol6 + (ol7 + (olk + (fl8 + ol9)))));
    let c4 = l4 + c5;
    lemma_joinl_concat(l4, c5);
    assert(joinl(c4) == fl4 + (fl5 + (ol6 + (ol7 + (olk + (fl8 + ol9))))));
    let c3 = l3 + c4;
    lemma_joinl_concat(l3, c4);
    assert(joinl(c3) == fl3 + (fl4 + (fl5 + (ol6 + (ol7 + (olk + (fl8 + ol9)))))));
    let c2 = l2 + c3;
    lemma_joinl_concat(l2, c3);
    assert(joinl(c2) == ol2 + (fl3 + (fl4 + (fl5 + (ol6 + (ol7 + (olk + (fl8 + ol9))))))));
    let c1 = l1 + c2;
    lemma_joinl_concat(l1, c2);
    assert(joinl(c1) == fl1 + (ol2 + (fl3 + (fl4 + (fl5 + (ol6 + (ol7 + (olk + (fl8 + ol9)))))))));
    lemma_assoc10(l1, l2, l3, l4, l5, l6, l7, lk, l8, l9);
    assert(body_lines(e, base) == c1);
    lemma_assoc10(fl1, ol2, fl3, fl4, fl5, ol6, ol7, olk, fl8, ol9);
}

/// A linkless entry serializes to its heading plus its body lines, each
/// newline-terminated.
proof fn lemma_serialize_lines(e: EntryModel, base: Seq<char>)
    ensures
        spec_serialize(e, base) == heading_marker() + joinl(
            seq![e.timestamp] + body_lines(e, base),
        ),
{
    let b = body_lines(e, base);
    let all = seq![e.timestamp] + b;
    assert(all.drop_first() =~= b);
    assert(all[0] == e.timestamp);
    assert(joinl(all) == e.timestamp + "\n"@ + joinl(b));
    lemma_body_joinl(e, base);
    assert(spec_serialize(e, base) =~= heading_marker() + joinl(all));
}

/// An entry whose text keeps to the format: single-line trimmed fields, a
/// duration free of the unit word, well-formed tags, no links or ticket
/// references, and no stray heading marker in the rendered block.
pub open spec fn round_trip_ready(e: EntryModel, base: Seq<char>) -> bool {
    &&& fields_ready(e)
    &&& base_ok(base)
    &&& forall|i: int| 1 <= i ==> !match_at(spec_serialize(e, base), heading_marker(), i)
}

proof fn lemma_not_starts(t: Seq<char>, y: Seq<char>, d: int)
    requires
        0 <= d < y.len(),
        d < t.len(),
        t[d] != y[d],
    ensures
        !starts_with(t, y),
{
    if starts_with(t, y) {
        assert(t.subrange(0, y.len() as int)[d] == t[d]);
    }
}

/// Everything the scan needs of one rendered field line: its trim, which
/// label it starts (and that it starts no other), and its value.
proof fn lemma_field_line_facts(label: Seq<char>, value: Seq<char>)
    requires
        label.len() >= 5,
        !is_space_char(label[0]),
        !is_space_char(label.last()),
        value.len() > 0 ==> !is_space_char(value.last()),
    ensures
        starts_with(spec_trim(field_text(label, value)), label),
        value.len() > 0 ==> spec_trim(field_text(label, value)) == label + " "@ + value,
        value.len() == 0 ==> spec_trim(field_text(label, value)) == label,
        spec_trim(value) == value ==> value_after(spec_trim(field_text(label, value)), label)
            == value,
        spec_trim(field_text(label, value))[2] == label[2],
        spec_trim(field_text(label, value))[3] == label[3],
        spec_trim(field_text(label, value))[4] == label[4],
        spec_trim(field_text(label, value)).len() >= 5,
{
    reveal_strlit(" ");
    lemma_trim_field_text(label, value);
    let t = spec_trim(field_text(label, value));
    if value.len() > 0 {
        assert(t == label + " "@ + value);
        assert(t.subrange(0, label.len() as int) =~= label);
        assert(t.skip(label.len() as int) =~= " "@ + value + Seq::<char>::empty());
        lemma_trim_padded(" "@, value, Seq::<char>::empty());
        assert(value_after(t, label) == spec_trim(value));
    } else {
        assert(t == label);
        assert(t.subrange(0, label.len() as int) =~= label);
        assert(t.skip(label.len() as int) =~= Seq::<char>::empty());
        lemma_trim_empty();
        assert(value_after(t, label) =~= value);
    }
}

proof fn lemma_plain_ends(v: Seq<char>)
    requires
        plain_text(v),
    ensures
        v.len() > 0 ==> !is_space_char(v[0]) && !is_space_char(v.last()),
{
    if v.len() > 0 {
        lemma_trim_id_ends(v);
    }
}

/// Regrouping a ten-way concatenation.
proof fn lemma_assoc10<A>(
    a: Seq<A>,
    b: Seq<A>,
    c: Seq<A>,
    d: Seq<A>,
    f: Seq<A>,
    g: Seq<A>,
    h: Seq<A>,
    i: Seq<A>,
    j: Seq<A>,
    k: Seq<A>,
)
    ensures
        a + (b + (c + (d + (f + (g + (h + (i + (j + k)))))))) == a + b + c + d + f + g + h + i
            + j + k,
{
    assert(a + (b + (c + (d + (f + (g + (h + (i + (j + k)))))))) =~= a + b + c + d + f + g + h
        + i + j + k);
}

// Positions of the lines of a rendered block (0 is the timestamp).
pub open spec fn b_tr(e: EntryModel) -> int {
    if e.time_range.len() > 0 {
        1int
    } else {
        0int
    }
}

pub open spec fn b_re(e: EntryModel) -> int {
    if e.results.len() > 0 {
        1int
    } else {
        0int
    }
}

pub open spec fn b_bl(e: EntryModel) -> int {
    if e.blockers.len() > 0 {
        1int
    } else {
        0int
    }
}

pub open spec fn b_rf(e: EntryModel) -> int {
    if e.reflections.len() > 0 {
        1int
    } else {
        0int
    }
}

pub open spec fn p_ty(e: EntryModel) -> int {
    2 + b_tr(e)
}

pub open spec fn p_de(e: EntryModel) -> int {
    3 + b_tr(e)
}

pub open spec fn p_du(e: EntryModel) -> int {
    4 + b_tr(e)
}

pub open spec fn b_lk(e: EntryModel, base: Seq<char>) -> int {
    if all_link_pieces(e, base).len() > 0 {
        1int
    } else {
        0int
    }
}

pub open spec fn p_lk(e: EntryModel) -> int {
    5 + b_tr(e) + b_re(e) + b_bl(e)
}

pub open spec fn p_tg(e: EntryModel, base: Seq<char>) -> int {
    5 + b_tr(e) + b_re(e) + b_bl(e) + b_lk(e, base)
}

pub open spec fn p_nl(e: EntryModel, base: Seq<char>) -> int {
    6 + b_tr(e) + b_re(e) + b_bl(e) + b_lk(e, base) + b_rf(e)
}

/// The field conditions of `round_trip_ready` that concern the entry
/// alone.
pub open spec fn fields_ready(e: EntryModel) -> bool {
    &&& plain_text(e.timestamp) && e.timestamp.len() > 0
    &&& plain_text(e.project)
    &&& plain_text(e.description)
    &&& plain_text(e.duration) && find_from(e.duration, "minutes"@, 0) == -1
    &&& plain_text(e.time_range)
    &&& plain_text(e.entry_type)
    &&& plain_text(e.results)
    &&& plain_text(e.blockers)
    &&& plain_text(e.reflections)
    &&& forall|i: int| 0 <= i < e.tags.len() ==> tag_ok(#[trigger] e.tags[i])
    &&& forall|i: int| 0 <= i < e.links.len() ==> link_ok(#[trigger] e.links[i])
    &&& forall|i: int| 0 <= i < e.jira_tickets.len() ==> ticket_ok(#[trigger] e.jira_tickets[i])
}

/// Walking the scanner over the rendered lines rebuilds the entry.
#[verifier::rlimit(100)]
proof fn lemma_scan_block(lines: Seq<Seq<char>>, e: EntryModel, base: Seq<char>)
    requires
        fields_ready(e),
        base_ok(base),
        lines.len() == p_nl(e, base) + 1,
        lines[1] == field_text(label_project(), e.project),
        e.time_range.len() > 0 ==> lines[2] == field_text(label_time_range(), e.time_range),
        lines[p_ty(e)] == field_text(label_entry_type(), e.entry_type),
        lines[p_de(e)] == field_text(label_description(), e.description),
        lines[p_du(e)] == field_text(label_duration(), e.duration + " minutes"@),
        e.results.len() > 0 ==> lines[p_du(e) + 1] == field_text(label_results(), e.results),
        e.blockers.len() > 0 ==> lines[p_du(e) + 1 + b_re(e)] == field_text(
            label_blockers(),
            e.blockers,
        ),
        all_link_pieces(e, base).len() > 0 ==> lines[p_lk(e)] == field_text(
            label_links(),
            links_value_text(e, base),
        ),
        lines[p_tg(e, base)] == field_text(label_tags(), tags_text(e.tags)),
        e.reflections.len() > 0 ==> lines[p_tg(e, base) + 1] == field_text(
            label_reflections(),
            e.reflections,
        ),
        lines[p_nl(e, base)] == Seq::<char>::empty(),
    ensures
        scan_fields(lines, 1, default_model(e.timestamp)) == e,
{
    reveal_strlit("**Projet**:");
    reveal_strlit("**Description**:");
    reveal_strlit("**Durée**:");
    reveal_strlit("**Tags**:");
    reveal_strlit("**Plage horaire**:");
    reveal_strlit("**Type d'activité**:");
    reveal_strlit("**Résultats**:");
    reveal_strlit("**Blocages**:");
    reveal_strlit("**Réflexions**:");
    reveal_strlit("**Liens**:");
    reveal_strlit(" minutes");
    reveal_strlit("minutes");
    reveal_strlit(" ");
    reveal_strlit("Aucun");
    let m0 = default_model(e.timestamp);
    lemma_plain_ends(e.project);
    lemma_plain_ends(e.time_range);
    lemma_plain_ends(e.entry_type);
    lemma_plain_ends(e.description);
    lemma_plain_ends(e.results);
    lemma_plain_ends(e.blockers);
    lemma_plain_ends(e.reflections);
    lemma_plain_ends(e.duration);
    assert((e.duration + " minutes"@).last() == (" minutes"@).last());
    assert(!is_space_char((e.duration + " minutes"@).last()));
    if e.tags.len() == 0 {
        assert(tags_text(e.tags) == sentinel_none());
        assert(sentinel_none().len() > 0);
        assert(!is_space_char(sentinel_none().last()));
        lemma_trim_id_from_ends(sentinel_none());
    } else {
        lemma_tags_value_round(e.tags);
    }

    // project line
    lemma_field_line_facts(label_project(), e.project);
    let t1 = spec_trim(lines[1]);
    let m1 = EntryModel { project: e.project, ..m0 };
    assert(scan_fields(lines, 1, m0) == scan_fields(lines, 2, m1));

    // time range line, when present
    let m2 = EntryModel { time_range: e.time_range, ..m1 };
    if e.time_range.len() > 0 {
        lemma_field_line_facts(label_time_range(), e.time_range);
        let t = spec_trim(lines[2]);
        lemma_not_starts(t, label_project(), 3);
        lemma_not_starts(t, label_description(), 2);
        lemma_not_starts(t, label_duration(), 2);
        lemma_not_starts(t, label_tags(), 2);
        assert(scan_fields(lines, 2, m1) == scan_fields(lines, p_ty(e), m2));
    } else {
        assert(m2 =~~= m1);
    }

    // activity type line
    lemma_field_line_facts(label_entry_type(), e.entry_type);
    let tty = spec_trim(lines[p_ty(e)]);
    lemma_not_starts(tty, label_project(), 2);
    lemma_not_starts(tty, label_description(), 2);
    lemma_not_starts(tty, label_duration(), 2);
    lemma_not_starts(tty, label_tags(), 3);
    lemma_not_starts(tty, label_time_range(), 2);
    let m3 = EntryModel { entry_type: e.entry_type, ..m2 };
    assert(scan_fields(lines, p_ty(e), m2) == scan_fields(lines, p_de(e), m3));

    // description line (multi-line field; the duration line ends its span)
    lemma_field_line_facts(label_description(), e.description);
    let tde = spec_trim(lines[p_de(e)]);
    lemma_not_starts(tde, label_project(), 2);
    lemma_field_line_facts(label_duration(), e.duration + " minutes"@);
    let tdu = spec_trim(lines[p_du(e)]);
    assert(is_field_line(lines[p_du(e)]));
    assert(span_end(lines, p_de(e) + 1) == p_de(e) + 1);
    assert(join_cont(e.description, lines, p_de(e) + 1, p_de(e) + 1) == e.description);
    let m4 = EntryModel { description: e.description, ..m3 };
    assert(scan_fields(lines, p_de(e), m3) == scan_fields(lines, p_du(e), m4));

    // duration line
    lemma_not_starts(tdu, label_project(), 2);
    lemma_not_starts(tdu, label_description(), 3);
    assert((e.duration + " minutes"@).len() > 0);
    assert(tdu == label_duration() + " "@ + (e.duration + " minutes"@));
    assert(tdu.skip(label_duration().len() as int) =~= " "@ + (e.duration + " minutes"@));
    lemma_duration_round(e.duration);
    let m5 = EntryModel { duration: e.duration, ..m4 };
    assert(scan_fields(lines, p_du(e), m4) == scan_fields(lines, p_du(e) + 1, m5));

    // results line, when present (its span ends at the next field line)
    let m6 = EntryModel { results: e.results, ..m5 };
    if e.results.len() > 0 {
        lemma_field_line_facts(label_results(), e.results);
        let t = spec_trim(lines[p_du(e) + 1]);
        lemma_not_starts(t, label_project(), 2);
        lemma_not_starts(t, label_description(), 2);
        lemma_not_starts(t, label_duration(), 2);
        lemma_not_starts(t, label_tags(), 2);
        lemma_not_starts(t, label_time_range(), 2);
        lemma_not_starts(t, label_entry_type(), 2);
        if e.blockers.len() > 0 {
            lemma_field_line_facts(label_blockers(), e.blockers);
            assert(is_field_line(lines[p_du(e) + 2]));
        } else if all_link_pieces(e, base).len() > 0 {
            lemma_links_value_text(e, base);
            lemma_field_line_facts(label_links(), links_value_text(e, base));
            assert(lines[p_du(e) + 2] == field_text(label_links(), links_value_text(e, base)));
            assert(is_field_line(lines[p_du(e) + 2]));
        } else {
            lemma_field_line_facts(label_tags(), tags_text(e.tags));
            assert(lines[p_du(e) + 2] == field_text(label_tags(), tags_text(e.tags)));
            assert(is_field_line(lines[p_du(e) + 2]));
        }
        assert(span_end(lines, p_du(e) + 2) == p_du(e) + 2);
        assert(join_cont(e.results, lines, p_du(e) + 2, p_du(e) + 2) == e.results);
        assert(scan_fields(lines, p_du(e) + 1, m5) == scan_fields(lines, p_du(e) + 2, m6));
    } else {
        assert(m6 =~~= m5);
    }

    // blockers line, when present
    let m7 = EntryModel { blockers: e.blockers, ..m6 };
    if e.blockers.len() > 0 {
        lemma_field_line_facts(label_blockers(), e.blockers);
        let t = spec_trim(lines[p_du(e) + 1 + b_re(e)]);
        lemma_not_starts(t, label_project(), 2);
        lemma_not_starts(t, label_description(), 2);
        lemma_not_starts(t, label_duration(), 2);
        lemma_not_starts(t, label_tags(), 2);
        lemma_not_starts(t, label_time_range(), 2);
        lemma_not_starts(t, label_entry_type(), 2);
        lemma_not_starts(t, label_results(), 2);
        if all_link_pieces(e, base).len() > 0 {
            lemma_links_value_text(e, base);
            lemma_field_line_facts(label_links(), links_value_text(e, base));
            assert(lines[p_lk(e)] == field_text(label_links(), links_value_text(e, base)));
            assert(is_field_line(lines[p_lk(e)]));
        } else {
            lemma_field_line_facts(label_tags(), tags_text(e.tags));
            assert(lines[p_lk(e)] == field_text(label_tags(), tags_text(e.tags)));
            assert(is_field_line(lines[p_lk(e)]));
        }
        assert(span_end(lines, p_du(e) + 2 + b_re(e)) == p_du(e) + 2 + b_re(e));
        assert(join_cont(e.blockers, lines, p_du(e) + 2 + b_re(e), p_du(e) + 2 + b_re(e))
            == e.blockers);
        assert(scan_fields(lines, p_du(e) + 1 + b_re(e), m6) == scan_fields(lines, p_lk(e), m7));
    } else {
        assert(m7 =~~= m6);
    }

    // links line, when present
    let m7b = EntryModel { links: e.links, jira_tickets: e.jira_tickets, ..m7 };
    if all_link_pieces(e, base).len() > 0 {
        lemma_links_value_text(e, base);
        let v = links_value_text(e, base);
        lemma_field_line_facts(label_links(), v);
        let t = spec_trim(lines[p_lk(e)]);
        lemma_not_starts(t, label_project(), 2);
        lemma_not_starts(t, label_description(), 2);
        lemma_not_starts(t, label_duration(), 2);
        lemma_not_starts(t, label_tags(), 2);
        lemma_not_starts(t, label_time_range(), 2);
        lemma_not_starts(t, label_entry_type(), 2);
        lemma_not_starts(t, label_results(), 2);
        lemma_not_starts(t, label_blockers(), 2);
        lemma_not_starts(t, label_reflections(), 2);
        assert(value_after(t, label_links()) == v);
        assert(crate::parse::links_value(v).0 == e.links && crate::parse::links_value(v).1
            == e.jira_tickets) by {
            lemma_links_value_round(e, base);
        }
        assert(scan_fields(lines, p_lk(e), m7) == scan_fields(lines, p_tg(e, base), m7b));
    } else {
        assert(e.links.len() == 0 && e.jira_tickets.len() == 0) by {
            lemma_jira_pieces_map(e.jira_tickets, base);
            lemma_link_pieces_map(e.links);
        }
        assert(m7b.links =~= m7.links);
        assert(m7b.jira_tickets =~= m7.jira_tickets);
        assert(m7b =~~= m7);
    }

    // tags line
    lemma_field_line_facts(label_tags(), tags_text(e.tags));
    let ttg = spec_trim(lines[p_tg(e, base)]);
    lemma_not_starts(ttg, label_project(), 2);
    lemma_not_starts(ttg, label_description(), 2);
    lemma_not_starts(ttg, label_duration(), 2);
    if e.tags.len() == 0 {
        assert(tags_text(e.tags) == sentinel_none());
        assert(value_after(ttg, label_tags()) == sentinel_none());
        assert(tags_value(sentinel_none()) =~= e.tags);
    } else {
        lemma_tags_value_round(e.tags);
        assert(value_after(ttg, label_tags()) == tags_text(e.tags));
        assert(tags_value(tags_text(e.tags)) == e.tags);
    }
    let m8 = EntryModel { tags: e.tags, ..m7b };
    assert(scan_fields(lines, p_tg(e, base), m7b) == scan_fields(lines, p_tg(e, base) + 1, m8));

    // reflections line, when present (the blank final piece ends its span)
    let m9 = EntryModel { reflections: e.reflections, ..m8 };
    if e.reflections.len() > 0 {
        lemma_field_line_facts(label_reflections(), e.reflections);
        let t = spec_trim(lines[p_tg(e, base) + 1]);
        lemma_not_starts(t, label_project(), 2);
        lemma_not_starts(t, label_description(), 2);
        lemma_not_starts(t, label_duration(), 2);
        lemma_not_starts(t, label_tags(), 2);
        lemma_not_starts(t, label_time_range(), 2);
        lemma_not_starts(t, label_entry_type(), 2);
        lemma_not_starts(t, label_results(), 4);
        lemma_not_starts(t, label_blockers(), 2);
        lemma_blank_line_facts();
        assert(!is_field_line(lines[p_nl(e, base)])) by {
            lemma_trim_empty();
            assert(spec_trim(lines[p_nl(e, base)]).len() == 0);
        }
        assert(span_end(lines, p_nl(e, base)) == lines.len() as int) by {
            assert(span_end(lines, p_nl(e, base) + 1) == lines.len() as int);
        }
        assert(join_cont(e.reflections, lines, p_nl(e, base), lines.len() as int)
            == e.reflections) by {
            lemma_trim_empty();
            assert(spec_trim(lines[p_nl(e, base)]).len() == 0);
            assert(join_cont(e.reflections, lines, p_nl(e, base) + 1, lines.len() as int)
                == e.reflections);
        }
        assert(scan_fields(lines, p_tg(e, base) + 1, m8) == scan_fields(
            lines,
            lines.len() as int,
            m9,
        ));
        assert(scan_fields(lines, lines.len() as int, m9) == m9);
    } else {
        assert(m9 =~~= m8);
        // the blank final line takes no branch
        lemma_blank_line_facts();
        lemma_trim_empty();
        assert(spec_trim(lines[p_nl(e, base)]).len() == 0);
        assert(scan_fields(lines, p_nl(e, base), m8) == scan_fields(lines, p_nl(e, base) + 1, m8));
        assert(scan_fields(lines, p_nl(e, base) + 1, m8) == m8);
    }
    // the result carries every field of `e`
    assert(m9 =~~= e);
}


/// The scan takes no branch on a blank line.
proof fn lemma_blank_line_facts()
    ensures
        !is_field_line(Seq::<char>::empty()),
        spec_trim(Seq::<char>::empty()) == Seq::<char>::empty(),
        forall|e0: EntryModel, lines: Seq<Seq<char>>, i: int|
            0 <= i < lines.len() && lines[i] =~= Seq::<char>::empty() && i + 1 == lines.len()
                ==> #[trigger] scan_fields(lines, i, e0) == e0,
{
    reveal_strlit("**Projet**:");
    reveal_strlit("**Description**:");
    reveal_strlit("**Durée**:");
    reveal_strlit("**Tags**:");
    reveal_strlit("**Plage horaire**:");
    reveal_strlit("**Type d'activité**:");
    reveal_strlit("**Résultats**:");
    reveal_strlit("**Blocages**:");
    reveal_strlit("**Réflexions**:");
    reveal_strlit("**Liens**:");
    lemma_trim_empty();
    assert forall|e0: EntryModel, lines: Seq<Seq<char>>, i: int|
        0 <= i < lines.len() && lines[i] =~= Seq::<char>::empty() && i + 1 == lines.len()
            implies #[trigger] scan_fields(lines, i, e0) == e0 by {
        assert(spec_trim(lines[i]) =~= Seq::<char>::empty());
        assert(scan_fields(lines, i + 1, e0) == e0);
    }
}

proof fn lemma_no_newline_field(label: Seq<char>, v: Seq<char>)
    requires
        no_newline(label),
        no_newline(v),
    ensures
        no_newline(field_text(label, v)),
{
    reveal_strlit(" ");
    reveal_strlit("  ");
    let s = field_text(label, v);
    assert forall|i: int| 0 <= i < s.len() implies s[i] != '\n' by {
        if i < label.len() {
            assert(s[i] == label[i]);
        } else if i == label.len() {
            assert(s[i] == ' ');
        } else if i < label.len() + 1 + v.len() {
            assert(s[i] == v[i - label.len() - 1]);
        } else {
            assert(s[i] == ("  "@)[i - (label.len() + 1 + v.len())]);
        }
    }
}

/// Parsing a rendered block gives the entry back: the round trip of the
/// serializer and the parser, for entries that keep to the format.
#[verifier::rlimit(100)]
pub proof fn lemma_serialize_parse_round_trip(e: EntryModel, base: Seq<char>)
    requires
        round_trip_ready(e, base),
    ensures
        spec_parse(spec_serialize(e, base)) == seq![e],
{
    reveal_strlit("## ");
    reveal_strlit("\n");
    reveal_strlit(" ");
    reveal_strlit("  ");
    reveal_strlit("Aucun");
    reveal_strlit(" minutes");
    reveal_strlit("**Projet**:");
    reveal_strlit("**Description**:");
    reveal_strlit("**Durée**:");
    reveal_strlit("**Tags**:");
    reveal_strlit("**Plage horaire**:");
    reveal_strlit("**Type d'activité**:");
    reveal_strlit("**Résultats**:");
    reveal_strlit("**Blocages**:");
    reveal_strlit("**Réflexions**:");
    reveal_strlit("**Liens**:");
    lemma_serialize_lines(e, base);
    let b = body_lines(e, base);
    let all = seq![e.timestamp] + b;
    let r = joinl(all);
    let s = spec_serialize(e, base);
    assert(s == heading_marker() + r);

    // where each line stands
    let l1 = seq![field_text(label_project(), e.project)];
    let l2 = opt_line_seq(label_time_range(), e.time_range);
    let l3 = seq![field_text(label_entry_type(), e.entry_type)];
    let l4 = seq![field_text(label_description(), e.description)];
    let l5 = seq![field_text(label_duration(), e.duration + " minutes"@)];
    let l6 = opt_line_seq(label_results(), e.results);
    let l7 = opt_line_seq(label_blockers(), e.blockers);
    let lk = links_line_seq(e, base);
    let l8 = seq![field_text(label_tags(), tags_text(e.tags))];
    let l9 = opt_line_seq(label_reflections(), e.reflections);
    assert(l2.len() == b_tr(e) && l6.len() == b_re(e) && l7.len() == b_bl(e) && lk.len() == b_lk(
        e,
        base,
    ) && l9.len() == b_rf(e));
    assert(b.len() == 5 + b_tr(e) + b_re(e) + b_bl(e) + b_lk(e, base) + b_rf(e));
    assert(all.len() == p_nl(e, base));
    assert(b[0] == field_text(label_project(), e.project));
    if e.time_range.len() > 0 {
        assert(b[1] == field_text(label_time_range(), e.time_range));
    }
    assert(b[p_ty(e) - 1] == field_text(label_entry_type(), e.entry_type));
    assert(b[p_de(e) - 1] == field_text(label_description(), e.description));
    assert(b[p_du(e) - 1] == field_text(label_duration(), e.duration + " minutes"@));
    if e.results.len() > 0 {
        assert(b[p_du(e)] == field_text(label_results(), e.results));
    }
    if e.blockers.len() > 0 {
        assert(b[p_du(e) + b_re(e)] == field_text(label_blockers(), e.blockers));
    }
    if all_link_pieces(e, base).len() > 0 {
        assert(b[p_lk(e) - 1] == field_text(label_links(), links_value_text(e, base)));
    }
    assert(b[p_tg(e, base) - 1] == field_text(label_tags(), tags_text(e.tags)));
    if e.reflections.len() > 0 {
        assert(b[p_tg(e, base)] == field_text(label_reflections(), e.reflections));
    }

    // no line holds a newline
    assert(no_newline(label_project()) && no_newline(label_description()) && no_newline(
        label_duration(),
    ) && no_newline(label_tags()) && no_newline(label_time_range()) && no_newline(
        label_entry_type(),
    ) && no_newline(label_results()) && no_newline(label_blockers()) && no_newline(
        label_reflections(),
    ) && no_newline(label_links()));
    lemma_no_newline_field(label_project(), e.project);
    if e.time_range.len() > 0 {
        lemma_no_newline_field(label_time_range(), e.time_range);
    }
    lemma_no_newline_field(label_entry_type(), e.entry_type);
    lemma_no_newline_field(label_description(), e.description);
    assert(no_newline(e.duration + " minutes"@)) by {
        assert forall|i: int| 0 <= i < (e.duration + " minutes"@).len() implies (e.duration
            + " minutes"@)[i] != '\n' by {
            if i < e.duration.len() {
                assert((e.duration + " minutes"@)[i] == e.duration[i]);
            } else {
                assert((e.duration + " minutes"@)[i] == (" minutes"@)[i - e.duration.len()]);
            }
        }
    }
    lemma_no_newline_field(label_duration(), e.duration + " minutes"@);
    if e.results.len() > 0 {
        lemma_no_newline_field(label_results(), e.results);
    }
    if e.blockers.len() > 0 {
        lemma_no_newline_field(label_blockers(), e.blockers);
    }
    if all_link_pieces(e, base).len() > 0 {
        lemma_links_value_text(e, base);
        lemma_no_newline_field(label_links(), links_value_text(e, base));
    }
    assert(no_newline(tags_text(e.tags))) by {
        if e.tags.len() == 0 {
            assert(tags_text(e.tags) == sentinel_none());
        } else {
            lemma_tags_value_round(e.tags);
        }
    }
    lemma_no_newline_field(label_tags(), tags_text(e.tags));
    if e.reflections.len() > 0 {
        lemma_no_newline_field(label_reflections(), e.reflections);
    }
    assert forall|k: int| 0 <= k < all.len() implies no_newline(#[trigger] all[k]) by {
        if k == 0 {
            assert(all[0] == e.timestamp);
        } else {
            assert(all[k] == b[k - 1]);
            if k == 1 {
            } else if e.time_range.len() > 0 && k == 2 {
            } else if k == p_ty(e) {
            } else if k == p_de(e) {
            } else if k == p_du(e) {
            } else if e.results.len() > 0 && k == p_du(e) + 1 {
            } else if e.blockers.len() > 0 && k == p_du(e) + 1 + b_re(e) {
            } else if all_link_pieces(e, base).len() > 0 && k == p_lk(e) {
            } else if k == p_tg(e, base) {
            } else {
                assert(e.reflections.len() > 0 && k == p_tg(e, base) + 1);
            }
        }
    }
    lemma_split_joinl(all);
    let lines = all + seq![Seq::<char>::empty()];
    assert(split_by(r, "\n"@) == lines);

    // the marker splits the text into the empty prefix and the block
    assert(s.len() >= 3);
    assert(match_at(s, heading_marker(), 0)) by {
        assert(s.subrange(0, 3) =~= heading_marker());
    }
    assert(find_from(s, heading_marker(), 0) == 0);
    assert(s.subrange(0, 0) =~= Seq::<char>::empty());
    assert(s.subrange(3, s.len() as int) =~= r);
    assert(find_from(r, heading_marker(), 0) == -1) by {
        crate::text::lemma_find_from_range(r, heading_marker(), 0);
        if find_from(r, heading_marker(), 0) >= 0 {
            let f = find_from(r, heading_marker(), 0);
            lemma_find_from_found(r, heading_marker(), 0);
            assert(match_at(r, heading_marker(), f));
            assert(match_at(s, heading_marker(), f + 3)) by {
                assert(s.subrange(f + 3, f + 6) =~= r.subrange(f, f + 3));
            }
        }
    }
    assert(split_by(r, heading_marker()) == seq![r]);
    let secs = split_by(s, heading_marker());
    assert(secs == seq![Seq::<char>::empty()] + seq![r]);
    assert(secs.len() == 2 && secs[0] == Seq::<char>::empty() && secs[1] == r);

    // the block parses back to the entry
    assert(r[0] == e.timestamp[0]) by {
        assert(all[0] == e.timestamp);
        assert(r == e.timestamp + "\n"@ + joinl(all.drop_first()));
    }
    lemma_plain_ends(e.timestamp);
    assert(spec_trim(r).len() > 0) by {
        lemma_first_non_space_skip(r, 0, 0);
        lemma_last_non_space_end(r);
        if last_non_space_end(r) == 0 {
            assert(is_space_char(r[0]));
        }
    }
    assert(lines[0] == e.timestamp);
    assert(spec_trim(lines[0]) == e.timestamp);
    assert(parse_section(r) == Some(scan_fields(lines, 1, default_model(e.timestamp))));
    assert(lines.len() == p_nl(e, base) + 1);
    assert(lines[1] == field_text(label_project(), e.project));
    if e.time_range.len() > 0 {
        assert(lines[2] == field_text(label_time_range(), e.time_range));
    }
    assert(lines[p_ty(e)] == field_text(label_entry_type(), e.entry_type));
    assert(lines[p_de(e)] == field_text(label_description(), e.description));
    assert(lines[p_du(e)] == field_text(label_duration(), e.duration + " minutes"@));
    if e.results.len() > 0 {
        assert(lines[p_du(e) + 1] == field_text(label_results(), e.results));
    }
    if e.blockers.len() > 0 {
        assert(lines[p_du(e) + 1 + b_re(e)] == field_text(label_blockers(), e.blockers));
    }
    if all_link_pieces(e, base).len() > 0 {
        assert(lines[p_lk(e)] == field_text(label_links(), links_value_text(e, base)));
    }
    assert(lines[p_tg(e, base)] == field_text(label_tags(), tags_text(e.tags)));
    if e.reflections.len() > 0 {
        assert(lines[p_tg(e, base) + 1] == field_text(label_reflections(), e.reflections));
    }
    assert(lines[p_nl(e, base)] == Seq::<char>::empty());
    lemma_scan_block(lines, e, base);
    assert(parse_section(r) == Some(e));

    // assemble: the piece before the heading is discarded
    assert(spec_parse(s) == parse_sections(secs.drop_first()));
    assert(secs.drop_first() =~= seq![r]);
    assert((seq![r]).drop_first() =~= Seq::<Seq<char>>::empty());
    assert(parse_sections(Seq::<Seq<char>>::empty()) =~= Seq::<EntryModel>::empty());
    assert(parse_sections(seq![r]) =~= seq![e]);
    assert(spec_parse(s) =~= seq![e]);
}


// --- Links: the span scanner inverts the rendered link list. ---

/// A span the scanner can carry: non-empty text without ']', non-empty
/// url without ')', and no newline in either.
pub open spec fn span_ok(sp: LinkModel) -> bool {
    &&& sp.text.len() > 0
    &&& forall|i: int| 0 <= i < sp.text.len() ==> sp.text[i] != ']' && sp.text[i] != '\n'
    &&& sp.url.len() > 0
    &&& forall|i: int| 0 <= i < sp.url.len() ==> sp.url[i] != ')' && sp.url[i] != '\n'
}

proof fn lemma_find_shift(pre: Seq<char>, suf: Seq<char>, p: Seq<char>, i: int)
    requires
        p.len() >= 1,
        i >= 0,
    ensures
        find_from(pre + suf, p, pre.len() + i) == (if find_from(suf, p, i) < 0 {
            -1int
        } else {
            pre.len() + find_from(suf, p, i)
        }),
    decreases suf.len() - i,
{
    let s = pre + suf;
    if i + p.len() > suf.len() {
        assert(pre.len() + i + p.len() > s.len());
    } else {
        assert(match_at(suf, p, i) == match_at(s, p, pre.len() + i)) by {
            if match_at(suf, p, i) {
                assert(s.subrange(pre.len() + i, pre.len() + i + p.len() as int) =~= suf.subrange(
                    i,
                    i + p.len() as int,
                ));
            }
            if match_at(s, p, pre.len() + i) {
                assert(suf.subrange(i, i + p.len() as int) =~= s.subrange(
                    pre.len() + i,
                    pre.len() + i + p.len() as int,
                ));
            }
        }
        if !match_at(suf, p, i) {
            lemma_find_shift(pre, suf, p, i + 1);
        }
    }
}

/// The span scanner sees only what lies to the right: scanning a suffix
/// in place gives the suffix's spans.
proof fn lemma_spans_shift(pre: Seq<char>, suf: Seq<char>, j: int)
    requires
        j >= 0,
    ensures
        crate::parse::spans_from(pre + suf, pre.len() + j) == crate::parse::spans_from(suf, j),
    decreases suf.len() - j,
{
    reveal_strlit("]");
    reveal_strlit(")");
    let s = pre + suf;
    if j >= suf.len() {
        assert(crate::parse::spans_from(s, pre.len() + j) =~~= crate::parse::spans_from(suf, j));
    } else {
        assert(s[pre.len() + j] == suf[j]);
        if suf[j] == '[' {
            lemma_find_shift(pre, suf, "]"@, j + 1);
            let cb = find_from(suf, "]"@, j + 1);
            if cb >= 0 && cb > j + 1 && cb + 1 < suf.len() && suf[cb + 1] == '(' {
                crate::text::lemma_find_from_found(suf, "]"@, j + 1);
                assert(s[pre.len() + cb + 1] == suf[cb + 1]);
                lemma_find_shift(pre, suf, ")"@, cb + 2);
                let cp = find_from(suf, ")"@, cb + 2);
                if cp >= 0 && cp > cb + 2 {
                    crate::text::lemma_find_from_found(suf, ")"@, cb + 2);
                    lemma_spans_shift(pre, suf, cp + 1);
                    assert(s.subrange(pre.len() + j + 1, pre.len() + cb) =~= suf.subrange(
                        j + 1,
                        cb,
                    ));
                    assert(s.subrange(pre.len() + cb + 2, pre.len() + cp) =~= suf.subrange(
                        cb + 2,
                        cp,
                    ));
                    assert(crate::parse::spans_from(s, pre.len() + j) =~~= crate::parse::spans_from(
                        suf,
                        j,
                    ));
                } else {
                    lemma_spans_shift(pre, suf, j + 1);
                }
            } else {
                if cb >= 0 {
                    crate::text::lemma_find_from_found(suf, "]"@, j + 1);
                    if cb + 1 < suf.len() {
                        assert(s[pre.len() + cb + 1] == suf[cb + 1]);
                    }
                }
                lemma_spans_shift(pre, suf, j + 1);
            }
        } else {
            lemma_spans_shift(pre, suf, j + 1);
        }
    }
}

/// Scanning one rendered span followed by anything that starts past it.
proof fn lemma_spans_of_rendered(models: Seq<LinkModel>)
    requires
        forall|k: int| 0 <= k < models.len() ==> span_ok(#[trigger] models[k]),
    ensures
        crate::parse::spans_from(
            join_with(models.map_values(|m: LinkModel| plain_link_text(m)), ", "@),
            0,
        ) == models,
    decreases models.len(),
{
    reveal_strlit("[");
    reveal_strlit("](");
    reveal_strlit(")");
    reveal_strlit("]");
    reveal_strlit(", ");
    let pieces = models.map_values(|m: LinkModel| plain_link_text(m));
    let v = join_with(pieces, ", "@);
    if models.len() == 0 {
        assert(v.len() == 0);
        assert(crate::parse::spans_from(v, 0) =~~= models);
    } else {
        let m0 = models[0];
        let piece0 = plain_link_text(m0);
        assert(pieces[0] == piece0);
        let cb0 = 1 + m0.text.len() as int;
        let cp0 = cb0 + 2 + m0.url.len() as int;
        let plen = cp0 + 1;
        assert(piece0.len() == plen);
        let rest_pieces = models.drop_first().map_values(|m: LinkModel| plain_link_text(m));
        assert(pieces.drop_first() =~= rest_pieces);
        let tail: Seq<char> = if models.len() == 1 {
            Seq::<char>::empty()
        } else {
            ", "@ + join_with(rest_pieces, ", "@)
        };
        assert(v == piece0 + tail) by {
            if models.len() == 1 {
                assert(v == piece0);
                assert(piece0 + tail =~= piece0);
            } else {
                lemma_join_with_front(pieces, ", "@);
                assert(v == pieces[0] + ", "@ + join_with(pieces.drop_first(), ", "@));
                assert(piece0 + tail =~= pieces[0] + ", "@ + join_with(
                    pieces.drop_first(),
                    ", "@,
                ));
            }
        }
        // the scanner finds the structural brackets of the first span
        assert(v[0] == '[') by {
            assert(piece0[0] == '[');
        }
        assert(v[cb0] == ']') by {
            assert(piece0[cb0] == ']');
        }
        assert(v[cb0 + 1] == '(') by {
            assert(piece0[cb0 + 1] == '(');
        }
        assert(v[cp0] == ')') by {
            assert(piece0[cp0] == ')');
        }
        assert forall|j: int| 1 <= j < cb0 implies !match_at(v, "]"@, j) by {
            if match_at(v, "]"@, j) {
                assert(v.subrange(j, j + 1)[0] == v[j]);
                assert(v[j] == ']');
                assert(v[j] == m0.text[j - 1]);
            }
        }
        assert(match_at(v, "]"@, cb0)) by {
            assert(v.subrange(cb0, cb0 + 1) =~= "]"@);
        }
        lemma_find_from_skip(v, "]"@, 1, cb0);
        assert(find_from(v, "]"@, 1) == cb0);
        assert forall|j: int| cb0 + 2 <= j < cp0 implies !match_at(v, ")"@, j) by {
            if match_at(v, ")"@, j) {
                assert(v.subrange(j, j + 1)[0] == v[j]);
                assert(v[j] == ')');
                assert(v[j] == m0.url[j - cb0 - 2]);
            }
        }
        assert(match_at(v, ")"@, cp0)) by {
            assert(v.subrange(cp0, cp0 + 1) =~= ")"@);
        }
        lemma_find_from_skip(v, ")"@, cb0 + 2, cp0);
        assert(find_from(v, ")"@, cb0 + 2) == cp0);
        assert(v.subrange(1, cb0) =~= m0.text);
        assert(v.subrange(cb0 + 2, cp0) =~= m0.url);
        // the first span comes out whole and the scan resumes past it
        assert(crate::parse::spans_from(v, 0) == seq![
            LinkModel { text: m0.text, url: m0.url },
        ] + crate::parse::spans_from(v, cp0 + 1));
        assert(LinkModel { text: m0.text, url: m0.url } =~~= m0);
        if models.len() == 1 {
            assert(cp0 + 1 == v.len());
            assert(crate::parse::spans_from(v, cp0 + 1) =~~= Seq::<LinkModel>::empty());
            assert(crate::parse::spans_from(v, 0) =~~= models);
        } else {
            // step over the comma and the space
            assert(v[cp0 + 1] == ',') by {
                assert(tail[0] == (", "@)[0]);
            }
            assert(v[cp0 + 2] == ' ') by {
                assert(tail[1] == (", "@)[1]);
            }
            assert(crate::parse::spans_from(v, cp0 + 1) == crate::parse::spans_from(v, cp0 + 2));
            assert(crate::parse::spans_from(v, cp0 + 2) == crate::parse::spans_from(v, cp0 + 3));
            let pre = piece0 + ", "@;
            let rest_join = join_with(rest_pieces, ", "@);
            assert(v =~= pre + rest_join);
            assert(pre.len() == cp0 + 3);
            lemma_spans_shift(pre, rest_join, 0);
            assert(crate::parse::spans_from(v, cp0 + 3) == crate::parse::spans_from(rest_join, 0));
            lemma_spans_of_rendered(models.drop_first());
            assert(crate::parse::spans_from(v, 0) =~~= seq![m0] + models.drop_first());
            assert(seq![m0] + models.drop_first() =~= models);
        }
    }
}


/// A ticket reference the block can carry: a key-shaped key and no
/// summary (the text stores only the key).
pub open spec fn ticket_ok(t: TicketRefModel) -> bool {
    crate::parse::is_issue_key(t.key) && t.summary is None
}

/// A link the block can carry faithfully.
pub open spec fn link_ok(l: LinkModel) -> bool {
    span_ok(l) && !crate::parse::is_issue_key(l.text)
}

/// A base URL usable inside a rendered ticket link.
pub open spec fn base_ok(base: Seq<char>) -> bool {
    forall|i: int| 0 <= i < base.len() ==> base[i] != ')' && base[i] != '\n'
}

/// The span a ticket reference renders to.
pub open spec fn jira_span(t: TicketRefModel, base: Seq<char>) -> LinkModel {
    LinkModel { text: t.key, url: base + "/browse/"@ + t.key }
}

proof fn lemma_issue_key_chars(key: Seq<char>)
    requires
        crate::parse::is_issue_key(key),
    ensures
        key.len() >= 3,
        forall|i: int|
            0 <= i < key.len() ==> key[i] != ')' && key[i] != ']' && key[i] != '\n',
{
    reveal_strlit("-");
    let d = find_from(key, "-"@, 0);
    crate::text::lemma_find_from_found(key, "-"@, 0);
    assert forall|i: int|
        0 <= i < key.len() implies key[i] != ')' && key[i] != ']' && key[i] != '\n' by {
        if i < d {
            assert(crate::parse::is_upper_char(key[i]));
        } else if i == d {
            assert(key.subrange(d, d + 1)[0] == key[d]);
            assert(key[d] == '-');
        } else {
            assert(crate::parse::is_digit_ascii(key[i]));
        }
    }
}

proof fn lemma_jira_span_ok(t: TicketRefModel, base: Seq<char>)
    requires
        ticket_ok(t),
        base_ok(base),
    ensures
        span_ok(jira_span(t, base)),
        crate::parse::has_browse_tail(jira_span(t, base).url),
        plain_link_text(jira_span(t, base)) == jira_link_text(t.key, base),
{
    reveal_strlit("/browse/");
    reveal_strlit("browse/");
    lemma_issue_key_chars(t.key);
    let u = jira_span(t, base).url;
    assert forall|i: int| 0 <= i < u.len() implies u[i] != ')' && u[i] != '\n' by {
        if i < base.len() {
            assert(u[i] == base[i]);
        } else if i < base.len() + 8 {
            assert(u[i] == ("/browse/"@)[i - base.len()]);
        } else {
            assert(u[i] == t.key[i - base.len() - 8]);
        }
    }
    let b0 = base.len() + 1;
    assert(match_at(u, "browse/"@, b0 as int)) by {
        assert(forall|k: int| 0 <= k < 8 ==> u[base.len() + k] == ("/browse/"@)[k]);
        assert(u.subrange(b0 as int, b0 + 7 as int) =~= "browse/"@);
    }
    assert(crate::parse::has_browse_tail(u)) by {
        let f = find_from(u, "browse/"@, 0);
        crate::text::lemma_find_from_range(u, "browse/"@, 0);
        if f == -1 {
            crate::text::lemma_find_from_none(u, "browse/"@, 0, b0 as int);
        } else {
            crate::text::lemma_find_from_found(u, "browse/"@, 0);
            assert(f <= b0 as int);
            assert(f + 7 < u.len());
        }
    }
    assert(plain_link_text(jira_span(t, base)) =~= jira_link_text(t.key, base));
}

/// The spans of a block: the ticket spans, then the plain links.
pub open spec fn all_spans(e: EntryModel, base: Seq<char>) -> Seq<LinkModel> {
    e.jira_tickets.map_values(|t: TicketRefModel| jira_span(t, base)) + e.links
}

proof fn lemma_jira_of_concat(a: Seq<LinkModel>, b: Seq<LinkModel>)
    ensures
        crate::parse::jira_of(a + b) == crate::parse::jira_of(a) + crate::parse::jira_of(b),
        crate::parse::plain_of(a + b) == crate::parse::plain_of(a) + crate::parse::plain_of(b),
    decreases a.len(),
{
    if a.len() == 0 {
        assert(a + b =~= b);
        assert(crate::parse::jira_of(a) =~~= Seq::<TicketRefModel>::empty());
        assert(crate::parse::plain_of(a) =~~= Seq::<LinkModel>::empty());
        assert(crate::parse::jira_of(a) + crate::parse::jira_of(b) =~= crate::parse::jira_of(b));
        assert(crate::parse::plain_of(a) + crate::parse::plain_of(b) =~= crate::parse::plain_of(
            b,
        ));
    } else {
        lemma_jira_of_concat(a.drop_first(), b);
        assert((a + b)[0] == a[0]);
        assert((a + b).drop_first() =~= a.drop_first() + b);
        assert(crate::parse::jira_of(a + b) =~= crate::parse::jira_of(a) + crate::parse::jira_of(
            b,
        ));
        assert(crate::parse::plain_of(a + b) =~= crate::parse::plain_of(a)
            + crate::parse::plain_of(b));
    }
}

/// Classifying the spans of a block recovers the ticket references and
/// the plain links.
proof fn lemma_classify_spans(e: EntryModel, base: Seq<char>)
    requires
        forall|k: int| 0 <= k < e.jira_tickets.len() ==> ticket_ok(#[trigger] e.jira_tickets[k]),
        forall|k: int| 0 <= k < e.links.len() ==> link_ok(#[trigger] e.links[k]),
        base_ok(base),
    ensures
        crate::parse::jira_of(all_spans(e, base)) == e.jira_tickets,
        crate::parse::plain_of(all_spans(e, base)) == e.links,
{
    let js = e.jira_tickets.map_values(|t: TicketRefModel| jira_span(t, base));
    lemma_jira_of_concat(js, e.links);
    lemma_classify_jira(e.jira_tickets, base);
    lemma_classify_plain(e.links);
    assert(crate::parse::jira_of(all_spans(e, base)) =~= e.jira_tickets);
    assert(crate::parse::plain_of(all_spans(e, base)) =~= e.links);
}

proof fn lemma_classify_jira(ts: Seq<TicketRefModel>, base: Seq<char>)
    requires
        forall|k: int| 0 <= k < ts.len() ==> ticket_ok(#[trigger] ts[k]),
        base_ok(base),
    ensures
        crate::parse::jira_of(ts.map_values(|t: TicketRefModel| jira_span(t, base))) == ts,
        crate::parse::plain_of(ts.map_values(|t: TicketRefModel| jira_span(t, base)))
            == Seq::<LinkModel>::empty(),
    decreases ts.len(),
{
    let js = ts.map_values(|t: TicketRefModel| jira_span(t, base));
    if ts.len() == 0 {
        assert(crate::parse::jira_of(js) =~= ts);
        assert(crate::parse::plain_of(js) =~= Seq::<LinkModel>::empty());
    } else {
        lemma_jira_span_ok(ts[0], base);
        lemma_classify_jira(ts.drop_first(), base);
        assert(js.drop_first() =~= ts.drop_first().map_values(
            |t: TicketRefModel| jira_span(t, base),
        ));
        assert(js[0] == jira_span(ts[0], base));
        assert(TicketRefModel { key: ts[0].key, summary: None } =~~= ts[0]);
        assert(crate::parse::jira_of(js) =~= ts);
        assert(crate::parse::plain_of(js) =~= Seq::<LinkModel>::empty());
    }
}

proof fn lemma_classify_plain(ls: Seq<LinkModel>)
    requires
        forall|k: int| 0 <= k < ls.len() ==> link_ok(#[trigger] ls[k]),
    ensures
        crate::parse::jira_of(ls) == Seq::<TicketRefModel>::empty(),
        crate::parse::plain_of(ls) == ls,
    decreases ls.len(),
{
    if ls.len() == 0 {
        assert(crate::parse::jira_of(ls) =~= Seq::<TicketRefModel>::empty());
        assert(crate::parse::plain_of(ls) =~= ls);
    } else {
        lemma_classify_plain(ls.drop_first());
        assert(crate::parse::jira_of(ls) =~= Seq::<TicketRefModel>::empty());
        assert(crate::parse::plain_of(ls) =~= ls);
    }
}

/// The rendered pieces of a block are exactly the rendered spans.
proof fn lemma_pieces_are_rendered_spans(e: EntryModel, base: Seq<char>)
    requires
        forall|k: int| 0 <= k < e.links.len() ==> link_ok(#[trigger] e.links[k]),
    ensures
        all_link_pieces(e, base) == all_spans(e, base).map_values(
            |m: LinkModel| plain_link_text(m),
        ),
{
    lemma_jira_pieces_map(e.jira_tickets, base);
    lemma_link_pieces_map(e.links);
    let js = e.jira_tickets.map_values(|t: TicketRefModel| jira_span(t, base));
    assert(all_spans(e, base).map_values(|m: LinkModel| plain_link_text(m)) =~= jira_pieces(
        e.jira_tickets,
        base,
    ) + link_pieces(e.links)) by {
        assert(all_spans(e, base).map_values(|m: LinkModel| plain_link_text(m)).len()
            == js.len() + e.links.len());
        assert forall|k: int|
            0 <= k < all_spans(e, base).len() implies all_spans(e, base).map_values(
            |m: LinkModel| plain_link_text(m),
        )[k] == #[trigger] (jira_pieces(e.jira_tickets, base) + link_pieces(e.links))[k] by {
            if k < js.len() {
                assert(all_spans(e, base)[k] == js[k]);
                assert(plain_link_text(jira_span(e.jira_tickets[k], base)) =~= jira_link_text(
                    e.jira_tickets[k].key,
                    base,
                ));
            } else {
                assert(all_spans(e, base)[k] == e.links[k - js.len()]);
            }
        }
    }
}

proof fn lemma_jira_pieces_map(ts: Seq<TicketRefModel>, base: Seq<char>)
    ensures
        jira_pieces(ts, base).len() == ts.len(),
        forall|k: int|
            0 <= k < ts.len() ==> #[trigger] jira_pieces(ts, base)[k] == jira_link_text(
                ts[k].key,
                base,
            ),
    decreases ts.len(),
{
    if ts.len() > 0 {
        lemma_jira_pieces_map(ts.drop_last(), base);
        assert forall|k: int|
            0 <= k < ts.len() implies #[trigger] jira_pieces(ts, base)[k] == jira_link_text(
            ts[k].key,
            base,
        ) by {
            if k < ts.len() - 1 {
                assert(ts.drop_last()[k] == ts[k]);
                assert(jira_pieces(ts, base)[k] == jira_pieces(ts.drop_last(), base)[k]);
            }
        }
    }
}

proof fn lemma_link_pieces_map(ls: Seq<LinkModel>)
    requires
        forall|k: int| 0 <= k < ls.len() ==> link_ok(#[trigger] ls[k]),
    ensures
        link_pieces(ls).len() == ls.len(),
        forall|k: int|
            0 <= k < ls.len() ==> #[trigger] link_pieces(ls)[k] == plain_link_text(ls[k]),
    decreases ls.len(),
{
    if ls.len() > 0 {
        assert(crate::serialize::link_emitted(ls.last()));
        lemma_link_pieces_map(ls.drop_last());
        assert forall|k: int|
            0 <= k < ls.len() implies #[trigger] link_pieces(ls)[k] == plain_link_text(
            ls[k],
        ) by {
            if k < ls.len() - 1 {
                assert(ls.drop_last()[k] == ls[k]);
                assert(link_pieces(ls)[k] == link_pieces(ls.drop_last())[k]);
            }
        }
    }
}


/// Shape of the rendered links value: bracketed at both ends, one line,
/// its own trim, and never the sentinel.
proof fn lemma_links_value_text(e: EntryModel, base: Seq<char>)
    requires
        forall|k: int| 0 <= k < e.links.len() ==> link_ok(#[trigger] e.links[k]),
        forall|k: int| 0 <= k < e.jira_tickets.len() ==> ticket_ok(#[trigger] e.jira_tickets[k]),
        base_ok(base),
        all_link_pieces(e, base).len() > 0,
    ensures
        links_value_text(e, base).len() > 0,
        !is_space_char(links_value_text(e, base)[0]),
        !is_space_char(links_value_text(e, base).last()),
        spec_trim(links_value_text(e, base)) == links_value_text(e, base),
        no_newline(links_value_text(e, base)),
        links_value_text(e, base) != sentinel_none(),
{
    reveal_strlit("[");
    reveal_strlit("](");
    reveal_strlit(")");
    reveal_strlit(", ");
    reveal_strlit("Aucun");
    lemma_pieces_are_rendered_spans(e, base);
    let models = all_spans(e, base);
    let pieces = all_link_pieces(e, base);
    assert(pieces == models.map_values(|m: LinkModel| plain_link_text(m)));
    assert forall|k: int| 0 <= k < models.len() implies span_ok(#[trigger] models[k]) by {
        let js = e.jira_tickets.map_values(|t: TicketRefModel| jira_span(t, base));
        if k < js.len() {
            lemma_jira_span_ok(e.jira_tickets[k], base);
            assert(models[k] == jira_span(e.jira_tickets[k], base));
        } else {
            assert(models[k] == e.links[k - js.len()]);
        }
    }
    let v = links_value_text(e, base);
    let m0 = models[0];
    assert(pieces[0] == plain_link_text(m0));
    assert(plain_link_text(m0)[0] == '[');
    let ml = models.last();
    assert(pieces.last() == plain_link_text(ml));
    assert(plain_link_text(ml).len() > 0);
    assert(plain_link_text(ml).last() == ')');
    if pieces.len() == 1 {
        assert(v == pieces[0]);
        assert(v[0] == '[');
        assert(v.last() == ')');
    } else {
        lemma_join_with_front(pieces, ", "@);
        assert(v[0] == pieces[0][0]);
        lemma_join_with_last(pieces, ", "@);
        assert(v.last() == pieces.last().last());
    }
    lemma_trim_id_from_ends(v);
    assert(no_newline(v)) by {
        assert forall|k: int| 0 <= k < pieces.len() implies no_newline(#[trigger] pieces[k]) by {
            let m = models[k];
            assert(pieces[k] == plain_link_text(m));
            assert forall|i: int|
                0 <= i < plain_link_text(m).len() implies plain_link_text(m)[i] != '\n' by {
                if i == 0 {
                } else if i < 1 + m.text.len() {
                    assert(plain_link_text(m)[i] == m.text[i - 1]);
                } else if i < 3 + m.text.len() {
                    assert(plain_link_text(m)[i] == ("]("@)[i - 1 - m.text.len()]);
                } else if i < 3 + m.text.len() + m.url.len() {
                    assert(plain_link_text(m)[i] == m.url[i - 3 - m.text.len()]);
                } else {
                    assert(plain_link_text(m)[i] == (")"@)[0]);
                }
            }
        }
        lemma_join_no_newline(pieces, ", "@);
    }
    assert(v != sentinel_none()) by {
        if v == sentinel_none() {
            assert(v[0] == 'A');
        }
    }
}

/// Joined newline-free pieces with a newline-free separator stay one line.
proof fn lemma_join_no_newline(ps: Seq<Seq<char>>, sep: Seq<char>)
    requires
        no_newline(sep),
        forall|k: int| 0 <= k < ps.len() ==> no_newline(#[trigger] ps[k]),
    ensures
        no_newline(join_with(ps, sep)),
    decreases ps.len(),
{
    if ps.len() == 0 {
    } else if ps.len() == 1 {
        assert(join_with(ps, sep) == ps[0]);
    } else {
        let pre = join_with(ps.drop_last(), sep);
        lemma_join_no_newline(ps.drop_last(), sep);
        let s = pre + sep + ps.last();
        assert(join_with(ps, sep) == s);
        assert forall|i: int| 0 <= i < s.len() implies s[i] != '\n' by {
            if i < pre.len() {
                assert(s[i] == pre[i]);
            } else if i < pre.len() + sep.len() {
                assert(s[i] == sep[i - pre.len()]);
            } else {
                assert(s[i] == ps.last()[i - pre.len() - sep.len()]);
            }
        }
    }
}

/// Parsing the rendered links value recovers the links and the ticket
/// references.
proof fn lemma_links_value_round(e: EntryModel, base: Seq<char>)
    requires
        forall|k: int| 0 <= k < e.links.len() ==> link_ok(#[trigger] e.links[k]),
        forall|k: int| 0 <= k < e.jira_tickets.len() ==> ticket_ok(#[trigger] e.jira_tickets[k]),
        base_ok(base),
        all_link_pieces(e, base).len() > 0,
    ensures
        crate::parse::links_value(links_value_text(e, base)).0 == e.links,
        crate::parse::links_value(links_value_text(e, base)).1 == e.jira_tickets,
{
    lemma_links_value_text(e, base);
    lemma_pieces_are_rendered_spans(e, base);
    let models = all_spans(e, base);
    assert forall|k: int| 0 <= k < models.len() implies span_ok(#[trigger] models[k]) by {
        let js = e.jira_tickets.map_values(|t: TicketRefModel| jira_span(t, base));
        if k < js.len() {
            lemma_jira_span_ok(e.jira_tickets[k], base);
            assert(models[k] == jira_span(e.jira_tickets[k], base));
        } else {
            assert(models[k] == e.links[k - js.len()]);
        }
    }
    lemma_spans_of_rendered(models);
    let v = links_value_text(e, base);
    assert(v == join_with(models.map_values(|m: LinkModel| plain_link_text(m)), ", "@));
    assert(crate::parse::spans_from(v, 0) == models);
    lemma_classify_spans(e, base);
}

} // verus!
