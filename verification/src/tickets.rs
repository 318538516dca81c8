//! Issue-tracker data as the journal consumes it: ticket records, the
//! offline sample set, and the selection logic that pairs fetched tickets
//! with the keys already chosen on an entry. The network client itself
//! lives with the callers.

use vstd::prelude::*;
use vstd::string::StringExecFns;
use crate::report::contains_str;

verus! {

#[derive(Debug, Clone, PartialEq)]
pub struct JiraStatus {
    pub name: String,
}

#[derive(Debug, Clone, PartialEq)]
pub struct JiraIssueType {
    pub name: String,
}

#[derive(Debug, Clone, PartialEq)]
pub struct JiraFields {
    pub summary: String,
    pub status: JiraStatus,
    pub issuetype: JiraIssueType,
}

#[derive(Debug, Clone, PartialEq)]
pub struct JiraTicket {
    pub key: String,
    pub fields: JiraFields,
}

/// What a ticket search hands back.
#[derive(Debug, Clone, PartialEq)]
pub struct JiraSearchResponse {
    pub issues: Vec<JiraTicket>,
}

/// A ticket as offered for attaching to an entry.
#[derive(Debug, Clone, PartialEq)]
pub struct JiraTicketForEntry {
    pub key: String,
    pub summary: String,
    pub status: String,
    pub is_selected: bool,
    pub is_available: bool,
}

/// The fixed sample tickets used when no tracker credentials are set.
pub fn get_mock_tickets() -> (r: Vec<JiraTicket>)
    ensures
        r@.len() == 2,
        r@[0].key@ == "MOCK-1"@,
        r@[0].fields.summary@ == "Ticket de démonstration 1"@,
        r@[0].fields.status.name@ == "En cours"@,
        r@[0].fields.issuetype.name@ == "Tâche"@,
        r@[1].key@ == "MOCK-2"@,
        r@[1].fields.summary@ == "Ticket de démonstration 2"@,
        r@[1].fields.status.name@ == "À faire"@,
        r@[1].fields.issuetype.name@ == "Bug"@,
{
    let mut r: Vec<JiraTicket> = Vec::new();
    r.push(
        JiraTicket {
            key: "MOCK-1".to_owned(),
            fields: JiraFields {
                summary: "Ticket de démonstration 1".to_owned(),
                status: JiraStatus { name: "En cours".to_owned() },
                issuetype: JiraIssueType { name: "Tâche".to_owned() },
            },
        },
    );
    r.push(
        JiraTicket {
            key: "MOCK-2".to_owned(),
            fields: JiraFields {
                summary: "Ticket de démonstration 2".to_owned(),
                status: JiraStatus { name: "À faire".to_owned() },
                issuetype: JiraIssueType { name: "Bug".to_owned() },
            },
        },
    );
    r
}

/// Some fetched ticket carries this key.
pub open spec fn has_ticket_key(av: Seq<JiraTicket>, key: Seq<char>) -> bool {
    exists|i: int| 0 <= i < av.len() && (#[trigger] av[i]).key@ == key
}

/// The chosen keys the fetch did not return, in selection order,
/// duplicates kept.
pub open spec fn missing_selected(av: Seq<JiraTicket>, sel: Seq<Seq<char>>) -> Seq<Seq<char>>
    decreases sel.len(),
{
    if sel.len() == 0 {
        Seq::empty()
    } else {
        missing_selected(av, sel.drop_last()) + if has_ticket_key(av, sel.last()) {
            Seq::empty()
        } else {
            seq![sel.last()]
        }
    }
}

fn selected_contains(selected: &Vec<String>, key: &String) -> (r: bool)
    ensures
        r == contains_str(selected.deep_view(), key@),
{
    let mut i: usize = 0;
    while i < selected.len()
        invariant
            i <= selected.len(),
            forall|j: int| 0 <= j < i ==> selected.deep_view()[j] != key@,
        decreases selected.len() - i,
    {
        if selected[i] == *key {
            proof {
                assert(selected.deep_view()[i as int] == key@);
            }
            return true;
        }
        proof {
            assert(selected.deep_view()[i as int] == selected@[i as int]@);
        }
        i = i + 1;
    }
    false
}

fn available_has_key(available: &Vec<JiraTicket>, key: &String) -> (r: bool)
    ensures
        r == has_ticket_key(available@, key@),
{
    let mut i: usize = 0;
    while i < available.len()
        invariant
            i <= available.len(),
            forall|j: int| 0 <= j < i ==> (#[trigger] available@[j]).key@ != key@,
        decreases available.len() - i,
    {
        if available[i].key == *key {
            return true;
        }
        i = i + 1;
    }
    false
}

/// Pairs the fetched tickets with the already-selected keys: every fetched
/// ticket first (marked selected when its key is among the chosen ones),
/// then, in selection order, exactly one placeholder per chosen key the
/// fetch did not return.
pub fn get_available_tickets_for_entry(
    available: &Vec<JiraTicket>,
    selected_ticket_keys: &Vec<String>,
) -> (r: Vec<JiraTicketForEntry>)
    ensures
        r@.len() == available@.len() + missing_selected(
            available@,
            selected_ticket_keys.deep_view(),
        ).len(),
        forall|i: int|
            0 <= i < available@.len() ==> (#[trigger] r@[i]).key@ == available@[i].key@ && r@[i].summary@
                == available@[i].fields.summary@ && r@[i].status@
                == available@[i].fields.status.name@ && r@[i].is_selected == contains_str(
                selected_ticket_keys.deep_view(),
                available@[i].key@,
            ) && r@[i].is_available,
        forall|i: int|
            0 <= i < missing_selected(available@, selected_ticket_keys.deep_view()).len()
                ==> (#[trigger] r@[available@.len() + i]).key@ == missing_selected(
                available@,
                selected_ticket_keys.deep_view(),
            )[i] && !r@[available@.len() + i].is_available && r@[available@.len() + i].is_selected
                && r@[available@.len() + i].summary@
                == "Ticket non trouvé dans la requête actuelle"@ && r@[available@.len()
                + i].status@ == "Inconnu"@,
{
    let ghost sv = selected_ticket_keys.deep_view();
    let mut r: Vec<JiraTicketForEntry> = Vec::new();
    let mut i: usize = 0;
    while i < available.len()
        invariant
            sv == selected_ticket_keys.deep_view(),
            i <= available.len(),
            r@.len() == i,
            forall|j: int|
                0 <= j < i ==> (#[trigger] r@[j]).key@ == available@[j].key@ && r@[j].summary@
                    == available@[j].fields.summary@ && r@[j].status@
                    == available@[j].fields.status.name@ && r@[j].is_selected == contains_str(
                    sv,
                    available@[j].key@,
                ) && r@[j].is_available,
        decreases available.len() - i,
    {
        let is_selected = selected_contains(selected_ticket_keys, &available[i].key);
        r.push(
            JiraTicketForEntry {
                key: available[i].key.clone(),
                summary: available[i].fields.summary.clone(),
                status: available[i].fields.status.name.clone(),
                is_selected,
                is_available: true,
            },
        );
        i = i + 1;
    }
    let ghost base = available@.len() as int;
    let mut k: usize = 0;
    proof {
        assert(sv.subrange(0, 0) =~= Seq::<Seq<char>>::empty());
        assert(missing_selected(available@, sv.subrange(0, 0)) =~~= Seq::<Seq<char>>::empty());
    }
    while k < selected_ticket_keys.len()
        invariant
            sv == selected_ticket_keys.deep_view(),
            base == available@.len() as int,
            k <= selected_ticket_keys.len(),
            r@.len() == base + missing_selected(available@, sv.subrange(0, k as int)).len(),
            forall|j: int|
                0 <= j < base ==> (#[trigger] r@[j]).key@ == available@[j].key@ && r@[j].summary@
                    == available@[j].fields.summary@ && r@[j].status@
                    == available@[j].fields.status.name@ && r@[j].is_selected == contains_str(
                    sv,
                    available@[j].key@,
                ) && r@[j].is_available,
            forall|j: int|
                0 <= j < missing_selected(available@, sv.subrange(0, k as int)).len() ==> (
                #[trigger] r@[base + j]).key@ == missing_selected(
                    available@,
                    sv.subrange(0, k as int),
                )[j] && !r@[base + j].is_available && r@[base + j].is_selected && r@[base
                    + j].summary@ == "Ticket non trouvé dans la requête actuelle"@ && r@[base
                    + j].status@ == "Inconnu"@,
        decreases selected_ticket_keys.len() - k,
    {
        proof {
            assert(sv[k as int] == selected_ticket_keys@[k as int]@);
            assert(sv.subrange(0, k + 1 as int).drop_last() =~= sv.subrange(0, k as int));
            assert(sv.subrange(0, k + 1 as int).last() == sv[k as int]);
        }
        let ghost miss_pre = missing_selected(available@, sv.subrange(0, k as int));
        if !available_has_key(available, &selected_ticket_keys[k]) {
            let ghost rows_pre = r@;
            r.push(
                JiraTicketForEntry {
                    key: selected_ticket_keys[k].clone(),
                    summary: "Ticket non trouvé dans la requête actuelle".to_owned(),
                    status: "Inconnu".to_owned(),
                    is_selected: true,
                    is_available: false,
                },
            );
            proof {
                let miss_now = missing_selected(available@, sv.subrange(0, k + 1 as int));
                assert(miss_now =~= miss_pre.push(sv[k as int]));
                assert(r@[base + miss_pre.len()].key@ == sv[k as int]);
                assert(forall|j: int| 0 <= j < rows_pre.len() ==> r@[j] == #[trigger] rows_pre[j]);
            }
        } else {
            proof {
                assert(missing_selected(available@, sv.subrange(0, k + 1 as int))
                    =~= miss_pre);
            }
        }
        k = k + 1;
    }
    proof {
        assert(sv.subrange(0, sv.len() as int) =~= sv);
    }
    r
}

} // verus!
