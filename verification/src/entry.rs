//! The structured records a date file holds, together with their ghost
//! models (`Seq<char>`-valued mirrors used by every contract).

use vstd::prelude::*;

verus! {

/// A plain hyperlink extracted from the "Liens" field.
#[derive(Debug, Clone, PartialEq)]
pub struct Link {
    pub text: String,
    pub url: String,
}

#[verifier::ext_equal]
pub ghost struct LinkModel {
    pub text: Seq<char>,
    pub url: Seq<char>,
}

impl View for Link {
    type V = LinkModel;

    open spec fn view(&self) -> LinkModel {
        LinkModel { text: self.text@, url: self.url@ }
    }
}

impl DeepView for Link {
    type V = LinkModel;

    open spec fn deep_view(&self) -> LinkModel {
        self@
    }
}

/// A reference to an issue-tracker ticket: the key as written in the text,
/// and a summary that only the tracker client can fill in later.
#[derive(Debug, Clone, PartialEq)]
pub struct JiraTicketRef {
    pub key: String,
    pub summary: Option<String>,
}

#[verifier::ext_equal]
pub ghost struct TicketRefModel {
    pub key: Seq<char>,
    pub summary: Option<Seq<char>>,
}

impl View for JiraTicketRef {
    type V = TicketRefModel;

    open spec fn view(&self) -> TicketRefModel {
        TicketRefModel {
            key: self.key@,
            summary: match self.summary {
                Some(s) => Some(s@),
                None => None,
            },
        }
    }
}

impl DeepView for JiraTicketRef {
    type V = TicketRefModel;

    open spec fn deep_view(&self) -> TicketRefModel {
        self@
    }
}

/// One parsed entry of a date file, in parse order.
#[derive(Debug, Clone, PartialEq)]
pub struct ParsedJournalEntry {
    pub timestamp: String,
    pub project: String,
    pub description: String,
    pub duration: String,
    pub tags: Vec<String>,
    pub time_range: String,
    pub entry_type: String,
    pub results: String,
    pub blockers: String,
    pub links: Vec<Link>,
    pub reflections: String,
    pub jira_tickets: Vec<JiraTicketRef>,
}

#[verifier::ext_equal]
pub ghost struct EntryModel {
    pub timestamp: Seq<char>,
    pub project: Seq<char>,
    pub description: Seq<char>,
    pub duration: Seq<char>,
    pub tags: Seq<Seq<char>>,
    pub time_range: Seq<char>,
    pub entry_type: Seq<char>,
    pub results: Seq<char>,
    pub blockers: Seq<char>,
    pub links: Seq<LinkModel>,
    pub reflections: Seq<char>,
    pub jira_tickets: Seq<TicketRefModel>,
}

impl View for ParsedJournalEntry {
    type V = EntryModel;

    open spec fn view(&self) -> EntryModel {
        EntryModel {
            timestamp: self.timestamp@,
            project: self.project@,
            description: self.description@,
            duration: self.duration@,
            tags: self.tags.deep_view(),
            time_range: self.time_range@,
            entry_type: self.entry_type@,
            results: self.results@,
            blockers: self.blockers@,
            links: self.links.deep_view(),
            reflections: self.reflections@,
            jira_tickets: self.jira_tickets.deep_view(),
        }
    }
}

impl DeepView for ParsedJournalEntry {
    type V = EntryModel;

    open spec fn deep_view(&self) -> EntryModel {
        self@
    }
}

/// An entry as handed in for saving: the timestamp is not yet set (it is
/// stamped when the entry is appended to its date file).
#[derive(Debug, Clone, PartialEq)]
pub struct JournalEntry {
    pub date: String,
    pub time_range: String,
    pub project: String,
    pub entry_type: String,
    pub description: String,
    pub duration: String,
    pub results: String,
    pub blockers: String,
    pub links: Vec<Link>,
    pub tags: Vec<String>,
    pub reflections: String,
    pub jira_tickets: Vec<JiraTicketRef>,
}

/// The fields an unsaved entry contributes to its serialized block, once a
/// timestamp is chosen.
pub open spec fn journal_entry_model(e: &JournalEntry, timestamp: Seq<char>) -> EntryModel {
    EntryModel {
        timestamp: timestamp,
        project: e.project@,
        description: e.description@,
        duration: e.duration@,
        tags: e.tags.deep_view(),
        time_range: e.time_range@,
        entry_type: e.entry_type@,
        results: e.results@,
        blockers: e.blockers@,
        links: e.links.deep_view(),
        reflections: e.reflections@,
        jira_tickets: e.jira_tickets.deep_view(),
    }
}

// --- The literal field labels of the on-disk format. ---

pub open spec fn heading_marker() -> Seq<char> {
    "## "@
}

pub open spec fn label_project() -> Seq<char> {
    "**Projet**:"@
}

pub open spec fn label_description() -> Seq<char> {
    "**Description**:"@
}

pub open spec fn label_duration() -> Seq<char> {
    "**Durée**:"@
}

pub open spec fn label_tags() -> Seq<char> {
    "**Tags**:"@
}

pub open spec fn label_time_range() -> Seq<char> {
    "**Plage horaire**:"@
}

pub open spec fn label_entry_type() -> Seq<char> {
    "**Type d'activité**:"@
}

pub open spec fn label_results() -> Seq<char> {
    "**Résultats**:"@
}

pub open spec fn label_blockers() -> Seq<char> {
    "**Blocages**:"@
}

pub open spec fn label_reflections() -> Seq<char> {
    "**Réflexions**:"@
}

pub open spec fn label_links() -> Seq<char> {
    "**Liens**:"@
}

/// The sentinel written in place of an empty list.
pub open spec fn sentinel_none() -> Seq<char> {
    "Aucun"@
}

} // verus!
