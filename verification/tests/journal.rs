//! Tests of the journal core: the duration normalizer, the parser and
//! serializer pair, and the file content transforms.

use devjournal::duration::normalize_duration;
use devjournal::entry::{JiraTicketRef, Link, ParsedJournalEntry};
use devjournal::parse::parse_journal_entries;
use devjournal::serialize::generate_markdown_entry;
use devjournal::store::{
    delete_journal_entry_content, saved_file_content, update_journal_entry_content,
};
use devjournal::entry::JournalEntry;

const MICRO_PER_HOUR: u64 = 60_000_000;

fn sample_entry() -> ParsedJournalEntry {
    ParsedJournalEntry {
        timestamp: "14/03/2024 10:30".to_string(),
        project: "Socle".to_string(),
        description: "Refonte du module de recherche".to_string(),
        duration: "2h30".to_string(),
        tags: vec!["refactor".to_string(), "test".to_string()],
        time_range: "9h-12h".to_string(),
        entry_type: "développement".to_string(),
        results: "Deux bugs corrigés".to_string(),
        blockers: "".to_string(),
        links: vec![Link { text: "doc interne".to_string(), url: "https://exemple.net/doc".to_string() }],
        reflections: "Prévoir une revue".to_string(),
        jira_tickets: vec![JiraTicketRef { key: "ABC-123".to_string(), summary: None }],
    }
}

#[test]
fn normalize_hours_only() {
    assert_eq!(normalize_duration("3h"), 3 * MICRO_PER_HOUR);
    assert_eq!(normalize_duration("3h") as f64 / MICRO_PER_HOUR as f64, 3.0);
}

#[test]
fn normalize_hours_and_minutes() {
    assert_eq!(normalize_duration("2h30"), 150_000_000);
    assert_eq!(normalize_duration("2h30") as f64 / MICRO_PER_HOUR as f64, 2.5);
}

#[test]
fn normalize_minutes_only() {
    assert_eq!(normalize_duration("90min"), 90_000_000);
    assert_eq!(normalize_duration("90min") as f64 / MICRO_PER_HOUR as f64, 1.5);
}

#[test]
fn normalize_garbage_is_zero() {
    assert_eq!(normalize_duration("garbage"), 0);
}

#[test]
fn normalize_minute_words() {
    assert_eq!(normalize_duration("45 minutes"), 45_000_000);
    assert_eq!(normalize_duration("2h30min"), 150_000_000);
    assert_eq!(normalize_duration("2H15"), 135_000_000);
}

#[test]
fn normalize_bare_numbers() {
    // below ten a bare number counts as hours, from ten on as minutes
    assert_eq!(normalize_duration("2"), 2 * MICRO_PER_HOUR);
    assert_eq!(normalize_duration("9.5"), 570_000_000);
    assert_eq!(normalize_duration("10"), 10_000_000);
    assert_eq!(normalize_duration("30"), 30_000_000);
    assert_eq!(normalize_duration(""), 0);
}

#[test]
fn parse_empty_text_yields_nothing() {
    assert_eq!(parse_journal_entries("").len(), 0);
}

#[test]
fn text_before_first_heading_is_discarded() {
    let content = "notes laissées en tête de fichier\n## 14/03/2024\n**Projet**: Socle  \n";
    let entries = parse_journal_entries(content);
    assert_eq!(entries.len(), 1);
    assert_eq!(entries[0].timestamp, "14/03/2024");
    assert_eq!(entries[0].project, "Socle");
}

#[test]
fn file_without_heading_holds_no_entry() {
    assert_eq!(parse_journal_entries("rien que du texte libre\nsur deux lignes\n").len(), 0);
}

#[test]
fn parse_reads_fields_and_defaults() {
    let content = "## 14/03/2024 10:30\n**Projet**: Socle  \n**Durée**: 30 minutes  \n";
    let entries = parse_journal_entries(content);
    assert_eq!(entries.len(), 1);
    assert_eq!(entries[0].timestamp, "14/03/2024 10:30");
    assert_eq!(entries[0].project, "Socle");
    assert_eq!(entries[0].duration, "30");
    // fields never seen keep their defaults
    assert_eq!(entries[0].entry_type, "développement");
    assert_eq!(entries[0].description, "");
    assert!(entries[0].tags.is_empty());
}

#[test]
fn parse_ignores_unrecognized_labels() {
    let content = "## 14/03/2024\n**Projet**: Socle  \n**Humeur**: bonne  \n**Durée**: 1h  \n";
    let entries = parse_journal_entries(content);
    assert_eq!(entries.len(), 1);
    assert_eq!(entries[0].project, "Socle");
    assert_eq!(entries[0].duration, "1h");
}

#[test]
fn parse_joins_continuation_lines() {
    let content = "## 14/03/2024\n**Description**: ligne une\nligne deux\n\nligne trois\n**Durée**: 1h  \n";
    let entries = parse_journal_entries(content);
    assert_eq!(entries.len(), 1);
    assert_eq!(entries[0].description, "ligne une\nligne deux\nligne trois");
    assert_eq!(entries[0].duration, "1h");
}

#[test]
fn parse_reads_tags_and_sentinel() {
    let with_tags = "## t\n**Tags**: #bug #feature  \n";
    let entries = parse_journal_entries(with_tags);
    assert_eq!(entries[0].tags, vec!["bug".to_string(), "feature".to_string()]);
    let sentinel = "## t\n**Tags**: Aucun  \n";
    assert!(parse_journal_entries(sentinel)[0].tags.is_empty());
}

#[test]
fn parse_separates_ticket_links_from_plain_links() {
    let content = "## t\n**Liens**: [ABC-12](https://j.example/browse/ABC-12), [doc](https://exemple.net/d)  \n";
    let entries = parse_journal_entries(content);
    assert_eq!(entries[0].jira_tickets.len(), 1);
    assert_eq!(entries[0].jira_tickets[0].key, "ABC-12");
    assert_eq!(entries[0].jira_tickets[0].summary, None);
    assert_eq!(entries[0].links.len(), 1);
    assert_eq!(entries[0].links[0].text, "doc");
    assert_eq!(entries[0].links[0].url, "https://exemple.net/d");
}

#[test]
fn key_shaped_link_without_browse_is_dropped() {
    let content = "## t\n**Liens**: [XYZ-9](https://exemple.net/autre)  \n";
    let entries = parse_journal_entries(content);
    assert!(entries[0].jira_tickets.is_empty());
    assert!(entries[0].links.is_empty());
}

#[test]
fn serializer_emits_canonical_block() {
    let entry = ParsedJournalEntry {
        timestamp: "14/03/2024 10:30".to_string(),
        project: "Socle".to_string(),
        description: "Travail".to_string(),
        duration: "30".to_string(),
        tags: vec![],
        time_range: "".to_string(),
        entry_type: "développement".to_string(),
        results: "".to_string(),
        blockers: "".to_string(),
        links: vec![],
        reflections: "".to_string(),
        jira_tickets: vec![],
    };
    let block = generate_markdown_entry(&entry, "https://j.example");
    let expected = "## 14/03/2024 10:30\n**Projet**: Socle  \n**Type d'activité**: développement  \n**Description**: Travail  \n**Durée**: 30 minutes  \n**Tags**: Aucun  \n";
    assert_eq!(block, expected);
}

#[test]
fn round_trip_preserves_every_field() {
    let entry = sample_entry();
    let block = generate_markdown_entry(&entry, "https://j.example");
    let parsed = parse_journal_entries(&block);
    assert_eq!(parsed.len(), 1);
    assert_eq!(parsed[0], entry);
}

#[test]
fn round_trip_collapses_empty_lists_to_sentinel() {
    let mut entry = sample_entry();
    entry.tags = vec![];
    entry.links = vec![];
    entry.jira_tickets = vec![];
    let block = generate_markdown_entry(&entry, "https://j.example");
    assert!(block.contains("**Tags**: Aucun"));
    assert!(!block.contains("**Liens**:"));
    let parsed = parse_journal_entries(&block);
    assert_eq!(parsed[0], entry);
}

#[test]
fn save_appends_after_separator() {
    let entry = JournalEntry {
        date: "2024-03-14".to_string(),
        time_range: "".to_string(),
        project: "Socle".to_string(),
        entry_type: "développement".to_string(),
        description: "Travail".to_string(),
        duration: "30".to_string(),
        results: "".to_string(),
        blockers: "".to_string(),
        links: vec![],
        tags: vec![],
        reflections: "".to_string(),
        jira_tickets: vec![],
    };
    let fresh = saved_file_content("", false, &entry, "14/03/2024 10:30", "https://j.example");
    assert!(fresh.starts_with("## 14/03/2024 10:30\n"));
    let appended = saved_file_content(&fresh, true, &entry, "14/03/2024 11:00", "https://j.example");
    assert!(appended.contains("\n\n---\n\n## 14/03/2024 11:00\n"));
    assert_eq!(parse_journal_entries(&appended).len(), 2);
}

#[test]
fn update_out_of_bounds_reports_not_found() {
    let entry = sample_entry();
    let block = generate_markdown_entry(&entry, "https://j.example");
    assert!(update_journal_entry_content(&block, 1, &entry, "https://j.example").is_none());
    assert!(update_journal_entry_content("", 0, &entry, "https://j.example").is_none());
}

#[test]
fn update_keeps_original_timestamp() {
    let entry = sample_entry();
    let block = generate_markdown_entry(&entry, "https://j.example");
    let mut replacement = sample_entry();
    replacement.timestamp = "une autre heure".to_string();
    replacement.project = "Claims".to_string();
    let updated = update_journal_entry_content(&block, 0, &replacement, "https://j.example").unwrap();
    let parsed = parse_journal_entries(&updated);
    assert_eq!(parsed.len(), 1);
    assert_eq!(parsed[0].timestamp, "14/03/2024 10:30");
    assert_eq!(parsed[0].project, "Claims");
}

#[test]
fn delete_down_to_zero_leaves_empty_content() {
    let entry = sample_entry();
    let one = generate_markdown_entry(&entry, "https://j.example");
    let two = update_journal_entry_content(&one, 0, &entry, "https://j.example").unwrap();
    // build a two-entry file the way save would
    let mut both = two.clone();
    both.push_str("\n\n");
    both.push_str(&one);
    assert_eq!(parse_journal_entries(&both).len(), 2);
    let after_first = delete_journal_entry_content(&both, 0, "https://j.example").unwrap();
    assert_eq!(parse_journal_entries(&after_first).len(), 1);
    let after_second = delete_journal_entry_content(&after_first, 0, "https://j.example").unwrap();
    assert_eq!(after_second, "");
    assert!(delete_journal_entry_content(&after_second, 0, "https://j.example").is_none());
}
