//! Tests of the date-name filter, the aggregator's buckets, and the
//! configuration and ticket helpers.

use devjournal::config::{
    delete_project_by_id, filter_active_tags, find_tag_index, next_project_id, Project, Tag,
};
use devjournal::report::generate_activity_report;
use devjournal::store::{get_available_journal_dates, filter_dates_in_range};
use devjournal::tickets::{get_available_tickets_for_entry, get_mock_tickets};

const MICRO_PER_HOUR: u64 = 60_000_000;

fn day_file(date: &str, blocks: &[&str]) -> (String, String) {
    (date.to_string(), blocks.join("\n\n"))
}

#[test]
fn date_filter_keeps_only_date_shaped_md_names() {
    let names = vec![
        "notes.txt".to_string(),
        "2024-1-1.md".to_string(),
        "2024-01-01.md".to_string(),
    ];
    let dates = get_available_journal_dates(&names);
    assert_eq!(dates, vec!["2024-01-01".to_string()]);
}

#[test]
fn dates_come_newest_first() {
    let names = vec![
        "2024-01-02.md".to_string(),
        "2024-03-01.md".to_string(),
        "2023-12-31.md".to_string(),
    ];
    let dates = get_available_journal_dates(&names);
    assert_eq!(
        dates,
        vec!["2024-03-01".to_string(), "2024-01-02".to_string(), "2023-12-31".to_string()],
    );
}

#[test]
fn range_filter_is_inclusive() {
    let dates = vec![
        "2024-03-01".to_string(),
        "2024-01-02".to_string(),
        "2023-12-31".to_string(),
    ];
    let kept = filter_dates_in_range(&dates, "2024-01-01", "2024-03-01");
    assert_eq!(kept, vec!["2024-03-01".to_string(), "2024-01-02".to_string()]);
}

#[test]
fn day_and_tag_buckets_add_up() {
    let block_a = "## 09:00\n**Projet**: Socle  \n**Durée**: 1h minutes  \n**Tags**: #bug  \n";
    let block_b = "## 14:00\n**Projet**: Claims  \n**Durée**: 30min minutes  \n**Tags**: #bug  \n";
    let files = vec![day_file("2024-03-14", &[block_a, block_b])];
    let report = generate_activity_report("2024-03-14", "2024-03-14", &files);
    assert_eq!(report.total_entries, 2);
    assert_eq!(report.total_micro_minutes, 90_000_000);
    assert_eq!(report.daily_breakdown.len(), 1);
    assert_eq!(report.daily_breakdown[0].day, "2024-03-14");
    assert_eq!(report.daily_breakdown[0].micro_minutes as f64 / MICRO_PER_HOUR as f64, 1.5);
    let bug = report.tags_summary.iter().find(|t| t.name == "bug").unwrap();
    assert_eq!(bug.count, 2);
}

#[test]
fn monthly_details_sorted_ascending_regardless_of_input_order() {
    let march = "## 10:00\n**Projet**: Socle  \n**Durée**: 2h minutes  \n";
    let january = "## 11:00\n**Projet**: Claims  \n**Durée**: 1h minutes  \n";
    // newest first, as the date listing hands them out
    let files = vec![
        day_file("2024-03-14", &[march]),
        day_file("2024-01-05", &[january]),
    ];
    let report = generate_activity_report("2024-01-01", "2024-03-31", &files);
    assert_eq!(report.monthly_details.len(), 2);
    assert_eq!(report.monthly_details[0].month, "2024-01");
    assert_eq!(report.monthly_details[1].month, "2024-03");
    assert_eq!(report.monthly_breakdown[0].month, "2024-01");
    assert_eq!(report.monthly_breakdown[0].micro_minutes, MICRO_PER_HOUR);
    assert_eq!(report.monthly_breakdown[1].micro_minutes, 2 * MICRO_PER_HOUR);
    assert_eq!(report.monthly_details[1].projects, vec!["Socle".to_string()]);
    assert_eq!(report.monthly_details[1].project_hours.len(), 1);
    assert_eq!(report.monthly_details[1].project_hours[0].micro_minutes, 2 * MICRO_PER_HOUR);
}

#[test]
fn project_and_type_buckets_count_entries() {
    let a = "## 09:00\n**Projet**: Socle  \n**Type d'activité**: réunion  \n**Durée**: 1h minutes  \n";
    let b = "## 10:00\n**Projet**: Socle  \n**Durée**: 1h minutes  \n";
    let files = vec![day_file("2024-03-14", &[a, b])];
    let report = generate_activity_report("2024-03-14", "2024-03-14", &files);
    assert_eq!(report.projects_summary.len(), 1);
    assert_eq!(report.projects_summary[0].name, "Socle");
    assert_eq!(report.projects_summary[0].entries, 2);
    assert_eq!(report.projects_summary[0].micro_minutes, 2 * MICRO_PER_HOUR);
    let names: Vec<&str> = report.activity_types.iter().map(|t| t.name.as_str()).collect();
    assert!(names.contains(&"réunion"));
    assert!(names.contains(&"développement"));
}

#[test]
fn empty_files_contribute_nothing() {
    let files = vec![("2024-03-14".to_string(), "".to_string())];
    let report = generate_activity_report("2024-03-14", "2024-03-14", &files);
    assert_eq!(report.total_entries, 0);
    assert_eq!(report.total_micro_minutes, 0);
    assert!(report.monthly_details.is_empty());
}

#[test]
fn mock_tickets_are_the_fixed_pair() {
    let mocks = get_mock_tickets();
    assert_eq!(mocks.len(), 2);
    assert_eq!(mocks[0].key, "MOCK-1");
    assert_eq!(mocks[0].fields.status.name, "En cours");
    assert_eq!(mocks[1].key, "MOCK-2");
    assert_eq!(mocks[1].fields.issuetype.name, "Bug");
}

#[test]
fn ticket_selection_pairs_available_and_missing_keys() {
    let available = get_mock_tickets();
    let selected = vec!["MOCK-2".to_string(), "GONE-7".to_string()];
    let offered = get_available_tickets_for_entry(&available, &selected);
    assert_eq!(offered.len(), 3);
    assert!(!offered[0].is_selected && offered[0].is_available);
    assert!(offered[1].is_selected && offered[1].is_available);
    assert_eq!(offered[2].key, "GONE-7");
    assert!(offered[2].is_selected && !offered[2].is_available);
    assert_eq!(offered[2].status, "Inconnu");
}

fn project(id: i64, name: &str, active: bool) -> Project {
    Project {
        id: Some(id),
        name: name.to_string(),
        description: None,
        color: "#007bff".to_string(),
        active,
        created_at: None,
        updated_at: None,
    }
}

#[test]
fn project_ids_grow_past_the_largest() {
    let projects = vec![project(3, "Socle", true), project(7, "Claims", true)];
    assert_eq!(next_project_id(&projects), 8);
    assert_eq!(next_project_id(&Vec::new()), 1);
}

#[test]
fn deleting_a_project_reports_whether_it_was_there() {
    let projects = vec![project(3, "Socle", true), project(7, "Claims", true)];
    let (rest, removed) = delete_project_by_id(&projects, 3);
    assert!(removed);
    assert_eq!(rest.len(), 1);
    assert_eq!(rest[0].name, "Claims");
    let (same, removed_again) = delete_project_by_id(&rest, 3);
    assert!(!removed_again);
    assert_eq!(same.len(), 1);
}

fn tag(id: i64, name: &str, active: bool) -> Tag {
    Tag {
        id: Some(id),
        name: name.to_string(),
        description: None,
        color: "#6c757d".to_string(),
        active,
        created_at: None,
        updated_at: None,
    }
}

#[test]
fn inactive_tags_are_filtered_out() {
    let tags = vec![tag(1, "bug", true), tag(2, "vieux", false)];
    let active = filter_active_tags(&tags);
    assert_eq!(active.len(), 1);
    assert_eq!(active[0].name, "bug");
    assert_eq!(find_tag_index(&tags, 2), Some(1));
    assert_eq!(find_tag_index(&tags, 9), None);
}
