use skync::config::{Config, Source, Target};
use skync::consolidate::{desired_links, reconcile, LibEntry};
use skync::discover::{basename_exec, discover_all, discover_source, join_path_exec, ScanEntry, SourceScan};
use skync::health::{count_broken_links, HealthEntry, HealthScan};
use skync::propagate::{enabled_targets, summarize_pass, ActionReport};
use skync::render::{
    discovery_failed_message, find_skill, list_skills_text, lookup_skill, not_found_message,
    skill_line_exec, usize_to_string, SkillLookup,
};

fn entry(name: &str, is_dir: bool, has_marker: bool) -> ScanEntry {
    ScanEntry { name: name.to_string(), is_dir, has_marker }
}

fn source(path: &str) -> Source {
    Source { path: path.to_string() }
}

fn config(sources: Vec<Source>) -> Config {
    Config { library_dir: "/lib".to_string(), sources, targets: Vec::new() }
}

fn link_entry(name: &str, target: &str) -> LibEntry {
    LibEntry { name: name.to_string(), is_link: true, target: target.to_string() }
}

fn plain_entry(name: &str) -> LibEntry {
    LibEntry { name: name.to_string(), is_link: false, target: String::new() }
}

#[test]
fn paths_join_and_basename() {
    assert_eq!(join_path_exec("/src/a", "foo"), "/src/a/foo");
    assert_eq!(basename_exec("/src/a"), "a");
    assert_eq!(basename_exec("plain"), "plain");
    assert_eq!(basename_exec("/src/a/"), "");
    assert_eq!(basename_exec(""), "");
}

#[test]
fn decimal_rendering() {
    assert_eq!(usize_to_string(0), "0");
    assert_eq!(usize_to_string(7), "7");
    assert_eq!(usize_to_string(10), "10");
    assert_eq!(usize_to_string(42), "42");
    assert_eq!(usize_to_string(905), "905");
}

#[test]
fn discovery_filters_entries() {
    let src = source("/src/a");
    let scan = SourceScan {
        readable: true,
        entries: vec![
            entry("foo", true, true),
            entry("notes.txt", false, false),
            entry("empty", true, false),
            entry("stray-marker", false, true),
            entry("bar", true, true),
        ],
    };
    let skills = discover_source(&src, &scan);
    assert_eq!(skills.len(), 2);
    assert_eq!(skills[0].name, "foo");
    assert_eq!(skills[0].source_name, "a");
    assert_eq!(skills[0].path, "/src/a/foo");
    assert_eq!(skills[1].name, "bar");
    assert_eq!(skills[1].path, "/src/a/bar");
}

#[test]
fn unreadable_source_contributes_nothing() {
    let cfg = config(vec![source("/src/gone"), source("/src/a")]);
    let scans = vec![
        SourceScan { readable: false, entries: Vec::new() },
        SourceScan { readable: true, entries: vec![entry("foo", true, true)] },
    ];
    let skills = discover_all(&cfg, &scans);
    assert_eq!(skills.len(), 1);
    assert_eq!(skills[0].name, "foo");
}

#[test]
fn discovery_keeps_duplicates_across_sources() {
    let cfg = config(vec![source("/src/a"), source("/src/b")]);
    let scans = vec![
        SourceScan { readable: true, entries: vec![entry("dup", true, true)] },
        SourceScan { readable: true, entries: vec![entry("dup", true, true)] },
    ];
    let skills = discover_all(&cfg, &scans);
    assert_eq!(skills.len(), 2);
    assert_eq!(skills[0].source_name, "a");
    assert_eq!(skills[1].source_name, "b");
}

#[test]
fn collision_first_source_wins() {
    let scans = vec![
        SourceScan { readable: true, entries: vec![entry("dup", true, true)] },
        SourceScan { readable: true, entries: vec![entry("dup", true, true)] },
    ];
    let cfg_ab = config(vec![source("/src/a"), source("/src/b")]);
    let links_ab = desired_links(&discover_all(&cfg_ab, &scans));
    assert_eq!(links_ab.len(), 1);
    assert_eq!(links_ab[0].name, "dup");
    assert_eq!(links_ab[0].target, "/src/a/dup");

    let cfg_ba = config(vec![source("/src/b"), source("/src/a")]);
    let links_ba = desired_links(&discover_all(&cfg_ba, &scans));
    assert_eq!(links_ba.len(), 1);
    assert_eq!(links_ba[0].target, "/src/b/dup");
}

#[test]
fn reconcile_creates_removes_and_keeps() {
    let desired = vec![
        skync::consolidate::Link { name: "keep".to_string(), target: "/src/a/keep".to_string() },
        skync::consolidate::Link { name: "new".to_string(), target: "/src/a/new".to_string() },
        skync::consolidate::Link { name: "move".to_string(), target: "/src/a/move".to_string() },
    ];
    let existing = vec![
        link_entry("keep", "/src/a/keep"),
        link_entry("stale", "/src/old/stale"),
        link_entry("move", "/src/b/move"),
    ];
    let plan = reconcile(&desired, &existing);
    let created: Vec<&str> = plan.create.iter().map(|l| l.name.as_str()).collect();
    assert_eq!(created, vec!["new", "move"]);
    assert_eq!(plan.create[1].target, "/src/a/move");
    assert_eq!(plan.remove, vec!["stale".to_string()]);
    assert!(plan.conflicts.is_empty());
}

#[test]
fn reconcile_reports_conflicts_untouched() {
    let desired = vec![skync::consolidate::Link {
        name: "blocked".to_string(),
        target: "/src/a/blocked".to_string(),
    }];
    let existing = vec![plain_entry("blocked")];
    let plan = reconcile(&desired, &existing);
    assert!(plan.create.is_empty());
    assert!(plan.remove.is_empty());
    assert_eq!(plan.conflicts, vec!["blocked".to_string()]);
}

#[test]
fn reconcile_is_idempotent() {
    let cfg = config(vec![source("/src/a")]);
    let scans = vec![SourceScan {
        readable: true,
        entries: vec![entry("foo", true, true), entry("bar", true, true)],
    }];
    let desired = desired_links(&discover_all(&cfg, &scans));

    // First pass over an empty directory: everything is created.
    let first = reconcile(&desired, &Vec::new());
    assert_eq!(first.create.len(), 2);
    assert!(first.remove.is_empty());

    // Perform the plan: the directory now lists exactly the created links.
    let after: Vec<LibEntry> = first
        .create
        .iter()
        .map(|l| link_entry(l.name.as_str(), l.target.as_str()))
        .collect();

    // Second pass with no filesystem change: nothing to create or remove.
    let second = reconcile(&desired, &after);
    assert!(second.create.is_empty());
    assert!(second.remove.is_empty());
    assert!(second.conflicts.is_empty());
}

#[test]
fn stale_link_is_cleaned_up() {
    let cfg = config(vec![source("/src/a")]);
    let full_scans = vec![SourceScan {
        readable: true,
        entries: vec![entry("foo", true, true), entry("bar", true, true)],
    }];
    let desired = desired_links(&discover_all(&cfg, &full_scans));
    let first = reconcile(&desired, &Vec::new());
    let after: Vec<LibEntry> = first
        .create
        .iter()
        .map(|l| link_entry(l.name.as_str(), l.target.as_str()))
        .collect();

    // "bar" disappears from its source; consolidation re-runs.
    let smaller_scans = vec![SourceScan { readable: true, entries: vec![entry("foo", true, true)] }];
    let desired2 = desired_links(&discover_all(&cfg, &smaller_scans));
    let second = reconcile(&desired2, &after);
    assert!(second.create.is_empty());
    assert_eq!(second.remove, vec!["bar".to_string()]);
}

#[test]
fn broken_links_are_counted_non_links_are_not() {
    let scan = HealthScan {
        readable: true,
        entries: vec![
            HealthEntry { name: "dangling".to_string(), is_link: true, referent_exists: false },
            HealthEntry { name: "healthy".to_string(), is_link: true, referent_exists: true },
            HealthEntry { name: "missing-file".to_string(), is_link: false, referent_exists: false },
        ],
    };
    assert_eq!(count_broken_links(&scan), 1);
}

#[test]
fn unreadable_directory_counts_zero() {
    let scan = HealthScan { readable: false, entries: Vec::new() };
    assert_eq!(count_broken_links(&scan), 0);
}

#[test]
fn disabled_targets_are_skipped() {
    let targets = vec![
        Target { name: "one".to_string(), enabled: true, path: "/t/one".to_string() },
        Target { name: "two".to_string(), enabled: false, path: "/t/two".to_string() },
        Target { name: "three".to_string(), enabled: true, path: "/t/three".to_string() },
    ];
    let chosen = enabled_targets(&targets);
    let names: Vec<&str> = chosen.iter().map(|t| t.name.as_str()).collect();
    assert_eq!(names, vec!["one", "three"]);
}

#[test]
fn pass_summary_collects_failures() {
    let create_reports = vec![
        ActionReport { name: "ok1".to_string(), failed: false, detail: String::new() },
        ActionReport { name: "bad".to_string(), failed: true, detail: "permission denied".to_string() },
        ActionReport { name: "ok2".to_string(), failed: false, detail: String::new() },
    ];
    let remove_reports = vec![ActionReport {
        name: "gone".to_string(),
        failed: true,
        detail: "not found".to_string(),
    }];
    let report = summarize_pass(vec!["blocked".to_string()], &create_reports, &remove_reports);
    assert_eq!(report.created, 2);
    assert_eq!(report.removed, 0);
    assert_eq!(report.failures.len(), 2);
    assert_eq!(report.failures[0].name, "bad");
    assert_eq!(report.failures[0].detail, "permission denied");
    assert_eq!(report.failures[1].name, "gone");
    assert_eq!(report.conflicts, vec!["blocked".to_string()]);
}

#[test]
fn end_to_end_single_skill() {
    let cfg = config(vec![source("/src/a")]);
    let scans = vec![SourceScan { readable: true, entries: vec![entry("foo", true, true)] }];
    let skills = discover_all(&cfg, &scans);
    assert_eq!(skills.len(), 1);
    assert_eq!(skills[0].name, "foo");
    assert_eq!(skills[0].source_name, "a");
    assert_eq!(skills[0].path, "/src/a/foo");

    let text = list_skills_text(&skills);
    assert_eq!(text, "1 skill(s) found:\n- foo (source: a, path: /src/a/foo)");

    match lookup_skill(&skills, &"foo".to_string()) {
        SkillLookup::Found(sk) => {
            assert_eq!(sk.path, "/src/a/foo");
        }
        SkillLookup::NotFound(_) => panic!("foo should be found"),
    }
    match lookup_skill(&skills, &"bar".to_string()) {
        SkillLookup::Found(_) => panic!("bar should not be found"),
        SkillLookup::NotFound(msg) => {
            assert_eq!(msg, "Skill 'bar' not found. Use list_skills to see available skills.");
        }
    }
}

#[test]
fn listing_of_two_skills_and_of_none() {
    let cfg = config(vec![source("/src/a")]);
    let scans = vec![SourceScan {
        readable: true,
        entries: vec![entry("foo", true, true), entry("bar", true, true)],
    }];
    let skills = discover_all(&cfg, &scans);
    let text = list_skills_text(&skills);
    assert_eq!(
        text,
        "2 skill(s) found:\n- foo (source: a, path: /src/a/foo)\n- bar (source: a, path: /src/a/bar)"
    );

    let none = list_skills_text(&Vec::new());
    assert_eq!(none, "No skills found. Run `skync init` to configure sources.");
}

#[test]
fn skill_line_format() {
    let sk = skync::discover::Skill {
        name: "foo".to_string(),
        source_name: "a".to_string(),
        path: "/src/a/foo".to_string(),
    };
    assert_eq!(skill_line_exec(&sk), "- foo (source: a, path: /src/a/foo)");
}

#[test]
fn lookup_is_case_sensitive_and_first_match() {
    let cfg = config(vec![source("/src/a"), source("/src/b")]);
    let scans = vec![
        SourceScan { readable: true, entries: vec![entry("dup", true, true)] },
        SourceScan { readable: true, entries: vec![entry("dup", true, true)] },
    ];
    let skills = discover_all(&cfg, &scans);
    assert_eq!(find_skill(&skills, &"dup".to_string()), Some(0));
    assert_eq!(find_skill(&skills, &"DUP".to_string()), None);
    match lookup_skill(&skills, &"dup".to_string()) {
        SkillLookup::Found(sk) => assert_eq!(sk.source_name, "a"),
        SkillLookup::NotFound(_) => panic!("dup should be found"),
    }
}

#[test]
fn error_messages() {
    assert_eq!(
        not_found_message(&"x".to_string()),
        "Skill 'x' not found. Use list_skills to see available skills."
    );
    assert_eq!(
        discovery_failed_message(&"boom".to_string()),
        "discovery failed: boom"
    );
}
