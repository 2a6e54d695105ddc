use sigma_info::specs::{
    compare_spec_sources, is_spec_markdown, sort_spec_sources, spec_id_from_filename,
    spec_file_positions, spec_label_from_filename, spec_sources_from_files, tab_rank_of, title_from_snake_case,
    CacheState, SpecDocumentView, SpecSource,
};
use std::cmp::Ordering;
use std::time::{Duration, Instant};

fn source(id: &str, label: &str) -> SpecSource {
    SpecSource {
        id: id.into(),
        label: label.into(),
        markdown: String::new(),
    }
}

#[test]
fn maps_repo_filenames_to_tab_ids() {
    assert_eq!(spec_id_from_filename("README.md"), "overview");
    assert_eq!(spec_id_from_filename("chassis.md"), "chassis");
    assert_eq!(
        spec_id_from_filename("emissions_certification.md"),
        "emissions"
    );
    assert_eq!(spec_label_from_filename("efi.md"), "Efi");
}

#[test]
fn skips_non_spec_root_markdown() {
    assert!(!is_spec_markdown("BRANDING.md"));
    assert!(!is_spec_markdown("branding.md"));
    assert!(!is_spec_markdown("LICENSE.md"));
    assert!(!is_spec_markdown("CONTRIBUTING.md"));
    assert!(!is_spec_markdown("Cargo.toml"));
    assert!(is_spec_markdown("README.md"));
    assert!(is_spec_markdown("engine.md"));
    assert!(is_spec_markdown("emissions_certification.md"));
}

#[test]
fn orders_known_tabs_before_unknown_alphabetically() {
    let mut sources = [
        SpecSource {
            id: "zzz".into(),
            label: "Zzz".into(),
            markdown: String::new(),
        },
        SpecSource {
            id: "engine".into(),
            label: "Engine".into(),
            markdown: String::new(),
        },
        SpecSource {
            id: "overview".into(),
            label: "Overview".into(),
            markdown: String::new(),
        },
    ];
    sources.sort_by(compare_spec_sources);
    assert_eq!(
        sources.iter().map(|s| s.id.as_str()).collect::<Vec<_>>(),
        vec!["overview", "engine", "zzz"]
    );
}

#[test]
fn sort_spec_sources_matches_sort_by_compare() {
    let sources = vec![
        source("zzz", "Zzz"),
        source("aaa", "Aaa"),
        source("emissions", "Emissions"),
        source("engine", "Engine"),
        source("overview", "Overview"),
        source("build", "Build"),
    ];
    let sorted = sort_spec_sources(&sources);
    assert_eq!(
        sorted.iter().map(|s| s.id.as_str()).collect::<Vec<_>>(),
        vec!["overview", "build", "engine", "emissions", "aaa", "zzz"]
    );
    let mut by_std = sources.clone();
    by_std.sort_by(compare_spec_sources);
    assert_eq!(
        by_std.iter().map(|s| s.id.as_str()).collect::<Vec<_>>(),
        sorted.iter().map(|s| s.id.as_str()).collect::<Vec<_>>()
    );
}

#[test]
fn sort_spec_sources_is_stable_for_equal_keys() {
    let mut first = source("misc", "Misc");
    first.markdown = "first".into();
    let mut second = source("misc", "Misc");
    second.markdown = "second".into();
    let sorted = sort_spec_sources(&vec![first, source("engine", "Engine"), second]);
    assert_eq!(sorted[0].id, "engine");
    assert_eq!(sorted[1].markdown, "first");
    assert_eq!(sorted[2].markdown, "second");
}

#[test]
fn compare_spec_sources_is_antisymmetric() {
    let a = source("engine", "Engine");
    let b = source("zzz", "Zzz");
    assert_eq!(compare_spec_sources(&a, &b), Ordering::Less);
    assert_eq!(compare_spec_sources(&b, &a), Ordering::Greater);
    assert_eq!(compare_spec_sources(&a, &a), Ordering::Equal);
}

#[test]
fn unknown_tabs_compare_by_label() {
    let a = source("x", "Alpha");
    let b = source("y", "Beta");
    assert_eq!(compare_spec_sources(&a, &b), Ordering::Less);
    let c = source("z", "Alpha");
    assert_eq!(compare_spec_sources(&a, &c), Ordering::Equal);
}

#[test]
fn tab_ranks_follow_preferred_order() {
    assert_eq!(tab_rank_of("overview"), 0);
    assert_eq!(tab_rank_of("emissions"), 8);
    assert_eq!(tab_rank_of("unknown"), usize::MAX);
}

#[test]
fn non_spec_names_compare_ignoring_ascii_case_only() {
    assert!(!is_spec_markdown("Security.md"));
    assert!(!is_spec_markdown("code_of_conduct.md"));
    assert!(is_spec_markdown("LICENSE2.md"));
    assert!(!is_spec_markdown("README.MD"));
    assert!(!is_spec_markdown("notes.txt"));
    assert!(!is_spec_markdown(""));
}

#[test]
fn titles_from_snake_case() {
    assert_eq!(title_from_snake_case("emissions_certification"), "Emissions Certification");
    assert_eq!(title_from_snake_case("efi"), "Efi");
    assert_eq!(title_from_snake_case("a__b"), "A  B");
    assert_eq!(title_from_snake_case(""), "");
    assert_eq!(title_from_snake_case("_x_"), " X ");
    assert_eq!(title_from_snake_case("ßig"), "SSig");
}

#[test]
fn labels_and_ids_of_other_files() {
    assert_eq!(spec_label_from_filename("README.md"), "Overview");
    assert_eq!(spec_label_from_filename("emissions_certification.md"), "Emissions");
    assert_eq!(spec_label_from_filename("body_work.md"), "Body Work");
    assert_eq!(spec_id_from_filename("body_work.md"), "body_work");
    assert_eq!(spec_id_from_filename("notes.md.md"), "notes");
}

#[test]
fn spec_sources_from_files_builds_and_orders() {
    let files = vec![
        ("zeta_notes.md".to_string(), "z".to_string()),
        ("README.md".to_string(), "readme".to_string()),
        ("engine.md".to_string(), "e".to_string()),
    ];
    let sources = spec_sources_from_files(&files);
    let ids: Vec<&str> = sources.iter().map(|s| s.id.as_str()).collect();
    assert_eq!(ids, vec!["overview", "engine", "zeta_notes"]);
    assert_eq!(sources[0].label, "Overview");
    assert_eq!(sources[0].markdown, "readme");
    assert_eq!(sources[2].label, "Zeta Notes");
}

#[test]
fn cache_state_freshness() {
    let hour: u128 = 3_600_000_000_000;
    let empty = CacheState::empty();
    assert!(!empty.is_fresh(hour));
    let no_docs = CacheState {
        documents: None,
        fetched_at: Some(Instant::now()),
    };
    assert!(!no_docs.is_fresh(hour));
    let fresh = CacheState {
        documents: Some(vec![SpecDocumentView {
            id: "overview".into(),
            label: "Overview".into(),
            html: String::new(),
        }]),
        fetched_at: Some(Instant::now()),
    };
    assert!(fresh.is_fresh(hour));
    assert!(!fresh.is_fresh(0));
    assert!(fresh.is_fresh_given(5, 10));
    assert!(!fresh.is_fresh_given(10, 10));
    assert!(!fresh.is_fresh_given(10, 5));
    assert!(!empty.is_fresh_given(0, 10));
}

#[test]
fn stale_cache_state_is_not_fresh() {
    let fetched = Instant::now();
    while fetched.elapsed() < Duration::from_millis(2) {}
    let state = CacheState {
        documents: Some(Vec::new()),
        fetched_at: Some(fetched),
    };
    assert!(!state.is_fresh(1_000_000));
    assert!(state.is_fresh(3_600_000_000_000));
}

#[test]
fn spec_file_positions_keep_spec_files_in_listing_order() {
    let names: Vec<String> = ["LICENSE.md", "README.md", "Cargo.toml", "engine.md", "branding.md", "efi.md"]
        .iter()
        .map(|n| n.to_string())
        .collect();
    assert_eq!(spec_file_positions(&names), vec![1, 3, 5]);
    assert_eq!(spec_file_positions(&Vec::new()), Vec::<usize>::new());
}
