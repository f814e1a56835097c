use rei_manga::rename::{
    assign_sequence_numbers, build_warnings, detect_volume_number, extract_numeric_suffix,
    natural_sort_indices, plan_rename, renamed_file_name, DirEntryInfo,
};
use rei_manga::volumes::{
    analyze_manga_directory, default_extension, default_pad, normalized_extension, normalized_pad,
    rename_target, rename_temp_name, rename_warnings, scan_child_directory, MangaSourceMode,
    RenameError, RenameSplitOptions, SourceEntry,
};

fn file(name: &str) -> DirEntryInfo {
    DirEntryInfo { name: name.to_string(), is_dir: false }
}

fn dir(name: &str) -> DirEntryInfo {
    DirEntryInfo { name: name.to_string(), is_dir: true }
}

fn no_split() -> RenameSplitOptions {
    RenameSplitOptions { enabled: false, workspace: None, report_path: None, summary: None, warnings: None }
}

#[test]
fn rename_dry_run_collects_preview_without_touching_files() {
    let listing = vec![file("page10.png"), file("page1.jpg"), file("page02.jpeg")];
    let target = rename_target("/tmp/volume", &no_split(), false).expect("rename target");
    let plan = plan_rename(&listing, normalized_pad(4), normalized_extension("jpg").as_str()).expect("rename result");
    assert_eq!(plan.entries.len(), 3);
    let mut renamed: Vec<&str> = plan.entries.iter().map(|entry| entry.renamed_name.as_str()).collect();
    renamed.sort();
    assert_eq!(renamed, ["0001.jpg", "0002.jpg", "0010.jpg"]);
    assert!(!target.split_applied);
    assert!(target.split_workspace.is_none());
}

#[test]
fn rename_prefers_numeric_suffix_when_available() {
    let listing = vec![file("Dl-Raw.net-01.jpg"), file("Dl-Raw.net-010.jpg"), file("Dl-Raw.net-0100.jpg")];
    let plan = plan_rename(&listing, 4, "jpg").expect("rename result");
    let mut targets: Vec<String> = plan.entries.iter().map(|entry| entry.renamed_name.clone()).collect();
    targets.sort();
    assert_eq!(targets, vec!["0001.jpg", "0010.jpg", "0100.jpg"]);
}

#[test]
fn rename_orders_naturally_and_skips_non_images() {
    let listing = vec![file("p2.png"), dir("extras"), file("p10.png"), file("notes.txt"), file("p1.png")];
    let plan = plan_rename(&listing, 3, "png").unwrap();
    let originals: Vec<&str> = plan.entries.iter().map(|e| e.original_name.as_str()).collect();
    assert_eq!(originals, ["p1.png", "p2.png", "p10.png"]);
    let renamed: Vec<&str> = plan.entries.iter().map(|e| e.renamed_name.as_str()).collect();
    assert_eq!(renamed, ["001.png", "002.png", "010.png"]);
    assert_eq!(plan.skipped, vec!["extras/".to_string(), "notes.txt".to_string()]);
    assert_eq!(plan.warnings, vec!["Skipped 2 non-image entries: extras/, notes.txt".to_string()]);
    assert!(plan_rename(&vec![file("a.txt")], 4, "jpg").is_none());
}

#[test]
fn sequence_numbers_fill_gaps_and_avoid_duplicates() {
    let numbers = assign_sequence_numbers(&vec![Some(2), None, Some(2), Some(0), None]);
    assert_eq!(numbers, vec![2, 1, 3, 4, 5]);
}

#[test]
fn numeric_suffix_and_volume_numbers() {
    assert_eq!(extract_numeric_suffix("page_012.jpg"), Some(12));
    assert_eq!(extract_numeric_suffix("cover"), None);
    assert_eq!(detect_volume_number("Vol_01"), Some(1));
    assert_eq!(detect_volume_number("Special 3"), Some(3));
    assert_eq!(detect_volume_number("Part 2 v99999999999"), Some(2));
    assert_eq!(detect_volume_number("extras"), None);
}

#[test]
fn warnings_preview_five_entries() {
    let skipped: Vec<String> = (1..=7).map(|i| format!("f{}", i)).collect();
    assert_eq!(build_warnings(&skipped), vec!["Skipped 7 non-image entries: f1, f2, f3, f4, f5 (+2 more)".to_string()]);
    assert!(build_warnings(&Vec::new()).is_empty());
    let merged = rename_warnings(&vec!["x".to_string()], Some(&vec!["split done".to_string()]));
    assert_eq!(merged, vec!["Skipped 1 non-image entries: x".to_string(), "split done".to_string()]);
}

#[test]
fn natural_order_of_names() {
    let names = vec!["b10".to_string(), "b2".to_string(), "a".to_string()];
    assert_eq!(natural_sort_indices(&names), vec![2, 1, 0]);
    assert_eq!(renamed_file_name(7, 4, "jpg"), "0007.jpg");
}

#[test]
fn rename_defaults_and_setup() {
    assert_eq!(default_pad(), 4);
    assert_eq!(default_extension(), "jpg");
    assert_eq!(normalized_pad(0), 1);
    assert_eq!(normalized_extension("JPG"), "jpg");
    assert_eq!(rename_temp_name(4242, 7), ".rei_tmp_4242_0007");
    let split = RenameSplitOptions { enabled: true, workspace: None, report_path: None, summary: None, warnings: None };
    match rename_target("/src", &split, false) {
        Err(RenameError::SplitWorkspaceMissing(p)) => assert_eq!(p, "/src"),
        other => panic!("unexpected {:?}", other),
    }
    let split = RenameSplitOptions { enabled: true, workspace: Some("/ws".to_string()), report_path: None, summary: None, warnings: None };
    let t = rename_target("/src", &split, true).unwrap();
    assert_eq!(t.working_directory, "/ws");
    assert!(t.split_applied);
    assert_eq!(t.source_directory.as_deref(), Some("/src"));
    assert_eq!(RenameError::EmptyDirectory("/x".to_string()).message(), "no image files found in /x");
}

#[test]
fn analyze_directory_single_volume_detects_root_images() {
    let entries = vec![
        SourceEntry { name: "001.png".to_string(), path: "/r/001.png".to_string(), is_dir: false, children: Vec::new() },
        SourceEntry { name: "002.jpeg".to_string(), path: "/r/002.jpeg".to_string(), is_dir: false, children: Vec::new() },
        SourceEntry { name: "notes.txt".to_string(), path: "/r/notes.txt".to_string(), is_dir: false, children: Vec::new() },
    ];
    let analysis = analyze_manga_directory("/r", &entries, None).expect("analysis");
    assert_eq!(analysis.mode, MangaSourceMode::SingleVolume);
    assert_eq!(analysis.root_image_count, 2);
    assert_eq!(analysis.total_images, 2);
    assert!(analysis.volume_candidates.is_empty());
    assert!(analysis.skipped_entries.iter().any(|item| item.contains("notes.txt")));
}

#[test]
fn analyze_directory_multi_volume_collects_candidates() {
    let entries = vec![
        SourceEntry { name: "Vol_01".to_string(), path: "/r/Vol_01".to_string(), is_dir: true, children: vec![file("p1.jpg"), file("p2.jpg")] },
        SourceEntry { name: "Special 3".to_string(), path: "/r/Special 3".to_string(), is_dir: true, children: vec![file("scan.png")] },
    ];
    let analysis = analyze_manga_directory("/r", &entries, None).expect("analysis");
    assert_eq!(analysis.mode, MangaSourceMode::MultiVolume);
    assert_eq!(analysis.root_image_count, 0);
    assert_eq!(analysis.total_images, 3);
    assert_eq!(analysis.volume_candidates.len(), 2);
    let mut numbers: Vec<Option<u32>> = analysis.volume_candidates.iter().map(|item| item.detected_number).collect();
    numbers.sort();
    assert_eq!(numbers, vec![Some(1), Some(3)]);
    assert_eq!(analysis.volume_candidates[0].folder_name, "Special 3");
}

#[test]
fn analyze_reports_empty_directories() {
    let entries = vec![
        SourceEntry { name: "empty".to_string(), path: "/r/empty".to_string(), is_dir: true, children: vec![dir("sub"), file("x.txt")] },
    ];
    match analyze_manga_directory("/r", &entries, None) {
        Err(RenameError::EmptyDirectory(p)) => assert_eq!(p, "/r"),
        other => panic!("unexpected {:?}", other),
    }
    let (count, skipped) = scan_child_directory(&vec![dir("sub"), file("x.txt"), file("a.PNG")]);
    assert_eq!(count, 1);
    assert_eq!(skipped, vec!["sub/".to_string(), "x.txt".to_string()]);
}

#[test]
fn single_volume_with_one_folder_counts_everything() {
    let entries = vec![
        SourceEntry { name: "cover.jpg".to_string(), path: "/r/cover.jpg".to_string(), is_dir: false, children: Vec::new() },
        SourceEntry { name: "bonus".to_string(), path: "/r/bonus".to_string(), is_dir: true, children: vec![file("b1.png"), dir("raw")] },
    ];
    let analysis = analyze_manga_directory("/r", &entries, None).unwrap();
    assert_eq!(analysis.mode, MangaSourceMode::SingleVolume);
    assert_eq!(analysis.total_images, 2);
    assert_eq!(analysis.skipped_entries, vec!["bonus/raw/".to_string()]);
}
