use rei_manga::regions::BoundingBox;
use rei_manga::split::{
    accelerator_used, aggregate_outcomes, clamp_i32, emit_progress, ensure_odd, entry_targets,
    final_split_column, process_entry, resolve_accelerator_directive, safe_split_column,
    tries_gpu, unreadable_entry, AcceleratorDirective, EdgeTextureAccelerator,
    EdgeTextureAcceleratorPreference, EdgeTextureGpuError, EntryDecision, ProgressSequencer,
    SplitBoundingBox, SplitMode, SplitModeSelector, SplitPrimaryMode, SplitProgress,
    SplitProgressStage,
};

#[test]
fn progress_events_come_out_in_file_order() {
    let mut seq = ProgressSequencer::new(3);
    let init = seq.initial_event();
    assert_eq!(init.stage, SplitProgressStage::Initializing);
    assert_eq!(init.processed_files, 0);
    let first = seq.complete(2, "c.png".to_string());
    assert!(first.is_empty());
    let second = seq.complete(0, "a.png".to_string());
    assert_eq!(second.len(), 1);
    assert_eq!(second[0].processed_files, 1);
    assert_eq!(second[0].current_file.as_deref(), Some("a.png"));
    let third = seq.complete(1, "b.png".to_string());
    let names: Vec<Option<&str>> = third.iter().map(|e| e.current_file.as_deref()).collect();
    assert_eq!(names, vec![Some("b.png"), Some("c.png")]);
    let counts: Vec<usize> = third.iter().map(|e| e.processed_files).collect();
    assert_eq!(counts, vec![2, 3]);
    let done = seq.final_event();
    assert_eq!(done.stage, SplitProgressStage::Completed);
    assert_eq!(done.processed_files, 3);
    assert_eq!(done.total_files, 3);
}

#[test]
fn emit_progress_only_with_a_listener() {
    let mut none: Option<Vec<SplitProgress>> = None;
    emit_progress(&mut none, SplitProgress { total_files: 1, processed_files: 0, current_file: None, stage: SplitProgressStage::Initializing });
    assert!(none.is_none());
    let mut log = Some(Vec::new());
    emit_progress(&mut log, SplitProgress { total_files: 1, processed_files: 1, current_file: Some("x".to_string()), stage: SplitProgressStage::Processing });
    assert_eq!(log.unwrap().len(), 1);
}

#[test]
fn small_helpers() {
    assert_eq!(ensure_odd(0), 1);
    assert_eq!(ensure_odd(4), 5);
    assert_eq!(ensure_odd(7), 7);
    assert_eq!(ensure_odd(u32::MAX), u32::MAX);
    assert_eq!(clamp_i32(-3, 0, 10), 0);
    assert_eq!(clamp_i32(30, 0, 10), 10);
    assert_eq!(clamp_i32(5, 0, 10), 5);
    assert_eq!(SplitModeSelector::default_primary(), SplitPrimaryMode::EdgeTexture);
    assert_eq!(SplitModeSelector::default_fallback(), SplitPrimaryMode::Projection);
    assert_eq!(
        SplitModeSelector::default(),
        SplitModeSelector::Hybrid { primary: SplitPrimaryMode::EdgeTexture, fallback: SplitPrimaryMode::Projection }
    );
    let b = SplitBoundingBox::from_bbox(BoundingBox { x0: 4, y0: 5, x1: 14, y1: 25 });
    assert_eq!(b, SplitBoundingBox { x: 4, y: 5, width: 10, height: 20 });
    assert_eq!(EdgeTextureAcceleratorPreference::default(), EdgeTextureAcceleratorPreference::Auto);
}

#[test]
fn split_columns_stay_inside_the_page() {
    assert_eq!(safe_split_column(None, 1000), 500);
    assert_eq!(safe_split_column(Some(0), 1000), 1);
    assert_eq!(safe_split_column(Some(5000), 1000), 999);
    assert_eq!(safe_split_column(Some(300), 1000), 300);
    assert_eq!(safe_split_column(None, 1), 1);
    assert_eq!(final_split_column(1920, 700, true), 960);
    assert_eq!(final_split_column(1920, 700, false), 700);
}

#[test]
fn accelerator_directives() {
    let d = resolve_accelerator_directive(Some("  CPU "), EdgeTextureAcceleratorPreference::Gpu, false);
    assert_eq!(d, AcceleratorDirective::ForceCpu);
    assert_eq!(resolve_accelerator_directive(Some("mock-gpu"), EdgeTextureAcceleratorPreference::Auto, true), AcceleratorDirective::MockGpu);
    assert_eq!(resolve_accelerator_directive(Some("mock-gpu"), EdgeTextureAcceleratorPreference::Auto, false), AcceleratorDirective::Auto);
    assert_eq!(resolve_accelerator_directive(Some("weird"), EdgeTextureAcceleratorPreference::Cpu, false), AcceleratorDirective::Auto);
    assert_eq!(resolve_accelerator_directive(None, EdgeTextureAcceleratorPreference::Cpu, false), AcceleratorDirective::ForceCpu);
    assert!(tries_gpu(AcceleratorDirective::Auto));
    assert!(!tries_gpu(AcceleratorDirective::ForceCpu));
    assert_eq!(accelerator_used(AcceleratorDirective::ForceCpu, true), EdgeTextureAccelerator::Cpu);
    assert_eq!(accelerator_used(AcceleratorDirective::MockGpu, false), EdgeTextureAccelerator::Gpu);
    assert_eq!(accelerator_used(AcceleratorDirective::Auto, false), EdgeTextureAccelerator::Cpu);
    assert_eq!(accelerator_used(AcceleratorDirective::ForceGpu, true), EdgeTextureAccelerator::Gpu);
    assert_eq!(EdgeTextureGpuError::AdapterUnavailable.message(), "edge texture GPU adapter unavailable");
    assert_eq!(EdgeTextureGpuError::Execution("oom".to_string()).message(), "edge texture GPU execution failed: oom");
}

#[test]
fn split_pages_write_right_then_left() {
    let targets = entry_targets("double_page_story.png", Some("/ws"), EntryDecision::Split { split_x: 460, fallback: false });
    assert_eq!(targets, vec!["/ws/double_page_story_R.png".to_string(), "/ws/double_page_story_L.png".to_string()]);
    let cover = entry_targets("cover_layout.png", Some("/ws/"), EntryDecision::CoverTrim);
    assert_eq!(cover, vec!["/ws/cover_layout_cover.png".to_string()]);
    assert!(entry_targets("a.png", None, EntryDecision::Skip).is_empty());
    let skip = entry_targets("a.png", Some("/ws"), EntryDecision::Skip);
    assert_eq!(skip, vec!["/ws/a.png".to_string()]);
}

#[test]
fn entry_outcomes_count_what_was_written() {
    let targets = vec!["/ws/p_R.png".to_string(), "/ws/p_L.png".to_string()];
    let o = process_entry(3, "/src/p.png", EntryDecision::Split { split_x: 40, fallback: true }, &targets, &vec![None, Some("disk full".to_string())]);
    assert_eq!(o.index, 3);
    assert_eq!(o.mode, Some(SplitMode::FallbackCenter));
    assert_eq!(o.split_x, Some(40));
    assert_eq!(o.outputs, targets);
    assert_eq!(o.emitted_files, 1);
    assert_eq!(o.split_pages, 1);
    assert_eq!(o.fallback_splits, 1);
    assert_eq!(o.warnings, vec!["failed to write /ws/p_L.png: disk full".to_string()]);

    let skip = process_entry(0, "/src/q.png", EntryDecision::Skip, &vec!["/ws/q.png".to_string()], &vec![Some("denied".to_string())]);
    assert_eq!(skip.skipped_files, 1);
    assert!(skip.outputs.is_empty());
    assert_eq!(skip.warnings, vec!["failed to copy /src/q.png into workspace: denied".to_string()]);

    let bad = unreadable_entry(1, "/src/r.png", "truncated");
    assert_eq!(bad.skipped_files, 1);
    assert_eq!(bad.mode, None);
    assert_eq!(bad.warnings, vec!["failed to read /src/r.png: truncated".to_string()]);
}

#[test]
fn totals_follow_file_order() {
    let a = unreadable_entry(1, "/s/b.png", "x");
    let b = process_entry(0, "/s/a.png", EntryDecision::CoverTrim, &vec!["/w/a_cover.png".to_string()], &vec![None]);
    let c = process_entry(2, "/s/c.png", EntryDecision::Split { split_x: 9, fallback: false }, &vec!["/w/c_R.png".to_string(), "/w/c_L.png".to_string()], &vec![None, None]);
    let totals = aggregate_outcomes(&vec![a, b, c]);
    assert_eq!(totals.order, vec![1, 0, 2]);
    assert_eq!(totals.emitted_files, 3);
    assert_eq!(totals.skipped_files, 1);
    assert_eq!(totals.cover_trims, 1);
    assert_eq!(totals.split_pages, 1);
    assert_eq!(totals.fallback_splits, 0);
    assert_eq!(totals.warnings, vec!["failed to read /s/b.png: x".to_string()]);
}

#[test]
fn final_split_column_stays_inside() {
    assert_eq!(final_split_column(100, 0, false), 1);
    assert_eq!(final_split_column(100, 250, false), 99);
    assert_eq!(final_split_column(100, 70, true), 50);
    assert_eq!(final_split_column(100, 42, false), 42);
    assert_eq!(final_split_column(1, 0, true), 1);
    for width in 2u32..40 {
        for candidate in 0u32..45 {
            for clamped in [false, true] {
                let x = final_split_column(width, candidate, clamped);
                assert!(1 <= x && x < width);
            }
        }
    }
}

#[test]
fn walks_skip_the_cache_folder() {
    assert!(rei_manga::split::should_descend(0, true, Some(".rei_cache")));
    assert!(!rei_manga::split::should_descend(1, true, Some(".rei_cache")));
    assert!(rei_manga::split::should_descend(2, false, Some(".rei_cache")));
    assert!(rei_manga::split::should_descend(1, true, Some("vol1")));
    assert!(rei_manga::split::should_descend(1, true, None));
    assert_eq!(
        rei_manga::split::split_session_path("/books/vol1", "20240101-120000"),
        "/books/vol1/.rei_cache/doublepage/session-20240101-120000"
    );
    assert_eq!(
        rei_manga::split::split_session_path("/books/", "x"),
        "/books/.rei_cache/doublepage/session-x"
    );
}
