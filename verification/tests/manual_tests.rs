use rei_manga::manual::{
    check_template_export, default_manual_accelerator, default_manual_image_kind,
    default_overrides_version, derive_manual_output_paths, derive_manual_single_output_paths,
    emit_manual_progress, find_first_source, find_last_source, manual_workspace_root,
    order_manual_sources, plan_manual_item, positions_without, preview_crops, preview_path,
    preview_size, records_telemetry, report_summary, select_work_items, ManualApplyTally, ManualImageKind,
    ManualSplitError, ManualSplitProgress, PixelLines,
};
use rei_manga::regions::CropRect;
use rei_manga::split::EdgeTextureAcceleratorPreference;

fn strings(v: &[&str]) -> Vec<String> {
    v.iter().map(|s| s.to_string()).collect()
}

#[test]
fn manual_defaults() {
    assert_eq!(default_manual_image_kind(), ManualImageKind::Content);
    assert_eq!(ManualImageKind::default(), ManualImageKind::Content);
    assert_eq!(default_manual_accelerator(), EdgeTextureAcceleratorPreference::Auto);
    assert_eq!(default_overrides_version(), 2);
}

#[test]
fn manual_output_names() {
    let p = derive_manual_output_paths("/ws", "/ws/manual", "/src/page_001.png", Some("page_001.png")).unwrap();
    assert_eq!(p.right_root, "/ws/page_001_R.png");
    assert_eq!(p.left_root, "/ws/page_001_L.png");
    assert_eq!(p.right_manual, "/ws/manual/page_001_manual_R.png");
    assert_eq!(p.left_manual, "/ws/manual/page_001_manual_L.png");
    let e = derive_manual_output_paths("/ws", "/ws/manual", "/src/..", None).unwrap_err();
    assert_eq!(e, "invalid source filename: /src/..");
    let c = derive_manual_single_output_paths("/ws", "/ws/manual", "/s/page_003.png", Some("page_003.png"), ManualImageKind::Cover).unwrap();
    assert_eq!(c.root, "/ws/page_003_cover.png");
    assert_eq!(c.manual, "/ws/manual/page_003_manual_cover.png");
    let s = derive_manual_single_output_paths("/ws", "/ws/manual", "/s/page_004.png", Some("page_004.png"), ManualImageKind::Spread).unwrap();
    assert_eq!(s.root, "/ws/page_004_spread.png");
    let bad = derive_manual_single_output_paths("/ws", "/m", "/s/x.png", Some("x.png"), ManualImageKind::Content).unwrap_err();
    assert_eq!(bad, "unsupported image kind for single output: Content");
}

#[test]
fn work_items_keep_first_override_per_source() {
    let picked = select_work_items(&strings(&["/a.png", "/b.png", "/a.png", "/c.png", "/b.png"])).unwrap();
    assert_eq!(picked, vec![0, 1, 3]);
    match select_work_items(&Vec::new()) {
        Err(ManualSplitError::InvalidOverrides(m)) => assert_eq!(m, "no overrides provided"),
        other => panic!("unexpected {:?}", other),
    }
}

#[test]
fn content_pages_cut_at_their_guides() {
    let px = PixelLines { left_trim: 40, left_end: 980, right_start: 1020, right_trim: 1960 };
    let plan = plan_manual_item(ManualImageKind::Content, true, 2000, 1400, px).unwrap();
    assert_eq!(plan.crops, vec![
        CropRect { x: 40, y: 0, width: 940, height: 1400 },
        CropRect { x: 1020, y: 0, width: 940, height: 1400 },
    ]);
    assert!(!plan.rotate90);
    assert_eq!(plan.split_x, Some(1020));
    assert_eq!(plan.pixels, px);
    let bad = PixelLines { left_trim: 40, left_end: 40, right_start: 50, right_trim: 60 };
    assert!(plan_manual_item(ManualImageKind::Content, false, 2000, 1400, bad).is_none());
    assert!(plan_manual_item(ManualImageKind::Content, false, 0, 1400, px).is_none());
}

#[test]
fn spreads_keep_one_rotated_image() {
    let px = PixelLines { left_trim: 16, left_end: 800, right_start: 820, right_trim: 1584 };
    let plan = plan_manual_item(ManualImageKind::Spread, true, 1600, 900, px).unwrap();
    assert_eq!(plan.crops, vec![CropRect { x: 16, y: 0, width: 1568, height: 900 }]);
    assert!(plan.rotate90);
    assert_eq!(plan.split_x, None);
    assert_eq!(plan.pixels, PixelLines { left_trim: 16, left_end: 16, right_start: 1584, right_trim: 1584 });
}

#[test]
fn preview_geometry_and_names() {
    let px = PixelLines { left_trim: 10, left_end: 500, right_start: 520, right_trim: 1190 };
    let (l, r, g) = preview_crops(px, 800);
    assert_eq!(l, CropRect { x: 10, y: 0, width: 490, height: 800 });
    assert_eq!(r, CropRect { x: 520, y: 0, width: 670, height: 800 });
    assert_eq!(g, Some(CropRect { x: 500, y: 0, width: 20, height: 800 }));
    assert_eq!(preview_size(1200, 800, Some(600)), Some((600, 400)));
    assert_eq!(preview_size(400, 800, Some(600)), Some((400, 800)));
    assert_eq!(preview_size(3000, 1, Some(10)), Some((10, 1)));
    assert_eq!(preview_size(0, 800, None), None);
    assert_eq!(preview_path("/ws/previews", Some("page_010"), 255, "left"), "/ws/previews/page_010-ff-left.png");
    assert_eq!(preview_path("/p", None, 0, "gutter"), "/p/page-0-gutter.png");
}

#[test]
fn progress_summary_and_sources() {
    let mut log: Option<Vec<ManualSplitProgress>> = Some(Vec::new());
    emit_manual_progress(&mut log, "/ws", 2, 1, Some("/a.png"));
    let log = log.unwrap();
    assert_eq!(log[0].completed, 1);
    assert_eq!(log[0].current.as_deref(), Some("/a.png"));
    let s = report_summary("2025-10-07T03:05:00Z".to_string(), 3, 2, 1);
    assert_eq!((s.total, s.applied, s.skipped), (3, 2, 1));
    assert_eq!(manual_workspace_root("/src", None), "/src/split-manual");
    assert_eq!(manual_workspace_root("/src", Some("ws")), "/src/ws");
    assert_eq!(manual_workspace_root("/src", Some("/abs/ws")), "/abs/ws");
    let ordered = order_manual_sources(&strings(&["/d/p10.png", "/d/p2.png", "/d/p2.png", "/d/p1.png"]));
    assert_eq!(ordered, strings(&["/d/p1.png", "/d/p2.png", "/d/p10.png"]));
    let keys = strings(&["/a", "/b", "/a"]);
    assert_eq!(find_first_source(&keys, "/a"), Some(0));
    assert_eq!(find_last_source(&keys, "/a"), Some(2));
    assert_eq!(find_first_source(&keys, "/z"), None);
    assert_eq!(positions_without(&keys, "/a"), vec![1]);
    assert!(records_telemetry("open"));
    assert!(!records_telemetry("   "));
}

#[test]
fn template_checks_and_messages() {
    match check_template_export(0, "/ws", true) {
        Err(ManualSplitError::InvalidOverrides(m)) => assert_eq!(m, "no template entries provided"),
        other => panic!("unexpected {:?}", other),
    }
    match check_template_export(2, "/ws", false) {
        Err(ManualSplitError::WorkspaceNotFound(w)) => assert_eq!(w, "/ws"),
        other => panic!("unexpected {:?}", other),
    }
    assert!(check_template_export(2, "/ws", true).is_ok());
    assert_eq!(ManualSplitError::OutputWrite("x".to_string()).message(), "failed to write manual output: x");
    assert_eq!(ManualSplitError::RevertManifestMissing("/m".to_string()).message(), "manual split revert manifest missing at /m");
}

#[test]
fn apply_tally_counts_each_page_once() {
    let mut tally = ManualApplyTally::new(3);
    assert_eq!((tally.applied, tally.skipped), (0, 0));
    tally.record(true);
    tally.record(false);
    tally.record(true);
    assert_eq!(tally.total, 3);
    assert_eq!(tally.applied, 2);
    assert_eq!(tally.skipped, 1);
    let (summary, can_revert) = tally.finish("2024-01-01T00:00:00Z".to_string());
    assert_eq!(summary.generated_at, "2024-01-01T00:00:00Z");
    assert_eq!((summary.total, summary.applied, summary.skipped), (3, 2, 1));
    assert!(can_revert);

    let mut none_applied = ManualApplyTally::new(1);
    none_applied.record(false);
    let (summary, can_revert) = none_applied.finish(String::new());
    assert_eq!((summary.applied, summary.skipped), (0, 1));
    assert!(!can_revert);
}
