use rei_manga::artifact::{
    add_finalize_warnings, artifact_response, build_archive_filename, check_service_url,
    classify_zip_entry, compare_digests, compute_file_digest, digest_hex, if_none_match,
    insert_digest, mark_cached_warnings, normalize_zip_path, parse_volume_number,
    sanitize_filename_component, ArtifactError, ArtifactResponse, ArtifactValidationStatus,
    FileDigest, NamedDigest, ZipEntryKind,
};
use rei_manga::jobs::JobMetadataSnapshot;

fn digest(name: &str, bytes: u64, hash: &str) -> NamedDigest {
    NamedDigest { name: name.to_string(), digest: FileDigest { bytes, hash: hash.to_string() } }
}

fn meta(title: Option<&str>, volume: Option<&str>) -> JobMetadataSnapshot {
    JobMetadataSnapshot { title: title.map(|s| s.to_string()), volume: volume.map(|s| s.to_string()) }
}

#[test]
fn archive_names_from_metadata() {
    let m = meta(Some("MyTitle"), Some("1"));
    let (name, warnings) = build_archive_filename(Some(&m), "test");
    assert_eq!(name, "0001_MyTitle.zip");
    assert!(warnings.is_empty());
    let (name, warnings) = build_archive_filename(Some(&meta(Some("Another"), Some("Vol 12"))), "test");
    assert_eq!(name, "0012_Another.zip");
    assert!(warnings.is_empty());
    let (name, warnings) = build_archive_filename(None, "job/42");
    assert_eq!(name, "job_42.zip");
    assert_eq!(warnings, vec!["缺少作业元数据，使用 jobId 命名 zip。".to_string()]);
    let (name, warnings) = build_archive_filename(Some(&meta(Some("  "), Some("3"))), " ");
    assert_eq!(name, "artifact.zip");
    assert_eq!(warnings, vec!["作品名为空，使用 jobId 命名 zip。".to_string()]);
    let (_, warnings) = build_archive_filename(Some(&meta(Some("T"), Some("abc"))), "j");
    assert_eq!(warnings, vec!["卷号非数字，使用 jobId 命名 zip。".to_string()]);
    let (_, warnings) = build_archive_filename(Some(&meta(Some("T"), None)), "j");
    assert_eq!(warnings, vec!["缺少作品名或卷号，使用 jobId 命名 zip。".to_string()]);
}

#[test]
fn sanitizing_and_volume_numbers() {
    assert_eq!(sanitize_filename_component("  a/b:c*d?\"e<f>g|h\\i  "), "a_b_c_d__e_f_g_h_i");
    assert_eq!(sanitize_filename_component("   "), "");
    assert_eq!(parse_volume_number("Vol.7"), Some("0007".to_string()));
    assert_eq!(parse_volume_number("12345"), Some("12345".to_string()));
    assert_eq!(parse_volume_number("no digits"), None);
    assert_eq!(parse_volume_number("99999999999"), None);
}

#[test]
fn zip_paths_and_entries() {
    assert_eq!(normalize_zip_path("nested/0002.png"), Some("nested/0002.png".to_string()));
    assert_eq!(normalize_zip_path("a\\b.png"), Some("a/b.png".to_string()));
    assert_eq!(normalize_zip_path("../evil.png"), None);
    assert_eq!(normalize_zip_path("a/../b.png"), None);
    assert_eq!(normalize_zip_path("/abs.png"), None);
    assert_eq!(normalize_zip_path("a/..b.png"), Some("a/..b.png".to_string()));
    assert!(matches!(classify_zip_entry("output/", "output"), ZipEntryKind::Directory));
    match classify_zip_entry("output/0001.jpg", "output/0001.jpg") {
        ZipEntryKind::File(Some(n)) => assert_eq!(n, "output/0001.jpg"),
        other => panic!("unexpected {:?}", other),
    }
    assert!(matches!(classify_zip_entry("notes.txt", "notes.txt"), ZipEntryKind::File(None)));
    assert!(matches!(classify_zip_entry("x/.png", "x/.png"), ZipEntryKind::File(None)));
}

#[test]
fn finalize_warnings_report_cleanup() {
    let mut w = vec!["earlier".to_string()];
    add_finalize_warnings(&mut w, 0, Some(None), "/t/job");
    assert_eq!(w, vec!["earlier".to_string(), "压缩包中未找到图片文件。".to_string(), "已清理临时目录 /t/job".to_string()]);
    let mut w2 = Vec::new();
    add_finalize_warnings(&mut w2, 3, Some(Some("busy")), "/t/job");
    assert_eq!(w2, vec!["清理临时目录失败: busy".to_string()]);
    let mut w3: Vec<String> = Vec::new();
    add_finalize_warnings(&mut w3, 1, None, "/t/job");
    assert!(w3.is_empty());
}

#[test]
fn validation_against_a_manifest() {
    let expected = vec![digest("0001.jpg", 8, "aa"), digest("0002.jpg", 8, "bb"), digest("0003.jpg", 8, "cc")];
    let actual = vec![digest("0001.jpg", 8, "aa"), digest("0002.jpg", 9, "zz"), digest("extra.jpg", 1, "ee")];
    let mut warnings = Vec::new();
    let (items, summary) = compare_digests(Some(&expected), &actual, &mut warnings);
    let statuses: Vec<ArtifactValidationStatus> = items.iter().map(|i| i.status).collect();
    assert_eq!(statuses, vec![
        ArtifactValidationStatus::Matched,
        ArtifactValidationStatus::Mismatch,
        ArtifactValidationStatus::Missing,
        ArtifactValidationStatus::Extra,
    ]);
    assert_eq!(items[3].filename, "extra.jpg");
    assert_eq!(items[2].actual_hash, None);
    assert_eq!((summary.matched, summary.missing, summary.extra, summary.mismatched), (1, 1, 1, 1));
    assert_eq!(summary.total_manifest, 3);
    assert_eq!(summary.total_extracted, 3);
    assert_eq!(warnings, vec!["缺少 1 个文件".to_string(), "存在 1 个额外文件".to_string(), "1 个文件的哈希不一致".to_string()]);
}

#[test]
fn validation_without_a_manifest() {
    let actual = vec![digest("0001.jpg", 8, "aa"), digest("0002.jpg", 8, "bb")];
    let mut warnings = Vec::new();
    let (items, summary) = compare_digests(None, &actual, &mut warnings);
    assert_eq!(items.len(), 2);
    assert!(items.iter().all(|i| i.status == ArtifactValidationStatus::Matched && i.expected_hash.is_none()));
    assert_eq!(summary.matched, 2);
    assert_eq!(summary.total_extracted, 2);
    assert_eq!(summary.total_manifest, 2);
    assert_eq!(warnings, vec!["未提供 manifest，按实际文件生成报告。".to_string()]);
}

#[test]
fn digests_of_content() {
    let d = compute_file_digest(&b"abc".to_vec());
    assert_eq!(d.bytes, 3);
    assert_eq!(d.hash, "ba7816bf8f01cfea414140de5dae2223b00361a396177a9cb410ff61f20015ad");
    assert_eq!(digest_hex(&vec![0x00, 0x0f, 0xa0, 0xff]), "000fa0ff");
    let mut table = vec![digest("a", 1, "x")];
    insert_digest(&mut table, digest("b", 2, "y"));
    insert_digest(&mut table, digest("a", 3, "z"));
    assert_eq!(table.len(), 2);
    assert_eq!(table[0].digest.hash, "z");
    assert_eq!(table[1].name, "b");
}

#[test]
fn cached_reports_and_responses() {
    let mut w = vec!["x".to_string()];
    mark_cached_warnings(&mut w);
    assert_eq!(w, vec!["远端产物未变更，返回本地缓存结果。".to_string(), "x".to_string()]);
    let mut again = w.clone();
    mark_cached_warnings(&mut again);
    assert_eq!(again, w);
    assert_eq!(artifact_response(304, true), ArtifactResponse::UseCache);
    assert_eq!(artifact_response(304, false), ArtifactResponse::NotModifiedWithoutCache);
    assert_eq!(artifact_response(200, false), ArtifactResponse::Proceed);
    assert_eq!(artifact_response(500, true), ArtifactResponse::Unexpected);
    assert_eq!(if_none_match(Some("abc123"), true), Some("abc123".to_string()));
    assert_eq!(if_none_match(Some("abc123"), false), None);
    assert!(check_service_url(" http://x ").is_ok());
    assert!(matches!(check_service_url("  "), Err(ArtifactError::InvalidServiceUrl)));
    assert_eq!(ArtifactError::NotModifiedWithoutCache("/t/j".to_string()).message(), "remote returned 304 but no cached artifact at /t/j");
    assert_eq!(ArtifactError::TargetDir("/t".to_string(), "denied".to_string()).message(), "unable to prepare target dir /t: denied");
}

#[test]
fn archive_names_are_single_file_names() {
    let cases = [
        (Some(meta(Some("a/b\\c"), Some("2"))), "x"),
        (Some(meta(Some("../up"), Some("vol 3"))), "y"),
        (None, "../../etc/passwd"),
        (Some(meta(Some("T"), Some("none"))), "a\\b"),
    ];
    for (m, job) in cases.iter() {
        let (name, _) = build_archive_filename(m.as_ref(), job);
        assert!(!name.contains('/') && !name.contains('\\'), "{}", name);
        assert!(name.ends_with(".zip"));
    }
    let (name, _) = build_archive_filename(Some(&meta(Some("a/b\\c"), Some("2"))), "x");
    assert_eq!(name, "0002_a_b_c.zip");
}
