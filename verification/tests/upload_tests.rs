use rei_manga::rename::DirEntryInfo;
use rei_manga::upload::{
    check_upload, collect_sorted_files, file_packed, packing_started, upload_failed,
    upload_finished, upload_headers, SendProgress, UploadError, UploadMetadata, UploadMode,
    UploadProgressStage,
};

fn file(name: &str) -> DirEntryInfo {
    DirEntryInfo { name: name.to_string(), is_dir: false }
}

#[test]
fn upload_files_in_natural_order_without_json() {
    let listing = vec![
        file("b10.jpg"),
        DirEntryInfo { name: "sub".to_string(), is_dir: true },
        file("notes.JSON"),
        file("b2.jpg"),
        file("a.jpg"),
    ];
    assert_eq!(collect_sorted_files(&listing), vec![4, 3, 0]);
}

#[test]
fn upload_progress_events() {
    let e = packing_started(2);
    assert_eq!(e.stage, UploadProgressStage::Preparing);
    assert_eq!(e.message.as_deref(), Some("开始整理文件"));
    let e = file_packed(0, 2);
    assert_eq!(e.processed_files, 1);
    assert_eq!(e.message.as_deref(), Some("已打包 1/2"));
    let (mut sender, start) = SendProgress::start(10, 2);
    assert_eq!(start.message.as_deref(), Some("开始上传"));
    assert!(sender.after_read(0).is_none());
    let ev = sender.after_read(4).unwrap();
    assert_eq!(ev.transferred_bytes, 4);
    let ev = sender.after_read(6).unwrap();
    assert_eq!(ev.transferred_bytes, 10);
    assert_eq!(ev.total_bytes, 10);
    let f = upload_failed(0, 10, 2, "500 Internal Server Error");
    assert_eq!(f.message.as_deref(), Some("上传失败: 500 Internal Server Error"));
    let (fin, done) = upload_finished(10, 2);
    assert_eq!(fin.stage, UploadProgressStage::Finalizing);
    assert_eq!(done.message.as_deref(), Some("上传完成"));
}

#[test]
fn upload_headers_and_checks() {
    let m = UploadMetadata { title: Some("Title".to_string()), volume: Some("Volume".to_string()) };
    assert_eq!(upload_headers(Some(&m)), vec![
        ("X-Reichan-Title".to_string(), "Title".to_string()),
        ("X-Reichan-Volume".to_string(), "Volume".to_string()),
    ]);
    assert!(upload_headers(None).is_empty());
    assert!(matches!(check_upload("/d", 0, UploadMode::Zip), Err(UploadError::EmptyDirectory(_))));
    assert!(matches!(check_upload("/d", 2, UploadMode::Folder), Err(UploadError::UnsupportedMode)));
    assert!(check_upload("/d", 2, UploadMode::Zip).is_ok());
    assert_eq!(UploadError::UnsupportedMode.message(), "unsupported upload mode");
}
