//! Uploading a volume: which files go into the archive and in which order,
//! the progress events of packing and sending, and the request's headers.
use vstd::prelude::*;
use crate::names::{file_extension, extension_of};
use crate::rename::{is_natural_sort, natural_sort_indices, DirEntryInfo};
use crate::split::{opt_text, texts};
use crate::text::{chars_of, concat2, decimal, lower_chars, lower_seq, push_decimal, push_str, string_of, chars_eq_str};

verus! {

/// How a directory is sent.
#[derive(Debug, Clone, Copy, PartialEq, Eq, Structural)]
pub enum UploadMode {
    Folder,
    Zip,
}

/// The title and volume sent along with an upload.
#[derive(Debug)]
pub struct UploadMetadata {
    pub title: Option<String>,
    pub volume: Option<String>,
}

/// Asks to upload a directory.
#[derive(Debug)]
pub struct UploadRequest {
    pub service_url: String,
    pub remote_path: String,
    pub local_path: String,
    pub mode: UploadMode,
    pub bearer_token: Option<String>,
    pub metadata: Option<UploadMetadata>,
}

/// What an upload sent.
#[derive(Debug)]
pub struct UploadOutcome {
    pub remote_url: String,
    pub uploaded_bytes: u64,
    pub file_count: usize,
    pub mode: UploadMode,
}

/// The phase an upload event reports.
#[derive(Debug, Clone, Copy, PartialEq, Eq, Structural)]
pub enum UploadProgressStage {
    Preparing,
    Uploading,
    Finalizing,
    Completed,
    Failed,
}

/// One progress event of an upload.
#[derive(Debug)]
pub struct UploadProgress {
    pub stage: UploadProgressStage,
    pub transferred_bytes: u64,
    pub total_bytes: u64,
    pub processed_files: usize,
    pub total_files: usize,
    pub message: Option<String>,
}

/// Why an upload failed. File-system, archive and HTTP failures are carried
/// as their messages, a response status as its text, paths as text.
#[derive(Debug)]
pub enum UploadError {
    Io(String),
    Archive(String),
    Request(String),
    DirectoryNotFound(String),
    EmptyDirectory(String),
    NonUtf8Path(String),
    UnexpectedStatus(String),
    UnsupportedMode,
}

/// The message of an upload error.
pub open spec fn upload_error_text(e: UploadError) -> Seq<char> {
    match e {
        UploadError::Io(d) => "I/O error: "@ + d@,
        UploadError::Archive(d) => "zip error: "@ + d@,
        UploadError::Request(d) => "request error: "@ + d@,
        UploadError::DirectoryNotFound(p) => "directory not found: "@ + p@,
        UploadError::EmptyDirectory(p) => "no files found to upload in "@ + p@,
        UploadError::NonUtf8Path(p) => "path is not valid UTF-8: "@ + p@,
        UploadError::UnexpectedStatus(s) => "unexpected response status: "@ + s@,
        UploadError::UnsupportedMode => "unsupported upload mode"@,
    }
}

impl UploadError {
    /// The error's message (its `Display` text).
    pub fn message(&self) -> (r: String)
        ensures
            r@ == upload_error_text(*self),
    {
        match self {
            UploadError::Io(d) => concat2("I/O error: ", d.as_str()),
            UploadError::Archive(d) => concat2("zip error: ", d.as_str()),
            UploadError::Request(d) => concat2("request error: ", d.as_str()),
            UploadError::DirectoryNotFound(p) => concat2("directory not found: ", p.as_str()),
            UploadError::EmptyDirectory(p) => concat2("no files found to upload in ", p.as_str()),
            UploadError::NonUtf8Path(p) => concat2("path is not valid UTF-8: ", p.as_str()),
            UploadError::UnexpectedStatus(st) => concat2("unexpected response status: ", st.as_str()),
            UploadError::UnsupportedMode => String::from_str("unsupported upload mode"),
        }
    }
}

// ---------------------------------------------------------------------------
// Which files
// ---------------------------------------------------------------------------

/// A file that goes into an upload: not a folder, and not a `.json` file
/// (any case).
pub open spec fn is_upload_file(e: DirEntryInfo) -> bool {
    !e.is_dir && !(file_extension(e.name@) matches Some(x) && lower_seq(x) == "json"@)
}

/// The positions of the files of `listing` that go into an upload, in
/// listing order.
pub open spec fn upload_positions(listing: Seq<DirEntryInfo>) -> Seq<usize>
    decreases listing.len(),
{
    if listing.len() == 0 {
        Seq::empty()
    } else if is_upload_file(listing.last()) {
        upload_positions(listing.drop_last()).push((listing.len() - 1) as usize)
    } else {
        upload_positions(listing.drop_last())
    }
}

/// The files of an upload: the positions in
/// `listing` of the files that go in (see [`is_upload_file`]), in stable
/// natural order of their names.
pub fn collect_sorted_files(listing: &Vec<DirEntryInfo>) -> (r: Vec<usize>)
    ensures
        exists|names: Seq<String>, order: Seq<usize>| {
            &&& #[trigger] is_natural_sort(names, order)
            &&& names.len() == upload_positions(listing@).len()
            &&& forall|k: int| 0 <= k < names.len() ==> #[trigger] names[k] == listing@[upload_positions(listing@)[k] as int].name
            &&& r@.len() == names.len()
            &&& forall|k: int| 0 <= k < r@.len() ==> #[trigger] r@[k] == upload_positions(listing@)[order[k] as int]
        },
{
    let mut pos: Vec<usize> = Vec::new();
    let mut names: Vec<String> = Vec::new();
    let mut i: usize = 0;
    while i < listing.len()
        invariant
            i <= listing@.len(),
            pos@ == upload_positions(listing@.take(i as int)),
            names@.len() == pos@.len(),
            forall|k: int| 0 <= k < pos@.len() ==> #[trigger] names@[k] == listing@[pos@[k] as int].name,
            forall|k: int| 0 <= k < pos@.len() ==> #[trigger] pos@[k] < i,
        decreases listing.len() - i,
    {
        let e = &listing[i];
        assert(listing@.take(i + 1).drop_last() =~= listing@.take(i as int));
        assert(listing@.take(i + 1).last() == listing@[i as int]);
        let json = match extension_of(&chars_of(e.name.as_str())) {
            Some(x) => {
                let lx = lower_chars(&x);
                chars_eq_str(&lx, "json")
            },
            None => false,
        };
        if !e.is_dir && !json {
            pos.push(i);
            names.push(e.name.clone());
        }
        i = i + 1;
    }
    assert(listing@.take(listing@.len() as int) =~= listing@);
    let order = natural_sort_indices(&names);
    let mut r: Vec<usize> = Vec::new();
    let mut k: usize = 0;
    while k < order.len()
        invariant
            is_natural_sort(names@, order@),
            names@.len() == pos@.len(),
            k <= order@.len(),
            r@.len() == k,
            forall|q: int| 0 <= q < k ==> #[trigger] r@[q] == pos@[order@[q] as int],
        decreases order.len() - k,
    {
        r.push(pos[order[k]]);
        k = k + 1;
    }
    proof {
        assert(is_natural_sort(names@, order@));
    }
    r
}

// ---------------------------------------------------------------------------
// Progress
// ---------------------------------------------------------------------------

/// An upload event with a message.
fn upload_event(
    stage: UploadProgressStage,
    transferred: u64,
    total: u64,
    processed: usize,
    files: usize,
    message: Option<String>,
) -> (e: UploadProgress)
    ensures
        e.stage == stage,
        e.transferred_bytes == transferred,
        e.total_bytes == total,
        e.processed_files == processed,
        e.total_files == files,
        e.message == message,
{
    UploadProgress {
        stage,
        transferred_bytes: transferred,
        total_bytes: total,
        processed_files: processed,
        total_files: files,
        message,
    }
}

/// The first event of an upload: packing starts.
pub fn packing_started(total_files: usize) -> (e: UploadProgress)
    ensures
        e.stage == UploadProgressStage::Preparing,
        e.transferred_bytes == 0 && e.total_bytes == 0,
        e.processed_files == 0 && e.total_files == total_files,
        opt_text(e.message) == Some("开始整理文件"@),
{
    upload_event(UploadProgressStage::Preparing, 0, 0, 0, total_files, Some(String::from_str("开始整理文件")))
}

/// The event after packing the file at `index`: `已打包 k/n`.
pub fn file_packed(index: usize, total_files: usize) -> (e: UploadProgress)
    requires
        index < total_files,
    ensures
        e.stage == UploadProgressStage::Preparing,
        e.transferred_bytes == 0 && e.total_bytes == 0,
        e.processed_files == index + 1 && e.total_files == total_files,
        opt_text(e.message) == Some("已打包 "@ + decimal((index + 1) as nat) + "/"@ + decimal(total_files as nat)),
{
    let mut out: Vec<char> = Vec::new();
    push_str(&mut out, "已打包 ");
    push_decimal(&mut out, (index + 1) as u64);
    out.push('/');
    push_decimal(&mut out, total_files as u64);
    proof {
        reveal_strlit("/");
    }
    assert(out@ =~= "已打包 "@ + decimal((index + 1) as nat) + "/"@ + decimal(total_files as nat));
    upload_event(UploadProgressStage::Preparing, 0, 0, index + 1, total_files, Some(string_of(&out)))
}

/// Counts the bytes sent so far and the events they give rise to
/// (`ProgressReader`).
pub struct SendProgress {
    pub sent: u64,
    pub total: u64,
    pub files: usize,
}

impl SendProgress {
    /// Sending starts: the counter at zero and the `开始上传` event.
    pub fn start(total: u64, files: usize) -> (r: (SendProgress, UploadProgress))
        ensures
            r.0.sent == 0 && r.0.total == total && r.0.files == files,
            r.1.stage == UploadProgressStage::Uploading,
            r.1.transferred_bytes == 0 && r.1.total_bytes == total,
            r.1.processed_files == files && r.1.total_files == files,
            opt_text(r.1.message) == Some("开始上传"@),
    {
        let e = upload_event(UploadProgressStage::Uploading, 0, total, files, files, Some(String::from_str("开始上传")));
        (SendProgress { sent: 0, total, files }, e)
    }

    /// After a read of `n` bytes: nothing for an empty read; otherwise the
    /// counter grows by `n` and an event reports the new count.
    pub fn after_read(&mut self, n: usize) -> (e: Option<UploadProgress>)
        requires
            old(self).sent + n <= u64::MAX,
        ensures
            final(self).total == old(self).total,
            final(self).files == old(self).files,
            final(self).sent == old(self).sent + n,
            n == 0 <==> e is None,
            e matches Some(ev) ==> ev.stage == UploadProgressStage::Uploading && ev.transferred_bytes == final(self).sent
                && ev.total_bytes == old(self).total && ev.processed_files == old(self).files
                && ev.total_files == old(self).files && ev.message is None,
    {
        if n == 0 {
            return None;
        }
        self.sent = self.sent + n as u64;
        Some(upload_event(UploadProgressStage::Uploading, self.sent, self.total, self.files, self.files, None))
    }
}

/// The event of a failed send: every file counted, `transferred` bytes
/// reported, and `上传失败: ` followed by the reason.
pub fn upload_failed(transferred: u64, total: u64, files: usize, reason: &str) -> (e: UploadProgress)
    ensures
        e.stage == UploadProgressStage::Failed,
        e.transferred_bytes == transferred && e.total_bytes == total,
        e.processed_files == files && e.total_files == files,
        opt_text(e.message) == Some("上传失败: "@ + reason@),
{
    upload_event(UploadProgressStage::Failed, transferred, total, files, files, Some(concat2("上传失败: ", reason)))
}

/// The events after the server accepted the archive: finalizing, then
/// completed, each with everything counted.
pub fn upload_finished(total: u64, files: usize) -> (r: (UploadProgress, UploadProgress))
    ensures
        r.0.stage == UploadProgressStage::Finalizing,
        r.1.stage == UploadProgressStage::Completed,
        r.0.transferred_bytes == total && r.0.total_bytes == total && r.0.processed_files == files && r.0.total_files == files,
        r.1.transferred_bytes == total && r.1.total_bytes == total && r.1.processed_files == files && r.1.total_files == files,
        opt_text(r.0.message) == Some("服务器已接收，处理中"@),
        opt_text(r.1.message) == Some("上传完成"@),
{
    (
        upload_event(UploadProgressStage::Finalizing, total, total, files, files, Some(String::from_str("服务器已接收，处理中"))),
        upload_event(UploadProgressStage::Completed, total, total, files, files, Some(String::from_str("上传完成"))),
    )
}

/// The extra headers of an upload request, in order: the title, then the
/// volume, each when given.
pub fn upload_headers(metadata: Option<&UploadMetadata>) -> (r: Vec<(String, String)>)
    ensures
        r@.map_values(|h: (String, String)| (h.0@, h.1@)) == match metadata {
            None => Seq::empty(),
            Some(m) => (match m.title {
                Some(t) => seq![("X-Reichan-Title"@, t@)],
                None => Seq::empty(),
            }) + (match m.volume {
                Some(v) => seq![("X-Reichan-Volume"@, v@)],
                None => Seq::empty(),
            }),
        },
{
    let mut r: Vec<(String, String)> = Vec::new();
    match metadata {
        None => {},
        Some(m) => {
            match &m.title {
                Some(t) => r.push((String::from_str("X-Reichan-Title"), t.clone())),
                None => {},
            }
            match &m.volume {
                Some(v) => r.push((String::from_str("X-Reichan-Volume"), v.clone())),
                None => {},
            }
        },
    }
    assert(r@.map_values(|h: (String, String)| (h.0@, h.1@)) =~= match metadata {
        None => Seq::empty(),
        Some(m) => (match m.title {
            Some(t) => seq![("X-Reichan-Title"@, t@)],
            None => Seq::empty(),
        }) + (match m.volume {
            Some(v) => seq![("X-Reichan-Volume"@, v@)],
            None => Seq::empty(),
        }),
    });
    r
}

/// The checks of an upload once the directory is listed (`perform_upload`):
/// at least one file, then the zip mode, which is the only one supported.
pub fn check_upload(local_path: &str, file_count: usize, mode: UploadMode) -> (r: Result<(), UploadError>)
    ensures
        file_count == 0 ==> (r matches Err(UploadError::EmptyDirectory(p)) && p@ == local_path@),
        file_count > 0 && mode == UploadMode::Folder ==> r matches Err(UploadError::UnsupportedMode),
        file_count > 0 && mode == UploadMode::Zip ==> r is Ok,
{
    if file_count == 0 {
        return Err(UploadError::EmptyDirectory(String::from_str(local_path)));
    }
    match mode {
        UploadMode::Zip => Ok(()),
        UploadMode::Folder => Err(UploadError::UnsupportedMode),
    }
}

} // verus!
