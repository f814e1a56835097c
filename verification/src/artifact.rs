//! Job artifacts: the name of the downloaded archive, which zip entries are
//! kept, the digests of files, and the validation report that compares the
//! extracted files with the job's manifest.
use vstd::prelude::*;
use sha2::Digest;
use crate::jobs::JobMetadataSnapshot;
use crate::names::is_supported_name;
use crate::split::{opt_text, texts};
use crate::text::{
    chars_of, concat2, has_suffix, is_ascii_digit, is_digit, hex_digit, parse_digit_run, push_chars,
    push_decimal, push_str, push_zero_padded, string_of, trim_chars, trim_seq, all_digits,
    digits_value, decimal, zero_padded, contains_text, find_text,
};

verus! {

// ---------------------------------------------------------------------------
// Digests
// ---------------------------------------------------------------------------

/// The SHA-256 digest of `data` (`sha2::Sha256`).
pub uninterp spec fn sha256_of(data: Seq<u8>) -> Seq<u8>;

/// `Sha256::digest`. Its result is named by [`sha256_of`]; it is 32 bytes
/// long, the output size of SHA-256. The hash function itself is not restated.
#[verifier::external_body]
fn sha256(data: &[u8]) -> (r: Vec<u8>)
    ensures
        r@ == sha256_of(data@),
        r@.len() == 32,
{
    sha2::Sha256::digest(data).to_vec()
}

/// The lower-case hexadecimal text of `bytes`, two digits per byte, high
/// nibble first.
pub open spec fn hex_text(bytes: Seq<u8>) -> Seq<char>
    decreases bytes.len(),
{
    if bytes.len() == 0 {
        Seq::empty()
    } else {
        hex_text(bytes.drop_last()) + seq![hex_digit((bytes.last() / 16) as nat), hex_digit((bytes.last() % 16) as nat)]
    }
}

/// `hex::encode`: each byte as two lower-case hexadecimal digits, in order,
/// as the crate's `BytesToHexChars` iterator produces them from the table
/// `0123456789abcdef`.
#[verifier::external_body]
fn hex_encode(bytes: &[u8]) -> (r: String)
    ensures
        r@ == hex_text(bytes@),
{
    hex::encode(bytes)
}

/// The size and hash of a file.
#[derive(Debug)]
pub struct FileDigest {
    pub bytes: u64,
    pub hash: String,
}

/// The digest of a file's content: its length and the
/// hexadecimal SHA-256 of its bytes.
pub fn compute_file_digest(data: &Vec<u8>) -> (d: FileDigest)
    requires
        data@.len() <= u64::MAX,
    ensures
        d.bytes == data@.len(),
        d.hash@ == hex_text(sha256_of(data@)),
{
    let digest = sha256(data.as_slice());
    let hash = hex_encode(digest.as_slice());
    FileDigest { bytes: data.len() as u64, hash }
}

/// The lower-case hexadecimal text of a digest (the artifact hash).
pub fn digest_hex(digest: &Vec<u8>) -> (r: String)
    ensures
        r@ == hex_text(digest@),
{
    hex_encode(digest.as_slice())
}

// ---------------------------------------------------------------------------
// Archive names
// ---------------------------------------------------------------------------

/// A character that cannot stand in a file name on every system.
pub open spec fn reserved_char(c: char) -> bool {
    c == '/' || c == '\\' || c == ':' || c == '*' || c == '?' || c == '"' || c == '<' || c == '>' || c == '|'
}

/// A name component made safe: trimmed, each reserved character replaced by
/// `'_'` (`sanitize_filename_component`).
pub open spec fn sanitized(input: Seq<char>) -> Seq<char> {
    trim_seq(input).map_values(|c: char| if reserved_char(c) { '_' } else { c })
}

/// See [`sanitized`].
pub fn sanitize_filename_component(input: &str) -> (r: String)
    ensures
        r@ == sanitized(input@),
{
    let t = trim_chars(&chars_of(input));
    let mut out: Vec<char> = Vec::new();
    let mut i: usize = 0;
    while i < t.len()
        invariant
            i <= t@.len(),
            out@ == t@.take(i as int).map_values(|c: char| if reserved_char(c) { '_' } else { c }),
        decreases t.len() - i,
    {
        let c = t[i];
        let m = if c == '/' || c == '\\' || c == ':' || c == '*' || c == '?' || c == '"' || c == '<' || c == '>' || c == '|' {
            '_'
        } else {
            c
        };
        out.push(m);
        assert(out@ =~= t@.take(i + 1).map_values(|c: char| if reserved_char(c) { '_' } else { c }));
        i = i + 1;
    }
    assert(t@.take(t@.len() as int) =~= t@);
    string_of(&out)
}

/// The ASCII digits of `s`, in order.
pub open spec fn ascii_digits(s: Seq<char>) -> Seq<char>
    decreases s.len(),
{
    if s.len() == 0 {
        Seq::empty()
    } else if is_digit(s.last()) {
        ascii_digits(s.drop_last()).push(s.last())
    } else {
        ascii_digits(s.drop_last())
    }
}

proof fn lemma_ascii_digits_all(s: Seq<char>)
    ensures
        all_digits(ascii_digits(s)),
    decreases s.len(),
{
    if s.len() > 0 {
        lemma_ascii_digits_all(s.drop_last());
    }
}

/// A volume as four digits (`parse_volume_number`): the ASCII digits of the
/// input read as a number, zero-padded to four places; `None` without digits
/// or when the number does not fit in `u32`.
pub open spec fn volume_label(raw: Seq<char>) -> Option<Seq<char>> {
    let d = ascii_digits(raw);
    if d.len() == 0 || digits_value(d) > u32::MAX {
        None
    } else {
        Some(zero_padded(decimal(digits_value(d)), 4))
    }
}

/// See [`volume_label`].
pub fn parse_volume_number(raw: &str) -> (r: Option<String>)
    ensures
        opt_text(r) == volume_label(raw@),
{
    let v = chars_of(raw);
    let mut digits: Vec<char> = Vec::new();
    let mut i: usize = 0;
    while i < v.len()
        invariant
            i <= v@.len(),
            digits@ == ascii_digits(v@.take(i as int)),
        decreases v.len() - i,
    {
        assert(v@.take(i + 1).drop_last() =~= v@.take(i as int));
        if is_ascii_digit(v[i]) {
            digits.push(v[i]);
        }
        i = i + 1;
    }
    assert(v@.take(v@.len() as int) =~= v@);
    if digits.len() == 0 {
        return None;
    }
    proof {
        lemma_ascii_digits_all(v@);
        assert(digits@.subrange(0, digits@.len() as int) =~= digits@);
    }
    match parse_digit_run(&digits, 0, digits.len(), 4294967295u64) {
        None => None,
        Some(n) => {
            let mut out: Vec<char> = Vec::new();
            push_zero_padded(&mut out, n, 4);
            assert(out@ =~= zero_padded(decimal(n as nat), 4));
            Some(string_of(&out))
        },
    }
}

/// The archive name for a job and the warnings about how it was chosen
/// (`build_archive_filename`): `<volume>_<title>.zip` when the job carries a
/// title that is not blank once sanitised and a numeric volume; otherwise the
/// sanitised job id, or `artifact.zip` when that is blank, with one warning
/// saying why.
pub open spec fn archive_name(metadata: Option<(Option<Seq<char>>, Option<Seq<char>>)>, job_id: Seq<char>) -> (Seq<char>, Seq<Seq<char>>) {
    let fallback = if sanitized(job_id).len() == 0 {
        "artifact.zip"@
    } else {
        sanitized(job_id) + ".zip"@
    };
    match metadata {
        None => (fallback, seq!["缺少作业元数据，使用 jobId 命名 zip。"@]),
        Some((Some(title), Some(volume))) => if sanitized(title).len() == 0 {
            (fallback, seq!["作品名为空，使用 jobId 命名 zip。"@])
        } else {
            match volume_label(volume) {
                Some(v) => (v + "_"@ + sanitized(title) + ".zip"@, Seq::empty()),
                None => (fallback, seq!["卷号非数字，使用 jobId 命名 zip。"@]),
            }
        },
        Some(_) => (fallback, seq!["缺少作品名或卷号，使用 jobId 命名 zip。"@]),
    }
}

/// `s` names one entry of a directory: no `/` and no `\\` in it.
pub open spec fn is_single_component(s: Seq<char>) -> bool {
    forall|k: int| 0 <= k < s.len() ==> #[trigger] s[k] != '/' && s[k] != '\\'
}

proof fn lemma_decimal_digits(n: nat)
    ensures
        all_digits(decimal(n)),
    decreases n,
{
    assert(crate::text::is_digit(crate::text::digit_char(n % 10))) by {
        assert(((n % 10 + 48) as char) as int == n % 10 + 48);
    }
    if n >= 10 {
        lemma_decimal_digits(n / 10);
        let d = decimal(n / 10).push(crate::text::digit_char(n % 10));
        assert forall|i: int| 0 <= i < d.len() implies crate::text::is_digit(#[trigger] d[i]) by {
            if i < d.len() - 1 {
                assert(d[i] == decimal(n / 10)[i]);
            }
        }
    } else {
        assert(crate::text::is_digit(crate::text::digit_char(n))) by {
            assert(((n + 48) as char) as int == n + 48);
        }
    }
}

/// The name of the archive a download keeps is a single file name ending in
/// `.zip`, whatever the title, volume and job id: the title and job id are
/// sanitised and the volume is written in digits.
pub proof fn lemma_archive_name_is_file_name(
    metadata: Option<(Option<Seq<char>>, Option<Seq<char>>)>,
    job_id: Seq<char>,
)
    ensures
        is_single_component(archive_name(metadata, job_id).0),
        has_suffix(archive_name(metadata, job_id).0, ".zip"@),
{
    reveal_strlit("artifact.zip");
    reveal_strlit(".zip");
    reveal_strlit("_");
    let j = sanitized(job_id);
    assert(is_single_component(j + ".zip"@));
    assert((j + ".zip"@).skip((j + ".zip"@).len() - 4) =~= ".zip"@);
    assert("artifact.zip"@.skip(8) =~= ".zip"@);
    match metadata {
        Some((Some(title), Some(volume))) => {
            match volume_label(volume) {
                Some(v) => {
                    let d = decimal(digits_value(ascii_digits(volume)));
                    lemma_decimal_digits(digits_value(ascii_digits(volume)));
                    assert(all_digits(v)) by {
                        if d.len() < 4 {
                            let z = Seq::new((4 - d.len()) as nat, |i: int| '0');
                            assert(v == z + d);
                            assert forall|i: int| 0 <= i < v.len() implies crate::text::is_digit(#[trigger] v[i]) by {
                                if i >= z.len() {
                                    assert(v[i] == d[i - z.len()]);
                                }
                            }
                        }
                    }
                    let t = sanitized(title);
                    let name = v + "_"@ + t + ".zip"@;
                    assert forall|k: int| 0 <= k < name.len() implies #[trigger] name[k] != '/' && name[k] != '\\' by {
                        if k < v.len() {
                            assert(name[k] == v[k]);
                            assert(crate::text::is_digit(v[k]));
                        } else if k < v.len() + 1 {
                            assert(name[k] == '_');
                        } else if k < v.len() + 1 + t.len() {
                            assert(name[k] == t[k - v.len() - 1]);
                        } else {
                            assert(name[k] == ".zip"@[k - v.len() - 1 - t.len()]);
                        }
                    }
                    assert(name.skip(name.len() - 4) =~= ".zip"@);
                },
                None => {},
            }
        },
        _ => {},
    }
}

/// The title and volume of a job's metadata.
pub open spec fn metadata_view(m: Option<&JobMetadataSnapshot>) -> Option<(Option<Seq<char>>, Option<Seq<char>>)> {
    match m {
        Some(meta) => Some((opt_text(meta.title), opt_text(meta.volume))),
        None => None,
    }
}

/// See [`archive_name`].
pub fn build_archive_filename(metadata: Option<&JobMetadataSnapshot>, job_id: &str) -> (r: (String, Vec<String>))
    ensures
        (r.0@, texts(r.1@)) == archive_name(metadata_view(metadata), job_id@),
{
    let mut warnings: Vec<String> = Vec::new();
    match metadata {
        Some(meta) => match (&meta.title, &meta.volume) {
            (Some(title), Some(volume)) => {
                let normalized_title = sanitize_filename_component(title.as_str());
                if normalized_title.unicode_len() == 0 {
                    warnings.push(String::from_str("作品名为空，使用 jobId 命名 zip。"));
                } else {
                    match parse_volume_number(volume.as_str()) {
                        Some(nv) => {
                            let mut out: Vec<char> = chars_of(nv.as_str());
                            out.push('_');
                            push_str(&mut out, normalized_title.as_str());
                            push_str(&mut out, ".zip");
                            let name = string_of(&out);
                            proof {
                                reveal_strlit("_");
                            }
                            assert(name@ =~= nv@ + "_"@ + normalized_title@ + ".zip"@);
                            assert(texts(warnings@) =~= Seq::<Seq<char>>::empty());
                            return (name, warnings);
                        },
                        None => {
                            warnings.push(String::from_str("卷号非数字，使用 jobId 命名 zip。"));
                        },
                    }
                }
            },
            _ => {
                warnings.push(String::from_str("缺少作品名或卷号，使用 jobId 命名 zip。"));
            },
        },
        None => {
            warnings.push(String::from_str("缺少作业元数据，使用 jobId 命名 zip。"));
        },
    }
    let fallback = sanitize_filename_component(job_id);
    let name = if fallback.unicode_len() == 0 {
        String::from_str("artifact.zip")
    } else {
        concat2(fallback.as_str(), ".zip")
    };
    assert(texts(warnings@) =~= archive_name(metadata_view(metadata), job_id@).1);
    (name, warnings)
}

// ---------------------------------------------------------------------------
// Zip entries
// ---------------------------------------------------------------------------

/// The `'/'`-separated components of a path, empty ones included.
pub open spec fn components(path: Seq<char>) -> Seq<Seq<char>>
    decreases path.len(),
{
    match crate::text::index_of_last(path, '/') {
        Some(i) => {
            proof {
                crate::text::lemma_index_of_last(path, '/');
            }
            components(path.take(i)).push(path.skip(i + 1))
        },
        None => seq![path],
    }
}

/// The last component of a path.
pub open spec fn last_component(path: Seq<char>) -> Seq<char> {
    match crate::text::index_of_last(path, '/') {
        Some(i) => path.skip(i + 1),
        None => path,
    }
}

/// The name under which an extracted file goes into the repacked archive
/// (`normalize_zip_path`): `None` for a path that climbs out (`..` as a
/// component) or starts at the root; otherwise the path with `'\'` turned
/// into `'/'`.
pub open spec fn zip_name(path: Seq<char>) -> Option<Seq<char>> {
    if (path.len() > 0 && path[0] == '/') || components(path).contains(".."@) {
        None
    } else {
        Some(path.map_values(|c: char| if c == '\\' { '/' } else { c }))
    }
}

/// Whether some component of `v[..hi]` is `..`, scanning back from `hi`.
fn has_parent_component(v: &Vec<char>) -> (b: bool)
    ensures
        b == components(v@).contains(".."@),
{
    let mut hi = v.len();
    let mut found = false;
    proof {
        reveal_strlit("..");
    }
    assert(v@.take(v@.len() as int) =~= v@);
    loop
        invariant
            hi <= v@.len(),
            components(v@).contains(".."@) == (found || components(v@.take(hi as int)).contains(".."@)),
        decreases hi,
    {
        let ghost part = v@.take(hi as int);
        proof {
            reveal_strlit("..");
        }
        let slash = crate::text::find_last(&slice_prefix(v, hi), '/');
        proof {
            crate::text::lemma_index_of_last(part, '/');
        }
        match slash {
            Some(i) => {
                let is_dots = hi - i - 1 == 2 && v[i + 1] == '.' && v[i + 2] == '.';
                proof {
                    assert(part.take(i as int) =~= v@.take(i as int));
                    assert(components(part) == components(part.take(i as int)).push(part.skip(i + 1)));
                    assert(is_dots == (part.skip(i + 1) == ".."@)) by {
                        if part.skip(i + 1).len() == 2 {
                            assert(part.skip(i + 1)[0] == v@[i + 1]);
                            assert(part.skip(i + 1)[1] == v@[i + 2]);
                        }
                        if is_dots {
                            assert(part.skip(i + 1) =~= ".."@);
                        }
                    }
                    assert(components(part).contains(".."@) == (components(part.take(i as int)).contains(".."@) || part.skip(i + 1) == ".."@)) by {
                        let c = components(part.take(i as int));
                        if components(part).contains(".."@) {
                            let k = choose|k: int| 0 <= k < components(part).len() && components(part)[k] == ".."@;
                            if k < c.len() {
                                assert(c[k] == ".."@);
                            }
                        }
                        if c.contains(".."@) {
                            let k = choose|k: int| 0 <= k < c.len() && c[k] == ".."@;
                            assert(components(part)[k] == ".."@);
                        }
                        if part.skip(i + 1) == ".."@ {
                            assert(components(part)[c.len() as int] == ".."@);
                        }
                    }
                }
                if is_dots {
                    found = true;
                }
                hi = i;
            },
            None => {
                let is_dots = hi == 2 && v[0] == '.' && v[1] == '.';
                proof {
                    assert(components(part) == seq![part]);
                    assert(is_dots == (part == ".."@)) by {
                        if part.len() == 2 {
                            assert(part[0] == v@[0] && part[1] == v@[1]);
                        }
                        if is_dots {
                            assert(part =~= ".."@);
                        }
                    }
                    if part == ".."@ {
                        assert(components(part)[0] == ".."@);
                    }
                }
                return found || is_dots;
            },
        }
    }
}

/// The first `hi` characters of `v`.
fn slice_prefix(v: &Vec<char>, hi: usize) -> (r: Vec<char>)
    requires
        hi <= v@.len(),
    ensures
        r@ == v@.take(hi as int),
{
    crate::text::slice_chars(v, 0, hi)
}

/// See [`zip_name`].
pub fn normalize_zip_path(path: &str) -> (r: Option<String>)
    ensures
        opt_text(r) == zip_name(path@),
{
    let v = chars_of(path);
    if v.len() > 0 && v[0] == '/' {
        return None;
    }
    if has_parent_component(&v) {
        return None;
    }
    let mut out: Vec<char> = Vec::new();
    let mut i: usize = 0;
    while i < v.len()
        invariant
            i <= v@.len(),
            out@ == v@.take(i as int).map_values(|c: char| if c == '\\' { '/' } else { c }),
        decreases v.len() - i,
    {
        let c = v[i];
        out.push(if c == '\\' { '/' } else { c });
        assert(out@ =~= v@.take(i + 1).map_values(|c: char| if c == '\\' { '/' } else { c }));
        i = i + 1;
    }
    assert(v@.take(v@.len() as int) =~= v@);
    Some(string_of(&out))
}

/// What becomes of one entry of a downloaded archive.
#[derive(Debug)]
pub enum ZipEntryKind {
    /// A directory: created, nothing else.
    Directory,
    /// A file: extracted, and repacked under this name when it is an image
    /// with a safe path.
    File(Option<String>),
}

/// The kind of an entry named `name` whose sanitised relative path is
/// `relative` (the entry loop of `finalize_artifact`): a name ending in `'/'`
/// is a directory; a file is repacked when its last component has an image
/// extension and its path is safe (see [`zip_name`]).
pub fn classify_zip_entry(name: &str, relative: &str) -> (k: ZipEntryKind)
    ensures
        has_suffix(name@, "/"@) ==> k is Directory,
        !has_suffix(name@, "/"@) ==> (k matches ZipEntryKind::File(z) && opt_text(z) == (if is_supported_name(last_component(relative@)) {
            zip_name(relative@)
        } else {
            None
        })),
{
    let nv = chars_of(name);
    if crate::text::ends_with(&nv, "/") {
        return ZipEntryKind::Directory;
    }
    let rv = chars_of(relative);
    proof {
        crate::text::lemma_index_of_last(relative@, '/');
    }
    let n = rv.len();
    let last = match crate::text::find_last(&rv, '/') {
        Some(i) => crate::text::slice_chars(&rv, i + 1, n),
        None => rv,
    };
    let ls = string_of(&last);
    proof {
        match crate::text::index_of_last(relative@, '/') {
            Some(i) => {
                crate::text::lemma_index_of_last(relative@, '/');
                assert(last@ =~= relative@.skip(i + 1));
            },
            None => {},
        }
    }
    if crate::names::is_image_extension(ls.as_str()) {
        ZipEntryKind::File(normalize_zip_path(relative))
    } else {
        ZipEntryKind::File(None)
    }
}

/// The warnings of a repacked archive (the end of `finalize_artifact`): those
/// gathered so far, one more when no image was found, and, when the
/// extraction directory was to be removed, one saying whether that worked.
pub open spec fn finalize_warnings(before: Seq<Seq<char>>, image_count: nat, cleanup: Option<Option<Seq<char>>>, extract_root: Seq<char>) -> Seq<Seq<char>> {
    let w = if image_count == 0 {
        before.push("压缩包中未找到图片文件。"@)
    } else {
        before
    };
    match cleanup {
        None => w,
        Some(None) => w.push("已清理临时目录 "@ + extract_root),
        Some(Some(err)) => w.push("清理临时目录失败: "@ + err),
    }
}

/// See [`finalize_warnings`]; `cleanup` is `None` when nothing was removed,
/// `Some(None)` after a removal and `Some(Some(error))` after a failed one.
pub fn add_finalize_warnings(warnings: &mut Vec<String>, image_count: usize, cleanup: Option<Option<&str>>, extract_root: &str)
    ensures
        texts(final(warnings)@) == finalize_warnings(
            texts(old(warnings)@),
            image_count as nat,
            match cleanup {
                None => None,
                Some(None) => Some(None),
                Some(Some(e)) => Some(Some(e@)),
            },
            extract_root@,
        ),
{
    let ghost before = warnings@;
    if image_count == 0 {
        warnings.push(String::from_str("压缩包中未找到图片文件。"));
    }
    assert(texts(warnings@) =~= (if image_count == 0 { texts(before).push("压缩包中未找到图片文件。"@) } else { texts(before) }));
    let ghost mid = warnings@;
    match cleanup {
        None => {},
        Some(None) => {
            warnings.push(concat2("已清理临时目录 ", extract_root));
            assert(texts(warnings@) =~= texts(mid).push("已清理临时目录 "@ + extract_root@));
        },
        Some(Some(e)) => {
            warnings.push(concat2("清理临时目录失败: ", e));
            assert(texts(warnings@) =~= texts(mid).push("清理临时目录失败: "@ + e@));
        },
    }
}

// ---------------------------------------------------------------------------
// Validation
// ---------------------------------------------------------------------------

/// How an extracted file compares with the manifest.
#[derive(Debug, Clone, Copy, PartialEq, Eq, Structural)]
pub enum ArtifactValidationStatus {
    Matched,
    Missing,
    Extra,
    Mismatch,
}

/// One line of a validation report.
#[derive(Debug)]
pub struct ArtifactValidationItem {
    pub filename: String,
    pub expected_hash: Option<String>,
    pub actual_hash: Option<String>,
    pub expected_bytes: Option<u64>,
    pub actual_bytes: Option<u64>,
    pub status: ArtifactValidationStatus,
}

/// The counts of a validation report.
#[derive(Debug, Clone, Copy, PartialEq, Eq, Structural)]
pub struct ArtifactReportSummary {
    pub matched: u32,
    pub missing: u32,
    pub extra: u32,
    pub mismatched: u32,
    pub total_manifest: u32,
    pub total_extracted: u32,
}

/// A validation report.
#[derive(Debug)]
pub struct ArtifactReport {
    pub job_id: String,
    pub artifact_path: String,
    pub extract_path: String,
    pub manifest_path: Option<String>,
    pub hash: String,
    pub created_at: String,
    pub summary: ArtifactReportSummary,
    pub items: Vec<ArtifactValidationItem>,
    pub warnings: Vec<String>,
    pub report_path: Option<String>,
    pub archive_path: Option<String>,
}

/// What a download left behind.
#[derive(Debug)]
pub struct ArtifactDownloadSummary {
    pub job_id: String,
    pub archive_path: String,
    pub extract_path: String,
    pub hash: String,
    pub file_count: usize,
    pub warnings: Vec<String>,
}

/// Asks to download or validate a job's artifact.
#[derive(Debug)]
pub struct ArtifactDownloadRequest {
    pub service_url: String,
    pub job_id: String,
    pub artifact_path: String,
    pub target_dir: String,
    pub bearer_token: Option<String>,
    pub manifest_path: Option<String>,
    pub expected_hash: Option<String>,
    pub metadata: Option<JobMetadataSnapshot>,
}

/// A file name with its digest.
#[derive(Debug)]
pub struct NamedDigest {
    pub name: String,
    pub digest: FileDigest,
}

/// A named digest as values: name, size, hash.
pub type DigestView = (Seq<char>, u64, Seq<char>);

/// The values of a list of named digests.
pub open spec fn digest_views(v: Seq<NamedDigest>) -> Seq<DigestView> {
    v.map_values(|d: NamedDigest| (d.name@, d.digest.bytes, d.digest.hash@))
}

/// No two entries share a name (the lists come from maps keyed by name).
pub open spec fn names_distinct(v: Seq<DigestView>) -> bool {
    forall|a: int, b: int| 0 <= a < b < v.len() ==> v[a].0 != v[b].0
}

/// The entry named `name`, if any.
pub open spec fn lookup(v: Seq<DigestView>, name: Seq<char>) -> Option<DigestView>
    decreases v.len(),
{
    if v.len() == 0 {
        None
    } else if v.last().0 == name {
        Some(v.last())
    } else {
        lookup(v.drop_last(), name)
    }
}

/// A report line as values: file name, expected hash, actual hash, expected
/// size, actual size, status.
pub type ItemView = (Seq<char>, Option<Seq<char>>, Option<Seq<char>>, Option<u64>, Option<u64>, ArtifactValidationStatus);

/// The values of a report line.
pub open spec fn item_view(i: ArtifactValidationItem) -> ItemView {
    (i.filename@, opt_text(i.expected_hash), opt_text(i.actual_hash), i.expected_bytes, i.actual_bytes, i.status)
}

/// The line for a manifest entry: matched when a file of that name has the
/// same hash, mismatched when its hash differs, missing when there is none.
pub open spec fn expected_line(e: DigestView, actual: Seq<DigestView>) -> ItemView {
    match lookup(actual, e.0) {
        Some(a) => (e.0, Some(e.2), Some(a.2), Some(e.1), Some(a.1), if e.2 == a.2 {
            ArtifactValidationStatus::Matched
        } else {
            ArtifactValidationStatus::Mismatch
        }),
        None => (e.0, Some(e.2), None, Some(e.1), None, ArtifactValidationStatus::Missing),
    }
}

/// The line for an extracted file: extra when a manifest is given, matched
/// when there is none.
pub open spec fn actual_line(a: DigestView, status: ArtifactValidationStatus) -> ItemView {
    (a.0, None, Some(a.2), None, Some(a.1), status)
}

/// The lines for the extracted files that the manifest does not list, in order.
pub open spec fn extra_lines(expected: Seq<DigestView>, actual: Seq<DigestView>) -> Seq<ItemView>
    decreases actual.len(),
{
    if actual.len() == 0 {
        Seq::empty()
    } else {
        let before = extra_lines(expected, actual.drop_last());
        if lookup(expected, actual.last().0) is None {
            before.push(actual_line(actual.last(), ArtifactValidationStatus::Extra))
        } else {
            before
        }
    }
}

/// The lines of a validation report (`validate_artifact`): with a manifest,
/// one per manifest entry in order, then one per unlisted extracted file;
/// without one, every extracted file as matched.
pub open spec fn validation_lines(expected: Option<Seq<DigestView>>, actual: Seq<DigestView>) -> Seq<ItemView> {
    match expected {
        Some(ex) => ex.map_values(|e: DigestView| expected_line(e, actual)) + extra_lines(ex, actual),
        None => actual.map_values(|a: DigestView| actual_line(a, ArtifactValidationStatus::Matched)),
    }
}

/// The number of lines with this status.
pub open spec fn status_count(lines: Seq<ItemView>, s: ArtifactValidationStatus) -> nat
    decreases lines.len(),
{
    if lines.len() == 0 {
        0
    } else {
        status_count(lines.drop_last(), s) + if lines.last().5 == s {
            1nat
        } else {
            0nat
        }
    }
}

/// The counts of a report's lines.
pub open spec fn summary_of(lines: Seq<ItemView>) -> ArtifactReportSummary {
    let m = status_count(lines, ArtifactValidationStatus::Matched);
    let mi = status_count(lines, ArtifactValidationStatus::Missing);
    let x = status_count(lines, ArtifactValidationStatus::Extra);
    let mm = status_count(lines, ArtifactValidationStatus::Mismatch);
    ArtifactReportSummary {
        matched: m as u32,
        missing: mi as u32,
        extra: x as u32,
        mismatched: mm as u32,
        total_manifest: (m + mi + mm) as u32,
        total_extracted: (m + mm + x) as u32,
    }
}

/// The warning that ends a report for each kind of problem found.
pub open spec fn count_warnings(s: ArtifactReportSummary, manifest_given: bool) -> Seq<Seq<char>> {
    let a = if manifest_given {
        Seq::empty()
    } else {
        seq!["未提供 manifest，按实际文件生成报告。"@]
    };
    let b = if s.missing > 0 {
        a.push("缺少 "@ + decimal(s.missing as nat) + " 个文件"@)
    } else {
        a
    };
    let c = if s.extra > 0 {
        b.push("存在 "@ + decimal(s.extra as nat) + " 个额外文件"@)
    } else {
        b
    };
    if s.mismatched > 0 {
        c.push(decimal(s.mismatched as nat) + " 个文件的哈希不一致"@)
    } else {
        c
    }
}

proof fn lemma_status_count_bound(lines: Seq<ItemView>, s: ArtifactValidationStatus)
    ensures
        status_count(lines, s) <= lines.len(),
    decreases lines.len(),
{
    if lines.len() > 0 {
        lemma_status_count_bound(lines.drop_last(), s);
    }
}

proof fn lemma_status_counts_sum(lines: Seq<ItemView>)
    ensures
        status_count(lines, ArtifactValidationStatus::Matched) + status_count(lines, ArtifactValidationStatus::Missing)
            + status_count(lines, ArtifactValidationStatus::Extra) + status_count(lines, ArtifactValidationStatus::Mismatch)
            == lines.len(),
    decreases lines.len(),
{
    if lines.len() > 0 {
        lemma_status_counts_sum(lines.drop_last());
    }
}

proof fn lemma_lookup_found(v: Seq<DigestView>, name: Seq<char>)
    ensures
        lookup(v, name) matches Some(d) ==> d.0 == name && v.contains(d),
        lookup(v, name) is None ==> forall|k: int| 0 <= k < v.len() ==> v[k].0 != name,
    decreases v.len(),
{
    if v.len() > 0 {
        lemma_lookup_found(v.drop_last(), name);
        if lookup(v, name) is Some && v.last().0 != name {
            let d = lookup(v.drop_last(), name)->0;
            let k = choose|k: int| 0 <= k < v.drop_last().len() && v.drop_last()[k] == d;
            assert(v[k] == d);
        }
        if v.last().0 == name {
            assert(v[v.len() - 1] == v.last());
        }
        assert forall|k: int| 0 <= k < v.len() - 1 implies v[k] == v.drop_last()[k] by {}
    }
}

/// A decimal count inside a fixed text.
fn count_text(prefix: &str, n: u32, suffix: &str) -> (r: String)
    ensures
        r@ == prefix@ + decimal(n as nat) + suffix@,
{
    let mut out: Vec<char> = Vec::new();
    push_str(&mut out, prefix);
    push_decimal(&mut out, n as u64);
    push_str(&mut out, suffix);
    assert(out@ =~= prefix@ + decimal(n as nat) + suffix@);
    string_of(&out)
}

fn find_digest(v: &Vec<NamedDigest>, name: &String) -> (r: Option<usize>)
    ensures
        match r {
            Some(k) => k < v@.len() && lookup(digest_views(v@), name@) == Some(digest_views(v@)[k as int]),
            None => lookup(digest_views(v@), name@) is None,
        },
{
    let ghost dv = digest_views(v@);
    let mut i = v.len();
    assert(dv.take(v@.len() as int) =~= dv);
    while i > 0
        invariant
            dv == digest_views(v@),
            i <= v@.len(),
            lookup(dv, name@) == lookup(dv.take(i as int), name@),
        decreases i,
    {
        assert(dv.take(i as int).drop_last() =~= dv.take(i - 1));
        assert(dv[i - 1] == (v@[i - 1].name@, v@[i - 1].digest.bytes, v@[i - 1].digest.hash@));
        if v[i - 1].name == *name {
            return Some(i - 1);
        }
        i = i - 1;
    }
    None
}

/// The lines, counts and closing warnings of a validation report, from the
/// manifest's digests (when a manifest was given) and those of the extracted
/// files: see [`validation_lines`], [`summary_of`] and [`count_warnings`];
/// `warnings` are those gathered before.
pub fn compare_digests(
    expected: Option<&Vec<NamedDigest>>,
    actual: &Vec<NamedDigest>,
    warnings: &mut Vec<String>,
) -> (r: (Vec<ArtifactValidationItem>, ArtifactReportSummary))
    requires
        match expected {
            Some(e) => e@.len() + actual@.len() <= u32::MAX,
            None => actual@.len() <= u32::MAX,
        },
    ensures
        r.0@.map_values(|i: ArtifactValidationItem| item_view(i)) == validation_lines(
            match expected {
                Some(e) => Some(digest_views(e@)),
                None => None,
            },
            digest_views(actual@),
        ),
        r.1 == summary_of(r.0@.map_values(|i: ArtifactValidationItem| item_view(i))),
        texts(final(warnings)@) == texts(old(warnings)@) + count_warnings(r.1, expected is Some),
{
    let ghost av = digest_views(actual@);
    let mut items: Vec<ArtifactValidationItem> = Vec::new();
    let mut matched: u32 = 0;
    let mut missing: u32 = 0;
    let mut extra: u32 = 0;
    let mut mismatched: u32 = 0;
    match expected {
        Some(ex) => {
            let ghost ev = digest_views(ex@);
            let mut i: usize = 0;
            while i < ex.len()
                invariant
                    ev == digest_views(ex@),
                    av == digest_views(actual@),
                    ex@.len() + actual@.len() <= u32::MAX,
                    i <= ex@.len(),
                    items@.map_values(|it: ArtifactValidationItem| item_view(it)) == ev.take(i as int).map_values(|e: DigestView| expected_line(e, av)),
                    matched == status_count(items@.map_values(|it: ArtifactValidationItem| item_view(it)), ArtifactValidationStatus::Matched),
                    missing == status_count(items@.map_values(|it: ArtifactValidationItem| item_view(it)), ArtifactValidationStatus::Missing),
                    extra == status_count(items@.map_values(|it: ArtifactValidationItem| item_view(it)), ArtifactValidationStatus::Extra),
                    mismatched == status_count(items@.map_values(|it: ArtifactValidationItem| item_view(it)), ArtifactValidationStatus::Mismatch),
                    items@.len() == i,
                decreases ex.len() - i,
            {
                let ghost before = items@.map_values(|it: ArtifactValidationItem| item_view(it));
                proof {
                    lemma_status_counts_sum(before);
                }
                let e = &ex[i];
                assert(ev[i as int] == (e.name@, e.digest.bytes, e.digest.hash@));
                let item = match find_digest(actual, &e.name) {
                    Some(k) => {
                        let a = &actual[k];
                        assert(av[k as int] == (a.name@, a.digest.bytes, a.digest.hash@));
                        let same = e.digest.hash == a.digest.hash;
                        if same {
                            matched = matched + 1;
                        } else {
                            mismatched = mismatched + 1;
                        }
                        ArtifactValidationItem {
                            filename: e.name.clone(),
                            expected_hash: Some(e.digest.hash.clone()),
                            actual_hash: Some(a.digest.hash.clone()),
                            expected_bytes: Some(e.digest.bytes),
                            actual_bytes: Some(a.digest.bytes),
                            status: if same {
                                ArtifactValidationStatus::Matched
                            } else {
                                ArtifactValidationStatus::Mismatch
                            },
                        }
                    },
                    None => {
                        missing = missing + 1;
                        ArtifactValidationItem {
                            filename: e.name.clone(),
                            expected_hash: Some(e.digest.hash.clone()),
                            actual_hash: None,
                            expected_bytes: Some(e.digest.bytes),
                            actual_bytes: None,
                            status: ArtifactValidationStatus::Missing,
                        }
                    },
                };
                assert(item_view(item) == expected_line(ev[i as int], av));
                items.push(item);
                assert(items@.map_values(|it: ArtifactValidationItem| item_view(it)) =~= before.push(item_view(item)));
                assert(ev.take(i + 1).map_values(|e: DigestView| expected_line(e, av)) =~= ev.take(i as int).map_values(|e: DigestView| expected_line(e, av)).push(expected_line(ev[i as int], av)));
                assert(before.push(item_view(item)).drop_last() =~= before);
                i = i + 1;
            }
            assert(ev.take(ex@.len() as int) =~= ev);
            let ghost head = items@.map_values(|it: ArtifactValidationItem| item_view(it));
            let mut j: usize = 0;
            while j < actual.len()
                invariant
                    ev == digest_views(ex@),
                    av == digest_views(actual@),
                    ex@.len() + actual@.len() <= u32::MAX,
                    j <= actual@.len(),
                    head == ev.map_values(|e: DigestView| expected_line(e, av)),
                    head.len() == ex@.len(),
                    items@.map_values(|it: ArtifactValidationItem| item_view(it)) == head + extra_lines(ev, av.take(j as int)),
                    items@.len() <= ex@.len() + j,
                    matched == status_count(items@.map_values(|it: ArtifactValidationItem| item_view(it)), ArtifactValidationStatus::Matched),
                    missing == status_count(items@.map_values(|it: ArtifactValidationItem| item_view(it)), ArtifactValidationStatus::Missing),
                    extra == status_count(items@.map_values(|it: ArtifactValidationItem| item_view(it)), ArtifactValidationStatus::Extra),
                    mismatched == status_count(items@.map_values(|it: ArtifactValidationItem| item_view(it)), ArtifactValidationStatus::Mismatch),
                decreases actual.len() - j,
            {
                let ghost before = items@.map_values(|it: ArtifactValidationItem| item_view(it));
                proof {
                    lemma_status_counts_sum(before);
                }
                let a = &actual[j];
                assert(av[j as int] == (a.name@, a.digest.bytes, a.digest.hash@));
                assert(av.take(j + 1).drop_last() =~= av.take(j as int));
                match find_digest(ex, &a.name) {
                    Some(_) => {},
                    None => {
                        extra = extra + 1;
                        let item = ArtifactValidationItem {
                            filename: a.name.clone(),
                            expected_hash: None,
                            actual_hash: Some(a.digest.hash.clone()),
                            expected_bytes: None,
                            actual_bytes: Some(a.digest.bytes),
                            status: ArtifactValidationStatus::Extra,
                        };
                        items.push(item);
                        assert(items@.map_values(|it: ArtifactValidationItem| item_view(it)) =~= before.push(item_view(item)));
                        assert(before.push(item_view(item)).drop_last() =~= before);
                    },
                }
                j = j + 1;
            }
            assert(av.take(actual@.len() as int) =~= av);
        },
        None => {
            let mut j: usize = 0;
            while j < actual.len()
                invariant
                    av == digest_views(actual@),
                    actual@.len() <= u32::MAX,
                    j <= actual@.len(),
                    items@.len() == j,
                    items@.map_values(|it: ArtifactValidationItem| item_view(it)) == av.take(j as int).map_values(|a: DigestView| actual_line(a, ArtifactValidationStatus::Matched)),
                    matched == status_count(items@.map_values(|it: ArtifactValidationItem| item_view(it)), ArtifactValidationStatus::Matched),
                    missing == status_count(items@.map_values(|it: ArtifactValidationItem| item_view(it)), ArtifactValidationStatus::Missing),
                    extra == status_count(items@.map_values(|it: ArtifactValidationItem| item_view(it)), ArtifactValidationStatus::Extra),
                    mismatched == status_count(items@.map_values(|it: ArtifactValidationItem| item_view(it)), ArtifactValidationStatus::Mismatch),
                decreases actual.len() - j,
            {
                let ghost before = items@.map_values(|it: ArtifactValidationItem| item_view(it));
                proof {
                    lemma_status_counts_sum(before);
                }
                let a = &actual[j];
                assert(av[j as int] == (a.name@, a.digest.bytes, a.digest.hash@));
                matched = matched + 1;
                let item = ArtifactValidationItem {
                    filename: a.name.clone(),
                    expected_hash: None,
                    actual_hash: Some(a.digest.hash.clone()),
                    expected_bytes: None,
                    actual_bytes: Some(a.digest.bytes),
                    status: ArtifactValidationStatus::Matched,
                };
                items.push(item);
                assert(items@.map_values(|it: ArtifactValidationItem| item_view(it)) =~= before.push(item_view(item)));
                assert(before.push(item_view(item)).drop_last() =~= before);
                assert(av.take(j + 1).map_values(|a: DigestView| actual_line(a, ArtifactValidationStatus::Matched)) =~= av.take(j as int).map_values(|a: DigestView| actual_line(a, ArtifactValidationStatus::Matched)).push(actual_line(av[j as int], ArtifactValidationStatus::Matched)));
                j = j + 1;
            }
            assert(av.take(actual@.len() as int) =~= av);
        },
    }
    let ghost lines = items@.map_values(|it: ArtifactValidationItem| item_view(it));
    proof {
        lemma_status_counts_sum(lines);
    }
    let summary = ArtifactReportSummary {
        matched,
        missing,
        extra,
        mismatched,
        total_manifest: matched + missing + mismatched,
        total_extracted: matched + mismatched + extra,
    };
    let ghost start = warnings@;
    if expected.is_none() {
        warnings.push(String::from_str("未提供 manifest，按实际文件生成报告。"));
    }
    let ghost w1 = warnings@;
    if missing > 0 {
        warnings.push(count_text("缺少 ", missing, " 个文件"));
    }
    let ghost w2 = warnings@;
    if extra > 0 {
        warnings.push(count_text("存在 ", extra, " 个额外文件"));
    }
    let ghost w3 = warnings@;
    if mismatched > 0 {
        warnings.push(count_text("", mismatched, " 个文件的哈希不一致"));
    }
    proof {
        reveal_strlit("");
        assert(texts(warnings@) =~= texts(start) + count_warnings(summary, expected is Some));
    }
    (items, summary)
}

// ---------------------------------------------------------------------------
// The cached report
// ---------------------------------------------------------------------------


/// The warnings of a cached report served again (the `304` branch of
/// `validate_artifact`): a notice that the remote artifact is unchanged goes
/// first, unless some warning already says `未变更`.
pub open spec fn cached_warnings(w: Seq<Seq<char>>) -> Seq<Seq<char>> {
    if exists|k: int| 0 <= k < w.len() && contains_text(#[trigger] w[k], "未变更"@) {
        w
    } else {
        seq!["远端产物未变更，返回本地缓存结果。"@] + w
    }
}

/// See [`cached_warnings`].
pub fn mark_cached_warnings(warnings: &mut Vec<String>)
    ensures
        texts(final(warnings)@) == cached_warnings(texts(old(warnings)@)),
{
    let pat = chars_of("未变更");
    let ghost tv = texts(warnings@);
    let mut found = false;
    let mut k: usize = 0;
    while k < warnings.len()
        invariant
            pat@ == "未变更"@,
            tv == texts(warnings@),
            k <= warnings@.len(),
            found == exists|q: int| 0 <= q < k && contains_text(#[trigger] tv[q], "未变更"@),
        decreases warnings.len() - k,
    {
        let w = chars_of(warnings[k].as_str());
        assert(tv[k as int] == warnings@[k as int]@);
        if find_text(&w, &pat) {
            found = true;
        }
        k = k + 1;
    }
    if !found {
        warnings.insert(0, String::from_str("远端产物未变更，返回本地缓存结果。"));
        assert(texts(warnings@) =~= seq!["远端产物未变更，返回本地缓存结果。"@] + tv);
    }
}

/// What to do with the service's answer to an artifact request.
#[derive(Debug, Clone, Copy, PartialEq, Eq, Structural)]
pub enum ArtifactResponse {
    /// Serve the cached report again.
    UseCache,
    /// Unchanged, but there is nothing cached: an error.
    NotModifiedWithoutCache,
    /// Any other failure status: an error.
    Unexpected,
    /// Download and check the artifact.
    Proceed,
}

/// The action for a response status (`validate_artifact`): `304` serves the
/// cached report, or fails without one; other statuses outside `2xx` fail;
/// a success proceeds.
pub fn artifact_response(status: u16, has_cached_report: bool) -> (a: ArtifactResponse)
    ensures
        a == (if status == 304 {
            if has_cached_report {
                ArtifactResponse::UseCache
            } else {
                ArtifactResponse::NotModifiedWithoutCache
            }
        } else if 200 <= status < 300 {
            ArtifactResponse::Proceed
        } else {
            ArtifactResponse::Unexpected
        }),
{
    if status == 304 {
        if has_cached_report {
            ArtifactResponse::UseCache
        } else {
            ArtifactResponse::NotModifiedWithoutCache
        }
    } else if 200 <= status && status < 300 {
        ArtifactResponse::Proceed
    } else {
        ArtifactResponse::Unexpected
    }
}

/// The `If-None-Match` value of an artifact request: the expected hash, sent
/// only when a cached report exists to fall back on.
pub fn if_none_match(expected_hash: Option<&str>, has_cached_report: bool) -> (r: Option<String>)
    ensures
        opt_text(r) == (match expected_hash {
            Some(h) => if has_cached_report {
                Some(h@)
            } else {
                None
            },
            None => None,
        }),
{
    match expected_hash {
        Some(h) => if has_cached_report {
            Some(String::from_str(h))
        } else {
            None
        },
        None => None,
    }
}

// ---------------------------------------------------------------------------
// Digest tables
// ---------------------------------------------------------------------------

/// The table after recording a digest under its name: an entry of that name
/// is replaced in place, otherwise the entry goes last (a map's `insert`).
pub open spec fn digest_insert(v: Seq<DigestView>, d: DigestView) -> Seq<DigestView> {
    if exists|k: int| 0 <= k < v.len() && v[k].0 == d.0 {
        v.update(choose|k: int| 0 <= k < v.len() && v[k].0 == d.0, d)
    } else {
        v.push(d)
    }
}

/// Records a digest under its name (the maps that `read_manifest_expectations`
/// and `collect_directory_digests` fill: a later file of the same name
/// replaces an earlier one). Names stay distinct.
pub fn insert_digest(table: &mut Vec<NamedDigest>, entry: NamedDigest)
    requires
        names_distinct(digest_views(old(table)@)),
    ensures
        names_distinct(digest_views(final(table)@)),
        digest_views(final(table)@) == digest_insert(digest_views(old(table)@), (entry.name@, entry.digest.bytes, entry.digest.hash@)),
{
    let ghost before = digest_views(table@);
    let ghost d = (entry.name@, entry.digest.bytes, entry.digest.hash@);
    let mut i: usize = 0;
    while i < table.len()
        invariant
            before == digest_views(table@),
            before == digest_views(old(table)@),
            d == (entry.name@, entry.digest.bytes, entry.digest.hash@),
            names_distinct(before),
            i <= table@.len(),
            forall|k: int| 0 <= k < i ==> before[k].0 != entry.name@,
        decreases table.len() - i,
    {
        assert(before[i as int] == (table@[i as int].name@, table@[i as int].digest.bytes, table@[i as int].digest.hash@));
        if table[i].name == entry.name {
            assert(before[i as int].0 == d.0);
            assert forall|k: int| 0 <= k < before.len() && before[k].0 == d.0 implies k == i by {
                if k > i {
                    assert(before[i as int].0 != before[k].0);
                } else if k < i {
                    assert(before[k].0 != entry.name@);
                }
            }
            table.set(i, entry);
            proof {
                let c = choose|k: int| 0 <= k < before.len() && before[k].0 == d.0;
                assert(c == i);
                assert(digest_views(table@) =~= before.update(i as int, d));
                assert(exists|k: int| 0 <= k < before.len() && before[k].0 == d.0);
                assert(digest_insert(before, d) == before.update(i as int, d));
                assert(before == digest_views(old(table)@));
                assert(digest_views(table@) == digest_insert(digest_views(old(table)@), d));
            }
            return;
        }
        i = i + 1;
    }
    table.push(entry);
    assert(digest_views(table@) =~= before.push(d));
}

// ---------------------------------------------------------------------------
// Errors
// ---------------------------------------------------------------------------

/// Why an artifact download or validation failed. Failures of the HTTP client,
/// the file system, the zip reader and the JSON parser are carried as their
/// messages, a response status as its text, paths as text.
#[derive(Debug)]
pub enum ArtifactError {
    Request(String),
    Io(String),
    Zip(String),
    UnexpectedStatus(String),
    InvalidServiceUrl,
    ManifestMissing,
    ManifestRead(String, String),
    ManifestParse(String, String),
    TargetDir(String, String),
    ReportWrite(String, String),
    CachedReportRead(String, String),
    NotModifiedWithoutCache(String),
}

/// The message of an artifact error.
pub open spec fn artifact_error_text(e: ArtifactError) -> Seq<char> {
    match e {
        ArtifactError::Request(d) => "request error: "@ + d@,
        ArtifactError::Io(d) => "io error: "@ + d@,
        ArtifactError::Zip(d) => "zip error: "@ + d@,
        ArtifactError::UnexpectedStatus(s) => "unexpected status: "@ + s@,
        ArtifactError::InvalidServiceUrl => "service url is empty"@,
        ArtifactError::ManifestMissing => "manifest path not provided"@,
        ArtifactError::ManifestRead(p, d) => "failed to read manifest "@ + p@ + ": "@ + d@,
        ArtifactError::ManifestParse(p, d) => "failed to parse manifest "@ + p@ + ": "@ + d@,
        ArtifactError::TargetDir(p, d) => "unable to prepare target dir "@ + p@ + ": "@ + d@,
        ArtifactError::ReportWrite(p, d) => "failed to write report "@ + p@ + ": "@ + d@,
        ArtifactError::CachedReportRead(p, d) => "failed to read cached report "@ + p@ + ": "@ + d@,
        ArtifactError::NotModifiedWithoutCache(p) => "remote returned 304 but no cached artifact at "@ + p@,
    }
}

impl ArtifactError {
    /// The error's message (its `Display` text; see [`artifact_error_text`]).
    pub fn message(&self) -> (r: String)
        ensures
            r@ == artifact_error_text(*self),
    {
        match self {
            ArtifactError::Request(d) => concat2("request error: ", d.as_str()),
            ArtifactError::Io(d) => concat2("io error: ", d.as_str()),
            ArtifactError::Zip(d) => concat2("zip error: ", d.as_str()),
            ArtifactError::UnexpectedStatus(st) => concat2("unexpected status: ", st.as_str()),
            ArtifactError::InvalidServiceUrl => String::from_str("service url is empty"),
            ArtifactError::ManifestMissing => String::from_str("manifest path not provided"),
            ArtifactError::ManifestRead(p, d) => crate::text::concat4("failed to read manifest ", p.as_str(), ": ", d.as_str()),
            ArtifactError::ManifestParse(p, d) => crate::text::concat4("failed to parse manifest ", p.as_str(), ": ", d.as_str()),
            ArtifactError::TargetDir(p, d) => crate::text::concat4("unable to prepare target dir ", p.as_str(), ": ", d.as_str()),
            ArtifactError::ReportWrite(p, d) => crate::text::concat4("failed to write report ", p.as_str(), ": ", d.as_str()),
            ArtifactError::CachedReportRead(p, d) => crate::text::concat4("failed to read cached report ", p.as_str(), ": ", d.as_str()),
            ArtifactError::NotModifiedWithoutCache(p) => concat2("remote returned 304 but no cached artifact at ", p.as_str()),
        }
    }
}

/// The check every artifact request starts with: a service address that is
/// not blank.
pub fn check_service_url(service_url: &str) -> (r: Result<(), ArtifactError>)
    ensures
        r is Ok <==> trim_seq(service_url@).len() > 0,
        r matches Err(e) ==> e is InvalidServiceUrl,
{
    let t = trim_chars(&chars_of(service_url));
    if t.len() == 0 {
        Err(ArtifactError::InvalidServiceUrl)
    } else {
        Ok(())
    }
}

// ---------------------------------------------------------------------------
// The totals of a report
// ---------------------------------------------------------------------------

/// The names of a digest table.
pub open spec fn name_set(v: Seq<DigestView>) -> Set<Seq<char>>
    decreases v.len(),
{
    if v.len() == 0 {
        Set::empty()
    } else {
        name_set(v.drop_last()).insert(v.last().0)
    }
}

/// The number of entries of `v` whose name `other` also has.
pub open spec fn shared_count(v: Seq<DigestView>, other: Seq<DigestView>) -> nat
    decreases v.len(),
{
    if v.len() == 0 {
        0
    } else {
        shared_count(v.drop_last(), other) + if lookup(other, v.last().0) is Some {
            1nat
        } else {
            0nat
        }
    }
}

proof fn lemma_name_set(v: Seq<DigestView>)
    ensures
        name_set(v).finite(),
        forall|n: Seq<char>| name_set(v).contains(n) <==> lookup(v, n) is Some,
    decreases v.len(),
{
    if v.len() > 0 {
        lemma_name_set(v.drop_last());
    }
}

proof fn lemma_shared_is_common_names(v: Seq<DigestView>, other: Seq<DigestView>)
    requires
        names_distinct(v),
    ensures
        shared_count(v, other) == name_set(v).intersect(name_set(other)).len(),
    decreases v.len(),
{
    lemma_name_set(v);
    lemma_name_set(other);
    if v.len() == 0 {
        assert(name_set(v).intersect(name_set(other)) =~= Set::empty());
    } else {
        let w = v.drop_last();
        let e = v.last();
        assert(names_distinct(w));
        lemma_shared_is_common_names(w, other);
        lemma_name_set(w);
        lemma_lookup_found(w, e.0);
        assert(!name_set(w).contains(e.0)) by {
            if lookup(w, e.0) is Some {
                let d = lookup(w, e.0)->0;
                let k = choose|k: int| 0 <= k < w.len() && w[k] == d;
                assert(v[k].0 == v[v.len() - 1].0);
            }
        }
        let before = name_set(w).intersect(name_set(other));
        if name_set(other).contains(e.0) {
            assert(name_set(v).intersect(name_set(other)) =~= before.insert(e.0));
        } else {
            assert(name_set(v).intersect(name_set(other)) =~= before);
        }
    }
}

proof fn lemma_count_append(a: Seq<ItemView>, b: Seq<ItemView>, s: ArtifactValidationStatus)
    ensures
        status_count(a + b, s) == status_count(a, s) + status_count(b, s),
    decreases b.len(),
{
    if b.len() == 0 {
        assert(a + b =~= a);
    } else {
        lemma_count_append(a, b.drop_last(), s);
        assert((a + b).drop_last() =~= a + b.drop_last());
    }
}

proof fn lemma_expected_part(ex: Seq<DigestView>, av: Seq<DigestView>)
    ensures
        status_count(ex.map_values(|e: DigestView| expected_line(e, av)), ArtifactValidationStatus::Matched)
            + status_count(ex.map_values(|e: DigestView| expected_line(e, av)), ArtifactValidationStatus::Mismatch)
            == shared_count(ex, av),
        status_count(ex.map_values(|e: DigestView| expected_line(e, av)), ArtifactValidationStatus::Missing)
            + shared_count(ex, av) == ex.len(),
        status_count(ex.map_values(|e: DigestView| expected_line(e, av)), ArtifactValidationStatus::Extra) == 0,
    decreases ex.len(),
{
    if ex.len() > 0 {
        lemma_expected_part(ex.drop_last(), av);
        assert(ex.map_values(|e: DigestView| expected_line(e, av)).drop_last()
            =~= ex.drop_last().map_values(|e: DigestView| expected_line(e, av)));
    }
}

proof fn lemma_extra_part(ex: Seq<DigestView>, av: Seq<DigestView>)
    ensures
        status_count(extra_lines(ex, av), ArtifactValidationStatus::Extra) + shared_count(av, ex) == av.len(),
        status_count(extra_lines(ex, av), ArtifactValidationStatus::Matched) == 0,
        status_count(extra_lines(ex, av), ArtifactValidationStatus::Mismatch) == 0,
        status_count(extra_lines(ex, av), ArtifactValidationStatus::Missing) == 0,
    decreases av.len(),
{
    if av.len() > 0 {
        lemma_extra_part(ex, av.drop_last());
        let before = extra_lines(ex, av.drop_last());
        if lookup(ex, av.last().0) is None {
            assert(extra_lines(ex, av).drop_last() =~= before);
        }
    }
}

proof fn lemma_unlisted_part(av: Seq<DigestView>)
    ensures
        status_count(av.map_values(|a: DigestView| actual_line(a, ArtifactValidationStatus::Matched)), ArtifactValidationStatus::Matched) == av.len(),
        status_count(av.map_values(|a: DigestView| actual_line(a, ArtifactValidationStatus::Matched)), ArtifactValidationStatus::Missing) == 0,
        status_count(av.map_values(|a: DigestView| actual_line(a, ArtifactValidationStatus::Matched)), ArtifactValidationStatus::Mismatch) == 0,
        status_count(av.map_values(|a: DigestView| actual_line(a, ArtifactValidationStatus::Matched)), ArtifactValidationStatus::Extra) == 0,
    decreases av.len(),
{
    if av.len() > 0 {
        lemma_unlisted_part(av.drop_last());
        assert(av.map_values(|a: DigestView| actual_line(a, ArtifactValidationStatus::Matched)).drop_last()
            =~= av.drop_last().map_values(|a: DigestView| actual_line(a, ArtifactValidationStatus::Matched)));
    }
}

/// The totals of a validation report: with a manifest, `total_manifest`
/// counts the manifest's files and, when neither side repeats a name,
/// `total_extracted` counts the extracted files; without a manifest both count
/// the extracted files.
pub proof fn lemma_report_totals(expected: Option<Seq<DigestView>>, actual: Seq<DigestView>)
    requires
        names_distinct(actual),
        match expected {
            Some(ex) => names_distinct(ex) && ex.len() + actual.len() <= u32::MAX,
            None => actual.len() <= u32::MAX,
        },
    ensures
        summary_of(validation_lines(expected, actual)).total_extracted == actual.len(),
        summary_of(validation_lines(expected, actual)).total_manifest == match expected {
            Some(ex) => ex.len(),
            None => actual.len(),
        },
{
    match expected {
        Some(ex) => {
            let a = ex.map_values(|e: DigestView| expected_line(e, actual));
            let b = extra_lines(ex, actual);
            lemma_count_append(a, b, ArtifactValidationStatus::Matched);
            lemma_count_append(a, b, ArtifactValidationStatus::Missing);
            lemma_count_append(a, b, ArtifactValidationStatus::Mismatch);
            lemma_count_append(a, b, ArtifactValidationStatus::Extra);
            lemma_expected_part(ex, actual);
            lemma_extra_part(ex, actual);
            lemma_shared_is_common_names(ex, actual);
            lemma_shared_is_common_names(actual, ex);
            assert(name_set(ex).intersect(name_set(actual)) =~= name_set(actual).intersect(name_set(ex)));
        },
        None => {
            lemma_unlisted_part(actual);
        },
    }
}

proof fn lemma_status_partition(lines: Seq<ItemView>)
    ensures
        status_count(lines, ArtifactValidationStatus::Matched) + status_count(lines, ArtifactValidationStatus::Missing)
            + status_count(lines, ArtifactValidationStatus::Extra) + status_count(lines, ArtifactValidationStatus::Mismatch)
            == lines.len(),
    decreases lines.len(),
{
    if lines.len() > 0 {
        lemma_status_partition(lines.drop_last());
    }
}

proof fn lemma_lookup_none(v: Seq<DigestView>, name: Seq<char>)
    ensures
        lookup(v, name) is None <==> forall|k: int| 0 <= k < v.len() ==> #[trigger] v[k].0 != name,
    decreases v.len(),
{
    if v.len() > 0 {
        lemma_lookup_none(v.drop_last(), name);
        if lookup(v, name) is None {
            assert forall|k: int| 0 <= k < v.len() implies #[trigger] v[k].0 != name by {
                if k < v.len() - 1 {
                    assert(v[k] == v.drop_last()[k]);
                }
            }
        } else if v.last().0 != name {
            let k = choose|k: int| 0 <= k < v.drop_last().len() && #[trigger] v.drop_last()[k].0 == name;
            assert(v[k].0 == name);
        }
    }
}

proof fn lemma_extra_names(ex: Seq<DigestView>, av: Seq<DigestView>)
    requires
        names_distinct(av),
    ensures
        extra_lines(ex, av).len() <= av.len(),
        forall|i: int| 0 <= i < extra_lines(ex, av).len() ==> lookup(av, (#[trigger] extra_lines(ex, av)[i]).0) is Some
            && lookup(ex, extra_lines(ex, av)[i].0) is None,
        forall|a: int, b: int| 0 <= a < b < extra_lines(ex, av).len() ==> extra_lines(ex, av)[a].0
            != extra_lines(ex, av)[b].0,
    decreases av.len(),
{
    if av.len() > 0 {
        let prev = av.drop_last();
        assert(names_distinct(prev)) by {
            assert forall|a: int, b: int| 0 <= a < b < prev.len() implies prev[a].0 != prev[b].0 by {
                assert(prev[a] == av[a] && prev[b] == av[b]);
            }
        }
        lemma_extra_names(ex, prev);
        let before = extra_lines(ex, prev);
        let now = extra_lines(ex, av);
        let last = av.last().0;
        lemma_lookup_none(prev, last);
        assert forall|k: int| 0 <= k < prev.len() implies #[trigger] prev[k].0 != last by {
            assert(prev[k] == av[k]);
        }
        assert forall|i: int| 0 <= i < now.len() implies lookup(av, (#[trigger] now[i]).0) is Some
            && lookup(ex, now[i].0) is None by {
            if i < before.len() {
                assert(now[i] == before[i]);
                if now[i].0 == last {
                    assert(lookup(prev, last) is None);
                }
            }
        }
        if lookup(ex, last) is None {
            assert forall|a: int, b: int| 0 <= a < b < now.len() implies now[a].0 != now[b].0 by {
                assert(now[a] == before[a]);
                if b < before.len() {
                    assert(now[b] == before[b]);
                } else {
                    assert(now[b].0 == last);
                    assert(lookup(prev, before[a].0) is Some);
                }
            }
        }
    }
}

/// The counts of a validation report balance: the manifest's total is the
/// matched, missing and mismatched files, the extracted total the matched,
/// mismatched and extra ones, and there is one line per counted file; without
/// a manifest nothing is missing, extra or mismatched. When neither side
/// repeats a name, no two lines share a file name.
pub proof fn lemma_report_balance(expected: Option<Seq<DigestView>>, actual: Seq<DigestView>)
    requires
        match expected {
            Some(ex) => ex.len() + actual.len() <= u32::MAX,
            None => actual.len() <= u32::MAX,
        },
    ensures
        ({
            let lines = validation_lines(expected, actual);
            let s = summary_of(lines);
            &&& s.total_manifest == s.matched + s.missing + s.mismatched
            &&& s.total_extracted == s.matched + s.mismatched + s.extra
            &&& lines.len() == s.matched + s.missing + s.extra + s.mismatched
            &&& expected is None ==> s.missing == 0 && s.extra == 0 && s.mismatched == 0
        }),
        names_distinct(actual) && (match expected {
            Some(ex) => names_distinct(ex),
            None => true,
        }) ==> forall|a: int, b: int| 0 <= a < b < validation_lines(expected, actual).len() ==> (#[trigger] validation_lines(expected, actual)[a]).0
            != (#[trigger] validation_lines(expected, actual)[b]).0,
{
    let lines = validation_lines(expected, actual);
    lemma_status_partition(lines);
    match expected {
        Some(ex) => {
            let a = ex.map_values(|e: DigestView| expected_line(e, actual));
            let b = extra_lines(ex, actual);
            lemma_extra_part(ex, actual);
            lemma_expected_part(ex, actual);
            lemma_count_append(a, b, ArtifactValidationStatus::Matched);
            lemma_count_append(a, b, ArtifactValidationStatus::Missing);
            lemma_count_append(a, b, ArtifactValidationStatus::Mismatch);
            lemma_count_append(a, b, ArtifactValidationStatus::Extra);
            lemma_status_partition(b);
            if names_distinct(actual) && names_distinct(ex) {
                lemma_extra_names(ex, actual);
                assert forall|i: int, k: int| 0 <= i < b.len() && 0 <= k < ex.len() implies (#[trigger] b[i]).0 != (#[trigger] ex[k]).0 by {
                    lemma_lookup_none(ex, b[i].0);
                }
                assert forall|p: int, q: int| 0 <= p < q < lines.len() implies (#[trigger] lines[p]).0 != (#[trigger] lines[q]).0 by {
                    if q < a.len() {
                        assert(lines[p] == a[p] && lines[q] == a[q]);
                    } else if p < a.len() {
                        assert(lines[p] == a[p] && lines[q] == b[q - a.len()]);
                        assert(b[q - a.len()].0 != ex[p].0);
                    } else {
                        assert(lines[p] == b[p - a.len()] && lines[q] == b[q - a.len()]);
                    }
                }
            }
        },
        None => {
            lemma_unlisted_part(actual);
            if names_distinct(actual) {
                assert forall|p: int, q: int| 0 <= p < q < lines.len() implies (#[trigger] lines[p]).0 != (#[trigger] lines[q]).0 by {
                    assert(lines[p].0 == actual[p].0 && lines[q].0 == actual[q].0);
                }
            }
        },
    }
}

/// Serving a cached report twice adds the unchanged notice once: the notice
/// itself says `未变更`.
pub proof fn lemma_cached_warnings_idempotent(w: Seq<Seq<char>>)
    ensures
        cached_warnings(cached_warnings(w)) == cached_warnings(w),
{
    let notice = "远端产物未变更，返回本地缓存结果。"@;
    let once = cached_warnings(w);
    if !(exists|k: int| 0 <= k < w.len() && contains_text(#[trigger] w[k], "未变更"@)) {
        reveal_strlit("远端产物未变更，返回本地缓存结果。");
        reveal_strlit("未变更");
        assert(notice.subrange(4int, 4int + "未变更"@.len()) =~= "未变更"@);
        assert(contains_text(notice, "未变更"@));
        assert(once[0] == notice);
        assert(contains_text(once[0], "未变更"@));
    }
}

/// Each manifest entry gets the line at its own position, which carries the
/// manifest's hash and size as the expected values. When an extracted file
/// has that name, its hash and size are the actual values, and the line is
/// matched exactly when the two hashes agree (a mismatch otherwise); when no
/// extracted file has that name the line is missing, with no actual values.
/// Without a manifest, each extracted file is a matched line carrying only
/// its own hash and size.
pub proof fn lemma_lines_carry_their_sides(expected: Option<Seq<DigestView>>, actual: Seq<DigestView>)
    ensures
        expected matches Some(ex) ==> forall|k: int| 0 <= k < ex.len() ==> {
            let line = #[trigger] validation_lines(expected, actual)[k];
            &&& line.0 == ex[k].0
            &&& line.1 == Some(ex[k].2)
            &&& line.3 == Some(ex[k].1)
            &&& (exists|j: int| 0 <= j < actual.len() && actual[j].0 == ex[k].0) ==> exists|j: int|
                0 <= j < actual.len() && actual[j].0 == ex[k].0 && line.2 == Some(actual[j].2) && line.4 == Some(actual[j].1)
                && (line.5 == (if ex[k].2 == actual[j].2 {
                    ArtifactValidationStatus::Matched
                } else {
                    ArtifactValidationStatus::Mismatch
                }))
            &&& !(exists|j: int| 0 <= j < actual.len() && actual[j].0 == ex[k].0) ==> line.2 is None && line.4 is None
                && line.5 == ArtifactValidationStatus::Missing
        },
        expected is None ==> validation_lines(expected, actual).len() == actual.len() && forall|k: int| 0 <= k < actual.len() ==>
            #[trigger] validation_lines(expected, actual)[k] == (actual[k].0, None::<Seq<char>>, Some(actual[k].2), None::<u64>, Some(actual[k].1), ArtifactValidationStatus::Matched),
{
    match expected {
        Some(ex) => {
            let head = ex.map_values(|e: DigestView| expected_line(e, actual));
            let lines = validation_lines(expected, actual);
            assert forall|k: int| 0 <= k < ex.len() implies {
                let line = #[trigger] validation_lines(expected, actual)[k];
                &&& line.0 == ex[k].0
                &&& line.1 == Some(ex[k].2)
                &&& line.3 == Some(ex[k].1)
                &&& (exists|j: int| 0 <= j < actual.len() && actual[j].0 == ex[k].0) ==> exists|j: int|
                    0 <= j < actual.len() && actual[j].0 == ex[k].0 && line.2 == Some(actual[j].2) && line.4 == Some(actual[j].1)
                    && (line.5 == (if ex[k].2 == actual[j].2 {
                        ArtifactValidationStatus::Matched
                    } else {
                        ArtifactValidationStatus::Mismatch
                    }))
                &&& !(exists|j: int| 0 <= j < actual.len() && actual[j].0 == ex[k].0) ==> line.2 is None && line.4 is None
                    && line.5 == ArtifactValidationStatus::Missing
            } by {
                assert(lines[k] == head[k]);
                lemma_lookup_found(actual, ex[k].0);
                match lookup(actual, ex[k].0) {
                    Some(a) => {
                        let j = choose|j: int| 0 <= j < actual.len() && actual[j] == a;
                        assert(actual[j].0 == ex[k].0);
                    },
                    None => {},
                }
            }
        },
        None => {},
    }
}

/// No manifest entry has this name.
pub open spec fn unlisted(expected: Seq<DigestView>, name: Seq<char>) -> bool {
    forall|k: int| 0 <= k < expected.len() ==> expected[k].0 != name
}

proof fn lemma_extra_lines_filter(expected: Seq<DigestView>, actual: Seq<DigestView>)
    ensures
        extra_lines(expected, actual) == actual.filter(|a: DigestView| unlisted(expected, a.0)).map_values(
            |a: DigestView| (a.0, None::<Seq<char>>, Some(a.2), None::<u64>, Some(a.1), ArtifactValidationStatus::Extra),
        ),
    decreases actual.len(),
{
    reveal(Seq::filter);
    if actual.len() > 0 {
        let p = actual.drop_last();
        let a = actual.last();
        lemma_extra_lines_filter(expected, p);
        lemma_lookup_found(expected, a.0);
        let f = |x: DigestView| unlisted(expected, x.0);
        let g = |x: DigestView| (x.0, None::<Seq<char>>, Some(x.2), None::<u64>, Some(x.1), ArtifactValidationStatus::Extra);
        if lookup(expected, a.0) is None {
            assert(unlisted(expected, a.0));
            assert(actual.filter(f) == p.filter(f).push(a));
            assert(actual.filter(f).map_values(g) =~= p.filter(f).map_values(g).push(g(a)));
        } else {
            let d = lookup(expected, a.0)->0;
            let k = choose|k: int| 0 <= k < expected.len() && expected[k] == d;
            assert(!unlisted(expected, a.0));
            assert(actual.filter(f) == p.filter(f));
        }
    }
}

/// After the manifest's lines come the extracted files that the manifest does
/// not name, in their order, each as an extra line that carries only its own
/// hash and size; there are no other lines.
pub proof fn lemma_extra_lines_follow_manifest(ex: Seq<DigestView>, actual: Seq<DigestView>)
    ensures
        ({
            let unnamed = actual.filter(|a: DigestView| unlisted(ex, a.0));
            let lines = validation_lines(Some(ex), actual);
            &&& lines.len() == ex.len() + unnamed.len()
            &&& forall|m: int| 0 <= m < unnamed.len() ==> #[trigger] lines[ex.len() + m] == (
                unnamed[m].0,
                None::<Seq<char>>,
                Some(unnamed[m].2),
                None::<u64>,
                Some(unnamed[m].1),
                ArtifactValidationStatus::Extra,
            )
        }),
{
    lemma_extra_lines_filter(ex, actual);
    let unnamed = actual.filter(|a: DigestView| unlisted(ex, a.0));
    let head = ex.map_values(|e: DigestView| expected_line(e, actual));
    let tail = extra_lines(ex, actual);
    let lines = validation_lines(Some(ex), actual);
    assert(lines == head + tail);
    assert forall|m: int| 0 <= m < unnamed.len() implies #[trigger] lines[ex.len() + m] == (
        unnamed[m].0,
        None::<Seq<char>>,
        Some(unnamed[m].2),
        None::<u64>,
        Some(unnamed[m].1),
        ArtifactValidationStatus::Extra,
    ) by {
        assert(lines[ex.len() + m] == tail[m]);
    }
}

} // verus!
