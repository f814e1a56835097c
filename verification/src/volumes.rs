//! Manga source directories: single or multi-volume layout, the volume
//! folders and what is skipped, and the set-up of a renaming run.
use vstd::prelude::*;
use crate::names::{is_supported_name, is_supported_image, joined_path};
use crate::rename::{detect_volume_number, natural_sort_indices, is_natural_sort, DirEntryInfo, last_run_at_most};
use crate::split::{opt_text, texts, SplitDetectionSummary};
use crate::text::{chars_of, concat2, lower_chars, lower_seq, push_str, string_of, push_zero_padded, zero_padded, decimal};

verus! {

// ---------------------------------------------------------------------------
// Types
// ---------------------------------------------------------------------------

/// How the images of a source directory are laid out.
#[derive(Debug, Clone, Copy, PartialEq, Eq, Structural)]
pub enum MangaSourceMode {
    SingleVolume,
    MultiVolume,
}

/// A sub-folder that holds a volume.
#[derive(Debug)]
pub struct VolumeCandidate {
    pub directory: String,
    pub folder_name: String,
    pub image_count: usize,
    pub detected_number: Option<u32>,
}

/// What a source directory holds.
#[derive(Debug)]
pub struct MangaSourceAnalysis {
    pub root: String,
    pub mode: MangaSourceMode,
    pub root_image_count: usize,
    pub total_images: usize,
    pub volume_candidates: Vec<VolumeCandidate>,
    pub skipped_entries: Vec<String>,
    pub split_detection: Option<SplitDetectionSummary>,
}

/// The counters of a split run, as a rename records them.
#[derive(Debug, Clone, Copy, PartialEq, Eq, Structural)]
pub struct RenameSplitSummary {
    pub analyzed_files: usize,
    pub emitted_files: usize,
    pub skipped_files: usize,
    pub split_pages: usize,
    pub cover_trims: usize,
    pub fallback_splits: usize,
}

/// Whether a rename works on the output of a split, and what that run left.
#[derive(Debug)]
pub struct RenameSplitOptions {
    pub enabled: bool,
    pub workspace: Option<String>,
    pub report_path: Option<String>,
    pub summary: Option<RenameSplitSummary>,
    pub warnings: Option<Vec<String>>,
}

/// Asks to rename the pages of a directory.
#[derive(Debug)]
pub struct RenameOptions {
    pub directory: String,
    pub pad: usize,
    pub target_extension: String,
    pub dry_run: bool,
    pub split: RenameSplitOptions,
}

/// The width of page numbers when none is given: 4.
pub fn default_pad() -> (p: usize)
    ensures
        p == 4,
{
    4
}

/// The extension of renamed pages when none is given.
pub fn default_extension() -> (e: String)
    ensures
        e@ == "jpg"@,
{
    String::from_str("jpg")
}

/// Why analysing or renaming a directory failed. File-system and JSON
/// failures are carried as their messages; paths as text.
#[derive(Debug)]
pub enum RenameError {
    Io(String),
    DirectoryNotFound(String),
    EmptyDirectory(String),
    NonUtf8Path(String),
    Serialization(String),
    SplitWorkspaceMissing(String),
}

/// The message of a rename error.
pub open spec fn rename_error_text(e: RenameError) -> Seq<char> {
    match e {
        RenameError::Io(d) => "I/O error: "@ + d@,
        RenameError::DirectoryNotFound(p) => "directory not found: "@ + p@,
        RenameError::EmptyDirectory(p) => "no image files found in "@ + p@,
        RenameError::NonUtf8Path(p) => "path is not valid UTF-8: "@ + p@,
        RenameError::Serialization(d) => "failed to write manifest: "@ + d@,
        RenameError::SplitWorkspaceMissing(p) => "split workspace not found: "@ + p@,
    }
}

impl RenameError {
    /// The error's message (its `Display` text).
    pub fn message(&self) -> (r: String)
        ensures
            r@ == rename_error_text(*self),
    {
        match self {
            RenameError::Io(d) => concat2("I/O error: ", d.as_str()),
            RenameError::DirectoryNotFound(p) => concat2("directory not found: ", p.as_str()),
            RenameError::EmptyDirectory(p) => concat2("no image files found in ", p.as_str()),
            RenameError::NonUtf8Path(p) => concat2("path is not valid UTF-8: ", p.as_str()),
            RenameError::Serialization(d) => concat2("failed to write manifest: ", d.as_str()),
            RenameError::SplitWorkspaceMissing(p) => concat2("split workspace not found: ", p.as_str()),
        }
    }
}

// ---------------------------------------------------------------------------
// Scanning folders
// ---------------------------------------------------------------------------

/// The images of a folder listing are counted; sub-folders are listed as
/// `name/` and other files by name (`scan_child_directory`).
pub open spec fn folder_scan(listing: Seq<DirEntryInfo>) -> (nat, Seq<Seq<char>>)
    decreases listing.len(),
{
    if listing.len() == 0 {
        (0, Seq::empty())
    } else {
        let (n, skipped) = folder_scan(listing.drop_last());
        let e = listing.last();
        if e.is_dir {
            (n, skipped.push(e.name@ + "/"@))
        } else if is_supported_name(e.name@) {
            (n + 1, skipped)
        } else {
            (n, skipped.push(e.name@))
        }
    }
}

/// See [`folder_scan`].
pub fn scan_child_directory(listing: &Vec<DirEntryInfo>) -> (r: (usize, Vec<String>))
    ensures
        (r.0 as nat, texts(r.1@)) == folder_scan(listing@),
        r.0 <= listing@.len(),
{
    let mut count: usize = 0;
    let mut skipped: Vec<String> = Vec::new();
    let mut i: usize = 0;
    while i < listing.len()
        invariant
            i <= listing@.len(),
            count <= i,
            (count as nat, texts(skipped@)) == folder_scan(listing@.take(i as int)),
        decreases listing.len() - i,
    {
        let e = &listing[i];
        assert(listing@.take(i + 1).drop_last() =~= listing@.take(i as int));
        assert(listing@.take(i + 1).last() == listing@[i as int]);
        let ghost before = skipped@;
        if e.is_dir {
            skipped.push(concat2(e.name.as_str(), "/"));
            assert(texts(skipped@) =~= texts(before).push(e.name@ + "/"@));
        } else if is_supported_image(e.name.as_str()) {
            count = count + 1;
        } else {
            skipped.push(e.name.clone());
            assert(texts(skipped@) =~= texts(before).push(e.name@));
        }
        i = i + 1;
    }
    assert(listing@.take(listing@.len() as int) =~= listing@);
    (count, skipped)
}

/// One entry of a source directory, with the listing of its contents when it
/// is a folder.
#[derive(Debug)]
pub struct SourceEntry {
    pub name: String,
    pub path: String,
    pub is_dir: bool,
    pub children: Vec<DirEntryInfo>,
}

/// What the root scan of a source directory gathers, in listing order: the
/// number of root images, the volume folders (name, path, image count), and
/// the skipped entries.
pub open spec fn root_scan(entries: Seq<SourceEntry>) -> (nat, Seq<(Seq<char>, Seq<char>, nat)>, Seq<Seq<char>>)
    decreases entries.len(),
{
    if entries.len() == 0 {
        (0, Seq::empty(), Seq::empty())
    } else {
        let (n, vols, skipped) = root_scan(entries.drop_last());
        let e = entries.last();
        if e.is_dir {
            let (count, inner) = folder_scan(e.children@);
            if count > 0 {
                (n, vols.push((e.name@, e.path@, count)), skipped + inner.map_values(|s: Seq<char>| e.name@ + "/"@ + s))
            } else {
                (n, vols, skipped.push(e.name@ + "/ (no supported images)"@))
            }
        } else if is_supported_name(e.name@) {
            (n + 1, vols, skipped)
        } else {
            (n, vols, skipped.push(e.name@))
        }
    }
}

/// The layout of a source directory: several volumes when there are volume
/// folders and no root images, or at least two volume folders; one volume
/// otherwise.
pub open spec fn source_mode(root_images: nat, volume_count: nat) -> MangaSourceMode {
    if (volume_count > 0 && root_images == 0) || volume_count >= 2 {
        MangaSourceMode::MultiVolume
    } else {
        MangaSourceMode::SingleVolume
    }
}

/// The sum of the image counts of the volume folders.
pub open spec fn volume_images(vols: Seq<(Seq<char>, Seq<char>, nat)>) -> nat
    decreases vols.len(),
{
    if vols.len() == 0 {
        0
    } else {
        volume_images(vols.drop_last()) + vols.last().2
    }
}

/// The view of a volume candidate.
pub open spec fn candidate_view(c: VolumeCandidate) -> (Seq<char>, Seq<char>, nat) {
    (c.folder_name@, c.path_text(), c.image_count as nat)
}

impl VolumeCandidate {
    /// The folder's path.
    pub open spec fn path_text(&self) -> Seq<char> {
        self.directory@
    }
}

proof fn lemma_volume_images_bound(vols: Seq<(Seq<char>, Seq<char>, nat)>, cap: nat)
    requires
        forall|k: int| 0 <= k < vols.len() ==> #[trigger] vols[k].2 <= cap,
    ensures
        volume_images(vols) <= cap * vols.len(),
    decreases vols.len(),
{
    if vols.len() > 0 {
        lemma_volume_images_bound(vols.drop_last(), cap);
        assert(cap * (vols.len() - 1) + cap == cap * vols.len()) by (nonlinear_arith);
    }
}

/// The number of entries listed under a source directory, its folders'
/// contents included.
pub open spec fn listing_size(entries: Seq<SourceEntry>) -> nat
    decreases entries.len(),
{
    if entries.len() == 0 {
        0
    } else {
        listing_size(entries.drop_last()) + 1 + entries.last().children@.len()
    }
}

/// The view of the detected volume numbers.
pub open spec fn detected(name: Seq<char>) -> Option<u32> {
    match last_run_at_most(name, u32::MAX as nat) {
        Some(v) => Some(v as u32),
        None => None,
    }
}

proof fn lemma_root_scan_bound(entries: Seq<SourceEntry>)
    ensures
        root_scan(entries).0 + volume_images(root_scan(entries).1) <= listing_size(entries),
        root_scan(entries).1.len() <= entries.len(),
    decreases entries.len(),
{
    if entries.len() > 0 {
        lemma_root_scan_bound(entries.drop_last());
        lemma_folder_scan_bound(entries.last().children@);
        let before = root_scan(entries.drop_last());
        let e = entries.last();
        if e.is_dir && folder_scan(e.children@).0 > 0 {
            let vols = before.1.push((e.name@, e.path@, folder_scan(e.children@).0));
            assert(vols.drop_last() =~= before.1);
        }
    }
}

proof fn lemma_folder_scan_bound(listing: Seq<DirEntryInfo>)
    ensures
        folder_scan(listing).0 <= listing.len(),
    decreases listing.len(),
{
    if listing.len() > 0 {
        lemma_folder_scan_bound(listing.drop_last());
    }
}

/// The candidates are the volume folders `vols` in stable natural order of
/// their names, each with the volume number its name carries.
pub open spec fn volumes_in_natural_order(cands: Seq<VolumeCandidate>, vols: Seq<(Seq<char>, Seq<char>, nat)>) -> bool {
    &&& cands.len() == vols.len()
    &&& exists|names: Seq<String>, order: Seq<usize>| {
        &&& #[trigger] is_natural_sort(names, order)
        &&& names.len() == vols.len()
        &&& forall|k: int| 0 <= k < vols.len() ==> #[trigger] names[k]@ == vols[k].0
        &&& forall|k: int| 0 <= k < vols.len() ==> {
            &&& #[trigger] cands[k].folder_name@ == vols[order[k] as int].0
            &&& cands[k].directory@ == vols[order[k] as int].1
            &&& cands[k].image_count == vols[order[k] as int].2
            &&& cands[k].detected_number == detected(vols[order[k] as int].0)
        }
    }
}

/// The analysis of a source directory from its listing: root images and
/// volume folders are counted,
/// the folders put in stable natural order of their names with the volume
/// number each name carries, the layout decided by [`source_mode`], and the
/// image total taken over the volumes alone for several volumes. A directory
/// without any image is `EmptyDirectory`. `split_detection` is the estimate
/// made for the directory, if any.
pub fn analyze_manga_directory(root: &str, entries: &Vec<SourceEntry>, split_detection: Option<SplitDetectionSummary>) -> (r: Result<MangaSourceAnalysis, RenameError>)
    requires
        listing_size(entries@) <= usize::MAX,
    ensures
        (root_scan(entries@).0 == 0 && volume_images(root_scan(entries@).1) == 0) <==> r is Err,
        r matches Err(e) ==> (e matches RenameError::EmptyDirectory(p) && p@ == root@),
        r matches Ok(a) ==> a.root@ == root@,
        r matches Ok(a) ==> a.root_image_count == root_scan(entries@).0,
        r matches Ok(a) ==> texts(a.skipped_entries@) == root_scan(entries@).2,
        r matches Ok(a) ==> a.mode == source_mode(root_scan(entries@).0, root_scan(entries@).1.len()),
        r matches Ok(a) ==> a.total_images == (if a.mode == MangaSourceMode::MultiVolume {
            volume_images(root_scan(entries@).1)
        } else {
            root_scan(entries@).0 + volume_images(root_scan(entries@).1)
        }),
        r matches Ok(a) ==> a.split_detection == split_detection,
        r matches Ok(a) ==> volumes_in_natural_order(a.volume_candidates@, root_scan(entries@).1),
{
    let mut root_images: usize = 0;
    let mut names: Vec<String> = Vec::new();
    let mut paths: Vec<String> = Vec::new();
    let mut counts: Vec<usize> = Vec::new();
    let mut skipped: Vec<String> = Vec::new();
    let mut i: usize = 0;
    proof {
        lemma_root_scan_bound(entries@);
    }
    while i < entries.len()
        invariant
            i <= entries@.len(),
            listing_size(entries@) <= usize::MAX,
            root_scan(entries@).0 + volume_images(root_scan(entries@).1) <= listing_size(entries@),
            ({
                let (n, vols, sk) = root_scan(entries@.take(i as int));
                &&& root_images == n
                &&& names@.len() == vols.len() && paths@.len() == vols.len() && counts@.len() == vols.len()
                &&& forall|k: int| 0 <= k < vols.len() ==> #[trigger] names@[k]@ == vols[k].0 && paths@[k]@ == vols[k].1 && counts@[k] == vols[k].2
                &&& texts(skipped@) == sk
                &&& n + volume_images(vols) <= listing_size(entries@.take(i as int))
            }),
        decreases entries.len() - i,
    {
        let e = &entries[i];
        let ghost pre = entries@.take(i as int);
        assert(entries@.take(i + 1).drop_last() =~= pre);
        assert(entries@.take(i + 1).last() == entries@[i as int]);
        proof {
            lemma_root_scan_bound(entries@.take(i + 1));
            assert(listing_size(entries@.take(i + 1)) <= listing_size(entries@)) by {
                lemma_listing_size_prefix(entries@, i + 1);
            }
        }
        let ghost before = skipped@;
        if e.is_dir {
            let (count, inner) = scan_child_directory(&e.children);
            if count > 0 {
                names.push(e.name.clone());
                paths.push(e.path.clone());
                counts.push(count);
                let mut k: usize = 0;
                while k < inner.len()
                    invariant
                        k <= inner@.len(),
                        texts(skipped@) == texts(before) + texts(inner@).take(k as int).map_values(|s: Seq<char>| e.name@ + "/"@ + s),
                    decreases inner.len() - k,
                {
                    let ghost prev = skipped@;
                    let mut line = chars_of(e.name.as_str());
                    line.push('/');
                    push_str(&mut line, inner[k].as_str());
                    let t = string_of(&line);
                    proof {
                        reveal_strlit("/");
                    }
                    assert(t@ =~= e.name@ + "/"@ + inner@[k as int]@);
                    skipped.push(t);
                    assert(texts(skipped@) =~= texts(prev).push(t@));
                    assert(texts(inner@).take(k + 1).map_values(|s: Seq<char>| e.name@ + "/"@ + s) =~= texts(inner@).take(k as int).map_values(|s: Seq<char>| e.name@ + "/"@ + s).push(e.name@ + "/"@ + inner@[k as int]@));
                    k = k + 1;
                }
                assert(texts(inner@).take(inner@.len() as int) =~= texts(inner@));
            } else {
                skipped.push(concat2(e.name.as_str(), "/ (no supported images)"));
                assert(texts(skipped@) =~= texts(before).push(e.name@ + "/ (no supported images)"@));
            }
        } else if is_supported_image(e.name.as_str()) {
            root_images = root_images + 1;
        } else {
            skipped.push(e.name.clone());
            assert(texts(skipped@) =~= texts(before).push(e.name@));
        }
        proof {
            let (n0, vols0, sk0) = root_scan(pre);
            let (n1, vols1, sk1) = root_scan(entries@.take(i + 1));
            if e.is_dir && folder_scan(e.children@).0 > 0 {
                assert(vols1.drop_last() =~= vols0);
                assert forall|k: int| 0 <= k < vols1.len() implies #[trigger] names@[k]@ == vols1[k].0 && paths@[k]@ == vols1[k].1 && counts@[k] == vols1[k].2 by {
                    if k < vols0.len() {
                        assert(vols1[k] == vols0[k]);
                    }
                }
            }
        }
        i = i + 1;
    }
    assert(entries@.take(entries@.len() as int) =~= entries@);
    let ghost vols = root_scan(entries@).1;
    assert forall|k: int| 0 <= k < vols.len() implies #[trigger] counts@[k] == vols[k].2 by {
        assert(names@[k]@ == vols[k].0);
    }
    let mut total: usize = 0;
    let mut m: usize = 0;
    while m < counts.len()
        invariant
            m <= counts@.len(),
            counts@.len() == vols.len(),
            forall|k: int| 0 <= k < vols.len() ==> #[trigger] counts@[k] == vols[k].2,
            volume_images(vols) <= usize::MAX,
            total == volume_images(vols.take(m as int)),
        decreases counts.len() - m,
    {
        assert(vols.take(m + 1).drop_last() =~= vols.take(m as int));
        proof {
            lemma_volume_images_prefix(vols, m + 1);
        }
        total = total + counts[m];
        m = m + 1;
    }
    assert(vols.take(vols.len() as int) =~= vols);
    if root_images == 0 && total == 0 {
        return Err(RenameError::EmptyDirectory(String::from_str(root)));
    }
    let order = natural_sort_indices(&names);
    let mut candidates: Vec<VolumeCandidate> = Vec::new();
    let mut q: usize = 0;
    while q < order.len()
        invariant
            is_natural_sort(names@, order@),
            names@.len() == vols.len() && paths@.len() == vols.len() && counts@.len() == vols.len(),
            forall|k: int| 0 <= k < vols.len() ==> #[trigger] names@[k]@ == vols[k].0 && paths@[k]@ == vols[k].1 && counts@[k] == vols[k].2,
            q <= order@.len(),
            candidates@.len() == q,
            forall|k: int| 0 <= k < q ==> {
                &&& #[trigger] candidates@[k].folder_name@ == vols[order@[k] as int].0
                &&& candidates@[k].directory@ == vols[order@[k] as int].1
                &&& candidates@[k].image_count == vols[order@[k] as int].2
                &&& candidates@[k].detected_number == detected(vols[order@[k] as int].0)
            },
        decreases order.len() - q,
    {
        let j = order[q];
        let detected_number = detect_volume_number(names[j].as_str());
        candidates.push(VolumeCandidate {
            directory: paths[j].clone(),
            folder_name: names[j].clone(),
            image_count: counts[j],
            detected_number,
        });
        q = q + 1;
    }
    assert(q == vols.len());
    assert(forall|k: int| 0 <= k < vols.len() ==> #[trigger] candidates@[k].folder_name@ == vols[order@[k] as int].0);
    let multi = (names.len() > 0 && root_images == 0) || names.len() >= 2;
    let mode = if multi {
        MangaSourceMode::MultiVolume
    } else {
        MangaSourceMode::SingleVolume
    };
    let total_images = if multi {
        total
    } else {
        root_images + total
    };
    proof {
        assert(is_natural_sort(names@, order@));
        assert forall|k: int| 0 <= k < vols.len() implies #[trigger] names@[k]@ == vols[k].0 by {}
    }
    let a = MangaSourceAnalysis {
        root: String::from_str(root),
        mode,
        root_image_count: root_images,
        total_images,
        volume_candidates: candidates,
        skipped_entries: skipped,
        split_detection,
    };
    proof {
        let (n, vv, sk) = root_scan(entries@);
        assert(vv == vols);
        assert(a.root_image_count == n);
        assert(texts(a.skipped_entries@) == sk);
        assert(a.mode == source_mode(n, vols.len()));
        assert(a.total_images == (if a.mode == MangaSourceMode::MultiVolume { volume_images(vols) } else { n + volume_images(vols) }));
        assert(a.volume_candidates@.len() == vols.len());
        assert(a.root@ == root@);
        let nm = names@;
        let od = order@;
        assert(nm.len() == vols.len());
        assert(forall|k: int| 0 <= k < vols.len() ==> #[trigger] nm[k]@ == vols[k].0);
        assert(forall|k: int| 0 <= k < vols.len() ==> {
            &&& #[trigger] a.volume_candidates@[k].folder_name@ == vols[od[k] as int].0
            &&& a.volume_candidates@[k].directory@ == vols[od[k] as int].1
            &&& a.volume_candidates@[k].image_count == vols[od[k] as int].2
            &&& a.volume_candidates@[k].detected_number == detected(vols[od[k] as int].0)
        });
        assert(volumes_in_natural_order(a.volume_candidates@, vols)) by {
            assert(is_natural_sort(nm, od));
        }
    }
    Ok(a)
}

proof fn lemma_listing_size_prefix(entries: Seq<SourceEntry>, m: int)
    requires
        0 <= m <= entries.len(),
    ensures
        listing_size(entries.take(m)) <= listing_size(entries),
    decreases entries.len() - m,
{
    if m < entries.len() {
        lemma_listing_size_prefix(entries.drop_last(), m);
        assert(entries.drop_last().take(m) =~= entries.take(m));
    } else {
        assert(entries.take(m) =~= entries);
    }
}

proof fn lemma_volume_images_prefix(vols: Seq<(Seq<char>, Seq<char>, nat)>, m: int)
    requires
        0 <= m <= vols.len(),
    ensures
        volume_images(vols.take(m)) <= volume_images(vols),
    decreases vols.len() - m,
{
    if m < vols.len() {
        lemma_volume_images_prefix(vols.drop_last(), m);
        assert(vols.drop_last().take(m) =~= vols.take(m));
    } else {
        assert(vols.take(m) =~= vols);
    }
}

// ---------------------------------------------------------------------------
// Setting up a rename
// ---------------------------------------------------------------------------

/// Where a rename works and what it records about a preceding split.
#[derive(Debug)]
pub struct RenameTarget {
    pub working_directory: String,
    pub split_applied: bool,
    pub split_workspace: Option<String>,
    pub source_directory: Option<String>,
}

/// The directory a rename works in (`perform_rename`): the split workspace
/// when the rename follows a split, which must then be given and be a
/// directory; the requested directory otherwise.
pub fn rename_target(directory: &str, split: &RenameSplitOptions, workspace_is_dir: bool) -> (r: Result<RenameTarget, RenameError>)
    ensures
        !split.enabled ==> (r matches Ok(t) && t.working_directory@ == directory@ && !t.split_applied
            && t.split_workspace is None && t.source_directory is None),
        split.enabled && split.workspace is None ==> (r matches Err(RenameError::SplitWorkspaceMissing(p)) && p@ == directory@),
        split.enabled && split.workspace is Some && !workspace_is_dir ==> (r matches Err(RenameError::SplitWorkspaceMissing(p))
            && p@ == split.workspace->0@),
        split.enabled && split.workspace is Some && workspace_is_dir ==> (r matches Ok(t) && t.working_directory@ == split.workspace->0@
            && t.split_applied && opt_text(t.split_workspace) == Some(split.workspace->0@)
            && opt_text(t.source_directory) == Some(directory@)),
{
    if !split.enabled {
        return Ok(RenameTarget {
            working_directory: String::from_str(directory),
            split_applied: false,
            split_workspace: None,
            source_directory: None,
        });
    }
    match &split.workspace {
        None => Err(RenameError::SplitWorkspaceMissing(String::from_str(directory))),
        Some(ws) => {
            if !workspace_is_dir {
                return Err(RenameError::SplitWorkspaceMissing(ws.clone()));
            }
            Ok(RenameTarget {
                working_directory: ws.clone(),
                split_applied: true,
                split_workspace: Some(ws.clone()),
                source_directory: Some(String::from_str(directory)),
            })
        },
    }
}

/// The page-number width a rename uses: at least 1.
pub fn normalized_pad(pad: usize) -> (p: usize)
    ensures
        p == (if pad >= 1 { pad } else { 1 }),
{
    if pad >= 1 {
        pad
    } else {
        1
    }
}

/// The extension a rename writes: the requested one in ASCII lower case.
pub fn normalized_extension(ext: &str) -> (r: String)
    ensures
        r@ == lower_seq(ext@),
{
    string_of(&lower_chars(&chars_of(ext)))
}

/// The name a page takes between the two renaming passes:
/// `.rei_tmp_<pid>_<index>`, the index zero-padded to four places.
pub fn rename_temp_name(pid: u32, index: usize) -> (r: String)
    requires
        index <= u64::MAX,
    ensures
        r@ == ".rei_tmp_"@ + decimal(pid as nat) + "_"@ + zero_padded(decimal(index as nat), 4),
{
    let mut out: Vec<char> = Vec::new();
    push_str(&mut out, ".rei_tmp_");
    crate::text::push_decimal(&mut out, pid as u64);
    out.push('_');
    push_zero_padded(&mut out, index as u64, 4);
    proof {
        reveal_strlit("_");
    }
    assert(out@ =~= ".rei_tmp_"@ + decimal(pid as nat) + "_"@ + zero_padded(decimal(index as nat), 4));
    string_of(&out)
}

/// The warnings of a rename: those about skipped entries, then those the
/// split left, if any.
pub fn rename_warnings(skipped: &Vec<String>, split_warnings: Option<&Vec<String>>) -> (r: Vec<String>)
    ensures
        texts(r@) == (if skipped@.len() == 0 {
            Seq::empty()
        } else {
            seq![crate::rename::skipped_warning(texts(skipped@))]
        }) + match split_warnings {
            Some(w) => texts(w@),
            None => Seq::empty(),
        },
{
    let mut r = crate::rename::build_warnings(skipped);
    assert(texts(skipped@) =~= skipped@.map_values(|x: String| x@));
    let ghost head = texts(r@);
    match split_warnings {
        Some(w) => {
            let mut k: usize = 0;
            while k < w.len()
                invariant
                    k <= w@.len(),
                    texts(r@) == head + texts(w@).take(k as int),
                decreases w.len() - k,
            {
                let ghost prev = r@;
                r.push(w[k].clone());
                assert(texts(r@) =~= texts(prev).push(w@[k as int]@));
                assert(texts(w@).take(k + 1) =~= texts(w@).take(k as int).push(w@[k as int]@));
                k = k + 1;
            }
            assert(texts(w@).take(w@.len() as int) =~= texts(w@));
        },
        None => {
            assert(head + Seq::<Seq<char>>::empty() =~= head);
        },
    }
    r
}

} // verus!
