//! Manual double-page splitting: the kinds of page, the files a manual split
//! writes, which override applies to which source, the crops of a page and of
//! its previews, progress, summaries and errors.
use vstd::prelude::*;
use crate::names::{derived_name, file_extension, file_stem, join_path, joined_path, stem_of, extension_of};
use crate::split::{opt_text, texts, EdgeTextureAcceleratorPreference};
use crate::regions::CropRect;
use crate::text::{chars_of, concat2, push_chars, push_str, string_of};

verus! {

// ---------------------------------------------------------------------------
// Kinds, requests and answers
// ---------------------------------------------------------------------------

/// How a page is cut: a content spread into two pages, or a cover or spread
/// kept as one image.
#[derive(Debug, Clone, Copy, PartialEq, Eq, Structural)]
pub enum ManualImageKind {
    Content,
    Cover,
    Spread,
}

impl Default for ManualImageKind {
    /// `Content`.
    fn default() -> (k: Self)
        ensures
            k == ManualImageKind::Content,
    {
        ManualImageKind::Content
    }
}

/// The kind a page has when none is recorded: `Content`.
pub fn default_manual_image_kind() -> (k: ManualImageKind)
    ensures
        k == ManualImageKind::Content,
{
    ManualImageKind::Content
}

/// The accelerator a manual apply asks for when none is given: `Auto`.
pub fn default_manual_accelerator() -> (p: EdgeTextureAcceleratorPreference)
    ensures
        p == EdgeTextureAcceleratorPreference::Auto,
{
    EdgeTextureAcceleratorPreference::Auto
}

/// The format version of an overrides file that does not state one: 2.
pub fn default_overrides_version() -> (v: u32)
    ensures
        v == 2,
{
    2
}

/// Asks for the manual-split context of a workspace.
#[derive(Debug)]
pub struct ManualSplitContextRequest {
    pub workspace: String,
}

/// Asks to undo the last manual apply of a workspace.
#[derive(Debug)]
pub struct ManualSplitRevertRequest {
    pub workspace: String,
}

/// Asks for a manual-split workspace over a source directory.
#[derive(Debug)]
pub struct PrepareManualSplitWorkspaceRequest {
    pub source_directory: String,
    pub workspace_root: Option<String>,
    pub overwrite: bool,
}

/// The counts of the last manual split report.
#[derive(Debug)]
pub struct ManualSplitReportSummary {
    pub generated_at: String,
    pub total: u32,
    pub applied: u32,
    pub skipped: u32,
}

/// The preview images written for one page.
#[derive(Debug)]
pub struct ManualSplitPreviewResponse {
    pub source_path: String,
    pub left_preview_path: Option<String>,
    pub right_preview_path: Option<String>,
    pub gutter_preview_path: Option<String>,
    pub generated_at: String,
}

/// What undoing the last apply restored.
#[derive(Debug)]
pub struct ManualSplitRevertResponse {
    pub workspace: String,
    pub restored_outputs: usize,
    pub manual_split_report_path: Option<String>,
    pub manual_split_report_summary: Option<ManualSplitReportSummary>,
}

/// Where a template went and how many entries it holds.
#[derive(Debug)]
pub struct ManualSplitTemplateExportResponse {
    pub output_path: String,
    pub entry_count: usize,
}

/// Progress of a manual apply.
#[derive(Debug)]
pub struct ManualSplitProgress {
    pub workspace: String,
    pub total: usize,
    pub completed: usize,
    pub current: Option<String>,
}

/// A manual apply started.
#[derive(Debug)]
pub struct ManualSplitApplyStarted {
    pub workspace: String,
    pub total: usize,
}

/// A manual apply failed.
#[derive(Debug)]
pub struct ManualSplitApplyFailed {
    pub workspace: String,
    pub message: String,
}

/// The ways a manual-split operation fails.
#[derive(Debug)]
pub enum ManualSplitError {
    SourceDirectoryNotFound(String),
    WorkspaceNotFound(String),
    ReportRead(String),
    ImageRead(String),
    PreviewWrite(String),
    InvalidOverrides(String),
    OutputWrite(String),
    ReportWrite(String),
    OverridesWrite(String),
    CollectSources(String),
    RevertManifestMissing(String),
    RevertManifestRead(String),
    RevertManifestParse(String),
    RevertManifestWrite(String),
    RevertRestore(String),
    TelemetryWrite(String),
    TemplateWrite(String),
}

/// The message of a manual-split error.
pub open spec fn manual_error_text(e: ManualSplitError) -> Seq<char> {
    match e {
        ManualSplitError::SourceDirectoryNotFound(d) => "source directory not found: "@ + d@,
        ManualSplitError::WorkspaceNotFound(d) => "workspace not found: "@ + d@,
        ManualSplitError::ReportRead(d) => "failed to read split report: "@ + d@,
        ManualSplitError::ImageRead(d) => "failed to read source image: "@ + d@,
        ManualSplitError::PreviewWrite(d) => "failed to write preview: "@ + d@,
        ManualSplitError::InvalidOverrides(d) => "invalid manual override: "@ + d@,
        ManualSplitError::OutputWrite(d) => "failed to write manual output: "@ + d@,
        ManualSplitError::ReportWrite(d) => "failed to update split report: "@ + d@,
        ManualSplitError::OverridesWrite(d) => "failed to write manual overrides: "@ + d@,
        ManualSplitError::CollectSources(d) => "failed to collect manual sources: "@ + d@,
        ManualSplitError::RevertManifestMissing(d) => "manual split revert manifest missing at "@ + d@,
        ManualSplitError::RevertManifestRead(d) => "failed to read manual split revert manifest: "@ + d@,
        ManualSplitError::RevertManifestParse(d) => "failed to parse manual split revert manifest: "@ + d@,
        ManualSplitError::RevertManifestWrite(d) => "failed to write manual split revert manifest: "@ + d@,
        ManualSplitError::RevertRestore(d) => "failed to restore manual split backup: "@ + d@,
        ManualSplitError::TelemetryWrite(d) => "failed to record telemetry: "@ + d@,
        ManualSplitError::TemplateWrite(d) => "failed to write manual split template: "@ + d@,
    }
}

impl ManualSplitError {
    /// The error's message (its `Display` text).
    pub fn message(&self) -> (r: String)
        ensures
            r@ == manual_error_text(*self),
    {
        match self {
            ManualSplitError::SourceDirectoryNotFound(d) => concat2("source directory not found: ", d.as_str()),
            ManualSplitError::WorkspaceNotFound(d) => concat2("workspace not found: ", d.as_str()),
            ManualSplitError::ReportRead(d) => concat2("failed to read split report: ", d.as_str()),
            ManualSplitError::ImageRead(d) => concat2("failed to read source image: ", d.as_str()),
            ManualSplitError::PreviewWrite(d) => concat2("failed to write preview: ", d.as_str()),
            ManualSplitError::InvalidOverrides(d) => concat2("invalid manual override: ", d.as_str()),
            ManualSplitError::OutputWrite(d) => concat2("failed to write manual output: ", d.as_str()),
            ManualSplitError::ReportWrite(d) => concat2("failed to update split report: ", d.as_str()),
            ManualSplitError::OverridesWrite(d) => concat2("failed to write manual overrides: ", d.as_str()),
            ManualSplitError::CollectSources(d) => concat2("failed to collect manual sources: ", d.as_str()),
            ManualSplitError::RevertManifestMissing(d) => concat2("manual split revert manifest missing at ", d.as_str()),
            ManualSplitError::RevertManifestRead(d) => concat2("failed to read manual split revert manifest: ", d.as_str()),
            ManualSplitError::RevertManifestParse(d) => concat2("failed to parse manual split revert manifest: ", d.as_str()),
            ManualSplitError::RevertManifestWrite(d) => concat2("failed to write manual split revert manifest: ", d.as_str()),
            ManualSplitError::RevertRestore(d) => concat2("failed to restore manual split backup: ", d.as_str()),
            ManualSplitError::TelemetryWrite(d) => concat2("failed to record telemetry: ", d.as_str()),
            ManualSplitError::TemplateWrite(d) => concat2("failed to write manual split template: ", d.as_str()),
        }
    }
}

// ---------------------------------------------------------------------------
// Summaries and progress
// ---------------------------------------------------------------------------

/// `n`, or `u32::MAX` when it does not fit.
pub open spec fn capped(n: usize) -> u32 {
    if n <= u32::MAX {
        n as u32
    } else {
        u32::MAX
    }
}

fn cap_u32(n: usize) -> (r: u32)
    ensures
        r == capped(n),
{
    if n <= 4294967295usize {
        n as u32
    } else {
        4294967295u32
    }
}

/// The summary of a manual split report: its time stamp and its counts, each
/// capped at `u32::MAX` (`read_manual_report_summary`).
pub fn report_summary(generated_at: String, total: usize, applied: usize, skipped: usize) -> (s: ManualSplitReportSummary)
    ensures
        s.generated_at == generated_at,
        s.total == capped(total),
        s.applied == capped(applied),
        s.skipped == capped(skipped),
{
    ManualSplitReportSummary {
        generated_at,
        total: cap_u32(total),
        applied: cap_u32(applied),
        skipped: cap_u32(skipped),
    }
}

/// Hands a progress event to the listener, when there is one; the listener
/// is the log of the events it got.
pub fn emit_manual_progress(
    listener: &mut Option<Vec<ManualSplitProgress>>,
    workspace: &str,
    total: usize,
    completed: usize,
    current: Option<&str>,
)
    ensures
        match *old(listener) {
            Some(log) => *final(listener) matches Some(after) && after@.len() == log@.len() + 1
                && after@.take(log@.len() as int) == log@
                && after@.last().workspace@ == workspace@
                && after@.last().total == total
                && after@.last().completed == completed
                && opt_text(after@.last().current) == (match current {
                    Some(c) => Some(c@),
                    None => None,
                }),
            None => *final(listener) is None,
        },
{
    match listener {
        Some(log) => {
            let current_path = match current {
                Some(c) => Some(String::from_str(c)),
                None => None,
            };
            let ghost before = log@;
            log.push(ManualSplitProgress { workspace: String::from_str(workspace), total, completed, current: current_path });
            assert(log@.take(before.len() as int) =~= before);
        },
        None => {},
    }
}

/// The running count of an apply: how many pages it has, and how many of
/// them were applied or skipped so far. Each page is counted once.
#[derive(Debug, Clone, Copy)]
pub struct ManualApplyTally {
    pub total: usize,
    pub applied: usize,
    pub skipped: usize,
}

impl ManualApplyTally {
    /// No page is counted twice.
    pub open spec fn well_formed(&self) -> bool {
        self.applied + self.skipped <= self.total
    }

    /// How many pages are done.
    pub open spec fn completed(&self) -> int {
        self.applied + self.skipped
    }

    /// A tally of `total` pages of which none is done.
    pub fn new(total: usize) -> (t: Self)
        ensures
            t.total == total,
            t.applied == 0,
            t.skipped == 0,
            t.well_formed(),
            t == tally_after(total, Seq::empty()),
    {
        ManualApplyTally { total, applied: 0, skipped: 0 }
    }

    /// Counts the next page as applied (`true`) or skipped (`false`).
    pub fn record(&mut self, applied: bool)
        requires
            old(self).well_formed(),
            old(self).completed() < old(self).total,
        ensures
            final(self).well_formed(),
            final(self).total == old(self).total,
            final(self).completed() == old(self).completed() + 1,
            applied ==> final(self).applied == old(self).applied + 1 && final(self).skipped == old(self).skipped,
            !applied ==> final(self).applied == old(self).applied && final(self).skipped == old(self).skipped + 1,
            forall|outcomes: Seq<bool>| #[trigger] tally_after(old(self).total, outcomes) == *old(self)
                ==> tally_after(old(self).total, outcomes.push(applied)) == *final(self),
    {
        proof {
            assert forall|outcomes: Seq<bool>| #[trigger] tally_after(old(self).total, outcomes) == *old(self)
                implies tally_after(old(self).total, outcomes.push(applied)) == (if applied {
                    ManualApplyTally { applied: (old(self).applied + 1) as usize, ..*old(self) }
                } else {
                    ManualApplyTally { skipped: (old(self).skipped + 1) as usize, ..*old(self) }
                }) by {
                assert(outcomes.push(applied).drop_last() =~= outcomes);
            }
        }
        if applied {
            self.applied = self.applied + 1;
        } else {
            self.skipped = self.skipped + 1;
        }
    }

    /// The summary written once every page is done, and whether there is
    /// anything to undo: there is when a page was applied.
    pub fn finish(&self, generated_at: String) -> (r: (ManualSplitReportSummary, bool))
        ensures
            r.0.generated_at == generated_at,
            r.0.total == capped(self.total),
            r.0.applied == capped(self.applied),
            r.0.skipped == capped(self.skipped),
            r.1 == (self.applied > 0),
    {
        (report_summary(generated_at, self.total, self.applied, self.skipped), self.applied > 0)
    }
}

/// The tally of an apply whose pages came out as `outcomes` (applied or not),
/// in order.
pub open spec fn tally_after(total: usize, outcomes: Seq<bool>) -> ManualApplyTally
    decreases outcomes.len(),
{
    if outcomes.len() == 0 {
        ManualApplyTally { total, applied: 0, skipped: 0 }
    } else {
        let before = tally_after(total, outcomes.drop_last());
        if outcomes.last() {
            ManualApplyTally { applied: (before.applied + 1) as usize, ..before }
        } else {
            ManualApplyTally { skipped: (before.skipped + 1) as usize, ..before }
        }
    }
}

/// How many of `outcomes` are applied.
pub open spec fn applied_count(outcomes: Seq<bool>) -> nat
    decreases outcomes.len(),
{
    if outcomes.len() == 0 {
        0
    } else {
        applied_count(outcomes.drop_last()) + if outcomes.last() { 1nat } else { 0nat }
    }
}

/// Every page of an apply is counted exactly once: once the `total` pages
/// are recorded, the applied and skipped counts sum to `total`, the applied
/// count is the number of pages applied, and there is something to undo
/// exactly when a page was applied.
pub proof fn lemma_tally_counts_each_page_once(total: usize, outcomes: Seq<bool>)
    requires
        outcomes.len() <= total,
    ensures
        tally_after(total, outcomes).total == total,
        tally_after(total, outcomes).well_formed(),
        tally_after(total, outcomes).completed() == outcomes.len(),
        tally_after(total, outcomes).applied == applied_count(outcomes),
        tally_after(total, outcomes).skipped == outcomes.len() - applied_count(outcomes),
        outcomes.len() == total ==> tally_after(total, outcomes).applied + tally_after(total, outcomes).skipped == total,
        (tally_after(total, outcomes).applied > 0) <==> (exists|i: int| 0 <= i < outcomes.len() && outcomes[i]),
    decreases outcomes.len(),
{
    if outcomes.len() > 0 {
        let prefix = outcomes.drop_last();
        lemma_tally_counts_each_page_once(total, prefix);
        if exists|i: int| 0 <= i < prefix.len() && prefix[i] {
            let i = choose|i: int| 0 <= i < prefix.len() && prefix[i];
            assert(outcomes[i]);
        }
        if outcomes.last() {
            assert(outcomes[outcomes.len() - 1]);
        } else {
            assert forall|i: int| 0 <= i < outcomes.len() && outcomes[i] implies 0 <= i < prefix.len() && prefix[i] by {
                if i == outcomes.len() - 1 {
                    assert(!outcomes[i]);
                }
                assert(prefix[i] == outcomes[i]);
            }
        }
    }
}

// ---------------------------------------------------------------------------
// Output files
// ---------------------------------------------------------------------------

/// The four files a content page writes: both halves in the workspace and in
/// its `manual` directory.
#[derive(Debug)]
pub struct ManualOutputPaths {
    pub left_root: String,
    pub right_root: String,
    pub left_manual: String,
    pub right_manual: String,
}

/// The two files a cover or spread writes.
#[derive(Debug)]
pub struct ManualSingleOutputPaths {
    pub root: String,
    pub manual: String,
}

/// The error for a source without a usable file name.
pub open spec fn invalid_name_text(source: Seq<char>) -> Seq<char> {
    "invalid source filename: "@ + source
}

/// The output files of a content page whose file name is `name`: `stem_L.ext`
/// and `stem_R.ext` in the workspace, `stem_manual_L.ext` and
/// `stem_manual_R.ext` in the manual directory.
/// `name` is `None` when the source has no file name that is valid text; that
/// is the error.
pub fn derive_manual_output_paths(
    workspace: &str,
    manual_dir: &str,
    source: &str,
    name: Option<&str>,
) -> (r: Result<ManualOutputPaths, String>)
    ensures
        match name {
            None => r matches Err(e) && e@ == invalid_name_text(source@),
            Some(n) => r matches Ok(p) && p.left_root@ == joined_path(workspace@, derived_name(n@, "_L"@))
                && p.right_root@ == joined_path(workspace@, derived_name(n@, "_R"@))
                && p.left_manual@ == joined_path(manual_dir@, derived_name(n@, "_manual_L"@))
                && p.right_manual@ == joined_path(manual_dir@, derived_name(n@, "_manual_R"@)),
        },
{
    match name {
        None => Err(concat2("invalid source filename: ", source)),
        Some(n) => {
            let right = crate::names::derive_name(n, "_R");
            let left = crate::names::derive_name(n, "_L");
            let manual_right = crate::names::derive_name(n, "_manual_R");
            let manual_left = crate::names::derive_name(n, "_manual_L");
            Ok(ManualOutputPaths {
                left_root: join_path(workspace, left.as_str()),
                right_root: join_path(workspace, right.as_str()),
                left_manual: join_path(manual_dir, manual_left.as_str()),
                right_manual: join_path(manual_dir, manual_right.as_str()),
            })
        },
    }
}

/// The error for asking single outputs of a content page.
pub open spec fn single_kind_text() -> Seq<char> {
    "unsupported image kind for single output: Content"@
}

/// The output files of a cover or spread whose file name is `name`:
/// `stem_cover.ext` or `stem_spread.ext` in the workspace and
/// `stem_manual_cover.ext` or `stem_manual_spread.ext` in the manual
/// directory. A missing name, then a content page, are the errors.
pub fn derive_manual_single_output_paths(
    workspace: &str,
    manual_dir: &str,
    source: &str,
    name: Option<&str>,
    kind: ManualImageKind,
) -> (r: Result<ManualSingleOutputPaths, String>)
    ensures
        match name {
            None => r matches Err(e) && e@ == invalid_name_text(source@),
            Some(n) => match kind {
                ManualImageKind::Content => r matches Err(e) && e@ == single_kind_text(),
                ManualImageKind::Cover => r matches Ok(p) && p.root@ == joined_path(workspace@, derived_name(n@, "_cover"@))
                    && p.manual@ == joined_path(manual_dir@, derived_name(n@, "_manual_cover"@)),
                ManualImageKind::Spread => r matches Ok(p) && p.root@ == joined_path(workspace@, derived_name(n@, "_spread"@))
                    && p.manual@ == joined_path(manual_dir@, derived_name(n@, "_manual_spread"@)),
            },
        },
{
    match name {
        None => Err(concat2("invalid source filename: ", source)),
        Some(n) => {
            let (root_tag, manual_tag) = match kind {
                ManualImageKind::Cover => ("_cover", "_manual_cover"),
                ManualImageKind::Spread => ("_spread", "_manual_spread"),
                ManualImageKind::Content => {
                    return Err(String::from_str("unsupported image kind for single output: Content"));
                },
            };
            let root_name = crate::names::derive_name(n, root_tag);
            let manual_name = crate::names::derive_name(n, manual_tag);
            Ok(ManualSingleOutputPaths {
                root: join_path(workspace, root_name.as_str()),
                manual: join_path(manual_dir, manual_name.as_str()),
            })
        },
    }
}

// ---------------------------------------------------------------------------
// Which overrides apply
// ---------------------------------------------------------------------------

/// Position `k` holds the first occurrence of its source.
pub open spec fn first_occurrence(sources: Seq<Seq<char>>, k: int) -> bool {
    forall|j: int| 0 <= j < k ==> sources[j] != sources[k]
}

/// The positions of the overrides an apply works on, in request order: each
/// source once, at its first override (the de-duplication pass of
/// `apply_manual_splits`). An empty request is the error.
pub fn select_work_items(sources: &Vec<String>) -> (r: Result<Vec<usize>, ManualSplitError>)
    ensures
        sources@.len() == 0 <==> r is Err,
        r matches Err(e) ==> (e matches ManualSplitError::InvalidOverrides(m) && m@ == "no overrides provided"@),
        r matches Ok(picked) ==> {
            &&& forall|a: int, b: int| 0 <= a < b < picked@.len() ==> picked@[a] < picked@[b]
            &&& forall|k: int| 0 <= k < picked@.len() ==> #[trigger] picked@[k] < sources@.len()
            &&& forall|k: int| 0 <= k < sources@.len() ==> (picked@.contains(k as usize) <==> first_occurrence(texts(sources@), k))
        },
{
    if sources.len() == 0 {
        let e = ManualSplitError::InvalidOverrides(String::from_str("no overrides provided"));
        return Err(e);
    }
    let ghost tv = texts(sources@);
    let mut picked: Vec<usize> = Vec::new();
    let mut i: usize = 0;
    while i < sources.len()
        invariant
            tv == texts(sources@),
            i <= sources@.len(),
            forall|a: int, b: int| 0 <= a < b < picked@.len() ==> picked@[a] < picked@[b],
            forall|k: int| 0 <= k < picked@.len() ==> #[trigger] picked@[k] < i,
            forall|k: int| 0 <= k < i ==> (picked@.contains(k as usize) <==> first_occurrence(tv, k)),
        decreases sources.len() - i,
    {
        let mut seen = false;
        let mut j: usize = 0;
        while j < i
            invariant
                tv == texts(sources@),
                i < sources@.len(),
                j <= i,
                seen <==> exists|q: int| 0 <= q < j && tv[q] == tv[i as int],
            decreases i - j,
        {
            assert(tv[j as int] == sources@[j as int]@ && tv[i as int] == sources@[i as int]@);
            if sources[j] == sources[i] {
                seen = true;
            }
            j = j + 1;
        }
        let ghost old_picked = picked@;
        if !seen {
            picked.push(i);
        }
        proof {
            assert forall|k: int| 0 <= k < i + 1 implies (picked@.contains(k as usize) <==> first_occurrence(tv, k)) by {
                if k < i {
                    if old_picked.contains(k as usize) {
                        let q = choose|q: int| 0 <= q < old_picked.len() && old_picked[q] == k as usize;
                        assert(picked@[q] == k as usize);
                    }
                    if picked@.contains(k as usize) {
                        let q = choose|q: int| 0 <= q < picked@.len() && picked@[q] == k as usize;
                        if q < old_picked.len() {
                            assert(old_picked[q] == k as usize);
                        }
                    }
                } else {
                    if !seen {
                        assert(picked@[picked@.len() - 1] == i);
                    } else {
                        let q = choose|q: int| 0 <= q < i && tv[q] == tv[i as int];
                        assert(!first_occurrence(tv, k));
                        if picked@.contains(k as usize) {
                            let w = choose|w: int| 0 <= w < picked@.len() && picked@[w] == k as usize;
                        }
                    }
                }
            }
        }
        i = i + 1;
    }
    Ok(picked)
}

// ---------------------------------------------------------------------------
// Cutting a page
// ---------------------------------------------------------------------------

/// The four guide columns of a page in pixels: left trim, end of the left
/// page, start of the right page, right trim.
#[derive(Debug, Clone, Copy, PartialEq, Eq, Structural)]
pub struct PixelLines {
    pub left_trim: u32,
    pub left_end: u32,
    pub right_start: u32,
    pub right_trim: u32,
}

/// `b - a` when positive, otherwise 1: the width of a crop between two columns.
pub open spec fn span(a: u32, b: u32) -> u32 {
    if b > a {
        (b - a) as u32
    } else {
        1
    }
}

fn span_of(a: u32, b: u32) -> (r: u32)
    ensures
        r == span(a, b),
{
    if b > a {
        b - a
    } else {
        1
    }
}

/// What an apply does with one page.
#[derive(Debug)]
pub struct ManualItemPlan {
    /// The crops to save: left then right page for content, the single image
    /// otherwise.
    pub crops: Vec<CropRect>,
    /// The single image is turned a quarter before saving.
    pub rotate90: bool,
    /// The guide columns recorded for the page.
    pub pixels: PixelLines,
    /// The split column recorded in the report.
    pub split_x: Option<u32>,
}

/// A page is skipped when it is empty or its guides leave no left or no right
/// page.
pub open spec fn manual_item_skipped(width: u32, height: u32, px: PixelLines) -> bool {
    width == 0 || height == 0 || px.left_end <= px.left_trim || px.right_trim <= px.right_start
}

/// The plan for one page of a manual apply, or `None` when the page is skipped
/// (the body of the page loop of `apply_manual_splits`): a content page is cut
/// at its guides into a left and a right page; a cover or spread keeps the
/// part between the trims as one image, turned when asked, and records its
/// trims as both pairs of guides.
pub fn plan_manual_item(kind: ManualImageKind, rotate90: bool, width: u32, height: u32, px: PixelLines) -> (r: Option<ManualItemPlan>)
    ensures
        manual_item_skipped(width, height, px) <==> r is None,
        r matches Some(p) ==> match kind {
            ManualImageKind::Content => {
                &&& p.crops@ == seq![
                    CropRect { x: px.left_trim, y: 0, width: span(px.left_trim, px.left_end), height },
                    CropRect { x: px.right_start, y: 0, width: span(px.right_start, px.right_trim), height },
                ]
                &&& !p.rotate90
                &&& p.pixels == px
                &&& p.split_x == Some(px.right_start)
            },
            _ => {
                &&& p.crops@ == seq![CropRect { x: px.left_trim, y: 0, width: span(px.left_trim, px.right_trim), height }]
                &&& p.rotate90 == rotate90
                &&& p.pixels == (PixelLines { left_trim: px.left_trim, left_end: px.left_trim, right_start: px.right_trim, right_trim: px.right_trim })
                &&& p.split_x is None
            },
        },
{
    if width == 0 || height == 0 || px.left_end <= px.left_trim || px.right_trim <= px.right_start {
        return None;
    }
    match kind {
        ManualImageKind::Content => {
            let left = CropRect { x: px.left_trim, y: 0, width: span_of(px.left_trim, px.left_end), height };
            let right = CropRect { x: px.right_start, y: 0, width: span_of(px.right_start, px.right_trim), height };
            let crops = vec![left, right];
            Some(ManualItemPlan { crops, rotate90: false, pixels: px, split_x: Some(px.right_start) })
        },
        _ => {
            let single = CropRect { x: px.left_trim, y: 0, width: span_of(px.left_trim, px.right_trim), height };
            let crops = vec![single];
            Some(ManualItemPlan {
                crops,
                rotate90,
                pixels: PixelLines { left_trim: px.left_trim, left_end: px.left_trim, right_start: px.right_trim, right_trim: px.right_trim },
                split_x: None,
            })
        },
    }
}

// ---------------------------------------------------------------------------
// Previews
// ---------------------------------------------------------------------------

/// The preview crops of a page: left page, right page, and the gutter between
/// them when there is one (`render_manual_split_preview`).
pub fn preview_crops(px: PixelLines, height: u32) -> (r: (CropRect, CropRect, Option<CropRect>))
    ensures
        r.0 == (CropRect { x: px.left_trim, y: 0, width: span(px.left_trim, px.left_end), height }),
        r.1 == (CropRect { x: px.right_start, y: 0, width: span(px.right_start, px.right_trim), height }),
        r.2 == (if px.right_start > px.left_end {
            Some(CropRect { x: px.left_end, y: 0, width: (px.right_start - px.left_end) as u32, height })
        } else {
            None
        }),
{
    let left = CropRect { x: px.left_trim, y: 0, width: span_of(px.left_trim, px.left_end), height };
    let right = CropRect { x: px.right_start, y: 0, width: span_of(px.right_start, px.right_trim), height };
    let gutter = if px.right_start > px.left_end {
        Some(CropRect { x: px.left_end, y: 0, width: px.right_start - px.left_end, height })
    } else {
        None
    };
    (left, right, gutter)
}

/// The size a preview is saved at: scaled down to `target` columns, keeping
/// the aspect ratio and at least one row, when it is wider than a positive
/// target; unchanged otherwise. `None` for an empty crop, which is not saved
/// (`save_preview`).
pub fn preview_size(width: u32, height: u32, target: Option<u32>) -> (r: Option<(u32, u32)>)
    ensures
        (width == 0 || height == 0) <==> r is None,
        r matches Some(sz) ==> sz == (match target {
            Some(t) => if t > 0 && width > t {
                (t, if (t as int * height as int) / width as int >= 1 {
                    ((t as int * height as int) / width as int) as u32
                } else {
                    1u32
                })
            } else {
                (width, height)
            },
            None => (width, height),
        }),
{
    if width == 0 || height == 0 {
        return None;
    }
    match target {
        Some(t) => {
            if t > 0 && width > t {
                assert(t as u64 * height as u64 <= 0xffff_ffffu64 * 0xffff_ffffu64) by (nonlinear_arith)
                    requires
                        t <= 0xffff_ffffu32,
                        height <= 0xffff_ffffu32,
                ;
                let prod = t as u64 * height as u64;
                let q = prod / width as u64;
                assert(q <= height) by (nonlinear_arith)
                    requires
                        prod == t as u64 * height as u64,
                        q == prod / width as u64,
                        width > t,
                        width > 0,
                ;
                let h = if q >= 1 {
                    q as u32
                } else {
                    1u32
                };
                Some((t, h))
            } else {
                Some((width, height))
            }
        },
        None => Some((width, height)),
    }
}

/// The file name of a preview: `base-digest-suffix.png`, the digest in
/// lower-case hexadecimal.
pub open spec fn preview_name(base: Seq<char>, digest: u64, suffix: Seq<char>) -> Seq<char> {
    base + seq!['-'] + crate::text::hex_lower(digest as nat) + seq!['-'] + suffix + ".png"@
}

/// The base of preview names: the source's file stem, or `page` when the
/// source has none.
pub open spec fn preview_base(stem: Option<Seq<char>>) -> Seq<char> {
    match stem {
        Some(s) => s,
        None => "page"@,
    }
}

/// The path of a preview in `previews_dir` (see [`preview_name`]).
pub fn preview_path(previews_dir: &str, stem: Option<&str>, digest: u64, suffix: &str) -> (r: String)
    ensures
        r@ == joined_path(
            previews_dir@,
            preview_name(
                preview_base(
                    match stem {
                        Some(s) => Some(s@),
                        None => None,
                    },
                ),
                digest,
                suffix@,
            ),
        ),
{
    let mut name: Vec<char> = Vec::new();
    match stem {
        Some(s) => push_str(&mut name, s),
        None => push_str(&mut name, "page"),
    }
    name.push('-');
    crate::text::push_hex(&mut name, digest);
    name.push('-');
    push_str(&mut name, suffix);
    push_str(&mut name, ".png");
    let n = string_of(&name);
    assert(n@ =~= preview_name(
        preview_base(
            match stem {
                Some(s) => Some(s@),
                None => None,
            },
        ),
        digest,
        suffix@,
    ));
    join_path(previews_dir, n.as_str())
}

// ---------------------------------------------------------------------------
// Workspaces and sources
// ---------------------------------------------------------------------------

/// Where a manual workspace goes: the requested root, taken as it is when
/// absolute and under the source directory otherwise, or `split-manual` under
/// the source directory when none is requested.
pub open spec fn manual_workspace_path(source_root: Seq<char>, requested: Option<Seq<char>>) -> Seq<char> {
    match requested {
        Some(root) => if root.len() > 0 && root[0] == '/' {
            root
        } else {
            joined_path(source_root, root)
        },
        None => joined_path(source_root, "split-manual"@),
    }
}

/// See [`manual_workspace_path`] (the root chosen by
/// `prepare_manual_split_workspace`).
pub fn manual_workspace_root(source_root: &str, requested: Option<&str>) -> (r: String)
    ensures
        r@ == manual_workspace_path(
            source_root@,
            match requested {
                Some(q) => Some(q@),
                None => None,
            },
        ),
{
    match requested {
        Some(root) => {
            let v = chars_of(root);
            if v.len() > 0 && v[0] == '/' {
                String::from_str(root)
            } else {
                join_path(source_root, root)
            }
        },
        None => join_path(source_root, "split-manual"),
    }
}

/// `v` with every run of equal neighbours reduced to its first element.
pub open spec fn dedup_adjacent(v: Seq<Seq<char>>) -> Seq<Seq<char>>
    decreases v.len(),
{
    if v.len() == 0 {
        Seq::empty()
    } else if v.len() >= 2 && v[v.len() - 1] == v[v.len() - 2] {
        dedup_adjacent(v.drop_last())
    } else {
        dedup_adjacent(v.drop_last()).push(v.last())
    }
}

/// The manual sources in stable natural order, repeated paths once
/// (`collect_manual_sources` after its walk).
pub fn order_manual_sources(paths: &Vec<String>) -> (r: Vec<String>)
    ensures
        exists|order: Seq<usize>| #[trigger] crate::rename::is_natural_sort(paths@, order)
            && texts(r@) == dedup_adjacent(order.map_values(|k: usize| paths@[k as int]@)),
{
    let order = crate::rename::natural_sort_indices(paths);
    let ghost sorted = order@.map_values(|k: usize| paths@[k as int]@);
    let mut r: Vec<String> = Vec::new();
    let mut i: usize = 0;
    while i < order.len()
        invariant
            crate::rename::is_natural_sort(paths@, order@),
            sorted == order@.map_values(|k: usize| paths@[k as int]@),
            i <= order@.len(),
            texts(r@) == dedup_adjacent(sorted.take(i as int)),
            i > 0 ==> r@.len() > 0 && r@.last()@ == sorted[i - 1],
        decreases order.len() - i,
    {
        let p = &paths[order[i]];
        assert(sorted[i as int] == p@);
        let ghost t = sorted.take(i + 1);
        assert(t.drop_last() =~= sorted.take(i as int));
        if i > 0 && *p == r[r.len() - 1] {
            assert(t[t.len() - 1] == t[t.len() - 2]);
        } else {
            let ghost before = r@;
            r.push(p.clone());
            assert(texts(r@) =~= texts(before).push(p@));
        }
        i = i + 1;
    }
    assert(sorted.take(order@.len() as int) =~= sorted);
    r
}

/// The first entry for `key`: the report item that a manual apply updates in
/// place (`report.items.iter_mut().find(..)`).
pub fn find_first_source(keys: &Vec<String>, key: &str) -> (r: Option<usize>)
    ensures
        match r {
            Some(k) => k < keys@.len() && keys@[k as int]@ == key@ && forall|j: int| 0 <= j < k ==> keys@[j]@ != key@,
            None => forall|j: int| 0 <= j < keys@.len() ==> keys@[j]@ != key@,
        },
{
    let target = String::from_str(key);
    let mut i: usize = 0;
    while i < keys.len()
        invariant
            target@ == key@,
            i <= keys@.len(),
            forall|j: int| 0 <= j < i ==> keys@[j]@ != key@,
        decreases keys.len() - i,
    {
        if keys[i] == target {
            return Some(i);
        }
        i = i + 1;
    }
    None
}

/// The last entry for `key`: the override that wins when an overrides file
/// lists a source more than once (later entries replace earlier ones in the
/// map that `load_manual_split_context` builds).
pub fn find_last_source(keys: &Vec<String>, key: &str) -> (r: Option<usize>)
    ensures
        match r {
            Some(k) => k < keys@.len() && keys@[k as int]@ == key@ && forall|j: int| k < j < keys@.len() ==> keys@[j]@ != key@,
            None => forall|j: int| 0 <= j < keys@.len() ==> keys@[j]@ != key@,
        },
{
    let target = String::from_str(key);
    let mut i: usize = keys.len();
    while i > 0
        invariant
            target@ == key@,
            i <= keys@.len(),
            forall|j: int| i <= j < keys@.len() ==> keys@[j]@ != key@,
        decreases i,
    {
        if keys[i - 1] == target {
            return Some(i - 1);
        }
        i = i - 1;
    }
    None
}

/// The positions of the entries for other sources, in order: what stays of an
/// overrides file before the new entry for `key` is appended
/// (`entries.retain(|entry| entry.source != item.source)`).
pub fn positions_without(keys: &Vec<String>, key: &str) -> (r: Vec<usize>)
    ensures
        forall|a: int, b: int| 0 <= a < b < r@.len() ==> r@[a] < r@[b],
        forall|k: int| 0 <= k < r@.len() ==> #[trigger] r@[k] < keys@.len(),
        forall|k: int| 0 <= k < keys@.len() ==> (r@.contains(k as usize) <==> keys@[k]@ != key@),
{
    let target = String::from_str(key);
    let mut r: Vec<usize> = Vec::new();
    let mut i: usize = 0;
    while i < keys.len()
        invariant
            target@ == key@,
            i <= keys@.len(),
            forall|a: int, b: int| 0 <= a < b < r@.len() ==> r@[a] < r@[b],
            forall|k: int| 0 <= k < r@.len() ==> #[trigger] r@[k] < i,
            forall|k: int| 0 <= k < i ==> (r@.contains(k as usize) <==> keys@[k]@ != key@),
        decreases keys.len() - i,
    {
        let ghost before = r@;
        if keys[i] != target {
            r.push(i);
        }
        proof {
            assert forall|k: int| 0 <= k < i + 1 implies (r@.contains(k as usize) <==> keys@[k]@ != key@) by {
                if k < i {
                    if before.contains(k as usize) {
                        let q = choose|q: int| 0 <= q < before.len() && before[q] == k as usize;
                        assert(r@[q] == k as usize);
                    }
                    if r@.contains(k as usize) {
                        let q = choose|q: int| 0 <= q < r@.len() && r@[q] == k as usize;
                        if q < before.len() {
                            assert(before[q] == k as usize);
                        }
                    }
                } else if keys@[k]@ != key@ {
                    assert(r@[r@.len() - 1] == i);
                } else if r@.contains(k as usize) {
                    let q = choose|q: int| 0 <= q < r@.len() && r@[q] == k as usize;
                }
            }
        }
        i = i + 1;
    }
    r
}

/// Whether a telemetry event is written: only when its name is not blank
/// (`track_manual_split_event`).
pub fn records_telemetry(event: &str) -> (b: bool)
    ensures
        b == (crate::text::trim_seq(event@).len() > 0),
{
    let t = crate::text::trim_chars(&chars_of(event));
    t.len() > 0
}

/// The checks of a template export, in order: entries are required, then an
/// existing workspace (`export_manual_split_template`).
pub fn check_template_export(entry_count: usize, workspace: &str, workspace_exists: bool) -> (r: Result<(), ManualSplitError>)
    ensures
        entry_count == 0 ==> (r matches Err(ManualSplitError::InvalidOverrides(m)) && m@ == "no template entries provided"@),
        entry_count > 0 && !workspace_exists ==> (r matches Err(ManualSplitError::WorkspaceNotFound(w)) && w@ == workspace@),
        entry_count > 0 && workspace_exists ==> r is Ok,
{
    if entry_count == 0 {
        return Err(ManualSplitError::InvalidOverrides(String::from_str("no template entries provided")));
    }
    if !workspace_exists {
        return Err(ManualSplitError::WorkspaceNotFound(String::from_str(workspace)));
    }
    Ok(())
}

} // verus!
