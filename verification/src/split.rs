//! Automatic double-page splitting: progress events and their in-order
//! release, the choice of accelerator, the split column, the files each page
//! writes and the bookkeeping of what came of it.
use vstd::prelude::*;
use crate::names::{derive_name, derived_name, join_path, joined_path};
use crate::regions::BoundingBox;
use crate::text::{concat2, concat4, lower_seq, trim_seq, chars_of, lower_chars, trim_chars, chars_eq_str};

verus! {

// ---------------------------------------------------------------------------
// Progress
// ---------------------------------------------------------------------------

/// The phase a progress event reports.
#[derive(Debug, Clone, Copy, PartialEq, Eq, Structural)]
pub enum SplitProgressStage {
    Initializing,
    Processing,
    Completed,
}

/// One progress event of a split run.
#[derive(Debug)]
pub struct SplitProgress {
    pub total_files: usize,
    pub processed_files: usize,
    pub current_file: Option<String>,
    pub stage: SplitProgressStage,
}

/// The text of an optional string.
pub open spec fn opt_text(o: Option<String>) -> Option<Seq<char>> {
    match o {
        Some(s) => Some(s@),
        None => None,
    }
}

/// What a progress event says: totals, current file and stage.
pub open spec fn progress_view(p: SplitProgress) -> (nat, nat, Option<Seq<char>>, SplitProgressStage) {
    (p.total_files as nat, p.processed_files as nat, opt_text(p.current_file), p.stage)
}

/// Hands an event to the listener, when there is one; the
/// listener is the log of the events it received.
pub fn emit_progress(listener: &mut Option<Vec<SplitProgress>>, payload: SplitProgress)
    ensures
        match *old(listener) {
            Some(log) => *final(listener) matches Some(after) && after@ == log@.push(payload),
            None => *final(listener) is None,
        },
{
    match listener {
        Some(log) => {
            log.push(payload);
        },
        None => {},
    }
}

/// The event for the file at `index` once it and every file before it are done.
pub open spec fn processing_event(total: nat, index: int, path: Seq<char>) -> (nat, nat, Option<Seq<char>>, SplitProgressStage) {
    (total, (index + 1) as nat, Some(path), SplitProgressStage::Processing)
}

/// The processing events of files `from..to`, in file order.
pub open spec fn processing_events(total: nat, paths: Seq<Seq<char>>, from: int, to: int) -> Seq<(nat, nat, Option<Seq<char>>, SplitProgressStage)>
    decreases to - from,
{
    if to <= from {
        Seq::empty()
    } else {
        processing_events(total, paths, from, to - 1).push(processing_event(total, to - 1, paths[to - 1]))
    }
}

/// The first file at or after `from` that has not finished, or `slots.len()`.
pub open spec fn first_unfinished(slots: Seq<Option<Seq<char>>>, from: int) -> int
    decreases slots.len() - from,
{
    if from >= slots.len() || from < 0 || slots[from] is None {
        from
    } else {
        first_unfinished(slots, from + 1)
    }
}

/// One completion as the sequencer handles it: the file at `index` is marked
/// finished, the reported prefix grows to the next unfinished file, its slots
/// are cleared, and one processing event goes out per newly reported file.
pub open spec fn release_after(
    slots: Seq<Option<Seq<char>>>,
    processed: int,
    total: nat,
    index: int,
    path: Seq<char>,
) -> (Seq<Option<Seq<char>>>, int, Seq<(nat, nat, Option<Seq<char>>, SplitProgressStage)>) {
    let filled = slots.update(index, Some(path));
    let next = first_unfinished(filled, processed);
    (
        Seq::new(filled.len(), |k: int| if k < next { None } else { filled[k] }),
        next,
        Seq::new((next - processed) as nat, |j: int| processing_event(total, processed + j, filled[processed + j]->0)),
    )
}

/// Releases progress events in file order while files finish in any order:
/// a file's event goes out once it and all files before it have finished,
/// which is what the split run's collector waits for.
pub struct ProgressSequencer {
    total: usize,
    processed: usize,
    finished: Vec<Option<String>>,
}

impl ProgressSequencer {
    /// Files finished and not yet reported, by index.
    pub closed spec fn slots(&self) -> Seq<Option<Seq<char>>> {
        self.finished@.map_values(|o: Option<String>| opt_text(o))
    }

    /// The number of files of the run.
    pub closed spec fn total(&self) -> nat {
        self.total as nat
    }

    /// The number of files reported so far.
    pub closed spec fn processed(&self) -> nat {
        self.processed as nat
    }

    /// Internal consistency: one slot per file, none before the reported
    /// prefix, and the next file not finished yet.
    pub closed spec fn wf(&self) -> bool {
        &&& self.finished@.len() == self.total
        &&& self.processed <= self.total
        &&& forall|k: int| 0 <= k < self.processed ==> #[trigger] self.finished@[k] is None
        &&& (self.processed < self.total ==> self.finished@[self.processed as int] is None)
    }

    /// A sequencer for `total` files, none finished.
    pub fn new(total: usize) -> (s: Self)
        ensures
            s.wf(),
            s.total() == total,
            s.processed() == 0,
            forall|k: int| 0 <= k < total ==> #[trigger] s.slots()[k] is None,
    {
        let mut finished: Vec<Option<String>> = Vec::new();
        let mut i: usize = 0;
        while i < total
            invariant
                i <= total,
                finished@.len() == i,
                forall|k: int| 0 <= k < i ==> #[trigger] finished@[k] is None,
            decreases total - i,
        {
            finished.push(None);
            i = i + 1;
        }
        ProgressSequencer { total, processed: 0, finished }
    }

    /// The event that opens the run.
    pub fn initial_event(&self) -> (e: SplitProgress)
        ensures
            progress_view(e) == (self.total(), 0nat, None::<Seq<char>>, SplitProgressStage::Initializing),
    {
        SplitProgress {
            total_files: self.total,
            processed_files: 0,
            current_file: None,
            stage: SplitProgressStage::Initializing,
        }
    }

    /// The event that closes the run.
    pub fn final_event(&self) -> (e: SplitProgress)
        ensures
            progress_view(e) == (self.total(), self.processed(), None::<Seq<char>>, SplitProgressStage::Completed),
    {
        SplitProgress {
            total_files: self.total,
            processed_files: self.processed,
            current_file: None,
            stage: SplitProgressStage::Completed,
        }
    }

    /// Records that the file at `index` finished and returns the events that
    /// can go out now: one per file from the first unreported one up to the
    /// next file still running, in file order.
    pub fn complete(&mut self, index: usize, path: String) -> (events: Vec<SplitProgress>)
        requires
            old(self).wf(),
            old(self).processed() <= index < old(self).total(),
            old(self).slots()[index as int] is None,
        ensures
            final(self).wf(),
            (final(self).slots(), final(self).processed() as int, events@.map_values(|e: SplitProgress| progress_view(e)))
                == release_after(old(self).slots(), old(self).processed() as int, old(self).total(), index as int, path@),
            final(self).total() == old(self).total(),
            final(self).processed() == first_unfinished(old(self).slots().update(index as int, Some(path@)), old(self).processed() as int),
            forall|k: int| final(self).processed() <= k < final(self).total() ==> #[trigger] final(self).slots()[k]
                == old(self).slots().update(index as int, Some(path@))[k],
            events@.map_values(|e: SplitProgress| progress_view(e)) == Seq::new(
                (final(self).processed() - old(self).processed()) as nat,
                |j: int| processing_event(old(self).total(), old(self).processed() + j,
                    old(self).slots().update(index as int, Some(path@))[old(self).processed() + j]->0),
            ),
    {
        let ghost start = self.processed as int;
        let ghost filled = self.slots().update(index as int, Some(path@));
        self.finished.set(index, Some(path));
        assert forall|k: int| self.processed <= k < self.total implies opt_text(#[trigger] self.finished@[k]) == filled[k] by {
            assert(old(self).slots()[k] == opt_text(old(self).finished@[k]));
        }
        let mut events: Vec<SplitProgress> = Vec::new();
        while self.processed < self.total && self.finished[self.processed].is_some()
            invariant
                self.finished@.len() == self.total,
                start <= self.processed <= self.total,
                forall|k: int| 0 <= k < self.processed ==> #[trigger] self.finished@[k] is None,
                forall|k: int| self.processed <= k < self.total ==> opt_text(#[trigger] self.finished@[k]) == filled[k],
                forall|k: int| start <= k < self.processed ==> #[trigger] filled[k] is Some,
                filled.len() == self.total,
                first_unfinished(filled, start) == first_unfinished(filled, self.processed as int),
                events@.len() == self.processed - start,
                forall|j: int| 0 <= j < events@.len() ==> progress_view(#[trigger] events@[j])
                    == processing_event(self.total as nat, start + j, filled[start + j]->0),
            decreases self.total - self.processed,
        {
            let p = self.processed;
            let name = match &self.finished[p] {
                Some(s) => s.clone(),
                None => String::new(),
            };
            assert(filled[p as int] == Some(name@));
            self.finished.set(p, None);
            events.push(
                SplitProgress {
                    total_files: self.total,
                    processed_files: p + 1,
                    current_file: Some(name),
                    stage: SplitProgressStage::Processing,
                },
            );
            self.processed = p + 1;
        }
        proof {
            if self.processed < self.total {
                assert(opt_text(self.finished@[self.processed as int]) == filled[self.processed as int]);
            }
            assert(first_unfinished(filled, self.processed as int) == self.processed as int);
            assert(self.slots() =~= self.finished@.map_values(|o: Option<String>| opt_text(o)));
            assert forall|k: int| self.processed <= k < self.total implies #[trigger] self.slots()[k] == filled[k] by {
                assert(self.slots()[k] == opt_text(self.finished@[k]));
            }
            assert(self.slots() =~= Seq::new(filled.len(), |k: int| if k < self.processed { None } else { filled[k] })) by {
                assert forall|k: int| 0 <= k < self.total implies #[trigger] self.slots()[k] == (if k < self.processed { None } else { filled[k] }) by {
                    assert(self.slots()[k] == opt_text(self.finished@[k]));
                }
            }
            assert(events@.map_values(|e: SplitProgress| progress_view(e)) =~= Seq::new(
                (self.processed - start) as nat,
                |j: int| processing_event(self.total as nat, start + j, filled[start + j]->0),
            ));
        }
        events
    }
}

/// The sequencer after the completions of `order` (file indices, in the order
/// they finished), the file at `k` having path `paths[k]`; the third part is
/// every event released so far.
pub open spec fn completions_run(total: nat, order: Seq<int>, paths: Seq<Seq<char>>) -> (Seq<Option<Seq<char>>>, int, Seq<(nat, nat, Option<Seq<char>>, SplitProgressStage)>)
    decreases order.len(),
{
    if order.len() == 0 {
        (Seq::new(total, |k: int| None), 0, Seq::empty())
    } else {
        let before = completions_run(total, order.drop_last(), paths);
        let step = release_after(before.0, before.1, total, order.last(), paths[order.last()]);
        (step.0, step.1, before.2 + step.2)
    }
}

/// The first index at or after `from`, below `total`, that `done` does not hold;
/// `total` when there is none.
pub open spec fn first_missing(done: Seq<int>, total: int, from: int) -> int
    decreases total - from,
{
    if from >= total || !done.contains(from) {
        from
    } else {
        first_missing(done, total, from + 1)
    }
}

proof fn lemma_first_unfinished_is_missing(filled: Seq<Option<Seq<char>>>, done: Seq<int>, from: int)
    requires
        0 <= from <= filled.len(),
        forall|k: int| from <= k < filled.len() ==> (#[trigger] filled[k] is Some <==> done.contains(k)),
    ensures
        first_unfinished(filled, from) == first_missing(done, filled.len() as int, from),
        from <= first_unfinished(filled, from) <= filled.len(),
    decreases filled.len() - from,
{
    if from < filled.len() && filled[from] is Some {
        lemma_first_unfinished_is_missing(filled, done, from + 1);
    }
}

proof fn lemma_first_missing_skips(done: Seq<int>, total: int, from: int)
    requires
        0 <= from <= total,
        forall|k: int| 0 <= k < from ==> done.contains(k),
    ensures
        first_missing(done, total, 0) == first_missing(done, total, from),
    decreases from,
{
    if from > 0 {
        lemma_first_missing_skips(done, total, from - 1);
        assert(done.contains(from - 1));
    }
}

proof fn lemma_first_missing_bounds(done: Seq<int>, total: int, from: int)
    requires
        0 <= from <= total,
    ensures
        from <= first_missing(done, total, from) <= total,
        forall|k: int| from <= k < first_missing(done, total, from) ==> done.contains(k),
        first_missing(done, total, from) < total ==> !done.contains(first_missing(done, total, from)),
    decreases total - from,
{
    if from < total && done.contains(from) {
        lemma_first_missing_bounds(done, total, from + 1);
    }
}

proof fn lemma_events_extend(total: nat, paths: Seq<Seq<char>>, a: int, b: int, extra: Seq<(nat, nat, Option<Seq<char>>, SplitProgressStage)>)
    requires
        0 <= a <= b,
        extra.len() == b - a,
        forall|j: int| 0 <= j < b - a ==> #[trigger] extra[j] == processing_event(total, a + j, paths[a + j]),
    ensures
        processing_events(total, paths, 0, a) + extra == processing_events(total, paths, 0, b),
    decreases b - a,
{
    if b > a {
        let shorter = extra.drop_last();
        lemma_events_extend(total, paths, a, b - 1, shorter);
        assert(processing_events(total, paths, 0, a) + extra =~= (processing_events(total, paths, 0, a) + shorter).push(extra.last()));
    } else {
        assert(extra =~= Seq::empty());
        assert(processing_events(total, paths, 0, a) + extra =~= processing_events(total, paths, 0, a));
    }
}

/// The state after a prefix of completions: every file before the first
/// unfinished one has been reported, finished files after it wait in their
/// slots, and the released events are those of the reported files, in order.
pub open spec fn run_matches(total: nat, done: Seq<int>, paths: Seq<Seq<char>>, st: (Seq<Option<Seq<char>>>, int, Seq<(nat, nat, Option<Seq<char>>, SplitProgressStage)>)) -> bool {
    &&& st.0.len() == total
    &&& st.1 == first_missing(done, total as int, 0)
    &&& forall|k: int| 0 <= k < total ==> #[trigger] st.0[k] == (if k >= st.1 && done.contains(k) {
        Some(paths[k])
    } else {
        None
    })
    &&& st.2 == processing_events(total, paths, 0, st.1)
}

proof fn lemma_run_prefix(total: nat, order: Seq<int>, paths: Seq<Seq<char>>)
    requires
        order.no_duplicates(),
        forall|i: int| 0 <= i < order.len() ==> 0 <= #[trigger] order[i] < total,
        paths.len() == total,
    ensures
        run_matches(total, order, paths, completions_run(total, order, paths)),
    decreases order.len(),
{
    if order.len() == 0 {
        lemma_first_missing_bounds(order, total as int, 0);
        if total > 0 {
            assert(!order.contains(0));
        }
        assert(processing_events(total, paths, 0, 0) =~= Seq::empty());
    } else {
        let prev = order.drop_last();
        assert(prev.no_duplicates());
        lemma_run_prefix(total, prev, paths);
        let before = completions_run(total, prev, paths);
        let index = order.last();
        let p = before.1;
        lemma_first_missing_bounds(prev, total as int, 0);
        assert(!prev.contains(index)) by {
            if prev.contains(index) {
                let i = choose|i: int| 0 <= i < prev.len() && prev[i] == index;
                assert(order[i] == order[order.len() - 1]);
            }
        }
        assert forall|k: int| #[trigger] order.contains(k) <==> prev.contains(k) || k == index by {
            if order.contains(k) {
                let i = choose|i: int| 0 <= i < order.len() && order[i] == k;
                if i < order.len() - 1 {
                    assert(prev[i] == k);
                }
            }
            if prev.contains(k) {
                let i = choose|i: int| 0 <= i < prev.len() && prev[i] == k;
                assert(order[i] == k);
            }
            if k == index {
                assert(order[order.len() - 1] == k);
            }
        }
        assert(index >= p) by {
            if index < p {
                assert(prev.contains(index));
            }
        }
        let filled = before.0.update(index, Some(paths[index]));
        assert forall|k: int| p <= k < filled.len() implies (#[trigger] filled[k] is Some <==> order.contains(k)) by {}
        lemma_first_unfinished_is_missing(filled, order, p);
        lemma_first_missing_bounds(order, total as int, p);
        assert forall|k: int| 0 <= k < p implies order.contains(k) by {
            assert(prev.contains(k));
        }
        lemma_first_missing_skips(order, total as int, p);
        let next = first_unfinished(filled, p);
        let step = release_after(before.0, p, total, index, paths[index]);
        assert(step.1 == next);
        assert forall|j: int| 0 <= j < next - p implies #[trigger] step.2[j] == processing_event(total, p + j, paths[p + j]) by {
            assert(order.contains(p + j));
            assert(filled[p + j] == Some(paths[p + j]));
        }
        lemma_events_extend(total, paths, p, next, step.2);
    }
}

/// Whatever order the files finish in, the sequencer releases exactly one
/// processing event per file, in file order, each naming its file and counting
/// the files reported so far; by then every file is reported.
pub proof fn lemma_progress_in_file_order(total: nat, order: Seq<int>, paths: Seq<Seq<char>>)
    requires
        order.no_duplicates(),
        forall|i: int| 0 <= i < order.len() ==> 0 <= #[trigger] order[i] < total,
        forall|k: int| 0 <= k < total ==> #[trigger] order.contains(k),
        paths.len() == total,
    ensures
        completions_run(total, order, paths).1 == total,
        completions_run(total, order, paths).2 == processing_events(total, paths, 0, total as int),
{
    lemma_run_prefix(total, order, paths);
    lemma_first_missing_bounds(order, total as int, 0);
}

proof fn lemma_processing_events_shape(total: nat, paths: Seq<Seq<char>>, to: int)
    requires
        0 <= to,
    ensures
        processing_events(total, paths, 0, to).len() == to,
        forall|j: int| 0 <= j < to ==> #[trigger] processing_events(total, paths, 0, to)[j] == processing_event(total, j, paths[j]),
    decreases to,
{
    if to > 0 {
        lemma_processing_events_shape(total, paths, to - 1);
    }
}

/// Every event of a split run over `total` files that finish in `order`:
/// the opening event, the events the sequencer releases, and the closing one.
pub open spec fn run_events(total: nat, order: Seq<int>, paths: Seq<Seq<char>>) -> Seq<(nat, nat, Option<Seq<char>>, SplitProgressStage)> {
    let run = completions_run(total, order, paths);
    seq![(total, 0nat, None::<Seq<char>>, SplitProgressStage::Initializing)] + run.2 + seq![
        (total, run.1 as nat, None::<Seq<char>>, SplitProgressStage::Completed),
    ]
}

/// A split run over `total` files sends `total + 2` events, each counting
/// `total` files: first `Initializing` with nothing processed, then one
/// `Processing` event per file in file order naming that file and counting
/// `1..=total`, and last `Completed` with every file processed.
pub proof fn lemma_run_events(total: nat, order: Seq<int>, paths: Seq<Seq<char>>)
    requires
        order.no_duplicates(),
        forall|i: int| 0 <= i < order.len() ==> 0 <= #[trigger] order[i] < total,
        forall|k: int| 0 <= k < total ==> #[trigger] order.contains(k),
        paths.len() == total,
    ensures
        run_events(total, order, paths).len() == total + 2,
        run_events(total, order, paths)[0] == (total, 0nat, None::<Seq<char>>, SplitProgressStage::Initializing),
        forall|k: int| 1 <= k <= total ==> #[trigger] run_events(total, order, paths)[k] == (
            total,
            k as nat,
            Some(paths[k - 1]),
            SplitProgressStage::Processing,
        ),
        run_events(total, order, paths)[total + 1int] == (total, total, None::<Seq<char>>, SplitProgressStage::Completed),
{
    lemma_progress_in_file_order(total, order, paths);
    lemma_processing_events_shape(total, paths, total as int);
    let ev = run_events(total, order, paths);
    let mid = processing_events(total, paths, 0, total as int);
    assert forall|k: int| 1 <= k <= total implies #[trigger] ev[k] == (
        total,
        k as nat,
        Some(paths[k - 1]),
        SplitProgressStage::Processing,
    ) by {
        assert(ev[k] == mid[k - 1]);
    }
}

// ---------------------------------------------------------------------------
// Modes and settings
// ---------------------------------------------------------------------------

/// What was done with a page; `Manual` marks a page cut by a manual apply.
#[derive(Debug, Clone, Copy, PartialEq, Eq, Structural)]
pub enum SplitMode {
    Skip,
    CoverTrim,
    Split,
    FallbackCenter,
    Manual,
}

/// A content box as the split report records it: corner and size.
#[derive(Debug, Clone, Copy, PartialEq, Eq, Structural)]
pub struct SplitBoundingBox {
    pub x: u32,
    pub y: u32,
    pub width: u32,
    pub height: u32,
}

impl SplitBoundingBox {
    /// The report form of a box (`From<BoundingBox>`).
    pub fn from_bbox(bbox: BoundingBox) -> (r: SplitBoundingBox)
        requires
            bbox.x0 <= bbox.x1,
            bbox.y0 <= bbox.y1,
        ensures
            r == (SplitBoundingBox { x: bbox.x0, y: bbox.y0, width: (bbox.x1 - bbox.x0) as u32, height: (bbox.y1 - bbox.y0) as u32 }),
    {
        SplitBoundingBox { x: bbox.x0, y: bbox.y0, width: bbox.width(), height: bbox.height() }
    }
}

/// How many images of a directory look like double pages.
#[derive(Debug, Clone, Copy, PartialEq, Eq, Structural)]
pub struct SplitDetectionSummary {
    pub total: usize,
    pub candidates: usize,
}

/// A method for locating the split.
#[derive(Debug, Clone, Copy, PartialEq, Eq, Structural)]
pub enum SplitPrimaryMode {
    EdgeTexture,
    Projection,
}

/// Which methods locate the split, and in which order.
#[derive(Debug, Clone, Copy, PartialEq, Eq, Structural)]
pub enum SplitModeSelector {
    EdgeTextureOnly,
    ProjectionOnly,
    Hybrid { primary: SplitPrimaryMode, fallback: SplitPrimaryMode },
}

impl SplitModeSelector {
    /// The method tried first in hybrid mode when none is given: edge texture.
    pub fn default_primary() -> (m: SplitPrimaryMode)
        ensures
            m == SplitPrimaryMode::EdgeTexture,
    {
        SplitPrimaryMode::EdgeTexture
    }

    /// The method tried second in hybrid mode when none is given: projection.
    pub fn default_fallback() -> (m: SplitPrimaryMode)
        ensures
            m == SplitPrimaryMode::Projection,
    {
        SplitPrimaryMode::Projection
    }
}

impl Default for SplitModeSelector {
    /// Hybrid: edge texture first, then projection.
    fn default() -> (s: Self)
        ensures
            s == (SplitModeSelector::Hybrid { primary: SplitPrimaryMode::EdgeTexture, fallback: SplitPrimaryMode::Projection }),
    {
        SplitModeSelector::Hybrid {
            primary: SplitModeSelector::default_primary(),
            fallback: SplitModeSelector::default_fallback(),
        }
    }
}

/// `value` made odd: 0 becomes 1, an even value the next odd one (`ensure_odd`,
/// for kernel sizes).
pub fn ensure_odd(value: u32) -> (r: u32)
    ensures
        r % 2 == 1,
        value <= r <= value + 1,
        value % 2 == 1 ==> r == value,
        r == (if value == 0 {
            1
        } else if value % 2 == 0 {
            value + 1
        } else {
            value as int
        }),
{
    if value == 0 {
        1
    } else if value % 2 == 0 {
        value + 1
    } else {
        value
    }
}

/// `value` limited to `[min_value, max_value]`, the lower bound checked
/// first.
pub fn clamp_i32(value: isize, min_value: isize, max_value: isize) -> (r: isize)
    ensures
        r == (if value < min_value {
            min_value
        } else if value > max_value {
            max_value
        } else {
            value
        }),
{
    if value < min_value {
        min_value
    } else if value > max_value {
        max_value
    } else {
        value
    }
}

// ---------------------------------------------------------------------------
// Accelerators
// ---------------------------------------------------------------------------

/// The device an edge-texture analysis ran on.
#[derive(Debug, Clone, Copy, PartialEq, Eq, Structural)]
pub enum EdgeTextureAccelerator {
    Cpu,
    Gpu,
}

/// The device a caller asks for.
#[derive(Debug, Clone, Copy, PartialEq, Eq, Structural)]
pub enum EdgeTextureAcceleratorPreference {
    Auto,
    Cpu,
    Gpu,
}

impl Default for EdgeTextureAcceleratorPreference {
    /// `Auto`.
    fn default() -> (p: Self)
        ensures
            p == EdgeTextureAcceleratorPreference::Auto,
    {
        EdgeTextureAcceleratorPreference::Auto
    }
}

/// Why the GPU path could not run.
#[derive(Debug)]
pub enum EdgeTextureGpuError {
    AdapterUnavailable,
    DeviceInit(String),
    InvalidInput(String),
    Execution(String),
}

/// The message of a GPU error.
pub open spec fn gpu_error_text(e: EdgeTextureGpuError) -> Seq<char> {
    match e {
        EdgeTextureGpuError::AdapterUnavailable => "edge texture GPU adapter unavailable"@,
        EdgeTextureGpuError::DeviceInit(d) => "edge texture GPU device initialization failed: "@ + d@,
        EdgeTextureGpuError::InvalidInput(d) => "edge texture GPU pipeline input invalid: "@ + d@,
        EdgeTextureGpuError::Execution(d) => "edge texture GPU execution failed: "@ + d@,
    }
}

impl EdgeTextureGpuError {
    /// The error's message (its `Display` text).
    pub fn message(&self) -> (r: String)
        ensures
            r@ == gpu_error_text(*self),
    {
        match self {
            EdgeTextureGpuError::AdapterUnavailable => String::from_str("edge texture GPU adapter unavailable"),
            EdgeTextureGpuError::DeviceInit(d) => concat2("edge texture GPU device initialization failed: ", d.as_str()),
            EdgeTextureGpuError::InvalidInput(d) => concat2("edge texture GPU pipeline input invalid: ", d.as_str()),
            EdgeTextureGpuError::Execution(d) => concat2("edge texture GPU execution failed: ", d.as_str()),
        }
    }
}

/// How an analysis is to run, once the environment override is read.
#[derive(Debug, Clone, Copy, PartialEq, Eq, Structural)]
pub enum AcceleratorDirective {
    ForceCpu,
    ForceGpu,
    Auto,
    MockGpu,
}

/// The directive for a preference and the value of the accelerator override
/// variable, if set: the variable wins, read trimmed and in ASCII lower case
/// (`cpu`, `gpu`, `auto`, and `mock-gpu` where mocking is allowed; anything
/// else means auto); without it the preference decides.
pub open spec fn directive_for(env: Option<Seq<char>>, preference: EdgeTextureAcceleratorPreference, allow_mock: bool) -> AcceleratorDirective {
    match env {
        Some(raw) => {
            let v = lower_seq(trim_seq(raw));
            if v == "cpu"@ {
                AcceleratorDirective::ForceCpu
            } else if v == "gpu"@ {
                AcceleratorDirective::ForceGpu
            } else if v == "mock-gpu"@ && allow_mock {
                AcceleratorDirective::MockGpu
            } else {
                AcceleratorDirective::Auto
            }
        },
        None => match preference {
            EdgeTextureAcceleratorPreference::Cpu => AcceleratorDirective::ForceCpu,
            EdgeTextureAcceleratorPreference::Gpu => AcceleratorDirective::ForceGpu,
            EdgeTextureAcceleratorPreference::Auto => AcceleratorDirective::Auto,
        },
    }
}

/// See [`directive_for`].
pub fn resolve_accelerator_directive(env: Option<&str>, preference: EdgeTextureAcceleratorPreference, allow_mock: bool) -> (d: AcceleratorDirective)
    ensures
        d == directive_for(
            match env {
                Some(e) => Some(e@),
                None => None,
            },
            preference,
            allow_mock,
        ),
{
    match env {
        Some(raw) => {
            let v = lower_chars(&trim_chars(&chars_of(raw)));
            if chars_eq_str(&v, "cpu") {
                AcceleratorDirective::ForceCpu
            } else if chars_eq_str(&v, "gpu") {
                AcceleratorDirective::ForceGpu
            } else if allow_mock && chars_eq_str(&v, "mock-gpu") {
                AcceleratorDirective::MockGpu
            } else {
                AcceleratorDirective::Auto
            }
        },
        None => match preference {
            EdgeTextureAcceleratorPreference::Cpu => AcceleratorDirective::ForceCpu,
            EdgeTextureAcceleratorPreference::Gpu => AcceleratorDirective::ForceGpu,
            EdgeTextureAcceleratorPreference::Auto => AcceleratorDirective::Auto,
        },
    }
}

/// Whether the directive tries the GPU first.
pub fn tries_gpu(d: AcceleratorDirective) -> (b: bool)
    ensures
        b == (d == AcceleratorDirective::ForceGpu || d == AcceleratorDirective::Auto),
{
    match d {
        AcceleratorDirective::ForceGpu | AcceleratorDirective::Auto => true,
        _ => false,
    }
}

/// The device an edge analysis is reported to have run on: the CPU when
/// forced, the GPU when mocked, otherwise the GPU exactly when its attempt
/// succeeded.
pub fn accelerator_used(d: AcceleratorDirective, gpu_succeeded: bool) -> (a: EdgeTextureAccelerator)
    ensures
        a == (match d {
            AcceleratorDirective::ForceCpu => EdgeTextureAccelerator::Cpu,
            AcceleratorDirective::MockGpu => EdgeTextureAccelerator::Gpu,
            _ => if gpu_succeeded {
                EdgeTextureAccelerator::Gpu
            } else {
                EdgeTextureAccelerator::Cpu
            },
        }),
{
    match d {
        AcceleratorDirective::ForceCpu => EdgeTextureAccelerator::Cpu,
        AcceleratorDirective::MockGpu => EdgeTextureAccelerator::Gpu,
        _ => if gpu_succeeded {
            EdgeTextureAccelerator::Gpu
        } else {
            EdgeTextureAccelerator::Cpu
        },
    }
}

// ---------------------------------------------------------------------------
// Walking a folder
// ---------------------------------------------------------------------------

/// The cache folder that the walks of a split or a manual split skip.
pub open spec fn is_cache_dir(is_dir: bool, name: Option<Seq<char>>) -> bool {
    is_dir && name == Some(".rei_cache"@)
}

/// Whether a folder walk enters an entry (`should_descend`,
/// `should_descend_manual`): always at the root, and below it everything but
/// a folder named `.rei_cache`. `name` is `None` for a name that is not text.
pub fn should_descend(depth: usize, is_dir: bool, name: Option<&str>) -> (b: bool)
    ensures
        b == (depth == 0 || !is_cache_dir(
            is_dir,
            match name {
                Some(n) => Some(n@),
                None => None,
            },
        )),
{
    if depth == 0 {
        return true;
    }
    if is_dir {
        match name {
            Some(n) => {
                let v = chars_of(n);
                if chars_eq_str(&v, ".rei_cache") {
                    return false;
                }
            },
            None => {},
        }
    }
    true
}

/// The folder of a split run made at `stamp`:
/// `<directory>/.rei_cache/doublepage/session-<stamp>`.
pub open spec fn session_path(directory: Seq<char>, stamp: Seq<char>) -> Seq<char> {
    joined_path(joined_path(joined_path(directory, ".rei_cache"@), "doublepage"@), "session-"@ + stamp)
}

/// See [`session_path`] (the workspace that `create_workspace` prepares).
pub fn split_session_path(directory: &str, stamp: &str) -> (r: String)
    ensures
        r@ == session_path(directory@, stamp@),
{
    let cache = join_path(directory, ".rei_cache");
    let root = join_path(cache.as_str(), "doublepage");
    let name = concat2("session-", stamp);
    join_path(root.as_str(), name.as_str())
}

// ---------------------------------------------------------------------------
// The split column
// ---------------------------------------------------------------------------

/// The largest column a split may use: `max(width - 1, 1)`.
pub open spec fn last_split_column(width: int) -> int {
    if width - 1 >= 1 {
        width - 1
    } else {
        1
    }
}

/// `x` limited to the columns a split may use, `[1, max(width - 1, 1)]`.
pub open spec fn split_column_clamp(x: int, width: int) -> int {
    if x < 1 {
        1
    } else if x > last_split_column(width) {
        last_split_column(width)
    } else {
        x
    }
}

/// The column the split starts from: the located one, or the middle when none
/// was found, limited to the columns a split may use.
pub fn safe_split_column(located: Option<u32>, width: u32) -> (r: u32)
    ensures
        r == split_column_clamp(
            match located {
                Some(x) => x as int,
                None => width as int / 2,
            },
            width as int,
        ),
        1 <= r,
        width >= 2 ==> r < width,
{
    let x = match located {
        Some(v) => v,
        None => width / 2,
    };
    let hi = if width >= 2 {
        width - 1
    } else {
        1
    };
    if x < 1 {
        1
    } else if x > hi {
        hi
    } else {
        x
    }
}

/// The final split column: the middle when the candidate had to be pulled
/// back toward the centre, the candidate otherwise, limited either way to the
/// columns a split may use.
pub fn final_split_column(width: u32, candidate: u32, clamped: bool) -> (r: u32)
    ensures
        r == split_column_clamp(
            if clamped {
                split_column_clamp(width as int / 2, width as int)
            } else {
                candidate as int
            },
            width as int,
        ),
        1 <= r,
        width >= 2 ==> r < width,
{
    let first = if clamped {
        safe_split_column(None, width)
    } else {
        candidate
    };
    safe_split_column(Some(first), width)
}

// ---------------------------------------------------------------------------
// One file of a run
// ---------------------------------------------------------------------------

/// What the analysis decided for one image.
#[derive(Debug, Clone, Copy, PartialEq, Eq, Structural)]
pub enum EntryDecision {
    Skip,
    CoverTrim,
    Split { split_x: u32, fallback: bool },
}

/// The files a decision writes into the workspace, by name: the source copied
/// as it is for a skipped page, `stem_cover.ext` for a trimmed cover, and
/// `stem_R.ext` then `stem_L.ext` for a split; nothing without a workspace.
pub open spec fn entry_target_names(file_name: Seq<char>, workspace: Option<Seq<char>>, decision: EntryDecision) -> Seq<Seq<char>> {
    match workspace {
        None => Seq::empty(),
        Some(ws) => match decision {
            EntryDecision::Skip => seq![joined_path(ws, file_name)],
            EntryDecision::CoverTrim => seq![joined_path(ws, derived_name(file_name, "_cover"@))],
            EntryDecision::Split { .. } => seq![
                joined_path(ws, derived_name(file_name, "_R"@)),
                joined_path(ws, derived_name(file_name, "_L"@)),
            ],
        },
    }
}

/// See [`entry_target_names`].
pub fn entry_targets(file_name: &str, workspace: Option<&str>, decision: EntryDecision) -> (r: Vec<String>)
    ensures
        r@.map_values(|t: String| t@) == entry_target_names(
            file_name@,
            match workspace {
                Some(w) => Some(w@),
                None => None,
            },
            decision,
        ),
{
    let mut r: Vec<String> = Vec::new();
    match workspace {
        None => {},
        Some(ws) => match decision {
            EntryDecision::Skip => {
                r.push(join_path(ws, file_name));
            },
            EntryDecision::CoverTrim => {
                let name = derive_name(file_name, "_cover");
                r.push(join_path(ws, name.as_str()));
            },
            EntryDecision::Split { .. } => {
                let right = derive_name(file_name, "_R");
                let left = derive_name(file_name, "_L");
                r.push(join_path(ws, right.as_str()));
                r.push(join_path(ws, left.as_str()));
            },
        },
    }
    assert(r@.map_values(|t: String| t@) =~= entry_target_names(
        file_name@,
        match workspace {
            Some(w) => Some(w@),
            None => None,
        },
        decision,
    ));
    r
}

/// What came of one source image: the report fields that do not need the
/// image itself, the warnings, and the counters of the run.
#[derive(Debug)]
pub struct FileOutcome {
    pub index: usize,
    pub source: String,
    pub mode: Option<SplitMode>,
    pub split_x: Option<u32>,
    pub outputs: Vec<String>,
    pub warnings: Vec<String>,
    pub emitted_files: usize,
    pub skipped_files: usize,
    pub split_pages: usize,
    pub cover_trims: usize,
    pub fallback_splits: usize,
}

/// The texts of a list of strings.
pub open spec fn texts(v: Seq<String>) -> Seq<Seq<char>> {
    v.map_values(|t: String| t@)
}

/// The texts of a list of optional strings.
pub open spec fn opt_texts(v: Seq<Option<String>>) -> Seq<Option<Seq<char>>> {
    v.map_values(|o: Option<String>| opt_text(o))
}

/// The report mode of a decision.
pub open spec fn decision_mode(d: EntryDecision) -> SplitMode {
    match d {
        EntryDecision::Skip => SplitMode::Skip,
        EntryDecision::CoverTrim => SplitMode::CoverTrim,
        EntryDecision::Split { fallback, .. } => if fallback {
            SplitMode::FallbackCenter
        } else {
            SplitMode::Split
        },
    }
}

/// The outputs a page records: a copied or trimmed page only when its file was
/// written, a split page both halves whatever happened to them.
pub open spec fn recorded_outputs(d: EntryDecision, targets: Seq<Seq<char>>, failures: Seq<Option<Seq<char>>>) -> Seq<Seq<char>> {
    match d {
        EntryDecision::Split { .. } => targets,
        _ => if targets.len() > 0 && failures[0] is None {
            seq![targets[0]]
        } else {
            Seq::empty()
        },
    }
}

/// The warning for one failed write.
pub open spec fn write_warning(d: EntryDecision, source: Seq<char>, target: Seq<char>, error: Seq<char>) -> Seq<char> {
    match d {
        EntryDecision::Skip => "failed to copy "@ + source + " into workspace: "@ + error,
        _ => "failed to write "@ + target + ": "@ + error,
    }
}

/// The warnings of the first `n` writes, in order.
pub open spec fn write_warnings(d: EntryDecision, source: Seq<char>, targets: Seq<Seq<char>>, failures: Seq<Option<Seq<char>>>, n: int) -> Seq<Seq<char>>
    decreases n,
{
    if n <= 0 {
        Seq::empty()
    } else {
        let before = write_warnings(d, source, targets, failures, n - 1);
        match failures[n - 1] {
            Some(e) => before.push(write_warning(d, source, targets[n - 1], e)),
            None => before,
        }
    }
}

/// The number of the first `n` writes that succeeded.
pub open spec fn writes_done(failures: Seq<Option<Seq<char>>>, n: int) -> nat
    decreases n,
{
    if n <= 0 {
        0
    } else {
        writes_done(failures, n - 1) + if failures[n - 1] is None {
            1nat
        } else {
            0nat
        }
    }
}

proof fn lemma_writes_done_bound(failures: Seq<Option<Seq<char>>>, n: int)
    requires
        0 <= n,
    ensures
        writes_done(failures, n) <= n,
    decreases n,
{
    if n > 0 {
        lemma_writes_done_bound(failures, n - 1);
    }
}

/// The outcome of an image that was analysed, its files written as `targets`
/// (from [`entry_targets`]) with `failures[i]` the error of the `i`-th write,
/// if any.
pub fn process_entry(
    index: usize,
    source: &str,
    decision: EntryDecision,
    targets: &Vec<String>,
    failures: &Vec<Option<String>>,
) -> (r: FileOutcome)
    requires
        failures@.len() == targets@.len(),
        targets@.len() <= 2,
    ensures
        r.index == index,
        r.source@ == source@,
        r.mode == Some(decision_mode(decision)),
        r.split_x == (match decision {
            EntryDecision::Split { split_x, .. } => Some(split_x),
            _ => None,
        }),
        texts(r.outputs@) == recorded_outputs(decision, texts(targets@), opt_texts(failures@)),
        texts(r.warnings@) == write_warnings(decision, source@, texts(targets@), opt_texts(failures@), targets@.len() as int),
        r.emitted_files == writes_done(opt_texts(failures@), targets@.len() as int),
        r.skipped_files == (if decision == EntryDecision::Skip { 1int } else { 0int }),
        r.cover_trims == (if decision == EntryDecision::CoverTrim { 1int } else { 0int }),
        r.split_pages == (if decision is Split { 1int } else { 0int }),
        r.fallback_splits == (if decision_mode(decision) == SplitMode::FallbackCenter { 1int } else { 0int }),
        counted_once(r),
        targets@.len() == 0 ==> r.emitted_files == 0 && r.outputs@.len() == 0,
{
    let ghost tv = texts(targets@);
    let ghost fv = opt_texts(failures@);
    let mut warnings: Vec<String> = Vec::new();
    let mut emitted: usize = 0;
    let mut i: usize = 0;
    while i < targets.len()
        invariant
            failures@.len() == targets@.len(),
            targets@.len() <= 2,
            tv == texts(targets@),
            fv == opt_texts(failures@),
            i <= targets@.len(),
            emitted == writes_done(fv, i as int),
            texts(warnings@) == write_warnings(decision, source@, tv, fv, i as int),
        decreases targets.len() - i,
    {
        proof {
            lemma_writes_done_bound(fv, i as int);
        }
        assert(fv[i as int] == opt_text(failures@[i as int]));
        assert(tv[i as int] == targets@[i as int]@);
        match &failures[i] {
            Some(e) => {
                let w = match decision {
                    EntryDecision::Skip => concat4("failed to copy ", source, " into workspace: ", e.as_str()),
                    _ => concat4("failed to write ", targets[i].as_str(), ": ", e.as_str()),
                };
                warnings.push(w);
                assert(texts(warnings@) =~= write_warnings(decision, source@, tv, fv, i + 1));
            },
            None => {
                emitted = emitted + 1;
            },
        }
        i = i + 1;
    }
    let mut outputs: Vec<String> = Vec::new();
    match decision {
        EntryDecision::Split { .. } => {
            let mut k: usize = 0;
            while k < targets.len()
                invariant
                    k <= targets@.len(),
                    outputs@.len() == k,
                    texts(outputs@) == texts(targets@).take(k as int),
                decreases targets.len() - k,
            {
                let ghost before = outputs@;
                outputs.push(targets[k].clone());
                assert forall|j: int| 0 <= j < k + 1 implies #[trigger] texts(outputs@)[j] == texts(targets@).take(k + 1)[j] by {
                    if j < k {
                        assert(texts(before)[j] == texts(targets@).take(k as int)[j]);
                        assert(outputs@[j] == before[j]);
                    } else {
                        assert(outputs@[j] == targets@[j]);
                    }
                }
                assert(texts(outputs@) =~= texts(targets@).take(k + 1));
                k = k + 1;
            }
            assert(texts(targets@).take(targets@.len() as int) =~= texts(targets@));
        },
        _ => {
            if targets.len() > 0 && failures[0].is_none() {
                outputs.push(targets[0].clone());
                assert(texts(outputs@) =~= seq![tv[0]]);
            } else {
                assert(texts(outputs@) =~= Seq::<Seq<char>>::empty());
            }
        },
    }
    let (mode, split_x, skipped, covers, splits, fallbacks) = match decision {
        EntryDecision::Skip => (SplitMode::Skip, None, 1usize, 0usize, 0usize, 0usize),
        EntryDecision::CoverTrim => (SplitMode::CoverTrim, None, 0, 1, 0, 0),
        EntryDecision::Split { split_x, fallback } => if fallback {
            (SplitMode::FallbackCenter, Some(split_x), 0, 0, 1, 1)
        } else {
            (SplitMode::Split, Some(split_x), 0, 0, 1, 0)
        },
    };
    FileOutcome {
        index,
        source: String::from_str(source),
        mode: Some(mode),
        split_x,
        outputs,
        warnings,
        emitted_files: emitted,
        skipped_files: skipped,
        split_pages: splits,
        cover_trims: covers,
        fallback_splits: fallbacks,
    }
}

/// The outcome of an image that could not be read: no report item, one
/// warning, and the file counted as skipped.
pub fn unreadable_entry(index: usize, source: &str, error: &str) -> (r: FileOutcome)
    ensures
        r.index == index,
        r.source@ == source@,
        r.mode is None,
        r.split_x is None,
        r.outputs@.len() == 0,
        texts(r.warnings@) == seq!["failed to read "@ + source@ + ": "@ + error@],
        r.emitted_files == 0,
        r.skipped_files == 1,
        r.split_pages == 0,
        r.cover_trims == 0,
        r.fallback_splits == 0,
        counted_once(r),
{
    let w = concat4("failed to read ", source, ": ", error);
    let warnings = vec![w];
    assert(texts(warnings@) =~= seq!["failed to read "@ + source@ + ": "@ + error@]);
    FileOutcome {
        index,
        source: String::from_str(source),
        mode: None,
        split_x: None,
        outputs: Vec::new(),
        warnings,
        emitted_files: 0,
        skipped_files: 1,
        split_pages: 0,
        cover_trims: 0,
        fallback_splits: 0,
    }
}

// ---------------------------------------------------------------------------
// Totals of a run
// ---------------------------------------------------------------------------

/// `order` lists every position below `n` exactly once.
pub open spec fn is_position_permutation(order: Seq<usize>, n: nat) -> bool {
    &&& order.len() == n
    &&& forall|k: int| 0 <= k < order.len() ==> #[trigger] order[k] < n
    &&& forall|k: int, l: int| 0 <= k < l < order.len() ==> order[k] != order[l]
}

/// Position `a` may stand right before position `b` in a stable sort by key.
pub open spec fn key_before(keys: Seq<usize>, a: usize, b: usize) -> bool {
    keys[a as int] < keys[b as int] || (keys[a as int] == keys[b as int] && a < b)
}

/// `order` sorts the positions of `keys` by key, equal keys keeping their
/// input order (the order of `sort_by_key`).
pub open spec fn is_stable_key_order(keys: Seq<usize>, order: Seq<usize>) -> bool {
    &&& is_position_permutation(order, keys.len())
    &&& forall|k: int| 0 <= k < order.len() - 1 ==> #[trigger] key_before(keys, order[k], order[k + 1])
}

/// The positions of `keys` in stable key order.
pub fn order_by_key(keys: &Vec<usize>) -> (order: Vec<usize>)
    ensures
        is_stable_key_order(keys@, order@),
{
    let mut order: Vec<usize> = Vec::new();
    let n = keys.len();
    let mut i: usize = 0;
    while i < n
        invariant
            n == keys@.len(),
            i <= n,
            is_position_permutation(order@, i as nat),
            forall|k: int| 0 <= k < order@.len() - 1 ==> #[trigger] key_before(keys@, order@[k], order@[k + 1]),
        decreases n - i,
    {
        let mut pos = order.len();
        while pos > 0 && keys[order[pos - 1]] > keys[i]
            invariant
                n == keys@.len(),
                i < n,
                pos <= order@.len(),
                is_position_permutation(order@, i as nat),
                forall|k: int| 0 <= k < order@.len() - 1 ==> #[trigger] key_before(keys@, order@[k], order@[k + 1]),
                pos < order@.len() ==> keys@[order@[pos as int] as int] > keys@[i as int],
            decreases pos,
        {
            pos = pos - 1;
        }
        let ghost old_order = order@;
        order.insert(pos, i);
        proof {
            let s = order@;
            assert(s == old_order.insert(pos as int, i));
            assert forall|k: int| 0 <= k < s.len() implies #[trigger] s[k] < i + 1 by {
                if k < pos {
                    assert(s[k] == old_order[k]);
                } else if k > pos {
                    assert(s[k] == old_order[k - 1]);
                }
            }
            assert forall|k: int, l: int| 0 <= k < l < s.len() implies s[k] != s[l] by {
                if k < pos && l > pos {
                    assert(s[l] == old_order[l - 1]);
                } else if k == pos {
                    assert(s[l] == old_order[l - 1]);
                } else if k > pos {
                    assert(s[k] == old_order[k - 1]);
                    assert(s[l] == old_order[l - 1]);
                }
            }
            assert forall|k: int| 0 <= k < s.len() - 1 implies #[trigger] key_before(keys@, s[k], s[k + 1]) by {
                if k + 1 < pos {
                    assert(s[k] == old_order[k] && s[k + 1] == old_order[k + 1]);
                } else if k + 1 == pos {
                    assert(s[k] == old_order[k] && s[k + 1] == i);
                    assert(old_order[k] < i);
                } else if k == pos {
                    assert(s[k] == i && s[k + 1] == old_order[k]);
                } else {
                    assert(s[k] == old_order[k - 1] && s[k + 1] == old_order[k]);
                    let kk = k - 1;
                    assert(key_before(keys@, old_order[kk], old_order[kk + 1]));
                }
            }
        }
        i = i + 1;
    }
    order
}

/// The totals of a run, with its files in index order.
#[derive(Debug)]
pub struct SplitTotals {
    pub order: Vec<usize>,
    pub emitted_files: usize,
    pub skipped_files: usize,
    pub split_pages: usize,
    pub cover_trims: usize,
    pub fallback_splits: usize,
    pub warnings: Vec<String>,
}

/// The counters of one outcome stay within what one file can produce.
pub open spec fn outcome_counts_ok(o: FileOutcome) -> bool {
    o.emitted_files <= 2 && o.skipped_files <= 1 && o.split_pages <= 1 && o.cover_trims <= 1 && o.fallback_splits <= 1
}

/// The sum of one counter over the first `m` outcomes taken in `order`.
pub open spec fn counter_sum(outcomes: Seq<FileOutcome>, order: Seq<usize>, m: int, field: spec_fn(FileOutcome) -> nat) -> nat
    decreases m,
{
    if m <= 0 {
        0
    } else {
        counter_sum(outcomes, order, m - 1, field) + field(outcomes[order[m - 1] as int])
    }
}

/// The warnings of the first `m` outcomes taken in `order`, one after another.
pub open spec fn warnings_in_order(outcomes: Seq<FileOutcome>, order: Seq<usize>, m: int) -> Seq<Seq<char>>
    decreases m,
{
    if m <= 0 {
        Seq::empty()
    } else {
        warnings_in_order(outcomes, order, m - 1) + texts(outcomes[order[m - 1] as int].warnings@)
    }
}

/// An outcome counts its file exactly once, as skipped, trimmed or split,
/// and counts a fallback only for a split.
pub open spec fn counted_once(o: FileOutcome) -> bool {
    &&& o.skipped_files + o.cover_trims + o.split_pages == 1
    &&& o.fallback_splits <= o.split_pages
}

/// Each counter of the run.
pub open spec fn emitted_of(o: FileOutcome) -> nat { o.emitted_files as nat }
/// See [`emitted_of`].
pub open spec fn skipped_of(o: FileOutcome) -> nat { o.skipped_files as nat }
/// See [`emitted_of`].
pub open spec fn split_of(o: FileOutcome) -> nat { o.split_pages as nat }
/// See [`emitted_of`].
pub open spec fn cover_of(o: FileOutcome) -> nat { o.cover_trims as nat }
/// See [`emitted_of`].
pub open spec fn fallback_of(o: FileOutcome) -> nat { o.fallback_splits as nat }

proof fn lemma_counter_bound(outcomes: Seq<FileOutcome>, order: Seq<usize>, m: int, field: spec_fn(FileOutcome) -> nat, cap: nat)
    requires
        0 <= m <= order.len(),
        forall|k: int| 0 <= k < order.len() ==> #[trigger] order[k] < outcomes.len(),
        forall|k: int| 0 <= k < outcomes.len() ==> field(#[trigger] outcomes[k]) <= cap,
    ensures
        counter_sum(outcomes, order, m, field) <= cap * m,
    decreases m,
{
    if m > 0 {
        lemma_counter_bound(outcomes, order, m - 1, field, cap);
        assert(cap * (m - 1) + cap == cap * m) by (nonlinear_arith);
    }
}

/// When every outcome counts its file once, the skipped, trimmed and split
/// counts of the first `m` outcomes in `order` add up to `m`, and their
/// fallbacks are no more than their splits.
pub proof fn lemma_run_counts(outcomes: Seq<FileOutcome>, order: Seq<usize>, m: int)
    requires
        0 <= m <= order.len(),
        forall|k: int| 0 <= k < order.len() ==> #[trigger] order[k] < outcomes.len(),
        forall|k: int| 0 <= k < outcomes.len() ==> counted_once(#[trigger] outcomes[k]),
    ensures
        counter_sum(outcomes, order, m, |o: FileOutcome| skipped_of(o)) + counter_sum(
            outcomes,
            order,
            m,
            |o: FileOutcome| cover_of(o),
        ) + counter_sum(outcomes, order, m, |o: FileOutcome| split_of(o)) == m,
        counter_sum(outcomes, order, m, |o: FileOutcome| fallback_of(o)) <= counter_sum(
            outcomes,
            order,
            m,
            |o: FileOutcome| split_of(o),
        ),
    decreases m,
{
    if m > 0 {
        lemma_run_counts(outcomes, order, m - 1);
        assert(counted_once(outcomes[order[m - 1] as int]));
    }
}

/// The totals of a run from the outcomes of its files, in whatever order they
/// arrived: the files are put in index order, the counters added up and the
/// warnings gathered in that order.
pub fn aggregate_outcomes(outcomes: &Vec<FileOutcome>) -> (t: SplitTotals)
    requires
        outcomes@.len() * 2 <= usize::MAX,
        forall|k: int| 0 <= k < outcomes@.len() ==> outcome_counts_ok(#[trigger] outcomes@[k]),
    ensures
        is_stable_key_order(outcomes@.map_values(|o: FileOutcome| o.index), t.order@),
        t.emitted_files == counter_sum(outcomes@, t.order@, outcomes@.len() as int, |o: FileOutcome| emitted_of(o)),
        t.skipped_files == counter_sum(outcomes@, t.order@, outcomes@.len() as int, |o: FileOutcome| skipped_of(o)),
        t.split_pages == counter_sum(outcomes@, t.order@, outcomes@.len() as int, |o: FileOutcome| split_of(o)),
        t.cover_trims == counter_sum(outcomes@, t.order@, outcomes@.len() as int, |o: FileOutcome| cover_of(o)),
        t.fallback_splits == counter_sum(outcomes@, t.order@, outcomes@.len() as int, |o: FileOutcome| fallback_of(o)),
        texts(t.warnings@) == warnings_in_order(outcomes@, t.order@, outcomes@.len() as int),
        (forall|k: int| 0 <= k < outcomes@.len() ==> counted_once(#[trigger] outcomes@[k])) ==> {
            &&& t.skipped_files + t.cover_trims + t.split_pages == outcomes@.len()
            &&& t.fallback_splits <= t.split_pages
        },
{
    let mut keys: Vec<usize> = Vec::new();
    let mut i: usize = 0;
    while i < outcomes.len()
        invariant
            i <= outcomes@.len(),
            keys@ == outcomes@.map_values(|o: FileOutcome| o.index).take(i as int),
        decreases outcomes.len() - i,
    {
        keys.push(outcomes[i].index);
        assert(keys@ =~= outcomes@.map_values(|o: FileOutcome| o.index).take(i + 1));
        i = i + 1;
    }
    assert(keys@ =~= outcomes@.map_values(|o: FileOutcome| o.index));
    let order = order_by_key(&keys);
    let ghost os = outcomes@;
    let ghost fe = |o: FileOutcome| emitted_of(o);
    let ghost fs = |o: FileOutcome| skipped_of(o);
    let ghost fp = |o: FileOutcome| split_of(o);
    let ghost fc = |o: FileOutcome| cover_of(o);
    let ghost ff = |o: FileOutcome| fallback_of(o);
    let mut emitted: usize = 0;
    let mut skipped: usize = 0;
    let mut splits: usize = 0;
    let mut covers: usize = 0;
    let mut fallbacks: usize = 0;
    let mut warnings: Vec<String> = Vec::new();
    let mut m: usize = 0;
    while m < order.len()
        invariant
            os == outcomes@,
            fe == (|o: FileOutcome| emitted_of(o)),
            fs == (|o: FileOutcome| skipped_of(o)),
            fp == (|o: FileOutcome| split_of(o)),
            fc == (|o: FileOutcome| cover_of(o)),
            ff == (|o: FileOutcome| fallback_of(o)),
            outcomes@.len() * 2 <= usize::MAX,
            forall|k: int| 0 <= k < outcomes@.len() ==> outcome_counts_ok(#[trigger] outcomes@[k]),
            is_position_permutation(order@, outcomes@.len() as nat),
            m <= order@.len(),
            emitted == counter_sum(os, order@, m as int, fe),
            skipped == counter_sum(os, order@, m as int, fs),
            splits == counter_sum(os, order@, m as int, fp),
            covers == counter_sum(os, order@, m as int, fc),
            fallbacks == counter_sum(os, order@, m as int, ff),
            texts(warnings@) == warnings_in_order(os, order@, m as int),
        decreases order.len() - m,
    {
        proof {
            assert forall|k: int| 0 <= k < os.len() implies fe(#[trigger] os[k]) <= 2 && fs(os[k]) <= 1
                && fp(os[k]) <= 1 && fc(os[k]) <= 1 && ff(os[k]) <= 1 by {
                assert(outcome_counts_ok(outcomes@[k]));
            }
            lemma_counter_bound(os, order@, m as int, fe, 2);
            lemma_counter_bound(os, order@, m as int, fs, 1);
            lemma_counter_bound(os, order@, m as int, fp, 1);
            lemma_counter_bound(os, order@, m as int, fc, 1);
            lemma_counter_bound(os, order@, m as int, ff, 1);
        }
        let o = &outcomes[order[m]];
        assert(outcome_counts_ok(*o));
        emitted = emitted + o.emitted_files;
        skipped = skipped + o.skipped_files;
        splits = splits + o.split_pages;
        covers = covers + o.cover_trims;
        fallbacks = fallbacks + o.fallback_splits;
        let ghost before = warnings@;
        let mut w: usize = 0;
        while w < o.warnings.len()
            invariant
                w <= o.warnings@.len(),
                warnings@.len() == before.len() + w,
                texts(warnings@) == texts(before) + texts(o.warnings@).take(w as int),
            decreases o.warnings.len() - w,
        {
            let ghost prev = warnings@;
            warnings.push(o.warnings[w].clone());
            assert(texts(warnings@) =~= texts(before) + texts(o.warnings@).take(w + 1)) by {
                assert(texts(warnings@) =~= texts(prev).push(o.warnings@[w as int]@));
                assert(texts(o.warnings@).take(w + 1) =~= texts(o.warnings@).take(w as int).push(o.warnings@[w as int]@));
            }
            w = w + 1;
        }
        assert(texts(o.warnings@).take(o.warnings@.len() as int) =~= texts(o.warnings@));
        m = m + 1;
    }
    proof {
        if forall|k: int| 0 <= k < outcomes@.len() ==> counted_once(#[trigger] outcomes@[k]) {
            lemma_run_counts(os, order@, order@.len() as int);
        }
    }
    SplitTotals {
        order,
        emitted_files: emitted,
        skipped_files: skipped,
        split_pages: splits,
        cover_trims: covers,
        fallback_splits: fallbacks,
        warnings,
    }
}

/// The outputs a page's report item lists are the files that were written
/// for it: a page copied or trimmed into the workspace lists exactly the
/// written file (so as many outputs as files emitted, a copied page as
/// `workspace/file_name`), and a split page lists both halves.
pub proof fn lemma_recorded_outputs_are_written_files(
    file_name: Seq<char>,
    workspace: Option<Seq<char>>,
    d: EntryDecision,
    targets: Seq<Seq<char>>,
    failures: Seq<Option<Seq<char>>>,
)
    requires
        targets == entry_target_names(file_name, workspace, d),
        failures.len() == targets.len(),
    ensures
        d is Split ==> recorded_outputs(d, targets, failures) == targets,
        !(d is Split) ==> recorded_outputs(d, targets, failures).len() == writes_done(failures, targets.len() as int),
        !(d is Split) ==> forall|k: int| 0 <= k < recorded_outputs(d, targets, failures).len() ==> exists|j: int|
            0 <= j < targets.len() && failures[j] is None && #[trigger] recorded_outputs(d, targets, failures)[k] == targets[j],
        (d == EntryDecision::Skip && workspace is Some && failures[0] is None) ==>
            recorded_outputs(d, targets, failures) == seq![joined_path(workspace->0, file_name)],
        workspace is None ==> recorded_outputs(d, targets, failures).len() == 0,
{
    if !(d is Split) && targets.len() > 0 {
        assert(targets.len() == 1);
        assert(writes_done(failures, 0) == 0);
        if failures[0] is None {
            let out = recorded_outputs(d, targets, failures);
            assert(out[0] == targets[0]);
        }
    }
}

/// Every write of a page either succeeds, and counts as an emitted file, or
/// fails, and leaves exactly one warning: warnings and emitted files together
/// number the writes.
pub proof fn lemma_each_write_emits_or_warns(
    d: EntryDecision,
    source: Seq<char>,
    targets: Seq<Seq<char>>,
    failures: Seq<Option<Seq<char>>>,
    n: int,
)
    requires
        0 <= n <= failures.len(),
        failures.len() == targets.len(),
    ensures
        write_warnings(d, source, targets, failures, n).len() + writes_done(failures, n) == n,
    decreases n,
{
    if n > 0 {
        lemma_each_write_emits_or_warns(d, source, targets, failures, n - 1);
    }
}

} // verus!
