//! The state of long-running batches as the settings screen reads it: which kinds
//! are running (a set: several kinds may run at once), the latest progress of each
//! running kind, and the most recently finished batch.
//!
//! The state only mirrors what the callers decided; it never decides whether a
//! batch may start.

use vstd::prelude::*;

use crate::models::opt_view;

verus! {

/// A kind of long-running batch. Its text ([`BatchKind::as_str`]) is shared with
/// the frontend.
#[derive(Clone, Copy, PartialEq, Eq, Structural, Debug)]
pub enum BatchKind {
    Build,
    Rebuild,
    Rederive,
    Gc,
    VisionAltText,
    TexFetch,
    Ocr,
}

/// Every kind, in declaration order.
pub open spec fn all_kinds() -> Seq<BatchKind> {
    seq![
        BatchKind::Build,
        BatchKind::Rebuild,
        BatchKind::Rederive,
        BatchKind::Gc,
        BatchKind::VisionAltText,
        BatchKind::TexFetch,
        BatchKind::Ocr,
    ]
}

impl BatchKind {
    /// The text of a kind.
    pub open spec fn text(self) -> Seq<char> {
        match self {
            BatchKind::Build => "build"@,
            BatchKind::Rebuild => "rebuild"@,
            BatchKind::Rederive => "rederive"@,
            BatchKind::Gc => "gc"@,
            BatchKind::VisionAltText => "vision_alt_text"@,
            BatchKind::TexFetch => "tex_fetch"@,
            BatchKind::Ocr => "ocr"@,
        }
    }

    /// Position of a kind in declaration order.
    pub open spec fn order(self) -> nat {
        match self {
            BatchKind::Build => 0,
            BatchKind::Rebuild => 1,
            BatchKind::Rederive => 2,
            BatchKind::Gc => 3,
            BatchKind::VisionAltText => 4,
            BatchKind::TexFetch => 5,
            BatchKind::Ocr => 6,
        }
    }

    /// The text the frontend knows the kind by.
    pub fn as_str(self) -> (r: &'static str)
        ensures
            r@ == self.text(),
    {
        match self {
            BatchKind::Build => "build",
            BatchKind::Rebuild => "rebuild",
            BatchKind::Rederive => "rederive",
            BatchKind::Gc => "gc",
            BatchKind::VisionAltText => "vision_alt_text",
            BatchKind::TexFetch => "tex_fetch",
            BatchKind::Ocr => "ocr",
        }
    }

    /// Position of the kind in declaration order.
    pub fn index(self) -> (r: usize)
        ensures
            r == self.order(),
            r < 7,
    {
        match self {
            BatchKind::Build => 0,
            BatchKind::Rebuild => 1,
            BatchKind::Rederive => 2,
            BatchKind::Gc => 3,
            BatchKind::VisionAltText => 4,
            BatchKind::TexFetch => 5,
            BatchKind::Ocr => 6,
        }
    }
}

/// The kind at a position in declaration order.
fn kind_at(i: usize) -> (k: BatchKind)
    requires
        i < 7,
    ensures
        k == all_kinds()[i as int],
        k.order() == i,
{
    if i == 0 {
        BatchKind::Build
    } else if i == 1 {
        BatchKind::Rebuild
    } else if i == 2 {
        BatchKind::Rederive
    } else if i == 3 {
        BatchKind::Gc
    } else if i == 4 {
        BatchKind::VisionAltText
    } else if i == 5 {
        BatchKind::TexFetch
    } else {
        BatchKind::Ocr
    }
}

/// Different kinds have different texts, so the frontend can tell every kind apart.
pub proof fn lemma_kind_text_injective(a: BatchKind, b: BatchKind)
    ensures
        a.text() == b.text() ==> a == b,
{
    reveal_strlit("build");
    reveal_strlit("rebuild");
    reveal_strlit("rederive");
    reveal_strlit("gc");
    reveal_strlit("vision_alt_text");
    reveal_strlit("tex_fetch");
    reveal_strlit("ocr");
    if a.text() == b.text() && a != b {
        assert(a.text().len() == b.text().len());
        assert(a.text()[0] == b.text()[0]);
        assert(a.text()[2] == b.text()[2]);
    }
}

/// Progress of one batch, as its progress events carry it.
#[derive(Clone, Copy, PartialEq, Eq, Structural, Debug)]
pub struct Progress {
    pub done: i64,
    pub total: i64,
}

/// The most recently finished batch: its kind, when it finished (RFC 3339), and
/// either the command's result as JSON text or the error.
#[derive(Debug)]
pub struct FinishedBatch {
    pub kind: BatchKind,
    pub finished_at: String,
    pub result: Option<String>,
    pub error: Option<String>,
}

/// The mathematical value of a [`FinishedBatch`].
pub struct FinishedView {
    pub kind: BatchKind,
    pub finished_at: Seq<char>,
    pub result: Option<Seq<char>>,
    pub error: Option<Seq<char>>,
}

impl View for FinishedBatch {
    type V = FinishedView;

    open spec fn view(&self) -> FinishedView {
        FinishedView {
            kind: self.kind,
            finished_at: self.finished_at@,
            result: opt_view(self.result),
            error: opt_view(self.error),
        }
    }
}

impl FinishedBatch {
    /// A copy.
    pub fn duplicate(&self) -> (r: FinishedBatch)
        ensures
            r@ == self@,
    {
        FinishedBatch {
            kind: self.kind,
            finished_at: self.finished_at.clone(),
            result: crate::models::clone_opt(&self.result),
            error: crate::models::clone_opt(&self.error),
        }
    }
}

/// The batch state as the contracts speak of it.
pub struct BatchView {
    pub running: Set<BatchKind>,
    pub progress: Map<BatchKind, Progress>,
    pub last: Option<FinishedView>,
}

/// `kind` starts running.
pub open spec fn marked(v: BatchView, kind: BatchKind) -> BatchView {
    BatchView { running: v.running.insert(kind), progress: v.progress, last: v.last }
}

/// `kind` stops running; its progress goes with it.
pub open spec fn cleared(v: BatchView, kind: BatchKind) -> BatchView {
    BatchView { running: v.running.remove(kind), progress: v.progress.remove(kind), last: v.last }
}

/// `kind` reports progress `p`.
pub open spec fn progressed(v: BatchView, kind: BatchKind, p: Progress) -> BatchView {
    BatchView { running: v.running, progress: v.progress.insert(kind, p), last: v.last }
}

/// A batch finished as `f`.
pub open spec fn finished(v: BatchView, f: FinishedView) -> BatchView {
    BatchView { running: v.running, progress: v.progress, last: Some(f) }
}

/// The batch state: for each kind (by declaration order) whether it runs and its
/// latest progress, and the most recently finished batch.
pub struct BatchState {
    running: Vec<bool>,
    progress: Vec<Option<Progress>>,
    last: Option<FinishedBatch>,
}

/// What [`BatchState::snapshot`] hands out.
#[derive(Debug)]
pub struct BatchStatus {
    /// Running kinds, each once, in declaration order.
    pub running: Vec<BatchKind>,
    /// Latest progress of each kind that has some, in declaration order.
    pub progress: Vec<(BatchKind, Progress)>,
    pub last: Option<FinishedBatch>,
}

/// The kinds among the first `m` (declaration order) for which `flags` is set.
pub open spec fn flagged_upto(flags: Seq<bool>, m: int) -> Seq<BatchKind>
    decreases m,
{
    if m <= 0 {
        Seq::empty()
    } else if flags[m - 1] {
        flagged_upto(flags, m - 1).push(all_kinds()[m - 1])
    } else {
        flagged_upto(flags, m - 1)
    }
}

/// The kinds among the first `m` with progress, each with it.
pub open spec fn progress_upto(slots: Seq<Option<Progress>>, m: int) -> Seq<(BatchKind, Progress)>
    decreases m,
{
    if m <= 0 {
        Seq::empty()
    } else {
        match slots[m - 1] {
            Some(p) => progress_upto(slots, m - 1).push((all_kinds()[m - 1], p)),
            None => progress_upto(slots, m - 1),
        }
    }
}

impl BatchState {
    /// One flag and one progress slot per kind.
    pub open spec fn wf(&self) -> bool {
        self.flags().len() == 7 && self.slots().len() == 7
    }

    /// The running flags, by declaration order.
    pub closed spec fn flags(&self) -> Seq<bool> {
        self.running@
    }

    /// The progress slots, by declaration order.
    pub closed spec fn slots(&self) -> Seq<Option<Progress>> {
        self.progress@
    }

    /// The most recently finished batch.
    pub closed spec fn last_view(&self) -> Option<FinishedView> {
        match self.last {
            Some(f) => Some(f@),
            None => None,
        }
    }

    /// The state as a set of running kinds, a map of progress and the last result.
    pub open spec fn view(&self) -> BatchView {
        BatchView {
            running: Set::new(|k: BatchKind| self.flags()[k.order() as int]),
            progress: Map::new(
                |k: BatchKind| self.slots()[k.order() as int] is Some,
                |k: BatchKind| self.slots()[k.order() as int].unwrap(),
            ),
            last: self.last_view(),
        }
    }

    /// Nothing running, no progress, no result yet.
    pub fn new() -> (r: BatchState)
        ensures
            r.wf(),
            r.view().running == Set::<BatchKind>::empty(),
            r.view().progress == Map::<BatchKind, Progress>::empty(),
            r.view().last is None,
    {
        let mut running: Vec<bool> = Vec::new();
        let mut progress: Vec<Option<Progress>> = Vec::new();
        for i in 0..7usize
            invariant
                running.len() == i,
                progress.len() == i,
                forall|j: int| 0 <= j < i ==> !(#[trigger] running@[j]),
                forall|j: int| 0 <= j < i ==> (#[trigger] progress@[j]) is None,
        {
            running.push(false);
            progress.push(None);
        }
        let r = BatchState { running, progress, last: None };
        assert(r.view().running =~= Set::<BatchKind>::empty());
        assert(r.view().progress =~= Map::<BatchKind, Progress>::empty());
        r
    }

    /// Marks `kind` as running (after the caller won the right to run it). Its
    /// progress is left as it is: the previous run's progress went when it stopped.
    pub fn mark_running(&mut self, kind: BatchKind)
        requires
            old(self).wf(),
        ensures
            final(self).wf(),
            final(self).view() == marked(old(self).view(), kind),
    {
        let i = kind.index();
        self.running.set(i, true);
        proof {
            let v = final(self).view();
            let w = marked(old(self).view(), kind);
            assert forall|k: BatchKind| v.running.contains(k) == w.running.contains(k) by {
                if k != kind {
                    assert(k.order() != kind.order());
                }
            }
            assert(v.running =~= w.running);
            assert(v.progress =~= w.progress);
        }
    }

    /// Marks `kind` as no longer running and drops its progress, so the next run
    /// does not start from it. Other kinds are untouched.
    pub fn clear_running(&mut self, kind: BatchKind)
        requires
            old(self).wf(),
        ensures
            final(self).wf(),
            final(self).view() == cleared(old(self).view(), kind),
    {
        let i = kind.index();
        self.running.set(i, false);
        self.progress.set(i, None);
        proof {
            let v = final(self).view();
            let w = cleared(old(self).view(), kind);
            assert forall|k: BatchKind| v.running.contains(k) == w.running.contains(k) by {
                if k != kind {
                    assert(k.order() != kind.order());
                }
            }
            assert forall|k: BatchKind| v.progress.contains_key(k) == w.progress.contains_key(k) by {
                if k != kind {
                    assert(k.order() != kind.order());
                }
            }
            assert(v.running =~= w.running);
            assert(v.progress =~= w.progress);
        }
    }

    /// Records the latest progress of `kind`.
    pub fn set_progress(&mut self, kind: BatchKind, done: i64, total: i64)
        requires
            old(self).wf(),
        ensures
            final(self).wf(),
            final(self).view() == progressed(
                old(self).view(),
                kind,
                Progress { done, total },
            ),
    {
        let i = kind.index();
        self.progress.set(i, Some(Progress { done, total }));
        proof {
            let v = final(self).view();
            let w = progressed(old(self).view(), kind, Progress { done, total });
            assert forall|k: BatchKind| v.progress.contains_key(k) == w.progress.contains_key(k) by {
                if k != kind {
                    assert(k.order() != kind.order());
                }
            }
            assert(v.progress =~= w.progress);
            assert(v.running =~= w.running);
        }
    }

    /// Records that a batch of `kind` succeeded at `finished_at`, with the
    /// command's return value as JSON text (`None` when it could not be serialised).
    pub fn record_success(&mut self, kind: BatchKind, finished_at: String, result: Option<String>)
        requires
            old(self).wf(),
        ensures
            final(self).wf(),
            final(self).view() == finished(
                old(self).view(),
                FinishedView {
                    kind,
                    finished_at: finished_at@,
                    result: opt_view(result),
                    error: None,
                },
            ),
    {
        self.last = Some(FinishedBatch { kind, finished_at, result, error: None });
        proof {
            assert(final(self).view().running =~= old(self).view().running);
            assert(final(self).view().progress =~= old(self).view().progress);
        }
    }

    /// Records that a batch of `kind` failed at `finished_at` with `error`.
    pub fn record_failure(&mut self, kind: BatchKind, finished_at: String, error: &str)
        requires
            old(self).wf(),
        ensures
            final(self).wf(),
            final(self).view() == finished(
                old(self).view(),
                FinishedView { kind, finished_at: finished_at@, result: None, error: Some(error@) },
            ),
    {
        self.last = Some(
            FinishedBatch {
                kind,
                finished_at,
                result: None,
                error: Some(String::from_str(error)),
            },
        );
        proof {
            assert(final(self).view().running =~= old(self).view().running);
            assert(final(self).view().progress =~= old(self).view().progress);
        }
    }

    /// A copy of the state for the screen. Reading does not consume the last result.
    pub fn snapshot(&self) -> (r: BatchStatus)
        requires
            self.wf(),
        ensures
            r.running@ == flagged_upto(self.flags(), 7),
            r.progress@ == progress_upto(self.slots(), 7),
            match r.last {
                Some(f) => self.view().last == Some(f@),
                None => self.view().last is None,
            },
    {
        let mut running: Vec<BatchKind> = Vec::new();
        let mut progress: Vec<(BatchKind, Progress)> = Vec::new();
        let mut i: usize = 0;
        while i < 7
            invariant
                self.wf(),
                i <= 7,
                running@ == flagged_upto(self.flags(), i as int),
                progress@ == progress_upto(self.slots(), i as int),
            decreases 7 - i,
        {
            let k = kind_at(i);
            if self.running[i] {
                running.push(k);
            }
            match self.progress[i] {
                Some(p) => progress.push((k, p)),
                None => {},
            }
            i = i + 1;
        }
        let last = match &self.last {
            Some(f) => Some(f.duplicate()),
            None => None,
        };
        BatchStatus { running, progress, last }
    }
}


/// The mark of a running batch: made once the caller has won the right to run
/// `kind` (it decides nothing), released when the batch ends.
#[derive(Debug)]
pub struct RunningMark {
    kind: BatchKind,
}

impl RunningMark {
    /// The kind the mark stands for.
    pub closed spec fn kind_spec(&self) -> BatchKind {
        self.kind
    }

    /// Marks `kind` as running in `state`.
    pub fn new(kind: BatchKind, state: &mut BatchState) -> (m: RunningMark)
        requires
            old(state).wf(),
        ensures
            final(state).wf(),
            final(state).view() == marked(old(state).view(), kind),
            m.kind_spec() == kind,
    {
        state.mark_running(kind);
        RunningMark { kind }
    }

    /// The kind the mark stands for.
    pub fn kind(&self) -> (k: BatchKind)
        ensures
            k == self.kind_spec(),
    {
        self.kind
    }

    /// Ends the mark: the kind stops running and its progress goes.
    pub fn release(self, state: &mut BatchState)
        requires
            old(state).wf(),
        ensures
            final(state).wf(),
            final(state).view() == cleared(old(state).view(), self.kind_spec()),
    {
        state.clear_running(self.kind);
    }
}

/// The flags listed by a snapshot are exactly the running kinds, in declaration
/// order and each once.
pub proof fn lemma_flagged_lists_running(flags: Seq<bool>, m: int, k: BatchKind)
    requires
        0 <= m <= 7,
        flags.len() == 7,
    ensures
        flagged_upto(flags, m).contains(k) == (k.order() < m && flags[k.order() as int]),
    decreases m,
{
    if m > 0 {
        lemma_flagged_lists_running(flags, m - 1, k);
        let before = flagged_upto(flags, m - 1);
        if flags[m - 1] {
            assert(flagged_upto(flags, m) == before.push(all_kinds()[m - 1]));
            if k.order() == m - 1 {
                assert(flagged_upto(flags, m)[before.len() as int] == k);
            } else {
                assert(all_kinds()[m - 1].order() == m - 1);
                if flagged_upto(flags, m).contains(k) {
                    let j = choose|j: int|
                        0 <= j < flagged_upto(flags, m).len() && flagged_upto(flags, m)[j] == k;
                    if j < before.len() {
                        assert(before[j] == k);
                    }
                }
                if before.contains(k) {
                    let j = choose|j: int| 0 <= j < before.len() && before[j] == k;
                    assert(flagged_upto(flags, m)[j] == k);
                }
            }
        }
    }
}

/// Stopping one kind leaves every other kind as it was: still running if it ran,
/// with the same progress.
pub proof fn lemma_clear_leaves_others(v: BatchView, kind: BatchKind, other: BatchKind)
    requires
        other != kind,
    ensures
        cleared(v, kind).running.contains(other) == v.running.contains(other),
        cleared(v, kind).progress.contains_key(other) == v.progress.contains_key(other),
        v.progress.contains_key(other) ==> cleared(v, kind).progress[other] == v.progress[other],
{
}

/// A run that starts after a run of the same kind stopped does not see the old
/// run's progress, whatever progress that run reported.
pub proof fn lemma_next_run_starts_fresh(v: BatchView, kind: BatchKind, p: Progress)
    ensures
        !marked(cleared(progressed(marked(v, kind), kind, p), kind), kind).progress.contains_key(
            kind,
        ),
        marked(cleared(progressed(marked(v, kind), kind, p), kind), kind).running.contains(kind),
{
}

/// Marking a kind that was not running and then stopping it leaves the running
/// set as it was.
pub proof fn lemma_mark_then_clear(v: BatchView, kind: BatchKind)
    requires
        !v.running.contains(kind),
    ensures
        cleared(marked(v, kind), kind).running == v.running,
{
    assert(cleared(marked(v, kind), kind).running =~= v.running);
}

} // verus!
