//! The plan of the verification experiment: which thresholds are tried,
//! which reference signatures each attempt compares against, and how the
//! command line names the variants.
use vstd::prelude::*;

use crate::text::same_text;

verus! {

/// Reference signatures recorded per user.
pub const NUM_SIGNATURES: usize = 20;

/// Users taking part in the experiment.
pub const NUM_USERS: u32 = 5;

/// The largest acceptance threshold tried.
pub const MAX_THRESHOLD: usize = 500;

/// The distance between two thresholds tried.
pub const THRESHOLD_STEP: usize = 20;

/// The first signature of each user held out for testing.
pub const FIRST_TESTING_SIGNATURE: usize = 20;

/// The last signature of each user held out for testing.
pub const LAST_TESTING_SIGNATURE: usize = 24;

/// The `i`-th threshold tried: from the largest down to zero.
pub open spec fn threshold_at(i: int) -> int {
    MAX_THRESHOLD - i * THRESHOLD_STEP
}

/// The number of thresholds tried.
pub open spec fn threshold_count() -> int {
    MAX_THRESHOLD / THRESHOLD_STEP + 1
}

/// The thresholds tried, from `MAX_THRESHOLD` down to zero by `THRESHOLD_STEP`.
pub fn thresholds() -> (r: Vec<usize>)
    ensures
        r.len() == threshold_count(),
        forall|i: int| 0 <= i < r.len() ==> #[trigger] r[i] == threshold_at(i),
        r[r.len() - 1] == 0,
        r[0] == MAX_THRESHOLD,
        forall|i: int| 0 <= i < r.len() - 1 ==> #[trigger] r[i] == r[i + 1] + THRESHOLD_STEP,
{
    let mut r: Vec<usize> = Vec::new();
    let mut t: usize = MAX_THRESHOLD;
    let mut i: usize = 0;
    loop
        invariant
            i <= MAX_THRESHOLD / THRESHOLD_STEP,
            t == threshold_at(i as int),
            r.len() == i,
            forall|k: int| 0 <= k < r.len() ==> #[trigger] r[k] == threshold_at(k),
        decreases MAX_THRESHOLD / THRESHOLD_STEP - i,
    {
        r.push(t);
        if t < THRESHOLD_STEP {
            return r;
        }
        t = t - THRESHOLD_STEP;
        i = i + 1;
    }
}

/// The abscissa at which the results of the `index`-th threshold are plotted.
pub fn plotted_threshold(index: usize) -> (r: usize)
    requires
        index * THRESHOLD_STEP <= MAX_THRESHOLD,
    ensures
        r == index * THRESHOLD_STEP,
{
    MAX_THRESHOLD - (MAX_THRESHOLD - index * THRESHOLD_STEP)
}

/// The results of each threshold are plotted at the mirror image of that
/// threshold: the two always add up to `MAX_THRESHOLD`.
pub proof fn lemma_plotted_mirrors_threshold(index: int)
    requires
        0 <= index < threshold_count(),
    ensures
        index * THRESHOLD_STEP <= MAX_THRESHOLD,
        index * THRESHOLD_STEP + threshold_at(index) == MAX_THRESHOLD,
{
}

/// How many reference signatures each attempt compares against.
#[derive(Debug, Clone, Copy, PartialEq, Eq, Structural)]
pub enum EvaluationMode {
    /// All reference signatures form a single window.
    Full,
    /// The reference signatures form four windows of five.
    Reduced,
}

impl EvaluationMode {
    /// Reads the mode from its command-line name: `full` or `reduced`.
    pub fn from_name(name: &str) -> (r: Option<EvaluationMode>)
        ensures
            r == (if name@ == "full"@ {
                Some(EvaluationMode::Full)
            } else if name@ == "reduced"@ {
                Some(EvaluationMode::Reduced)
            } else {
                None
            }),
    {
        if same_text(name, "full") {
            Some(EvaluationMode::Full)
        } else if same_text(name, "reduced") {
            Some(EvaluationMode::Reduced)
        } else {
            None
        }
    }

    /// The number of reference signatures in one window.
    pub open spec fn spec_step(self) -> usize {
        match self {
            EvaluationMode::Full => 20,
            EvaluationMode::Reduced => 5,
        }
    }

    /// The number of windows the reference signatures fall into.
    pub open spec fn spec_window_count(self) -> usize {
        match self {
            EvaluationMode::Full => 1,
            EvaluationMode::Reduced => 4,
        }
    }

    /// The number of reference signatures in one window.
    #[verifier::when_used_as_spec(spec_step)]
    pub fn step(self) -> (r: usize)
        ensures
            r == self.spec_step(),
    {
        match self {
            EvaluationMode::Full => 20,
            EvaluationMode::Reduced => 5,
        }
    }

    /// The number of windows the reference signatures fall into.
    #[verifier::when_used_as_spec(spec_window_count)]
    pub fn window_count(self) -> (r: usize)
        ensures
            r == self.spec_window_count(),
    {
        match self {
            EvaluationMode::Full => 1,
            EvaluationMode::Reduced => 4,
        }
    }
}

/// The windows of reference signatures: `[offset, offset + step)` for each
/// offset from zero below `NUM_SIGNATURES` by `step`.
pub fn signature_windows(mode: EvaluationMode) -> (r: Vec<(usize, usize)>)
    ensures
        r.len() == mode.window_count(),
        forall|i: int|
            0 <= i < r.len() ==> #[trigger] r[i] == (
                (i * mode.step()) as usize,
                (i * mode.step() + mode.step()) as usize,
            ),
{
    let step = mode.step();
    let mut r: Vec<(usize, usize)> = Vec::new();
    let mut index: usize = 0;
    while index < NUM_SIGNATURES
        invariant
            step == mode.step(),
            index == r.len() * step,
            r.len() <= mode.window_count(),
            index < NUM_SIGNATURES ==> r.len() < mode.window_count(),
            index >= NUM_SIGNATURES ==> r.len() == mode.window_count(),
            forall|i: int|
                0 <= i < r.len() ==> #[trigger] r[i] == ((i * step) as usize, (i * step + step) as usize),
        decreases NUM_SIGNATURES - index,
    {
        r.push((index, index + step));
        index = index + step;
    }
    r
}

/// Why a window of reference signatures cannot be evaluated.
#[derive(Debug, Clone, Copy, PartialEq, Eq, Structural)]
pub enum WindowError {
    /// The window starts at or past the last reference signature.
    OffsetTooLarge,
    /// The window ends past the last reference signature.
    WindowTooLarge,
    /// The window ends at or before where it starts.
    EmptyWindow,
}

/// The first condition on a window `[offset_index, index_window)` of
/// reference signatures that fails, if any.
pub open spec fn window_verdict(offset_index: int, index_window: int) -> Result<(), WindowError> {
    if offset_index >= NUM_SIGNATURES {
        Err(WindowError::OffsetTooLarge)
    } else if index_window > NUM_SIGNATURES {
        Err(WindowError::WindowTooLarge)
    } else if index_window <= offset_index {
        Err(WindowError::EmptyWindow)
    } else {
        Ok(())
    }
}

/// Checks a window `[offset_index, index_window)` of reference signatures,
/// reporting the first of its conditions that fails.
pub fn check_window(offset_index: usize, index_window: usize) -> (r: Result<(), WindowError>)
    ensures
        r == window_verdict(offset_index as int, index_window as int),
{
    if offset_index >= NUM_SIGNATURES {
        Err(WindowError::OffsetTooLarge)
    } else if index_window > NUM_SIGNATURES {
        Err(WindowError::WindowTooLarge)
    } else if index_window <= offset_index {
        Err(WindowError::EmptyWindow)
    } else {
        Ok(())
    }
}

/// The values of a window `[offset_index, index_window)` of reference
/// signatures.
pub fn reference_window<T>(values: &[T], offset_index: usize, index_window: usize) -> (r: &[T])
    requires
        window_verdict(offset_index as int, index_window as int) is Ok,
        index_window <= values@.len(),
    ensures
        r@ == values@.subrange(offset_index as int, index_window as int),
{
    vstd::slice::slice_subrange(values, offset_index, index_window)
}

/// The windows of either mode pass the window check, and together they cover
/// every reference signature exactly once, in order.
pub proof fn lemma_windows_tile_references(mode: EvaluationMode, i: int)
    requires
        0 <= i < mode.spec_window_count(),
    ensures
        window_verdict(i * mode.spec_step(), i * mode.spec_step() + mode.spec_step()) is Ok,
        i + 1 < mode.spec_window_count() ==> i * mode.spec_step() + mode.spec_step() == (i + 1)
            * mode.spec_step(),
        mode.spec_window_count() * mode.spec_step() == NUM_SIGNATURES,
{
    match mode {
        EvaluationMode::Full => {
            assert(mode.spec_step() == 20);
            assert(i == 0);
        },
        EvaluationMode::Reduced => {
            assert(mode.spec_step() == 5);
            assert(i * 5 + 5 == (i + 1) * 5);
        },
    }
}

/// Which summary of the distances to a user's reference signatures is
/// compared with the threshold.
#[derive(Debug, Clone, Copy, PartialEq, Eq, Structural)]
pub enum Selector {
    Max,
    Min,
    Avg,
}

impl Selector {
    /// Reads the selector from its command-line name: `max`, `min` or `avg`.
    pub fn from_name(name: &str) -> (r: Option<Selector>)
        ensures
            r == (if name@ == "max"@ {
                Some(Selector::Max)
            } else if name@ == "min"@ {
                Some(Selector::Min)
            } else if name@ == "avg"@ {
                Some(Selector::Avg)
            } else {
                None
            }),
    {
        if same_text(name, "max") {
            Some(Selector::Max)
        } else if same_text(name, "min") {
            Some(Selector::Min)
        } else if same_text(name, "avg") {
            Some(Selector::Avg)
        } else {
            None
        }
    }
}

/// The points of the ROC curve: for each pair of a genuine-acceptance point
/// and a false-acceptance point at the same position, their two ordinates,
/// as far as the shorter list goes.
pub fn roc_points<T: Copy>(gar_points: &[(T, T)], far_points: &[(T, T)]) -> (r: Vec<(T, T)>)
    ensures
        r.len() == if gar_points@.len() <= far_points@.len() {
            gar_points@.len()
        } else {
            far_points@.len()
        },
        forall|i: int| 0 <= i < r.len() ==> #[trigger] r[i] == (gar_points@[i].1, far_points@[i].1),
{
    let n = if gar_points.len() <= far_points.len() {
        gar_points.len()
    } else {
        far_points.len()
    };
    let mut r: Vec<(T, T)> = Vec::new();
    let mut i: usize = 0;
    while i < n
        invariant
            n <= gar_points@.len(),
            n <= far_points@.len(),
            i <= n,
            r.len() == i,
            forall|k: int| 0 <= k < i ==> #[trigger] r[k] == (gar_points@[k].1, far_points@[k].1),
        decreases n - i,
    {
        r.push((gar_points[i].1, far_points[i].1));
        i = i + 1;
    }
    r
}

} // verus!
