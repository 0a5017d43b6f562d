//! Root-path validation, cancellation and progress reporting.

use std::sync::atomic::AtomicBool;
use std::sync::atomic::AtomicU64;
use std::sync::atomic::Ordering;
use vstd::prelude::*;
use vstd::string::StringExecFns;

verus! {

/// Why a root path was turned down.
#[derive(Debug, PartialEq, Eq)]
pub enum PathError {
    /// Nothing exists at the path.
    NotFound(String),
    /// The path exists and is not a directory.
    NotADirectory(String),
}

/// Mathematical model of a [`PathError`].
pub enum PathErrorView {
    NotFound(Seq<char>),
    NotADirectory(Seq<char>),
}

impl View for PathError {
    type V = PathErrorView;

    open spec fn view(&self) -> PathErrorView {
        match self {
            PathError::NotFound(path) => PathErrorView::NotFound(path@),
            PathError::NotADirectory(path) => PathErrorView::NotADirectory(path@),
        }
    }
}

/// The message of an error: a fixed phrase followed by the path.
pub open spec fn error_message(error: PathErrorView) -> Seq<char> {
    match error {
        PathErrorView::NotFound(path) => "Path does not exist: "@ + path,
        PathErrorView::NotADirectory(path) => "Path is not a directory: "@ + path,
    }
}

impl PathError {
    /// The message of this error.
    pub fn to_string(&self) -> (message: String)
        ensures
            message@ == error_message(self@),
    {
        match self {
            PathError::NotFound(path) => String::from_str("Path does not exist: ").concat(
                path.as_str(),
            ),
            PathError::NotADirectory(path) => String::from_str("Path is not a directory: ").concat(
                path.as_str(),
            ),
        }
    }
}

/// The reason to turn a root path down, if there is one: it must exist,
/// and it must be a directory.
pub open spec fn path_fault(path: Seq<char>, found: bool, is_dir: bool) -> Option<PathErrorView> {
    if !found {
        Some(PathErrorView::NotFound(path))
    } else if !is_dir {
        Some(PathErrorView::NotADirectory(path))
    } else {
        None
    }
}

/// Checks that the root of a scan is an existing directory.
///
/// `found` and `is_dir` are what the file system reports for `path`.
pub fn validate_path(path: &str, found: bool, is_dir: bool) -> (result: Result<(), PathError>)
    ensures
        match result {
            Ok(()) => path_fault(path@, found, is_dir) is None,
            Err(e) => path_fault(path@, found, is_dir) == Some(e@),
        },
{
    if !found {
        return Err(PathError::NotFound(String::from_str(path)));
    }
    if !is_dir {
        return Err(PathError::NotADirectory(String::from_str(path)));
    }
    Ok(())
}

/// `current` is a multiple of `step`; only zero is a multiple of zero.
pub open spec fn is_multiple_of(current: u64, step: u64) -> bool {
    if step == 0 {
        current == 0
    } else {
        current % step == 0
    }
}

/// Decides whether a progress observer is told of the unit of work with
/// number `current`, and the position it is given.
///
/// Every `step`-th unit is reported. The position never exceeds `total`.
pub fn progress_position(current: u64, total: u64, step: u64) -> (position: Option<u64>)
    ensures
        is_multiple_of(current, step) ==> position == Some(if current <= total {
            current
        } else {
            total
        }),
        !is_multiple_of(current, step) ==> position is None,
{
    let due = if step == 0 {
        current == 0
    } else {
        current % step == 0
    };
    if due {
        if current <= total {
            Some(current)
        } else {
            Some(total)
        }
    } else {
        None
    }
}

/// A flag by which a run is asked to stop. It is set once and stays set;
/// the stages look at it between units of work and start no new unit once
/// they have seen it set.
pub struct CancelToken {
    flag: AtomicBool,
}

impl CancelToken {
    /// A token that has not been cancelled.
    pub fn new() -> (token: CancelToken) {
        CancelToken { flag: AtomicBool::new(false) }
    }

    /// Asks the run to stop.
    pub fn cancel(&self) {
        self.flag.store(true, Ordering::Relaxed);
    }

    /// Tells whether the run was asked to stop. A request made by another
    /// thread may be seen late.
    pub fn is_cancelled(&self) -> (cancelled: bool) {
        self.flag.load(Ordering::Relaxed)
    }
}

/// Counts the files that were hashed in full, for an observer to poll
/// while the engine runs. Under concurrent use the count is approximate.
pub struct ProgressCounter {
    done: AtomicU64,
}

impl ProgressCounter {
    /// A counter at zero.
    pub fn new() -> (counter: ProgressCounter) {
        ProgressCounter { done: AtomicU64::new(0) }
    }

    /// Counts one more file and returns the count before it.
    pub fn advance(&self) -> (before: u64) {
        self.done.fetch_add(1, Ordering::Relaxed)
    }

    /// The number of files counted so far.
    pub fn position(&self) -> (count: u64) {
        self.done.load(Ordering::Relaxed)
    }
}

} // verus!
