//! The settings of a run.

use vstd::prelude::*;

verus! {

/// How much of what happens is logged.
#[derive(Debug, Clone, Copy, PartialEq, Eq, Structural)]
pub enum LogLevel {
    Off,
    Error,
    Warn,
    Info,
    Debug,
    Trace,
}

/// Number of leading bytes that the quick digest covers, unless set.
pub const DEFAULT_QUICK_HASH_SIZE: usize = 8192;

/// Read buffer for the quick digest in KB, unless set.
pub const DEFAULT_QUICK_BUFFER_SIZE: usize = 64;

/// Read buffer for the full digest in MB, unless set.
pub const DEFAULT_FULL_BUFFER_SIZE: usize = 1;

/// The settings of a run.
#[derive(Debug, Clone, PartialEq, Eq)]
pub struct Args {
    /// Directory to search for duplicates.
    pub path: String,
    pub log_level: LogLevel,
    /// Follow symbolic links.
    pub follow_links: bool,
    /// Do not ignore common directories.
    pub no_ignore: bool,
    /// Names of further directories to ignore.
    pub ignore: Vec<String>,
    /// Include hidden files and directories.
    pub hidden: bool,
    /// Quick hash sample size in bytes.
    pub quick_hash_size: usize,
    /// Quick hash buffer size in KB.
    pub quick_buffer_size: usize,
    /// Full hash buffer size in MB.
    pub full_buffer_size: usize,
    /// File to write the results to as JSON.
    pub output_json: Option<String>,
    /// Skip files smaller than this size in bytes.
    pub min_size: u64,
    /// Maximum number of threads; 0 leaves the choice to the thread pool.
    pub threads: usize,
}

impl Args {
    /// The settings of a run over `path` where nothing else is asked for.
    pub fn new(path: String) -> (args: Args)
        ensures
            args.path == path,
            args.log_level == LogLevel::Info,
            !args.follow_links,
            !args.no_ignore,
            args.ignore@.len() == 0,
            !args.hidden,
            args.quick_hash_size == 8192,
            args.quick_buffer_size == 64,
            args.full_buffer_size == 1,
            args.output_json is None,
            args.min_size == 0,
            args.threads == 0,
    {
        Args {
            path,
            log_level: LogLevel::Info,
            follow_links: false,
            no_ignore: false,
            ignore: Vec::new(),
            hidden: false,
            quick_hash_size: DEFAULT_QUICK_HASH_SIZE,
            quick_buffer_size: DEFAULT_QUICK_BUFFER_SIZE,
            full_buffer_size: DEFAULT_FULL_BUFFER_SIZE,
            output_json: None,
            min_size: 0,
            threads: 0,
        }
    }

    /// The size of the worker pool that was asked for, or `None` where the
    /// pool is left at its default.
    pub fn worker_threads(&self) -> (threads: Option<usize>)
        ensures
            threads == if self.threads > 0 {
                Some(self.threads)
            } else {
                None
            },
    {
        if self.threads > 0 {
            Some(self.threads)
        } else {
            None
        }
    }

    /// The read buffer for the quick digest in bytes, or `None` where that
    /// number does not fit in `usize`.
    pub fn quick_buffer_bytes(&self) -> (bytes: Option<usize>)
        ensures
            match bytes {
                Some(n) => n == self.quick_buffer_size * 1024,
                None => self.quick_buffer_size * 1024 > usize::MAX,
            },
    {
        self.quick_buffer_size.checked_mul(1024)
    }

    /// The read buffer for the full digest in bytes, or `None` where that
    /// number does not fit in `usize`.
    pub fn full_buffer_bytes(&self) -> (bytes: Option<usize>)
        ensures
            match bytes {
                Some(n) => n == self.full_buffer_size * 1024 * 1024,
                None => self.full_buffer_size * 1024 * 1024 > usize::MAX,
            },
    {
        match self.full_buffer_size.checked_mul(1024) {
            Some(kilo) => kilo.checked_mul(1024),
            None => None,
        }
    }
}

} // verus!
