use vstd::prelude::*;

verus! {

/// The largest number of bytes shown on one line.
pub const MAX_COLS: usize = 256;

/// Why a configuration was rejected.
#[derive(Debug, Clone, Copy, PartialEq, Eq, Structural)]
pub enum ConfigError {
    /// The column count is outside `1..=256`.
    ColsOutOfRange,
}

/// How the bytes of a dump are laid out.
#[derive(Debug, Clone, Copy, PartialEq, Eq, Structural)]
pub struct FormatConfig {
    /// Bytes per line, the nominal chunk width.
    pub cols: usize,
    /// Group size for separators; 0 means no grouping.
    pub split: usize,
    /// Upper-case hex letters.
    pub upper_case: bool,
    /// The most bytes to show in all, if limited.
    pub len: Option<usize>,
}

impl FormatConfig {
    /// A usable configuration: the column count is in `1..=256`.
    pub open spec fn wf(&self) -> bool {
        1 <= self.cols <= MAX_COLS
    }

    /// Builds a configuration, rejecting a column count outside `1..=256`.
    pub fn new(cols: usize, split: usize, upper_case: bool, len: Option<usize>) -> (r: Result<
        FormatConfig,
        ConfigError,
    >)
        ensures
            (1 <= cols <= MAX_COLS) <==> r.is_ok(),
            r.is_err() ==> r == Err::<FormatConfig, ConfigError>(ConfigError::ColsOutOfRange),
            r.is_ok() ==> r.unwrap().wf() && r.unwrap() == (FormatConfig {
                cols,
                split,
                upper_case,
                len,
            }),
    {
        if cols < 1 || cols > MAX_COLS {
            Err(ConfigError::ColsOutOfRange)
        } else {
            Ok(FormatConfig { cols, split, upper_case, len })
        }
    }
}

} // verus!
