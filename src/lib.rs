//! Text utilities behind a source generator: guarded region patching,
//! drift detection against files on disk, preambles and small string helpers.
pub mod block;
pub mod format;
pub mod sync;
pub mod text;


pub use block::{replace_block, BlockError};
pub use format::{ensure_trailing_newline, rustfmt_reports_nightly, TOOLCHAIN};
pub use sync::{
    ci_hint, decimal_string, ensure_file_contents, ensure_files_contents, summary_message,
    SyncOutcome, SyncReport,
};
pub use text::{
    add_hidden_preamble, add_preamble, chars_of, find_divergence, min_prefix, normalize_newlines,
    to_uppercase,
};
