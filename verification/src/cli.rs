//! The options a single-file download is invoked with.  Parsing the
//! command line into them is the surrounding application's work.

use vstd::prelude::*;

verus! {

/// Options of one download invocation.
pub struct CliOptions {
    /// The URL of the file to download.
    pub url: String,
    /// Save the file under this name instead of the URL's last segment.
    pub output_file: Option<String>,
    /// Save the file in this directory instead of the default one.
    pub output_dir: Option<String>,
    /// Throughput cap of the form `<integer><k|M>`, bytes per second.
    pub rate_limit: Option<String>,
    /// Run detached, reporting to the log sink instead of the terminal.
    pub background: bool,
}

} // verus!
