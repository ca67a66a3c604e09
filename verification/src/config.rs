//! Where the statistics live on disk, relative to the data directory.

use vstd::prelude::*;
use vstd::string::*;

verus! {

/// The two file paths the tracker writes: the statistics file and the
/// temporary file beside it.
#[derive(Debug)]
pub struct AppConfig {
    pub stats_path: String,
    pub temp_path: String,
}

impl AppConfig {
    /// The paths under the `.t_trace` data directory of the given home
    /// directory. The caller resolves the home directory and creates the
    /// data directory; what fails there is its error to report.
    pub fn new(home_dir: &str) -> (c: AppConfig)
        ensures
            c.stats_path@ == home_dir@ + "/.t_trace/stats.json"@,
            c.temp_path@ == home_dir@ + "/.t_trace/.temp_entry"@,
    {
        let mut stats_path = home_dir.to_owned();
        stats_path.append("/.t_trace/stats.json");
        let mut temp_path = home_dir.to_owned();
        temp_path.append("/.t_trace/.temp_entry");
        AppConfig { stats_path, temp_path }
    }
}

} // verus!
