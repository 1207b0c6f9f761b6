use vstd::prelude::*;

verus! {

/// Settings read at start-up.
pub struct Config {
    /// The token of the messaging bot.
    pub bot_token: String,
    /// The directory that holds the users' records.
    pub storage_path: String,
    /// The link template; `{season}` stands for the season number.
    pub watch_url_template: String,
    /// The catalog, as canonical codes in order.
    pub episodes: Vec<String>,
}

} // verus!
