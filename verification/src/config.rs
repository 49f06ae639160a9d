//! The run's configuration as plain values: global options, the chosen
//! subcommand, and the catalog sites the crawler knows. Flag parsing
//! itself lives outside; these are the values it produces.

use vstd::prelude::*;

verus! {

/// The sites the crawler can harvest.
#[derive(PartialEq, Eq, Structural, Clone, Copy, Debug)]
pub enum AvailableWebsite {
    KKGal,
}

/// The site a stored site tag names, if any.
pub open spec fn parse_website_spec(s: Seq<char>) -> Option<AvailableWebsite> {
    if s == "kkgal"@ {
        Some(AvailableWebsite::KKGal)
    } else {
        None
    }
}

/// Reads a site tag.
pub fn parse_website(s: &str) -> (r: Option<AvailableWebsite>)
    ensures
        r == parse_website_spec(s@),
{
    if crate::text::str_eq(s, "kkgal") {
        Some(AvailableWebsite::KKGal)
    } else {
        None
    }
}

/// One run's global options.
pub struct ApplicationMainEntry {
    pub json_database_location: String,
    pub binary_database_location: String,
    pub proxy: Option<String>,
    pub thread_limit: Option<usize>,
    pub user_agent: String,
    pub timeout: u64,
    pub retry: Option<usize>,
    pub subcommand: ApplicationSubCommand,
}

/// The work one run performs.
#[allow(inconsistent_fields)]
pub enum ApplicationSubCommand {
    FetchMetadata { site: AvailableWebsite, start_page: u32, end_page: u32, overwrite: bool },
    DownloadUserAvatars { site: Option<AvailableWebsite>, overwrite: bool },
    DownloadImages { game_id: Vec<u64>, overwrite: bool },
    DownloadGame {
        game_id: Vec<u64>,
        no_overwrite: bool,
        download_path: String,
        save_unparsable_games_list: Option<String>,
    },
    Export { markdown_location: Option<String>, html_location: Option<String>, prefer_online: bool },
}

/// The number of attempts a retry budget allows: the configured count
/// plus the first try.
pub fn attempts_for(retry: Option<usize>) -> (r: usize)
    requires
        match retry {
            Some(n) => n < usize::MAX,
            None => true,
        },
    ensures
        r == match retry {
            Some(n) => n + 1,
            None => 1int,
        },
{
    match retry {
        Some(n) => n + 1,
        None => 1,
    }
}

} // verus!
