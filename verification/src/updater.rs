//! What an update check reports.

use vstd::prelude::*;

verus! {

/// The result of checking for a newer version of the application.
#[derive(Debug)]
pub struct UpdateInfo {
    pub available: bool,
    pub current_version: String,
    pub latest_version: Option<String>,
    pub body: Option<String>,
    pub date: Option<String>,
}

/// A newer version offered by the update server.
#[derive(Debug)]
pub struct AvailableUpdate {
    pub version: String,
    /// Release notes.
    pub body: Option<String>,
    /// Publication date, as text.
    pub date: Option<String>,
}

/// The report of an update check that found `update` (or nothing) while running
/// `current_version`: available exactly when an update was found, with its version,
/// notes and date; with neither when none was.
pub fn update_info(current_version: String, update: Option<AvailableUpdate>) -> (info: UpdateInfo)
    ensures
        info.available == update is Some,
        info.current_version == current_version,
        match update {
            Some(u) => info.latest_version == Some(u.version) && info.body == u.body && info.date
                == u.date,
            None => info.latest_version is None && info.body is None && info.date is None,
        },
{
    match update {
        Some(u) => UpdateInfo {
            available: true,
            current_version,
            latest_version: Some(u.version),
            body: u.body,
            date: u.date,
        },
        None => UpdateInfo {
            available: false,
            current_version,
            latest_version: None,
            body: None,
            date: None,
        },
    }
}

} // verus!
