//! Data exchanged with the Educartable service and kept by the application.

use std::path::PathBuf;
use vstd::prelude::*;

verus! {

/// The path type of the standard library, carried through the library unchanged.
#[verifier::external_type_specification]
#[verifier::external_body]
pub struct ExPathBuf(PathBuf);

/// OAuth tokens of a logged-in user.
#[derive(Debug, Clone)]
pub struct AuthTokens {
    pub access_token: String,
    pub refresh_token: String,
    pub id_token: String,
    /// Unix time, in seconds, at which the access token expires.
    pub expires_at: i64,
    pub session_state: String,
}

/// The current user, as the `users/me` endpoint describes them.
#[derive(Debug, Clone)]
pub struct UserInfo {
    pub id: i64,
    /// Sent by the service under the name `mail`.
    pub email: String,
    pub name: Option<String>,
    pub firstname: Option<String>,
    pub lastname: Option<String>,
}

/// The envelope around [`UserInfo`] in the service's answer.
#[derive(Debug)]
pub struct UserInfoResponse {
    pub data: UserInfo,
}

/// One page of activities.
#[derive(Debug)]
pub struct ActivitiesResponse {
    pub success: bool,
    pub data: Vec<Activity>,
    pub pagination: Pagination,
}

/// An article published to the parents, with its attached media.
#[derive(Debug, Clone)]
pub struct Activity {
    pub id: String,
    pub title: String,
    pub body: String,
    /// ISO date and time, such as `2024-03-15T10:30:00Z`.
    pub date: String,
    pub medias: Vec<Media>,
    pub pupils: Vec<i64>,
}

/// A photo, video or document attached to an activity.
#[derive(Debug, Clone)]
pub struct Media {
    pub id: String,
    pub name: String,
    /// File extension including its dot, such as `.jpg`.
    pub extension: String,
    /// Size in bytes as announced by the service.
    pub size: u64,
    /// MIME type; sent by the service under the name `type`.
    pub media_type: String,
}

/// Paging information of a list answer.
#[derive(Debug)]
pub struct Pagination {
    pub page_count: u32,
    pub current_page: u32,
    pub has_next_page: bool,
    pub has_prev_page: bool,
    pub count: u32,
    pub limit: u32,
}

/// Counters of one synchronisation run.
#[derive(Debug)]
pub struct SyncStats {
    pub total_activities: u32,
    pub total_media: u32,
    pub downloaded: u32,
    pub skipped: u32,
    pub failed: u32,
}

impl Default for SyncStats {
    fn default() -> (s: SyncStats)
        ensures
            s.total_activities == 0,
            s.total_media == 0,
            s.downloaded == 0,
            s.skipped == 0,
            s.failed == 0,
    {
        SyncStats { total_activities: 0, total_media: 0, downloaded: 0, skipped: 0, failed: 0 }
    }
}

/// Settings chosen by the user.
#[derive(Debug)]
pub struct AppConfig {
    /// Folder into which activities are synchronised; empty when not chosen yet.
    pub sync_path: PathBuf,
}

} // verus!
