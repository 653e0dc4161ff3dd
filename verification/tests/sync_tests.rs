use educartable_sync::models::{Activity, AppConfig, Media, SyncStats};
use educartable_sync::sync::{
    activity_date, after_download, after_existence_check, after_signed_url, check_sync_path,
    format_article_markdown, get_activity_folder, get_media_path, is_retryable_error,
    media_filename, replace_unsafe_char, retry_decision, sanitize_filename, MediaOutcome,
    MediaStep, RetryDecision, DOWNLOAD_ATTEMPTS,
};
use std::path::PathBuf;

fn create_test_activity(id: &str, date: &str, title: &str) -> Activity {
    Activity {
        id: id.to_string(),
        date: date.to_string(),
        title: title.to_string(),
        body: "Content".to_string(),
        medias: vec![],
        pupils: vec![],
    }
}

fn create_test_media(id: &str, name: &str, extension: &str) -> Media {
    Media {
        id: id.to_string(),
        name: name.to_string(),
        extension: extension.to_string(),
        size: 1024,
        media_type: "image".to_string(),
    }
}

#[test]
fn test_sanitize_filename_normal() {
    let result = sanitize_filename("Hello World 2024");
    assert_eq!(result, "Hello World 2024");
}

#[test]
fn test_sanitize_filename_with_hyphens_underscores() {
    let result = sanitize_filename("test-file_name-123");
    assert_eq!(result, "test-file_name-123");
}

#[test]
fn test_sanitize_filename_invalid_characters() {
    let result = sanitize_filename("file/with\\invalid:chars*?\"<>|");
    assert_eq!(result, "file_with_invalid_chars______");
}

#[test]
fn test_sanitize_filename_forward_slash() {
    let result = sanitize_filename("path/to/file");
    assert_eq!(result, "path_to_file");
}

#[test]
fn test_sanitize_filename_backslash() {
    let result = sanitize_filename("path\\to\\file");
    assert_eq!(result, "path_to_file");
}

#[test]
fn test_sanitize_filename_colon() {
    let result = sanitize_filename("file:name:test");
    assert_eq!(result, "file_name_test");
}

#[test]
fn test_sanitize_filename_asterisk() {
    let result = sanitize_filename("file*name");
    assert_eq!(result, "file_name");
}

#[test]
fn test_sanitize_filename_question_mark() {
    let result = sanitize_filename("file?name");
    assert_eq!(result, "file_name");
}

#[test]
fn test_sanitize_filename_quotes() {
    let result = sanitize_filename("file\"name");
    assert_eq!(result, "file_name");
}

#[test]
fn test_sanitize_filename_angle_brackets() {
    let result = sanitize_filename("file<name>test");
    assert_eq!(result, "file_name_test");
}

#[test]
fn test_sanitize_filename_pipe() {
    let result = sanitize_filename("file|name");
    assert_eq!(result, "file_name");
}

#[test]
fn test_sanitize_filename_unicode_alphanumeric() {
    let result = sanitize_filename("Fichier École 2024");
    assert_eq!(result, "Fichier École 2024");
}

#[test]
fn test_sanitize_filename_japanese() {
    let result = sanitize_filename("ファイル名");
    assert_eq!(result, "ファイル名");
}

#[test]
fn test_sanitize_filename_emojis() {
    let result = sanitize_filename("file🦀name🎉");
    assert_eq!(result, "file_name_");
}

#[test]
fn test_sanitize_filename_mixed_unicode() {
    let result = sanitize_filename("café_résumé_2024");
    assert_eq!(result, "café_résumé_2024");
}

#[test]
fn test_sanitize_filename_very_long() {
    let long_name = "a".repeat(100);
    let result = sanitize_filename(&long_name);
    assert_eq!(result.len(), 50);
    assert_eq!(result, "a".repeat(50));
}

#[test]
fn test_sanitize_filename_exactly_50_chars() {
    let name = "a".repeat(50);
    let result = sanitize_filename(&name);
    assert_eq!(result.len(), 50);
    assert_eq!(result, name);
}

#[test]
fn test_sanitize_filename_empty() {
    let result = sanitize_filename("");
    assert_eq!(result, "");
}

#[test]
fn test_sanitize_filename_whitespace_only() {
    let result = sanitize_filename("   ");
    assert_eq!(result, "   ");
}

#[test]
fn test_sanitize_filename_special_chars_only() {
    let result = sanitize_filename("/*?:|<>");
    assert_eq!(result, "_______");
}

#[test]
fn test_sanitize_filename_path_traversal_attempt() {
    let result = sanitize_filename("../../../etc/passwd");
    assert_eq!(result, "_________etc_passwd");
}

#[test]
fn test_sanitize_filename_dots() {
    let result = sanitize_filename("..hidden.file.txt");
    assert_eq!(result, "__hidden_file_txt");
}

#[test]
fn test_sanitize_filename_spaces_preserved() {
    let result = sanitize_filename("file with multiple  spaces");
    assert_eq!(result, "file with multiple  spaces");
}

#[test]
fn test_sanitize_filename_leading_trailing_spaces() {
    let result = sanitize_filename("  file  ");
    assert_eq!(result, "  file  ");
}

#[test]
fn test_sanitize_filename_idempotent() {
    let once = sanitize_filename("École/../é?€ 2024 ⚙x");
    assert_eq!(sanitize_filename(&once), once);
}

#[test]
fn test_sanitize_filename_long_multibyte_counts_chars() {
    let result = sanitize_filename(&"é".repeat(60));
    assert_eq!(result.chars().count(), 50);
    assert_eq!(result.len(), 100);
}

#[test]
fn test_replace_unsafe_char() {
    assert_eq!(replace_unsafe_char('x', true), 'x');
    assert_eq!(replace_unsafe_char('/', false), '_');
    assert_eq!(replace_unsafe_char(' ', false), ' ');
    assert_eq!(replace_unsafe_char('-', false), '-');
}

#[test]
fn test_get_activity_folder_basic() {
    let sync_path = PathBuf::from("/sync");
    let activity = create_test_activity("123", "2024-03-15T10:30:00Z", "Test Activity");

    let result = get_activity_folder(&sync_path, &activity);
    assert_eq!(result, PathBuf::from("/sync/2024-03-15_Test Activity"));
}

#[test]
fn test_get_activity_folder_with_invalid_chars() {
    let sync_path = PathBuf::from("/sync");
    let activity =
        create_test_activity("456", "2024-12-25T00:00:00Z", "Test/Activity\\With:Invalid*Chars?");

    let result = get_activity_folder(&sync_path, &activity);
    assert_eq!(result, PathBuf::from("/sync/2024-12-25_Test_Activity_With_Invalid_Chars_"));
}

#[test]
fn test_get_activity_folder_long_title() {
    let sync_path = PathBuf::from("/sync");
    let long_title = "a".repeat(100);
    let activity = create_test_activity("789", "2024-01-01T12:00:00Z", &long_title);

    let result = get_activity_folder(&sync_path, &activity);
    let folder_name = result.file_name().unwrap().to_str().unwrap();

    assert!(folder_name.starts_with("2024-01-01_"));
    assert_eq!(folder_name.len(), 61);
}

#[test]
fn test_get_activity_folder_malformed_date() {
    let sync_path = PathBuf::from("/sync");
    let activity = create_test_activity("999", "invalid-date", "Test");

    let result = get_activity_folder(&sync_path, &activity);
    assert_eq!(result, PathBuf::from("/sync/invalid-date_Test"));
}

#[test]
fn test_get_activity_folder_empty_date() {
    let sync_path = PathBuf::from("/sync");
    let activity = create_test_activity("111", "", "Test");

    let result = get_activity_folder(&sync_path, &activity);
    assert_eq!(result, PathBuf::from("/sync/_Test"));
}

#[test]
fn test_get_activity_folder_unicode_title() {
    let sync_path = PathBuf::from("/sync");
    let activity = create_test_activity("222", "2024-06-15T08:00:00Z", "École Café");

    let result = get_activity_folder(&sync_path, &activity);
    assert_eq!(result, PathBuf::from("/sync/2024-06-15_École Café"));
}

#[test]
fn test_get_media_path_basic() {
    let sync_path = PathBuf::from("/sync");
    let activity = create_test_activity("1", "2024-03-15T10:30:00Z", "Activity");
    let media = create_test_media("100", "photo", ".jpg");

    let result = get_media_path(&sync_path, &activity, &media);
    assert_eq!(result, PathBuf::from("/sync/2024-03-15_Activity/photo.jpg"));
}

#[test]
fn test_get_media_path_with_extension() {
    let sync_path = PathBuf::from("/sync");
    let activity = create_test_activity("2", "2024-05-20T14:00:00Z", "Test");
    let media = create_test_media("200", "document", ".pdf");

    let result = get_media_path(&sync_path, &activity, &media);
    assert_eq!(result, PathBuf::from("/sync/2024-05-20_Test/document.pdf"));
}

#[test]
fn test_get_media_path_no_extension() {
    let sync_path = PathBuf::from("/sync");
    let activity = create_test_activity("3", "2024-07-10T09:00:00Z", "Activity");
    let media = create_test_media("300", "file", "");

    let result = get_media_path(&sync_path, &activity, &media);
    assert_eq!(result, PathBuf::from("/sync/2024-07-10_Activity/file"));
}

#[test]
fn test_get_media_path_complex_activity_title() {
    let sync_path = PathBuf::from("/sync");
    let activity =
        create_test_activity("4", "2024-11-30T16:30:00Z", "Activity/With\\Invalid:Chars*?");
    let media = create_test_media("400", "image123", ".png");

    let result = get_media_path(&sync_path, &activity, &media);
    assert_eq!(
        result,
        PathBuf::from("/sync/2024-11-30_Activity_With_Invalid_Chars__/image123.png")
    );
}

#[test]
fn test_get_media_path_preserves_media_name() {
    let sync_path = PathBuf::from("/sync");
    let activity = create_test_activity("5", "2024-08-05T11:00:00Z", "Test");
    let media = create_test_media("500", "image-with-dashes_and_underscores", ".jpg");

    let result = get_media_path(&sync_path, &activity, &media);
    assert_eq!(
        result,
        PathBuf::from("/sync/2024-08-05_Test/image-with-dashes_and_underscores.jpg")
    );
}

#[test]
fn test_activity_date_part() {
    assert_eq!(activity_date("2024-03-15T10:30:00Z"), "2024-03-15");
    assert_eq!(activity_date("no-time"), "no-time");
    assert_eq!(activity_date("T"), "");
    assert_eq!(activity_date("aTbTc"), "a");
}

#[test]
fn test_media_filename() {
    assert_eq!(media_filename(&create_test_media("1", "photo", ".jpg")), "photo.jpg");
}

#[test]
fn test_format_article_markdown() {
    let mut activity = create_test_activity("1", "2024-06-15T08:00:00Z", "Sortie");
    activity.body = "<p>Hello</p>".to_string();
    assert_eq!(
        format_article_markdown(&activity),
        "# Sortie\n\nPublished: 2024-06-15\n\n<p>Hello</p>"
    );
}

// ---- Retryable errors ----

fn retryable(message: &str) -> bool {
    let error: Box<dyn std::error::Error + Send + Sync> = message.into();
    is_retryable_error(&error.to_string())
}

#[test]
fn test_is_retryable_error_connection() {
    assert!(retryable("connection refused"), "Connection errors should be retryable");
}

#[test]
fn test_is_retryable_error_timeout() {
    assert!(retryable("request timeout"), "Timeout errors should be retryable");
}

#[test]
fn test_is_retryable_error_network() {
    assert!(retryable("network error occurred"), "Network errors should be retryable");
}

#[test]
fn test_is_retryable_error_timed_out() {
    assert!(retryable("operation timed out"), "Timed out errors should be retryable");
}

#[test]
fn test_is_retryable_error_case_insensitive() {
    assert!(retryable("CONNECTION TIMEOUT"), "Error checking should be case insensitive");
}

#[test]
fn test_is_retryable_error_file_not_found() {
    assert!(!retryable("file not found"), "File errors should not be retryable");
}

#[test]
fn test_is_retryable_error_permission_denied() {
    assert!(!retryable("permission denied"), "Permission errors should not be retryable");
}

#[test]
fn test_is_retryable_error_invalid_url() {
    assert!(!retryable("invalid URL"), "Invalid URL should not be retryable");
}

#[test]
fn test_is_retryable_error_http_404() {
    assert!(!retryable("HTTP 404 Not Found"), "404 errors should not be retryable");
}

// ---- Retry decisions ----

#[test]
fn test_exponential_backoff_calculation() {
    let wait = |attempt: u32| match retry_decision(attempt, 10, "timeout") {
        RetryDecision::Retry { wait_secs } => wait_secs,
        other => panic!("expected a retry, got {:?}", other),
    };
    assert_eq!(wait(1), 2, "First retry should wait 2 seconds");
    assert_eq!(wait(2), 4, "Second retry should wait 4 seconds");
    assert_eq!(wait(3), 8, "Third retry should wait 8 seconds");
    assert_eq!(wait(4), 16, "Fourth retry should wait 16 seconds");
}

#[test]
fn test_max_retries_logic() {
    let max_retries = 3;

    for attempt in 1..max_retries {
        assert!(attempt <= max_retries, "Attempt {} should be within max retries", attempt);
        assert!(matches!(
            retry_decision(attempt, max_retries, "connection reset"),
            RetryDecision::Retry { .. }
        ));
    }

    match retry_decision(max_retries, max_retries, "connection reset") {
        RetryDecision::GiveUp { message } => {
            assert_eq!(message, "Failed after 3 attempts: connection reset")
        }
        other => panic!("expected to give up, got {:?}", other),
    }

    let attempt = max_retries + 1;
    assert!(attempt > max_retries, "Attempt {} should exceed max retries", attempt);
}

#[test]
fn test_retry_attempt_progression() {
    let mut attempt = 0;
    let max_retries = 3;

    loop {
        attempt += 1;
        assert!(attempt <= max_retries);
        match retry_decision(attempt, max_retries, "timed out") {
            RetryDecision::Retry { .. } => {}
            RetryDecision::GiveUp { .. } => break,
        }
    }

    assert_eq!(attempt, max_retries, "Should reach exactly max_retries attempts");
}

#[test]
fn test_non_retryable_error_is_passed_on() {
    match retry_decision(1, 3, "permission denied") {
        RetryDecision::GiveUp { message } => assert_eq!(message, "permission denied"),
        other => panic!("expected to give up, got {:?}", other),
    }
}

// ---- Counting a run ----

#[test]
fn test_sync_stats_default() {
    let stats = SyncStats::default();
    assert_eq!(stats.total_activities, 0);
    assert_eq!(stats.total_media, 0);
    assert_eq!(stats.downloaded, 0);
    assert_eq!(stats.skipped, 0);
    assert_eq!(stats.failed, 0);
}

#[test]
fn test_sync_stats_for_activities_and_record() {
    let mut a = create_test_activity("1", "2024-01-01T00:00:00Z", "A");
    a.medias = vec![create_test_media("m1", "p1", ".jpg"), create_test_media("m2", "p2", ".jpg")];
    let mut b = create_test_activity("2", "2024-01-02T00:00:00Z", "B");
    b.medias = vec![create_test_media("m3", "p3", ".png")];
    let c = create_test_activity("3", "2024-01-03T00:00:00Z", "C");
    let mut stats = SyncStats::for_activities(&vec![a, b, c]);
    assert_eq!(stats.total_activities, 3);
    assert_eq!(stats.total_media, 3);
    stats.record(MediaOutcome::Downloaded);
    stats.record(MediaOutcome::Skipped);
    stats.record(MediaOutcome::Failed);
    assert_eq!((stats.downloaded, stats.skipped, stats.failed), (1, 1, 1));
}

#[test]
fn test_media_steps() {
    assert!(matches!(after_existence_check::<()>(Ok(true)), MediaStep::RequestSignedUrl));
    assert!(matches!(
        after_existence_check::<()>(Ok(false)),
        MediaStep::Finished(MediaOutcome::Skipped)
    ));
    assert!(matches!(
        after_existence_check(Err("io")),
        MediaStep::Finished(MediaOutcome::Failed)
    ));
    match after_signed_url::<()>(Ok("https://cdn/x".to_string())) {
        MediaStep::Download { url, attempts } => {
            assert_eq!(url, "https://cdn/x");
            assert_eq!(attempts, DOWNLOAD_ATTEMPTS);
            assert_eq!(attempts, 3);
        }
        other => panic!("unexpected {:?}", other),
    }
    assert!(matches!(after_signed_url(Err(())), MediaStep::Finished(MediaOutcome::Failed)));
    assert_eq!(after_download::<()>(Ok(())), MediaOutcome::Downloaded);
    assert_eq!(after_download(Err("boom")), MediaOutcome::Failed);
}

#[test]
fn test_check_sync_path() {
    let empty = AppConfig { sync_path: PathBuf::new() };
    assert_eq!(
        check_sync_path(&empty).unwrap_err(),
        "Sync directory not configured. Please select a folder first."
    );
    let set = AppConfig { sync_path: PathBuf::from("/photos") };
    assert!(check_sync_path(&set).is_ok());
}
