use educartable_sync::updater::{update_info, AvailableUpdate, UpdateInfo};

#[test]
fn test_update_info_debug_format() {
    let info = UpdateInfo {
        available: true,
        current_version: "3.0.0".to_string(),
        latest_version: Some("3.1.0".to_string()),
        body: Some("New features".to_string()),
        date: Some("2024-12-01".to_string()),
    };

    let debug_output = format!("{:?}", info);
    assert!(debug_output.contains("UpdateInfo"));
    assert!(debug_output.contains("3.0.0"));
    assert!(debug_output.contains("3.1.0"));
}

#[test]
fn test_update_info_version_comparison_logic() {
    let no_update = update_info("1.0.0".to_string(), None);

    let update_available = update_info(
        "1.0.0".to_string(),
        Some(AvailableUpdate {
            version: "1.1.0".to_string(),
            body: Some("Update available".to_string()),
            date: Some("2024-12-29".to_string()),
        }),
    );

    assert!(!no_update.available);
    assert!(no_update.latest_version.is_none());

    assert!(update_available.available);
    assert!(update_available.latest_version.is_some());
    assert_ne!(&update_available.current_version, update_available.latest_version.as_ref().unwrap());
    assert_eq!(update_available.body.as_deref(), Some("Update available"));
    assert_eq!(update_available.date.as_deref(), Some("2024-12-29"));
}

#[test]
fn test_update_info_without_update_has_no_details() {
    let info = update_info("2.0.0".to_string(), None);
    assert_eq!(info.current_version, "2.0.0");
    assert!(info.body.is_none());
    assert!(info.date.is_none());
}
