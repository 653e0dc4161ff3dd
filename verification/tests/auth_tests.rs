use educartable_sync::auth::{
    chunks_to_delete, clear_outcome, delete_entries, delete_tokens, first_error, load_entries,
    tokens_from_loads, load_tokens, store_tokens, write_entries,
    CredentialStore, KeyringCredentialStore, KeyringStep, MockCredentialStore,
};
use educartable_sync::chunks::{
    classify_entry, format_chunk_marker, plan_store, split_into_chunks,
    StoredEntry, WritePart, SAFE_CHUNK_SIZE_BYTES,
};
use educartable_sync::models::AuthTokens;
use educartable_sync::session::{
    check_authentication, is_login_callback, plan_access_token, received_tokens, refresh_form,
    tokens_from_refresh, AccessTokenPlan, AuthenticationCheck, TokenRefreshResponse,
};
use std::collections::HashMap;
use std::time::{SystemTime, UNIX_EPOCH};

fn create_test_tokens(token_size: usize) -> AuthTokens {
    AuthTokens {
        access_token: "a".repeat(token_size),
        refresh_token: "r".repeat(token_size),
        id_token: "i".repeat(token_size),
        expires_at: 9999999999,
        session_state: "session123".to_string(),
    }
}

fn now_secs() -> i64 {
    SystemTime::now().duration_since(UNIX_EPOCH).unwrap().as_secs() as i64
}

#[test]
fn test_store_tokens_with_mock_credential_store() {
    let mut mock_store = MockCredentialStore::new();
    let tokens = AuthTokens {
        access_token: "test_access".to_string(),
        refresh_token: "test_refresh".to_string(),
        id_token: "test_id".to_string(),
        expires_at: 1234567890,
        session_state: "test_session".to_string(),
    };

    let result = store_tokens(&mut mock_store, &tokens);
    assert!(result.is_ok(), "Should store tokens successfully");

    let loaded_result = load_tokens(&mock_store);
    assert!(loaded_result.is_ok(), "Should load tokens successfully");

    let loaded_tokens = loaded_result.unwrap();
    assert_eq!(loaded_tokens.access_token, tokens.access_token);
    assert_eq!(loaded_tokens.refresh_token, tokens.refresh_token);
    assert_eq!(loaded_tokens.id_token, tokens.id_token);
    assert_eq!(loaded_tokens.expires_at, tokens.expires_at);
    assert_eq!(loaded_tokens.session_state, tokens.session_state);

    let delete_result = delete_tokens(&mut mock_store);
    assert!(delete_result.is_ok(), "Should delete tokens successfully");

    let load_after_delete = load_tokens(&mock_store);
    assert!(load_after_delete.is_err(), "Should not load deleted tokens");
}

#[test]
fn test_store_and_load_small_tokens() {
    let mut store = MockCredentialStore::new();
    let tokens = create_test_tokens(500);

    let store_result = store_tokens(&mut store, &tokens);
    assert!(store_result.is_ok(), "Failed to store small tokens: {:?}", store_result.err());

    let loaded = load_tokens(&store);
    assert!(loaded.is_ok(), "Failed to load small tokens: {:?}", loaded.err());

    let loaded_tokens = loaded.unwrap();
    assert_eq!(loaded_tokens.access_token, tokens.access_token);
    assert_eq!(loaded_tokens.refresh_token, tokens.refresh_token);
    assert_eq!(loaded_tokens.id_token, tokens.id_token);
    assert_eq!(loaded_tokens.expires_at, tokens.expires_at);
    assert_eq!(loaded_tokens.session_state, tokens.session_state);
}

#[test]
fn test_store_and_load_tokens_at_boundary() {
    let mut store = MockCredentialStore::new();
    let tokens = create_test_tokens(1000);

    let store_result = store_tokens(&mut store, &tokens);
    assert!(store_result.is_ok(), "Failed to store boundary tokens: {:?}", store_result.err());

    let loaded = load_tokens(&store);
    assert!(loaded.is_ok(), "Failed to load boundary tokens: {:?}", loaded.err());

    let loaded_tokens = loaded.unwrap();
    assert_eq!(loaded_tokens.access_token, tokens.access_token);
    assert_eq!(loaded_tokens.refresh_token, tokens.refresh_token);
    assert_eq!(loaded_tokens.id_token, tokens.id_token);
}

#[test]
fn test_store_and_load_large_tokens_requiring_chunking() {
    let mut store = MockCredentialStore::new();
    let tokens = create_test_tokens(2500);

    let store_result = store_tokens(&mut store, &tokens);
    assert!(store_result.is_ok(), "Failed to store large tokens: {:?}", store_result.err());

    let loaded = load_tokens(&store);
    assert!(loaded.is_ok(), "Failed to load large tokens: {:?}", loaded.err());

    let loaded_tokens = loaded.unwrap();
    assert_eq!(loaded_tokens.access_token.len(), 2500);
    assert_eq!(loaded_tokens.refresh_token.len(), 2500);
    assert_eq!(loaded_tokens.id_token.len(), 2500);
    assert_eq!(loaded_tokens.access_token, tokens.access_token);
    assert_eq!(loaded_tokens.refresh_token, tokens.refresh_token);
    assert_eq!(loaded_tokens.id_token, tokens.id_token);
}

#[test]
fn test_store_and_load_very_large_tokens() {
    let mut store = MockCredentialStore::new();
    let tokens = create_test_tokens(5000);

    let store_result = store_tokens(&mut store, &tokens);
    assert!(store_result.is_ok(), "Failed to store very large tokens: {:?}", store_result.err());

    let loaded = load_tokens(&store);
    assert!(loaded.is_ok(), "Failed to load very large tokens: {:?}", loaded.err());

    let loaded_tokens = loaded.unwrap();
    assert_eq!(loaded_tokens.access_token.len(), 5000);
    assert_eq!(loaded_tokens.access_token, tokens.access_token);
}

#[test]
fn test_utf8_boundary_handling() {
    let mut store = MockCredentialStore::new();
    let emoji_string = "🦀".repeat(250);
    let mixed_string = format!("{}{}", "a".repeat(999), "🦀");

    let tokens = AuthTokens {
        access_token: emoji_string.clone(),
        refresh_token: mixed_string.clone(),
        id_token: "test".to_string(),
        expires_at: 9999999999,
        session_state: "session".to_string(),
    };

    let store_result = store_tokens(&mut store, &tokens);
    assert!(store_result.is_ok(), "Failed to store UTF-8 tokens: {:?}", store_result.err());

    let loaded = load_tokens(&store);
    assert!(loaded.is_ok(), "Failed to load UTF-8 tokens: {:?}", loaded.err());

    let loaded_tokens = loaded.unwrap();
    assert_eq!(loaded_tokens.access_token, emoji_string);
    assert_eq!(loaded_tokens.refresh_token, mixed_string);
}

#[test]
fn test_utf8_chunking_with_japanese_characters() {
    let mut store = MockCredentialStore::new();
    let japanese = "あ".repeat(400);

    let tokens = AuthTokens {
        access_token: japanese.clone(),
        refresh_token: "test".to_string(),
        id_token: "test".to_string(),
        expires_at: 9999999999,
        session_state: "session".to_string(),
    };

    let store_result = store_tokens(&mut store, &tokens);
    assert!(store_result.is_ok(), "Failed to store Japanese tokens: {:?}", store_result.err());

    let loaded = load_tokens(&store);
    assert!(loaded.is_ok(), "Failed to load Japanese tokens: {:?}", loaded.err());

    let loaded_tokens = loaded.unwrap();
    assert_eq!(loaded_tokens.access_token, japanese);
    assert_eq!(loaded_tokens.access_token.chars().count(), 400);
}

#[test]
fn test_delete_tokens() {
    let mut store = MockCredentialStore::new();
    let tokens = create_test_tokens(500);
    let store_result = store_tokens(&mut store, &tokens);
    assert!(store_result.is_ok());

    let loaded = load_tokens(&store);
    assert!(loaded.is_ok());

    let delete_result = delete_tokens(&mut store);
    assert!(delete_result.is_ok(), "Failed to delete tokens: {:?}", delete_result.err());

    let loaded_after_delete = load_tokens(&store);
    assert!(loaded_after_delete.is_err(), "Tokens should not exist after deletion");
    assert!(!store.contains_key("auth.access_token"));
}

#[test]
fn test_delete_chunked_tokens() {
    let mut store = MockCredentialStore::new();
    let tokens = create_test_tokens(2500);
    let store_result = store_tokens(&mut store, &tokens);
    assert!(store_result.is_ok());

    let delete_result = delete_tokens(&mut store);
    assert!(delete_result.is_ok(), "Failed to delete chunked tokens: {:?}", delete_result.err());

    let loaded_after_delete = load_tokens(&store);
    assert!(loaded_after_delete.is_err(), "Chunked tokens should not exist after deletion");
    assert!(!store.contains_key("auth.access_token"));
}

#[test]
fn test_delete_nonexistent_tokens() {
    let mut store = MockCredentialStore::new();
    let delete_result = delete_tokens(&mut store);
    assert!(
        delete_result.is_ok(),
        "Deleting nonexistent tokens should succeed: {:?}",
        delete_result.err()
    );
}

#[test]
fn test_load_nonexistent_tokens() {
    let store = MockCredentialStore::new();
    let loaded = load_tokens(&store);
    assert!(loaded.is_err(), "Loading nonexistent tokens should fail");
}

#[test]
fn test_expires_at_field_storage() {
    let mut store = MockCredentialStore::new();
    let tokens = AuthTokens {
        access_token: "test_access".to_string(),
        refresh_token: "test_refresh".to_string(),
        id_token: "test_id".to_string(),
        expires_at: 1234567890,
        session_state: "test_session".to_string(),
    };

    let store_result = store_tokens(&mut store, &tokens);
    assert!(store_result.is_ok());

    let loaded = load_tokens(&store);
    assert!(loaded.is_ok());

    let loaded_tokens = loaded.unwrap();
    assert_eq!(loaded_tokens.expires_at, 1234567890);
}

#[test]
fn test_overwrite_existing_tokens() {
    let mut store = MockCredentialStore::new();
    let tokens1 = create_test_tokens(500);
    let store_result1 = store_tokens(&mut store, &tokens1);
    assert!(store_result1.is_ok());

    let tokens2 = create_test_tokens(1500);
    let store_result2 = store_tokens(&mut store, &tokens2);
    assert!(store_result2.is_ok());

    let loaded = load_tokens(&store);
    assert!(loaded.is_ok());

    let loaded_tokens = loaded.unwrap();
    assert_eq!(loaded_tokens.access_token.len(), 1500);
    assert_eq!(loaded_tokens.access_token, tokens2.access_token);
}

// ---- Expiry decisions ----

#[test]
fn test_token_expiration_logic() {
    let now = now_secs();

    let future_expiry = now + 7200;
    assert!(future_expiry > now + 60, "Future token should be valid");
    let mut t = create_test_tokens(4);
    t.expires_at = future_expiry;
    assert!(matches!(plan_access_token::<()>(Ok(t), now), Ok(AccessTokenPlan::Use(_))));

    let soon_expiry = now + 30;
    assert!(soon_expiry <= now + 60, "Soon-expiring token should trigger refresh");
    let mut t = create_test_tokens(4);
    t.expires_at = soon_expiry;
    assert!(matches!(plan_access_token::<()>(Ok(t), now), Ok(AccessTokenPlan::Refresh(_))));

    let past_expiry = now - 100;
    assert!(past_expiry <= now + 60, "Expired token should trigger refresh");
    let mut t = create_test_tokens(4);
    t.expires_at = past_expiry;
    assert!(matches!(plan_access_token::<()>(Ok(t), now), Ok(AccessTokenPlan::Refresh(_))));
}

#[test]
fn test_get_valid_access_token_missing_tokens() {
    let store = MockCredentialStore::new();
    let result = plan_access_token(load_tokens(&store), now_secs());
    assert!(result.is_err(), "Should fail when no tokens exist");
    assert!(result.unwrap_err().contains("Not authenticated"));
}

#[test]
fn test_get_valid_access_token_valid_token() {
    let mut store = MockCredentialStore::new();
    let now = now_secs();
    let tokens = AuthTokens {
        access_token: "valid_access_token".to_string(),
        refresh_token: "valid_refresh_token".to_string(),
        id_token: "valid_id_token".to_string(),
        expires_at: now + 3600,
        session_state: "session".to_string(),
    };
    assert!(store_tokens(&mut store, &tokens).is_ok(), "Failed to store tokens");

    let result = plan_access_token(load_tokens(&store), now);
    match result {
        Ok(AccessTokenPlan::Use(token)) => assert_eq!(token, "valid_access_token"),
        other => panic!("Should succeed with valid token: {:?}", other),
    }
}

#[test]
fn test_get_valid_access_token_with_store_expiring_soon() {
    let mut store = MockCredentialStore::new();
    let now = now_secs();
    let tokens = AuthTokens {
        access_token: "expiring_soon_access".to_string(),
        refresh_token: "valid_refresh".to_string(),
        id_token: "expiring_soon_id".to_string(),
        expires_at: now + 30,
        session_state: "session".to_string(),
    };
    assert!(store_tokens(&mut store, &tokens).is_ok());
    match plan_access_token(load_tokens(&store), now) {
        Ok(AccessTokenPlan::Refresh(rt)) => assert_eq!(rt, "valid_refresh"),
        other => panic!("Should attempt refresh for token expiring soon: {:?}", other),
    }
}

#[test]
fn test_refresh_margin_boundary() {
    let mut t = create_test_tokens(2);
    t.expires_at = 1060;
    assert!(matches!(plan_access_token::<()>(Ok(t), 1000), Ok(AccessTokenPlan::Refresh(_))));
    let mut t = create_test_tokens(2);
    t.expires_at = 1061;
    assert!(matches!(plan_access_token::<()>(Ok(t), 1000), Ok(AccessTokenPlan::Use(_))));
}

#[test]
fn test_is_authenticated_with_store_no_tokens() {
    let store = MockCredentialStore::new();
    let check = check_authentication(load_tokens(&store), now_secs());
    assert!(matches!(check, AuthenticationCheck::NotAuthenticated));
}

#[test]
fn test_is_authenticated_with_store_valid_token() {
    let mut store = MockCredentialStore::new();
    let now = now_secs();
    let mut tokens = create_test_tokens(8);
    tokens.expires_at = now + 3600;
    assert!(store_tokens(&mut store, &tokens).is_ok());
    let check = check_authentication(load_tokens(&store), now);
    assert!(matches!(check, AuthenticationCheck::Authenticated));
}

#[test]
fn test_is_authenticated_expired_needs_refresh() {
    let mut t = create_test_tokens(3);
    t.expires_at = 100;
    match check_authentication(Ok(t), 100) {
        AuthenticationCheck::RefreshNeeded(rt) => assert_eq!(rt, "rrr"),
        other => panic!("unexpected {:?}", other),
    }
}

#[test]
fn test_corrupted_expiry_is_refused() {
    let mut store = MockCredentialStore::new();
    let tokens = create_test_tokens(3);
    assert!(store_tokens(&mut store, &tokens).is_ok());
    assert!(store.store("expires_at", "soon").is_ok());
    let err = load_tokens(&store).unwrap_err();
    assert_eq!(err, "Login credentials are corrupted. Please log in again.");
}

#[test]
fn test_negative_expiry_round_trip() {
    let mut store = MockCredentialStore::new();
    let mut tokens = create_test_tokens(3);
    tokens.expires_at = i64::MIN;
    assert!(store_tokens(&mut store, &tokens).is_ok());
    assert_eq!(store.load("expires_at").unwrap(), i64::MIN.to_string());
    assert_eq!(load_tokens(&store).unwrap().expires_at, i64::MIN);
}

#[test]
fn test_mock_store_load_missing_key_message() {
    let store = MockCredentialStore::new();
    assert_eq!(store.load("x").unwrap_err(), "Key 'x' not found");
}

struct FailingStore;

impl CredentialStore for FailingStore {
    fn store(&mut self, _key: &str, _value: &str) -> Result<(), String> {
        Err("nope".to_string())
    }
    fn load(&self, _key: &str) -> Result<String, String> {
        Err("nope".to_string())
    }
    fn delete(&mut self, key: &str) -> Result<(), String> {
        if key == "id_token" || key == "session_state" {
            Err("locked".to_string())
        } else {
            Ok(())
        }
    }
}

#[test]
fn test_delete_tokens_reports_each_failure() {
    let mut store = FailingStore;
    let err = delete_tokens(&mut store).unwrap_err();
    assert_eq!(
        err,
        "Failed to clear some login credentials: id_token: locked, session_state: locked"
    );
}

#[test]
fn test_store_tokens_stops_at_first_failure() {
    let mut store = FailingStore;
    assert_eq!(store_tokens(&mut store, &create_test_tokens(1)).unwrap_err(), "nope");
}

// ---- Keyring layout ----

fn apply(writes: &[educartable_sync::chunks::KeyringWrite]) -> HashMap<String, String> {
    let mut m = HashMap::new();
    for w in writes {
        m.insert(w.username.clone(), w.secret.clone());
    }
    m
}

fn read_back(m: &HashMap<String, String>, prefix: &str, key: &str) -> Result<String, String> {
    let read = |u: &str| m.get(u).cloned().ok_or(KeyringStep::Access);
    load_entries(prefix, key, &read)
}

#[test]
fn test_short_value_is_one_entry() {
    let writes = plan_store("auth", "access_token", &"a".repeat(1000));
    assert_eq!(writes.len(), 1);
    assert_eq!(writes[0].username, "auth.access_token");
    assert_eq!(writes[0].part, WritePart::Whole);
}

#[test]
fn test_long_value_is_chunked() {
    let value = "a".repeat(2500);
    let writes = plan_store("auth", "access_token", &value);
    assert_eq!(writes.len(), 4);
    assert_eq!(writes[0].secret, "CHUNKS:3");
    assert_eq!(writes[1].username, "auth.access_token_1");
    assert_eq!(writes[3].username, "auth.access_token_3");
    assert_eq!(writes[1].secret.len(), 1000);
    assert_eq!(writes[3].secret.len(), 500);
    assert_eq!(read_back(&apply(&writes), "auth", "access_token"), Ok(value));
}

#[test]
fn test_chunks_respect_char_boundaries() {
    let value = format!("{}{}", "a".repeat(999), "🦀".repeat(300));
    let chunks = split_into_chunks(&value);
    assert_eq!(chunks[0], "a".repeat(999));
    for c in &chunks {
        assert!(c.len() <= SAFE_CHUNK_SIZE_BYTES);
        assert!(!c.is_empty());
    }
    assert_eq!(chunks.concat(), value);
    let japanese = "あ".repeat(400);
    let chunks = split_into_chunks(&japanese);
    assert_eq!(chunks.len(), 2);
    assert_eq!(chunks[0].len(), 999);
    assert_eq!(chunks[1].len(), 201);
}

#[test]
fn test_marker_and_classification() {
    assert_eq!(format_chunk_marker(12), "CHUNKS:12");
    assert_eq!(classify_entry("CHUNKS:12"), StoredEntry::Chunked(12));
    assert_eq!(classify_entry("CHUNKS:+3"), StoredEntry::Chunked(3));
    assert_eq!(classify_entry("CHUNKS:x"), StoredEntry::Corrupt);
    assert_eq!(classify_entry("CHUNKS:"), StoredEntry::Corrupt);
    assert_eq!(classify_entry("1234567890"), StoredEntry::Plain);
}

#[test]
fn test_marker_like_short_value_does_not_round_trip() {
    let writes = plan_store("auth", "k", "CHUNKS:2");
    assert_eq!(writes.len(), 1);
    assert_eq!(
        read_back(&apply(&writes), "auth", "k").unwrap_err(),
        "Missing 'k' chunk 1. Please log in again."
    );
}

#[test]
fn test_keyring_store_new() {
    let store = KeyringCredentialStore::new();
    drop(store);
}

// ---- Refresh and login window ----

#[test]
fn test_refresh_form_fields() {
    let form = refresh_form("rt");
    assert_eq!(
        form,
        vec![
            ("grant_type".to_string(), "refresh_token".to_string()),
            ("refresh_token".to_string(), "rt".to_string()),
            ("client_id".to_string(), "educlasse".to_string()),
        ]
    );
}

#[test]
fn test_tokens_from_refresh_expiry() {
    let t = tokens_from_refresh(
        TokenRefreshResponse {
            access_token: "a".to_string(),
            refresh_token: "r".to_string(),
            id_token: "i".to_string(),
            expires_in: 3600,
            session_state: "s".to_string(),
        },
        1000,
    );
    assert_eq!(t.expires_at, 4600);
    assert_eq!(t.access_token, "a");
}

#[test]
fn test_login_callback_detection() {
    assert!(is_login_callback("https://app.educartable.com/home?state=x&code=abc"));
    assert!(is_login_callback("https://app.educartable.com/activities?code=abc"));
    assert!(!is_login_callback("https://app.educartable.com/home?state=x"));
    assert!(!is_login_callback("https://accounts.edumoov.com/auth?code=abc"));
}

#[test]
fn test_received_tokens_null() {
    assert_eq!(
        received_tokens("null".to_string()).unwrap_err(),
        "Login failed. Please check your credentials and try again."
    );
    assert_eq!(received_tokens("{}".to_string()).unwrap(), "{}");
}

#[test]
fn test_write_then_load_entries_round_trip() {
    for value in ["short".to_string(), "x".repeat(4321), "é".repeat(1200)] {
        let written = std::cell::RefCell::new(HashMap::new());
        let write = |w: &educartable_sync::chunks::KeyringWrite| {
            written.borrow_mut().insert(w.username.clone(), w.secret.clone());
            Ok(())
        };
        let writes = plan_store("auth", "id_token", &value);
        assert_eq!(write_entries("id_token", &writes, &write), Ok(()));
        let m = written.into_inner();
        assert_eq!(m.len(), writes.len());
        assert_eq!(read_back(&m, "auth", "id_token"), Ok(value));
    }
}

#[test]
fn test_write_entries_stops_at_first_failure() {
    let attempts = std::cell::RefCell::new(Vec::new());
    let write = |w: &educartable_sync::chunks::KeyringWrite| {
        attempts.borrow_mut().push(w.username.clone());
        if w.username == "auth.k_2" {
            Err((KeyringStep::Access, "disk full".to_string()))
        } else {
            Ok(())
        }
    };
    let writes = plan_store("auth", "k", &"z".repeat(2500));
    assert_eq!(
        write_entries("k", &writes, &write).unwrap_err(),
        "Cannot save 'k' chunk 2 (1000 chars, 1000 bytes). Error: disk full"
    );
    assert_eq!(attempts.into_inner(), vec!["auth.k", "auth.k_1", "auth.k_2"]);
}

#[test]
fn test_write_entries_open_failure_messages() {
    let write = |_: &educartable_sync::chunks::KeyringWrite| {
        Err((KeyringStep::Open, "no backend".to_string()))
    };
    assert_eq!(
        write_entries("k", &plan_store("auth", "k", "v"), &write).unwrap_err(),
        "Cannot access system keyring for 'k'. Please check your system permissions."
    );
    assert_eq!(
        write_entries("k", &plan_store("auth", "k", &"v".repeat(1001)), &write).unwrap_err(),
        "Cannot access system keyring for 'k'."
    );
}

#[test]
fn test_load_entries_failures() {
    let mut m = HashMap::new();
    assert_eq!(
        read_back(&m, "auth", "k").unwrap_err(),
        "Not authenticated. Missing token field 'k'. Please log in first."
    );
    m.insert("auth.k".to_string(), "CHUNKS:abc".to_string());
    assert_eq!(
        read_back(&m, "auth", "k").unwrap_err(),
        "Corrupted metadata for 'k'. Please log in again."
    );
    m.insert("auth.k".to_string(), "CHUNKS:3".to_string());
    m.insert("auth.k_1".to_string(), "ab".to_string());
    m.insert("auth.k_3".to_string(), "ef".to_string());
    assert_eq!(
        read_back(&m, "auth", "k").unwrap_err(),
        "Missing 'k' chunk 2. Please log in again."
    );
    m.insert("auth.k_2".to_string(), "cd".to_string());
    assert_eq!(read_back(&m, "auth", "k"), Ok("abcdef".to_string()));
    let unreachable = |_: &str| -> Result<String, KeyringStep> { Err(KeyringStep::Open) };
    assert_eq!(
        load_entries("auth", "k", &unreachable).unwrap_err(),
        "Cannot access system keyring. Please check your system permissions."
    );
}

#[test]
fn test_chunks_to_delete() {
    assert_eq!(chunks_to_delete::<()>(&Ok("CHUNKS:4".to_string())), 4);
    assert_eq!(chunks_to_delete::<()>(&Ok("CHUNKS:x".to_string())), 0);
    assert_eq!(chunks_to_delete::<()>(&Ok("token".to_string())), 0);
    assert_eq!(chunks_to_delete(&Err::<String, ()>(())), 0);
}

#[test]
fn test_is_authenticated_keyring_unreachable_is_an_error() {
    let msg = "Cannot access system keyring. Please check your system permissions.".to_string();
    match check_authentication(Err(msg.clone()), 0) {
        AuthenticationCheck::Failed(e) => assert_eq!(e, msg),
        other => panic!("unexpected {:?}", other),
    }
    match check_authentication(Err("Cannot access system keyring.".to_string()), 0) {
        AuthenticationCheck::Failed(_) => {},
        other => panic!("unexpected {:?}", other),
    }
    let missing = "Not authenticated. Missing token field 'access_token'. Please log in first.";
    assert!(matches!(
        check_authentication(Err(missing.to_string()), 0),
        AuthenticationCheck::NotAuthenticated
    ));
}

#[test]
fn test_delete_entries_requests_pieces_then_main() {
    let mut m = HashMap::new();
    m.insert("auth.k".to_string(), "CHUNKS:3".to_string());
    let read = |u: &str| m.get(u).cloned().ok_or(KeyringStep::Access);
    let asked = std::cell::RefCell::new(Vec::new());
    let del = |u: &str| {
        asked.borrow_mut().push(u.to_string());
        false
    };
    assert_eq!(delete_entries("auth", "k", &read, &del), Ok(()));
    assert_eq!(asked.into_inner(), vec!["auth.k_1", "auth.k_2", "auth.k_3", "auth.k"]);

    let asked = std::cell::RefCell::new(Vec::new());
    let del = |u: &str| {
        asked.borrow_mut().push(u.to_string());
        true
    };
    let empty: HashMap<String, String> = HashMap::new();
    let read_empty = |u: &str| empty.get(u).cloned().ok_or(KeyringStep::Access);
    assert_eq!(delete_entries("auth", "k", &read_empty, &del), Ok(()));
    assert_eq!(asked.into_inner(), vec!["auth.k"]);

    let unreachable = |_: &str| -> Result<String, KeyringStep> { Err(KeyringStep::Open) };
    let never = |_: &str| -> bool { panic!("nothing is deleted") };
    assert_eq!(
        delete_entries("auth", "k", &unreachable, &never).unwrap_err(),
        "Cannot access system keyring for 'k'."
    );
}

#[test]
fn test_clear_outcome_lists_exactly_the_failed_fields() {
    let all_ok: Vec<Result<(), String>> = vec![Ok(()), Ok(()), Ok(()), Ok(()), Ok(())];
    assert_eq!(clear_outcome(&all_ok), Ok(()));
    let some = vec![
        Ok(()),
        Err("e1".to_string()),
        Ok(()),
        Err("e3".to_string()),
        Ok(()),
    ];
    assert_eq!(
        clear_outcome(&some).unwrap_err(),
        "Failed to clear some login credentials: refresh_token: e1, expires_at: e3"
    );
}

#[test]
fn test_first_error_and_tokens_from_loads() {
    let rs: Vec<Result<(), String>> = vec![Ok(()), Err("a".to_string()), Err("b".to_string())];
    assert_eq!(first_error(&rs), Some("a".to_string()));
    let loads = vec![Ok("x".to_string()), Err("missing refresh".to_string())];
    assert_eq!(tokens_from_loads(&loads).unwrap_err(), "missing refresh");
    let loads = vec![
        Ok("a".to_string()),
        Ok("r".to_string()),
        Ok("i".to_string()),
        Ok("-5".to_string()),
        Ok("s".to_string()),
    ];
    let t = tokens_from_loads(&loads).unwrap();
    assert_eq!((t.access_token.as_str(), t.expires_at, t.session_state.as_str()), ("a", -5, "s"));
    let mut bad = loads.clone();
    bad[3] = Ok("soon".to_string());
    assert_eq!(
        tokens_from_loads(&bad).unwrap_err(),
        "Login credentials are corrupted. Please log in again."
    );
}
