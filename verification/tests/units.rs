use std::collections::HashSet;

use isuports::error::ApiError;
use isuports::ids::DispenseAction;
use isuports::ids::DispenseOutcome;
use isuports::ids::IdGenerator;
use isuports::ids::dispense_decide;
use isuports::lock::TenantLocks;
use isuports::num::dec_string;
use isuports::num::dec_string_i64;
use isuports::num::hex_string;
use isuports::num::parse_i64;
use isuports::tenant::lock_file_path;
use isuports::tenant::tenant_db_path;
use isuports::tenant::validate_tenant_name;
use isuports::upload::parse_score_rows;
use isuports::viewer::Role;
use isuports::viewer::role_from_str;
use isuports::viewer::viewer_from_claims;

#[test]
fn id_uniqueness() {
    let mut gen = IdGenerator::new();
    let mut seen: HashSet<String> = HashSet::new();
    for _ in 0..1000 {
        let id = gen.next_id();
        assert!(seen.insert(id));
    }
    assert_eq!(seen.len(), 1000);
}

#[test]
fn id_rendering_is_hexadecimal() {
    let mut gen = IdGenerator::new();
    let mut last = String::new();
    for _ in 0..16 {
        last = gen.next_id();
    }
    assert_eq!(last, "10");
    assert_eq!(hex_string(0), "0");
    assert_eq!(hex_string(255), "ff");
    assert_eq!(hex_string(48879), "beef");
}

#[test]
fn dispense_retry_policy() {
    match dispense_decide(&DispenseOutcome::Advanced(26), 1) {
        DispenseAction::Done(id) => assert_eq!(id, "1a"),
        _ => panic!("expected an id"),
    }
    assert!(matches!(dispense_decide(&DispenseOutcome::Contention, 1), DispenseAction::Retry));
    assert!(matches!(dispense_decide(&DispenseOutcome::Contention, 98), DispenseAction::Retry));
    assert!(matches!(dispense_decide(&DispenseOutcome::Contention, 99), DispenseAction::GiveUp));
    assert!(matches!(dispense_decide(&DispenseOutcome::Failure, 1), DispenseAction::Abort));
}

#[test]
fn lock_exclusion() {
    let mut locks = TenantLocks::new();
    assert!(locks.try_acquire(7));
    assert!(!locks.try_acquire(7));
    assert!(locks.try_acquire(8));
    locks.release(7);
    assert!(locks.try_acquire(7));
    assert!(!locks.try_acquire(8));
}

#[test]
fn tenant_name_grammar() {
    assert!(validate_tenant_name("ab").is_ok());
    assert!(validate_tenant_name("a-1").is_ok());
    assert!(validate_tenant_name("acme-corp-42").is_ok());
    assert_eq!(validate_tenant_name("a"), Err(ApiError::InvalidTenantName));
    assert_eq!(validate_tenant_name("Ab"), Err(ApiError::InvalidTenantName));
    assert_eq!(validate_tenant_name("1ab"), Err(ApiError::InvalidTenantName));
    assert_eq!(validate_tenant_name("ab-"), Err(ApiError::InvalidTenantName));
    assert_eq!(validate_tenant_name(""), Err(ApiError::InvalidTenantName));
    let longest = format!("a{}b", "x".repeat(61));
    assert_eq!(longest.len(), 63);
    assert!(validate_tenant_name(&longest).is_ok());
    let too_long = format!("a{}b", "x".repeat(62));
    assert_eq!(validate_tenant_name(&too_long), Err(ApiError::InvalidTenantName));
}

#[test]
fn store_and_lock_paths() {
    assert_eq!(tenant_db_path("../tenant_db", 42), "../tenant_db/42.db");
    assert_eq!(lock_file_path("../tenant_db", 42), "../tenant_db/42.lock");
    assert_eq!(tenant_db_path("/data", -3), "/data/-3.db");
}

#[test]
fn decimal_rendering() {
    assert_eq!(dec_string(0), "0");
    assert_eq!(dec_string(10), "10");
    assert_eq!(dec_string(90210), "90210");
    assert_eq!(dec_string_i64(-42), "-42");
    assert_eq!(dec_string_i64(7), "7");
    assert_eq!(dec_string_i64(i64::MIN), "-9223372036854775808");
}

#[test]
fn score_token_parsing() {
    assert_eq!(parse_i64("42"), Some(42));
    assert_eq!(parse_i64("-5"), Some(-5));
    assert_eq!(parse_i64("+7"), Some(7));
    assert_eq!(parse_i64("0"), Some(0));
    assert_eq!(parse_i64("9223372036854775807"), Some(i64::MAX));
    assert_eq!(parse_i64("-9223372036854775808"), Some(i64::MIN));
    assert_eq!(parse_i64("9223372036854775808"), None);
    assert_eq!(parse_i64("-9223372036854775809"), None);
    assert_eq!(parse_i64(""), None);
    assert_eq!(parse_i64("+"), None);
    assert_eq!(parse_i64("-"), None);
    assert_eq!(parse_i64("12x"), None);
    assert_eq!(parse_i64(" 12"), None);
    assert_eq!(parse_i64("1 2"), None);
}

#[test]
fn csv_upload_parsing() {
    let rows = parse_score_rows(b"player_id,score\naaa,100\nbbb,-5\n").unwrap();
    assert_eq!(rows.len(), 2);
    assert_eq!(rows[0].0, "aaa");
    assert_eq!(rows[0].1, "100");
    assert_eq!(rows[1].0, "bbb");
    assert_eq!(rows[1].1, "-5");
    assert_eq!(
        parse_score_rows(b"name,score\naaa,1\n"),
        Err(ApiError::InvalidCsvHeader)
    );
    assert_eq!(parse_score_rows(b""), Err(ApiError::InvalidCsvHeader));
    assert_eq!(
        parse_score_rows(b"player_id,score\naaa,1,extra\n"),
        Err(ApiError::InvalidCsvShape)
    );
    assert_eq!(
        parse_score_rows(b"player_id,score\naaa,\xff\xfe\n"),
        Err(ApiError::InvalidCsv)
    );
    let empty = parse_score_rows(b"player_id,score\n").unwrap();
    assert_eq!(empty.len(), 0);
}

#[test]
fn roles_and_claims() {
    assert_eq!(role_from_str("admin"), Some(Role::Admin));
    assert_eq!(role_from_str("organizer"), Some(Role::Organizer));
    assert_eq!(role_from_str("player"), Some(Role::Player));
    assert_eq!(role_from_str("root"), None);

    let v = viewer_from_claims(
        Some("pl-1".to_string()),
        Some("player".to_string()),
        vec!["acme".to_string()],
        "acme".to_string(),
        3,
    )
    .unwrap();
    assert_eq!(v.role, Role::Player);
    assert_eq!(v.player_id, "pl-1");
    assert_eq!(v.tenant_id, 3);

    assert!(matches!(
        viewer_from_claims(
            None,
            Some("player".to_string()),
            vec!["acme".to_string()],
            "acme".to_string(),
            3
        ),
        Err(ApiError::Unauthorized)
    ));
    assert!(matches!(
        viewer_from_claims(
            Some("pl-1".to_string()),
            Some("root".to_string()),
            vec!["acme".to_string()],
            "acme".to_string(),
            3
        ),
        Err(ApiError::Unauthorized)
    ));
    assert!(matches!(
        viewer_from_claims(
            Some("pl-1".to_string()),
            Some("player".to_string()),
            vec!["other".to_string()],
            "acme".to_string(),
            3
        ),
        Err(ApiError::Unauthorized)
    ));
    assert!(matches!(
        viewer_from_claims(
            Some("pl-1".to_string()),
            Some("organizer".to_string()),
            vec!["admin".to_string()],
            "admin".to_string(),
            0
        ),
        Err(ApiError::Unauthorized)
    ));
}

#[test]
fn error_status_classes() {
    assert_eq!(ApiError::InvalidTenantName.status_class(), 400);
    assert_eq!(ApiError::CompetitionFinished.status_class(), 400);
    assert_eq!(ApiError::Unauthorized.status_class(), 401);
    assert_eq!(ApiError::Forbidden.status_class(), 403);
    assert_eq!(ApiError::Disqualified.status_class(), 403);
    assert_eq!(ApiError::CompetitionNotFound.status_class(), 404);
    assert_eq!(ApiError::PlayerNotFound.status_class(), 404);
    assert_eq!(ApiError::IdExhausted.status_class(), 500);
    assert_eq!(ApiError::StoreUnavailable.status_class(), 500);
    assert_eq!(ApiError::Internal.status_class(), 500);
}
