use mininet::app_service::operation_id;

#[test]
fn operation_ids_carry_kind_process_time_and_counter() {
    assert_eq!(operation_id("post", 1234, 1_700_000_000_000, 1), "desktop:post:1234:1700000000000:1");
    assert_eq!(operation_id("sync", 0, 0, 0), "desktop:sync:0:0:0");
}

#[test]
fn operation_ids_differ_by_counter_and_stay_retry_safe() {
    let first = operation_id("post", 77, 1_000, 1);
    let second = operation_id("post", 77, 1_000, 2);
    assert_ne!(first, second);
    assert!(first.starts_with("desktop:post:"));
    assert!(first
        .bytes()
        .all(|byte| byte.is_ascii_alphanumeric() || matches!(byte, b'-' | b'_' | b'.' | b':')));
}
