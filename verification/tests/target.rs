use xlxscraper::digest::sha256;
use xlxscraper::target::{backoff_seconds, remaining_wait_nanos, TargetState};

#[test]
fn first_scrape_is_always_written() {
    let st = TargetState::new();
    assert_eq!(st.consecutive_errors, 0);
    assert_eq!(st.last_hash, None);
    assert_eq!(st.plan_write("[]"), Some(sha256("[]")));
}

#[test]
fn unchanged_content_is_not_written_again() {
    let mut st = TargetState::new();
    let json = "[\n  {\n    \"Callsign\": \"W1AW\"\n  }\n]";
    let h = st.plan_write(json).expect("first write");
    st.record_write(h);
    assert_eq!(st.plan_write(json), None);
    assert_eq!(st.plan_write(json), None);
}

#[test]
fn changed_content_is_written() {
    let mut st = TargetState::new();
    let h = st.plan_write("[1]").unwrap();
    st.record_write(h);
    let h2 = st.plan_write("[2]");
    assert_eq!(h2, Some(sha256("[2]")));
    st.record_write(h2.unwrap());
    assert_eq!(st.plan_write("[2]"), None);
    assert_eq!(st.plan_write("[1]"), Some(sha256("[1]")));
}

#[test]
fn error_counting_and_backoff() {
    let mut st = TargetState::new();
    assert_eq!(st.record_failure(0), None);
    assert_eq!(st.consecutive_errors, 1);
    assert_eq!(st.resume_at, None);
    assert_eq!(st.record_failure(10), Some(4));
    assert_eq!(st.resume_at, Some(14));
    assert_eq!(st.record_failure(20), Some(8));
    assert_eq!(st.record_failure(30), Some(16));
    assert_eq!(st.record_failure(40), Some(32));
    assert_eq!(st.record_failure(50), Some(32));
    assert_eq!(st.consecutive_errors, 6);
    st.record_success();
    assert_eq!(st.consecutive_errors, 0);
    assert_eq!(st.resume_at, None);
    assert_eq!(st.record_failure(60), None);
}

#[test]
fn backoff_doubles_then_caps() {
    let expected = [1u64, 2, 4, 8, 16, 32, 32, 32];
    for (e, s) in expected.iter().enumerate() {
        assert_eq!(backoff_seconds(e as u32), *s);
    }
    assert_eq!(backoff_seconds(u32::MAX), 32);
}

#[test]
fn failures_keep_the_last_hash() {
    let mut st = TargetState::new();
    let h = st.plan_write("x").unwrap();
    st.record_write(h.clone());
    st.record_failure(0);
    st.record_success();
    assert_eq!(st.last_hash, Some(h));
}

#[test]
fn wait_is_the_rest_of_the_interval() {
    assert_eq!(remaining_wait_nanos(5, 0), 5_000_000_000);
    assert_eq!(remaining_wait_nanos(5, 1_500_000_000), 3_500_000_000);
    assert_eq!(remaining_wait_nanos(5, 5_000_000_000), 0);
    assert_eq!(remaining_wait_nanos(1, 9_000_000_000), 0);
    assert_eq!(remaining_wait_nanos(0, 0), 0);
}

#[test]
fn backoff_skips_the_target_then_resumes() {
    let mut st = TargetState::new();
    assert!(st.should_scrape(0));
    st.record_failure(100);
    assert!(st.should_scrape(101));
    assert_eq!(st.record_failure(105), Some(4));
    assert!(!st.should_scrape(105));
    assert!(!st.should_scrape(108));
    assert!(st.should_scrape(109));
    assert!(st.should_scrape(500));
    st.record_success();
    assert!(st.should_scrape(0));
}

#[test]
fn backoff_end_saturates() {
    let mut st = TargetState::new();
    st.record_failure(u64::MAX);
    assert_eq!(st.record_failure(u64::MAX - 1), Some(4));
    assert_eq!(st.resume_at, Some(u64::MAX));
}
