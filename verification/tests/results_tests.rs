use rust_dtw_algorithm::results::try_average_result;
use rust_dtw_algorithm::results::Counter;
use rust_dtw_algorithm::results::{average_result, TestResult};

fn result(fa: u32, fr: u32, ga: u32, gr: u32) -> TestResult {
    TestResult { false_accept: fa, false_reject: fr, genuine_accept: ga, genuine_reject: gr }
}

fn counts(r: &TestResult) -> (u32, u32, u32, u32) {
    (r.false_accept, r.false_reject, r.genuine_accept, r.genuine_reject)
}

#[test]
fn new_is_all_zero() {
    assert_eq!(counts(&TestResult::new()), (0, 0, 0, 0));
}

#[test]
fn record_attempt_each_outcome() {
    let mut r = TestResult::new();
    r.record_attempt(true, "user_1", "user_2");
    assert_eq!(counts(&r), (1, 0, 0, 0));
    r.record_attempt(false, "user_2", "user_2");
    assert_eq!(counts(&r), (1, 1, 0, 0));
    r.record_attempt(true, "user_2", "user_2");
    assert_eq!(counts(&r), (1, 1, 1, 0));
    r.record_attempt(false, "user_3", "user_2");
    assert_eq!(counts(&r), (1, 1, 1, 1));
}

#[test]
fn record_attempt_counts_once() {
    let mut r = result(3, 4, 5, 6);
    r.record_attempt(true, "a", "b");
    let total = r.false_accept + r.false_reject + r.genuine_accept + r.genuine_reject;
    assert_eq!(total, 3 + 4 + 5 + 6 + 1);
}

#[test]
fn average_divides_each_sum() {
    let mut rs = vec![result(4, 8, 12, 16), result(0, 1, 3, 1)];
    let avg = average_result(&mut rs);
    assert_eq!(counts(&avg), (2, 4, 7, 8));
    assert_eq!(counts(&rs[0]), (4, 8, 12, 16));
}

#[test]
fn average_of_one_is_itself() {
    let mut rs = vec![result(9, 8, 7, 6)];
    assert_eq!(counts(&average_result(&mut rs)), (9, 8, 7, 6));
}

#[test]
fn average_rounds_down() {
    let mut rs = vec![result(1, 1, 1, 1), result(1, 1, 1, 1), result(0, 1, 0, 0)];
    assert_eq!(counts(&average_result(&mut rs)), (0, 1, 0, 0));
}

#[test]
fn false_accepts_per_impostor_divides() {
    assert_eq!(result(9, 0, 0, 0).false_accepts_per_impostor(5), 2);
    assert_eq!(result(3, 0, 0, 0).false_accepts_per_impostor(5), 0);
    assert_eq!(result(38, 0, 0, 0).false_accepts_per_impostor(20), 2);
}

#[test]
fn describe_lists_counters() {
    assert_eq!(
        result(1, 20, 300, 4000).describe(),
        "false_accept: 1, false_reject: 20, genuine_accept: 300, genuine_reject: 4000"
    );
    assert_eq!(
        TestResult::new().describe(),
        "false_accept: 0, false_reject: 0, genuine_accept: 0, genuine_reject: 0"
    );
    assert_eq!(
        result(u32::MAX, 0, 0, 10).describe(),
        "false_accept: 4294967295, false_reject: 0, genuine_accept: 0, genuine_reject: 10"
    );
}

#[test]
fn try_record_attempt_counts_when_room() {
    let mut r = result(0, 0, 0, 0);
    assert!(r.try_record_attempt(true, "a", "a"));
    assert_eq!(counts(&r), (0, 0, 1, 0));
}

#[test]
fn try_record_attempt_refuses_full_counter() {
    let mut r = result(u32::MAX, 0, 0, 0);
    assert!(!r.try_record_attempt(true, "a", "b"));
    assert_eq!(counts(&r), (u32::MAX, 0, 0, 0));
    assert!(r.try_record_attempt(false, "a", "b"));
    assert_eq!(counts(&r), (u32::MAX, 0, 0, 1));
}

#[test]
fn counter_reads_each_field() {
    let r = result(1, 2, 3, 4);
    assert_eq!(r.counter(Counter::FalseAccept), 1);
    assert_eq!(r.counter(Counter::FalseReject), 2);
    assert_eq!(r.counter(Counter::GenuineAccept), 3);
    assert_eq!(r.counter(Counter::GenuineReject), 4);
}

#[test]
fn try_average_result_cases() {
    let mut rs = vec![result(4, 8, 12, 16), result(0, 1, 3, 1)];
    assert_eq!(try_average_result(&mut rs).map(|r| counts(&r)), Some((2, 4, 7, 8)));
    let mut empty: Vec<TestResult> = Vec::new();
    assert!(try_average_result(&mut empty).is_none());
    let mut big = vec![result(0, 0, u32::MAX, 0), result(0, 0, 1, 0)];
    assert!(try_average_result(&mut big).is_none());
    let mut edge = vec![result(0, 0, u32::MAX - 1, 0), result(0, 0, 1, 0)];
    assert_eq!(try_average_result(&mut edge).map(|r| counts(&r)), Some((0, 0, u32::MAX / 2, 0)));
}

#[test]
fn accepting_more_never_turns_accept_into_reject() {
    // The same candidates judged at a strict and at a loose threshold.
    let candidates = ["u1", "u2", "u3", "u1", "u4"];
    let strict = [false, true, false, false, false];
    let loose = [true, true, false, true, true];
    let mut a = TestResult::new();
    let mut b = TestResult::new();
    for k in 0..candidates.len() {
        a.record_attempt(strict[k], candidates[k], "u1");
        b.record_attempt(loose[k], candidates[k], "u1");
    }
    assert!(b.false_accept >= a.false_accept);
    assert!(b.genuine_accept >= a.genuine_accept);
    assert!(b.false_reject <= a.false_reject);
    assert!(b.genuine_reject <= a.genuine_reject);
    assert_eq!(counts(&a), (1, 2, 0, 2));
    assert_eq!(counts(&b), (2, 0, 2, 1));
}

#[test]
fn accepting_more_near_full_untouched_counter() {
    // A counter at its largest value that no attempt touches does not stop the runs.
    let mut a = result(0, 0, 0, u32::MAX);
    let mut b = result(0, 0, 0, u32::MAX);
    a.record_attempt(false, "u1", "u1");
    b.record_attempt(true, "u1", "u1");
    assert!(b.genuine_accept >= a.genuine_accept);
    assert!(b.false_reject <= a.false_reject);
    assert_eq!(counts(&a), (0, 1, 0, u32::MAX));
    assert_eq!(counts(&b), (0, 0, 1, u32::MAX));
}
