use ic_todo_crud_backend::key::{parse_task_key, task_key_text};

#[test]
fn key_text_is_prefix_and_decimal() {
    assert_eq!(task_key_text(0), "task_0");
    assert_eq!(task_key_text(1), "task_1");
    assert_eq!(task_key_text(9), "task_9");
    assert_eq!(task_key_text(10), "task_10");
    assert_eq!(task_key_text(11), "task_11");
    assert_eq!(task_key_text(99), "task_99");
    assert_eq!(task_key_text(100), "task_100");
    assert_eq!(task_key_text(101), "task_101");
    assert_eq!(task_key_text(1234567890), "task_1234567890");
    assert_eq!(task_key_text(9876543210), "task_9876543210");
    assert_eq!(task_key_text(u64::MAX), "task_18446744073709551615");
}

#[test]
fn key_text_agrees_with_std_formatting() {
    let mut n: u64 = 0;
    for step in 0..2000u64 {
        assert_eq!(task_key_text(n), format!("task_{}", n));
        n = n.wrapping_mul(6364136223846793005).wrapping_add(step + 1);
    }
    for n in 0..1200u64 {
        assert_eq!(task_key_text(n), format!("task_{}", n));
    }
}

#[test]
fn parse_reads_what_was_written() {
    assert_eq!(parse_task_key("task_0"), Some(0));
    assert_eq!(parse_task_key("task_1"), Some(1));
    assert_eq!(parse_task_key("task_7"), Some(7));
    assert_eq!(parse_task_key("task_10"), Some(10));
    assert_eq!(parse_task_key("task_42"), Some(42));
    assert_eq!(parse_task_key("task_1000000"), Some(1000000));
    assert_eq!(parse_task_key("task_18446744073709551615"), Some(u64::MAX));
    assert_eq!(parse_task_key("task_18446744073709551614"), Some(u64::MAX - 1));
}

#[test]
fn parse_round_trips() {
    let mut n: u64 = 1;
    for step in 0..2000u64 {
        assert_eq!(parse_task_key(&task_key_text(n)), Some(n));
        n = n.wrapping_mul(2862933555777941757).wrapping_add(step);
    }
    for n in 0..1200u64 {
        assert_eq!(parse_task_key(&task_key_text(n)), Some(n));
    }
}

#[test]
fn parse_rejects_numbers_beyond_u64() {
    assert_eq!(parse_task_key("task_18446744073709551616"), None);
    assert_eq!(parse_task_key("task_18446744073709551620"), None);
    assert_eq!(parse_task_key("task_28446744073709551615"), None);
    assert_eq!(parse_task_key("task_98446744073709551615"), None);
    assert_eq!(parse_task_key("task_184467440737095516150"), None);
    assert_eq!(parse_task_key("task_100000000000000000000"), None);
    assert_eq!(parse_task_key(&format!("task_1{}", "0".repeat(5000))), None);
}

#[test]
fn parse_rejects_leading_zeros() {
    assert_eq!(parse_task_key("task_00"), None);
    assert_eq!(parse_task_key("task_01"), None);
    assert_eq!(parse_task_key("task_007"), None);
    assert_eq!(parse_task_key("task_0000000000000000000000000000001"), None);
}

#[test]
fn parse_rejects_what_is_no_identifier() {
    for key in [
        "", "t", "task", "task_", "task__1", "task-1", "task 1", "task1", "tasks_1", "Task_1",
        "TASK_1", "task_+1", "task_-1", "task_1 ", " task_1", "task_ 1", "task_1\n", "task_1a",
        "task_a1", "task_1_2", "task_1.5", "task_0x10", "task_1e3", "1", "_1", "xtask_1",
        "task_\u{0661}", "task_\u{FF11}", "task_1\u{0}", "t\u{e4}sk_1", "\u{1F600}ask_1",
        "task\u{FF3F}1",
    ] {
        assert_eq!(parse_task_key(key), None, "{:?}", key);
    }
}

#[test]
fn parse_accepts_only_the_text_written_for_its_number() {
    for key in ["task_0", "task_5", "task_50", "task_05", "task_500", "task_+5", "task_5 "] {
        match parse_task_key(key) {
            Some(n) => assert_eq!(task_key_text(n), key),
            None => assert!((0..1000u64).all(|n| task_key_text(n) != key)),
        }
    }
}
