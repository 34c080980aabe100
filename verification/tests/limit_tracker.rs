use smart_pointers::limit_tracker::{classify, Alert, LimitTracker, Messenger};
use std::cell::RefCell;

struct MockMessenger {
    sent_messages: RefCell<Vec<String>>,
}

impl MockMessenger {
    fn new() -> MockMessenger {
        MockMessenger { sent_messages: RefCell::new(vec![]) }
    }
}

impl Messenger for MockMessenger {
    fn send(&self, msg: &str) {
        self.sent_messages.borrow_mut().push(String::from(msg));
    }
}

#[test]
fn it_sends_an_over_75_percentage_warning_message() {
    let mock_messenger = MockMessenger::new();
    let mut limit_tracker = LimitTracker::new(&mock_messenger, 100);
    limit_tracker.set_value(80);
    assert_eq!(mock_messenger.sent_messages.borrow().len(), 1);
}

#[test]
fn warning_message_has_its_text() {
    let mock_messenger = MockMessenger::new();
    let mut limit_tracker = LimitTracker::new(&mock_messenger, 100);
    limit_tracker.set_value(80);
    assert_eq!(
        mock_messenger.sent_messages.borrow()[0],
        "Warning. You used up over 75% of your quota."
    );
}

#[test]
fn urgent_message_above_ninety_percent() {
    let mock_messenger = MockMessenger::new();
    let mut limit_tracker = LimitTracker::new(&mock_messenger, 100);
    limit_tracker.set_value(91);
    assert_eq!(
        mock_messenger.sent_messages.borrow().as_slice(),
        ["Urgent warning. You used up over 90% of your quota.".to_string()]
    );
}

#[test]
fn error_message_above_the_limit() {
    let mock_messenger = MockMessenger::new();
    let mut limit_tracker = LimitTracker::new(&mock_messenger, 100);
    limit_tracker.set_value(101);
    assert_eq!(
        mock_messenger.sent_messages.borrow().as_slice(),
        ["Error: You are over your quota!".to_string()]
    );
}

#[test]
fn nothing_is_sent_up_to_three_quarters() {
    let mock_messenger = MockMessenger::new();
    let mut limit_tracker = LimitTracker::new(&mock_messenger, 100);
    limit_tracker.set_value(0);
    limit_tracker.set_value(50);
    limit_tracker.set_value(75);
    assert_eq!(mock_messenger.sent_messages.borrow().len(), 0);
}

#[test]
fn each_call_sends_at_most_one_message() {
    let mock_messenger = MockMessenger::new();
    let mut limit_tracker = LimitTracker::new(&mock_messenger, 100);
    limit_tracker.set_value(80);
    limit_tracker.set_value(95);
    limit_tracker.set_value(10);
    limit_tracker.set_value(200);
    assert_eq!(
        mock_messenger.sent_messages.borrow().as_slice(),
        [
            "Warning. You used up over 75% of your quota.".to_string(),
            "Urgent warning. You used up over 90% of your quota.".to_string(),
            "Error: You are over your quota!".to_string(),
        ]
    );
}

#[test]
fn tracker_records_value_and_keeps_limit() {
    let mock_messenger = MockMessenger::new();
    let mut limit_tracker = LimitTracker::new(&mock_messenger, 100);
    assert_eq!(limit_tracker.value(), 0);
    assert_eq!(limit_tracker.max(), 100);
    assert_eq!(limit_tracker.alert(), None);
    limit_tracker.set_value(80);
    assert_eq!(limit_tracker.value(), 80);
    assert_eq!(limit_tracker.max(), 100);
    assert_eq!(limit_tracker.alert(), Some(Alert::Warning));
}

#[test]
fn classify_at_the_thresholds() {
    assert_eq!(classify(75, 100), None);
    assert_eq!(classify(76, 100), Some(Alert::Warning));
    assert_eq!(classify(90, 100), Some(Alert::Warning));
    assert_eq!(classify(91, 100), Some(Alert::Urgent));
    assert_eq!(classify(100, 100), Some(Alert::Urgent));
    assert_eq!(classify(101, 100), Some(Alert::OverQuota));
    assert_eq!(classify(3, 4), None);
    assert_eq!(classify(9, 10), Some(Alert::Warning));
    assert_eq!(classify(10, 10), Some(Alert::Urgent));
}

#[test]
fn classify_with_a_limit_of_zero() {
    assert_eq!(classify(0, 0), None);
    assert_eq!(classify(1, 0), Some(Alert::OverQuota));
}

#[test]
fn classify_does_not_overflow() {
    assert_eq!(classify(usize::MAX, usize::MAX), Some(Alert::Urgent));
    assert_eq!(classify(usize::MAX, usize::MAX - 1), Some(Alert::OverQuota));
    assert_eq!(classify(usize::MAX / 2, usize::MAX), None);
    assert_eq!(classify(usize::MAX - 1, usize::MAX), Some(Alert::Urgent));
}

#[test]
fn alert_messages() {
    assert_eq!(Alert::OverQuota.message(), "Error: You are over your quota!");
    assert_eq!(Alert::Urgent.message(), "Urgent warning. You used up over 90% of your quota.");
    assert_eq!(Alert::Warning.message(), "Warning. You used up over 75% of your quota.");
}

fn sent_for(max: usize, values: &[usize]) -> Vec<String> {
    let mock_messenger = MockMessenger::new();
    let mut limit_tracker = LimitTracker::new(&mock_messenger, max);
    for value in values {
        limit_tracker.set_value(*value);
    }
    let sent = mock_messenger.sent_messages.borrow().clone();
    sent
}

#[test]
fn ninety_of_a_hundred_is_a_warning_only() {
    assert_eq!(sent_for(100, &[90]), vec!["Warning. You used up over 75% of your quota."]);
}

#[test]
fn exactly_at_quota_is_urgent_not_over() {
    assert_eq!(
        sent_for(100, &[100]),
        vec!["Urgent warning. You used up over 90% of your quota."]
    );
}

#[test]
fn over_quota_sends_the_error_alone() {
    assert_eq!(sent_for(100, &[101]), vec!["Error: You are over your quota!"]);
}

#[test]
fn what_is_sent_does_not_depend_on_what_was_set_before() {
    let mock_messenger = MockMessenger::new();
    let mut limit_tracker = LimitTracker::new(&mock_messenger, 100);
    limit_tracker.set_value(95);
    limit_tracker.set_value(80);
    assert_eq!(limit_tracker.value(), 80);
    assert_eq!(
        mock_messenger.sent_messages.borrow().as_slice(),
        [
            "Urgent warning. You used up over 90% of your quota.".to_string(),
            "Warning. You used up over 75% of your quota.".to_string(),
        ]
    );
}

#[test]
fn with_a_limit_of_zero_only_positive_values_are_reported() {
    assert_eq!(sent_for(0, &[0]), Vec::<String>::new());
    assert_eq!(sent_for(0, &[1]), vec!["Error: You are over your quota!"]);
}

fn rank(alert: Option<Alert>) -> u8 {
    match alert {
        None => 0,
        Some(Alert::Warning) => 1,
        Some(Alert::Urgent) => 2,
        Some(Alert::OverQuota) => 3,
    }
}

#[test]
fn a_larger_value_never_raises_a_milder_notice() {
    for max in [0usize, 1, 3, 4, 10, 100, 1000] {
        let mut last = 0;
        for value in 0..(2 * max + 3) {
            let now = rank(classify(value, max));
            assert!(last <= now);
            last = now;
        }
    }
}
