use log_index::better_transaction_log::BetterTransactionLog;

#[test]
fn append_then_pop_in_order() {
    let mut log = BetterTransactionLog::new_empty();
    log.append(String::from("first"));
    log.append(String::from("second"));
    log.append(String::from("third"));
    assert_eq!(log.length, 3);
    assert_eq!(log.pop(), Some(String::from("first")));
    assert_eq!(log.pop(), Some(String::from("second")));
    assert_eq!(log.pop(), Some(String::from("third")));
    assert_eq!(log.pop(), None);
    assert_eq!(log.length, 0);
}

#[test]
fn pop_on_empty_log() {
    let mut log = BetterTransactionLog::new_empty();
    assert_eq!(log.pop(), None);
    assert_eq!(log.length, 0);
}

#[test]
fn forward_iteration_in_append_order() {
    let mut log = BetterTransactionLog::new_empty();
    log.append(String::from("a"));
    log.append(String::from("b"));
    log.append(String::from("c"));
    let mut it = log.iter();
    assert_eq!(it.next(), Some(String::from("a")));
    assert_eq!(it.next(), Some(String::from("b")));
    assert_eq!(it.next(), Some(String::from("c")));
    assert_eq!(it.next(), None);
    // Iteration leaves the log untouched.
    assert_eq!(log.length, 3);
}

#[test]
fn backward_iteration_from_the_tail() {
    let mut log = BetterTransactionLog::new_empty();
    log.append(String::from("a"));
    log.append(String::from("b"));
    log.append(String::from("c"));
    let mut it = log.back_iter();
    assert_eq!(it.next_back(), Some(String::from("c")));
    assert_eq!(it.next_back(), Some(String::from("b")));
    assert_eq!(it.next_back(), Some(String::from("a")));
    assert_eq!(it.next_back(), None);
}

#[test]
fn cursor_parks_after_walking_off_the_end() {
    let mut log = BetterTransactionLog::new_empty();
    log.append(String::from("first"));
    log.append(String::from("second"));
    log.append(String::from("third"));
    let mut it = log.iter();
    assert_eq!(it.next(), Some(String::from("first")));
    assert_eq!(it.next(), Some(String::from("second")));
    assert_eq!(it.next(), Some(String::from("third")));
    // The cursor walked off the back; it stays parked both ways.
    assert_eq!(it.next_back(), None);
    assert_eq!(it.next(), None);
}

#[test]
fn cursor_can_turn_around_mid_walk() {
    let mut log = BetterTransactionLog::new_empty();
    log.append(String::from("a"));
    log.append(String::from("b"));
    log.append(String::from("c"));
    let mut it = log.iter();
    assert_eq!(it.next(), Some(String::from("a")));
    // The cursor now stands on "b": next_back yields it and steps back.
    assert_eq!(it.next_back(), Some(String::from("b")));
    assert_eq!(it.next(), Some(String::from("a")));
}
