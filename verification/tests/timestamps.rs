use log_index::timestamp_saver::{ListIterator, TimestampSaver};

#[test]
fn append_and_read_back() {
    let mut saver = TimestampSaver::new_empty();
    saver.append(1);
    saver.append(1);
    saver.append(1);
    saver.append(2);
    assert_eq!(saver.length, 4);
    assert_eq!(saver.at(0), Some(1));
    assert_eq!(saver.at(1), Some(1));
    assert_eq!(saver.at(2), Some(1));
    assert_eq!(saver.at(3), Some(2));
    assert_eq!(saver.at(4), None);
    assert_eq!(saver.at(100), None);
}

#[test]
fn growth_preserves_values() {
    let mut saver = TimestampSaver::new_empty();
    // Force the store to grow several times past the starting capacity.
    for k in 0..40u64 {
        saver.append(k * 3);
    }
    assert_eq!(saver.length, 40);
    for k in 0..40usize {
        assert_eq!(saver.at(k), Some(k as u64 * 3));
    }
    assert_eq!(saver.at(40), None);
}

#[test]
fn iteration_yields_filled_slots_then_nothing() {
    let mut saver = TimestampSaver::new_empty();
    saver.append(1);
    saver.append(1);
    saver.append(1);
    saver.append(2);
    let mut it = saver.into_iter();
    assert_eq!(it.next(), Some(1));
    assert_eq!(it.next(), Some(1));
    assert_eq!(it.next(), Some(1));
    assert_eq!(it.next(), Some(2));
    // Spare slots past the appended values hold nothing.
    assert_eq!(it.next(), None);
}

#[test]
fn cursor_starts_where_it_is_told() {
    let buf = vec![Some(7u64), Some(8), None];
    let mut it = ListIterator::new(1, buf);
    assert_eq!(it.next(), Some(8));
    assert_eq!(it.next(), None);
    assert_eq!(it.next(), None);
}
