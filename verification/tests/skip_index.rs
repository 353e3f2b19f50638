use log_index::skip_list::BestTransactionLog;

#[test]
fn find_hits_and_misses() {
    let mut tr = BestTransactionLog::new_empty(2);
    tr.append(1, String::from("a"));
    tr.append(2, String::from("b"));
    tr.append(3, String::from("c"));
    assert_eq!(tr.find(2), Some(String::from("b")));
    assert_eq!(tr.find(4), None);
    assert_eq!(tr.length, 3);
}

#[test]
fn empty_index_finds_nothing() {
    let tr = BestTransactionLog::new_empty(3);
    assert_eq!(tr.find(0), None);
    for level in 0..=3 {
        let mut it = tr.iter_level(level);
        assert_eq!(it.next(), None);
    }
    assert_eq!(tr.length, 0);
}

#[test]
fn first_append_reaches_every_level() {
    let mut tr = BestTransactionLog::new_empty(2);
    tr.append(5, String::from("x"));
    assert_eq!(tr.find(5), Some(String::from("x")));
    assert_eq!(tr.length, 1);
    // The first node is assigned the top level, so every chain holds it.
    for level in 0..=2 {
        let mut it = tr.iter_level(level);
        assert_eq!(it.next(), Some((5, String::from("x"))));
        assert_eq!(it.next(), None);
    }
}

#[test]
fn find_every_appended_offset() {
    let mut tr = BestTransactionLog::new_empty(4);
    let offsets = [2u64, 3, 5, 8, 13, 21, 34, 55];
    for (k, off) in offsets.iter().enumerate() {
        tr.append(*off, format!("cmd{}", k));
    }
    for (k, off) in offsets.iter().enumerate() {
        assert_eq!(tr.find(*off), Some(format!("cmd{}", k)));
    }
    for missing in [0u64, 1, 4, 6, 7, 9, 20, 56, 1000] {
        assert_eq!(tr.find(missing), None);
    }
}

#[test]
fn offset_below_every_entry_finds_nothing() {
    let mut tr = BestTransactionLog::new_empty(2);
    tr.append(10, String::from("ten"));
    tr.append(20, String::from("twenty"));
    assert_eq!(tr.find(1), None);
}

#[test]
fn length_counts_appends() {
    let mut tr = BestTransactionLog::new_empty(3);
    assert_eq!(tr.length, 0);
    for k in 0..100u64 {
        tr.append(k, format!("c{}", k));
        assert_eq!(tr.length, k + 1);
    }
}

#[test]
fn level_zero_holds_every_entry_in_order() {
    let mut tr = BestTransactionLog::new_empty(3);
    let mut expected: Vec<(u64, String)> = Vec::new();
    for k in 0..20u64 {
        let cmd = format!("cmd{}", k);
        tr.append(k * 7, cmd.clone());
        expected.push((k * 7, cmd));
    }
    let mut it = tr.iter_level(0);
    let mut got: Vec<(u64, String)> = Vec::new();
    while let Some(pair) = it.next() {
        got.push(pair);
    }
    assert_eq!(got, expected);
    assert_eq!(got.len() as u64, tr.length);
}

#[test]
fn higher_levels_are_ordered_subsequences() {
    let mut tr = BestTransactionLog::new_empty(4);
    for k in 0..50u64 {
        tr.append(k, format!("c{}", k));
    }
    let mut base: Vec<(u64, String)> = Vec::new();
    let mut it = tr.iter_level(0);
    while let Some(pair) = it.next() {
        base.push(pair);
    }
    for level in 1..=4 {
        let mut lv = tr.iter_level(level);
        let mut pos = 0usize;
        while let Some(pair) = lv.next() {
            // Each yielded pair must appear in the level-0 chain, after the
            // previous one.
            let mut found = false;
            while pos < base.len() {
                if base[pos] == pair {
                    found = true;
                    pos += 1;
                    break;
                }
                pos += 1;
            }
            assert!(found);
        }
    }
}

#[test]
fn single_chain_behaves_like_linear_scan() {
    let mut tr = BestTransactionLog::new_empty(0);
    let offsets = [3u64, 9, 27];
    for off in offsets {
        tr.append(off, format!("v{}", off));
    }
    // With max_level 0 there is a single chain; a linear scan of it must
    // agree with find on every probe.
    for probe in 0..30u64 {
        let mut it = tr.iter_level(0);
        let mut scanned: Option<String> = None;
        while let Some((off, cmd)) = it.next() {
            if off == probe {
                scanned = Some(cmd);
                break;
            }
        }
        assert_eq!(tr.find(probe), scanned);
    }
}

#[test]
fn iterators_are_restartable() {
    let mut tr = BestTransactionLog::new_empty(2);
    tr.append(1, String::from("one"));
    tr.append(2, String::from("two"));
    let mut first = tr.iter_level(0);
    assert_eq!(first.next(), Some((1, String::from("one"))));
    let mut second = tr.iter_level(0);
    assert_eq!(second.next(), Some((1, String::from("one"))));
    assert_eq!(first.next(), Some((2, String::from("two"))));
    assert_eq!(first.next(), None);
    // Iteration leaves the index untouched.
    assert_eq!(tr.length, 2);
    assert_eq!(tr.find(2), Some(String::from("two")));
}
