use dirinfo::FileEntry;
use dirinfo::TopNSelector;

fn entry(size: u64, path: &str) -> FileEntry {
    FileEntry {
        size,
        path: path.to_string(),
    }
}

#[test]
fn selector_keeps_the_largest() {
    let mut sel: TopNSelector<FileEntry> = TopNSelector::new(3);
    for (size, path) in [(5u64, "e"), (1, "a"), (9, "i"), (7, "g"), (3, "c")] {
        sel.insert(entry(size, path));
    }
    let drained = sel.drain_sorted_descending();
    let sizes: Vec<u64> = drained.iter().map(|e| e.size).collect();
    assert_eq!(sizes, vec![9, 7, 5]);
    let labels: Vec<&str> = drained.iter().map(|e| e.path.as_str()).collect();
    assert_eq!(labels, vec!["i", "g", "e"]);
}

#[test]
fn selector_length_is_min_of_capacity_and_inserts() {
    let mut sel: TopNSelector<FileEntry> = TopNSelector::new(5);
    sel.insert(entry(4, "a"));
    sel.insert(entry(2, "b"));
    let drained = sel.drain_sorted_descending();
    assert_eq!(drained.len(), 2);
    assert_eq!(drained[0].size, 4);
    assert_eq!(drained[1].size, 2);
}

#[test]
fn selector_capacity_one() {
    let mut sel: TopNSelector<FileEntry> = TopNSelector::new(1);
    sel.insert(entry(3, "a"));
    sel.insert(entry(8, "b"));
    sel.insert(entry(5, "c"));
    let drained = sel.drain_sorted_descending();
    assert_eq!(drained.len(), 1);
    assert_eq!(drained[0].size, 8);
    assert_eq!(drained[0].path, "b");
}

#[test]
fn selector_capacity_zero_stays_empty() {
    let mut sel: TopNSelector<FileEntry> = TopNSelector::new(0);
    sel.insert(entry(3, "a"));
    sel.insert(entry(8, "b"));
    let drained = sel.drain_sorted_descending();
    assert_eq!(drained.len(), 0);
}

#[test]
fn selector_ties_keep_the_right_sizes() {
    let mut sel: TopNSelector<FileEntry> = TopNSelector::new(2);
    sel.insert(entry(5, "a"));
    sel.insert(entry(5, "b"));
    sel.insert(entry(5, "c"));
    let drained = sel.drain_sorted_descending();
    let sizes: Vec<u64> = drained.iter().map(|e| e.size).collect();
    assert_eq!(sizes, vec![5, 5]);
}

#[test]
fn selector_empty_drain() {
    let sel: TopNSelector<FileEntry> = TopNSelector::new(3);
    let drained = sel.drain_sorted_descending();
    assert!(drained.is_empty());
}

#[test]
fn selector_sorted_descending_on_larger_input() {
    let mut sel: TopNSelector<FileEntry> = TopNSelector::new(4);
    for (i, size) in [2u64, 11, 7, 3, 13, 5, 9, 1].into_iter().enumerate() {
        sel.insert(entry(size, &format!("f{}", i)));
    }
    let drained = sel.drain_sorted_descending();
    let sizes: Vec<u64> = drained.iter().map(|e| e.size).collect();
    assert_eq!(sizes, vec![13, 11, 9, 7]);
}
