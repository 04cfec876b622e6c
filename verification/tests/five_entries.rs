use min_max::{Entry, MinMax};

fn five() -> MinMax {
    let mut h = MinMax::new();
    h.push(&vec![(5, 100), (2, 200), (8, 300), (1, 400), (9, 500)]);
    h
}

#[test]
fn five_entries_show_both_ends() {
    let h = five();
    assert_eq!(h.peek_min(), Some(Entry { priority: 1, payload: 400 }));
    assert_eq!(h.peek_max(), Some(Entry { priority: 9, payload: 500 }));
    assert_eq!(h.size(), 5);
}

#[test]
fn five_entries_from_first_insert_to_clear() {
    let mut h = MinMax::new();
    h.insert(5, 100);
    h.insert(2, 200);
    h.insert(8, 300);
    h.insert(1, 400);
    h.insert(9, 500);

    assert_eq!(h.peek_min().map(|e| e.payload), Some(400));
    assert_eq!(h.peek_max().map(|e| e.payload), Some(500));

    assert_eq!(h.pop_min().map(|e| e.payload), Some(400));
    assert_eq!(h.size(), 4);

    let two: Vec<i64> = h.pop_max_count(2).iter().map(|e| e.payload).collect();
    assert_eq!(two, vec![500, 300]);
    assert_eq!(h.size(), 2);

    let mut left = h.each();
    left.sort();
    assert_eq!(left, vec![100, 200]);

    assert_eq!(h.to_a_asc(), vec![200, 100]);
    assert_eq!(h.to_a_desc(), vec![100, 200]);
    assert_eq!(h.size(), 2);

    h.clear();
    assert!(h.is_empty());
}

#[test]
fn five_entries_leave_two_behind() {
    let mut h = five();
    h.pop_min();
    h.pop_max_count(2);
    assert_eq!(h.pop_min(), Some(Entry { priority: 2, payload: 200 }));
    assert_eq!(h.pop_min(), Some(Entry { priority: 5, payload: 100 }));
    assert_eq!(h.pop_min(), None);
}

#[test]
fn bulk_push_equals_single_inserts() {
    let mut one = MinMax::new();
    for (p, v) in [(5, 100), (2, 200), (8, 300), (1, 400), (9, 500)] {
        one.insert(p, v);
    }
    let all = five();
    assert_eq!(one.each(), all.each());
    assert_eq!(one.to_a_asc(), all.to_a_asc());
    assert_eq!(one.size(), all.size());
}

#[test]
fn bulk_push_of_nothing_changes_nothing() {
    let mut h = five();
    h.push(&vec![]);
    assert_eq!(h.size(), 5);
    assert_eq!(h.each(), vec![400, 500, 300, 200, 100]);
}

#[test]
fn bulk_push_adds_to_what_is_there() {
    let mut h = five();
    h.push(&vec![(0, 7), (10, 8)]);
    assert_eq!(h.size(), 7);
    assert_eq!(h.peek_min(), Some(Entry { priority: 0, payload: 7 }));
    assert_eq!(h.peek_max(), Some(Entry { priority: 10, payload: 8 }));
}
