use min_max::MinMax;

fn filled(pairs: &[(i64, i64)]) -> MinMax {
    let mut h = MinMax::new();
    h.push(&pairs.to_vec());
    h
}

const PAIRS: [(i64, i64); 9] =
    [(40, 1), (10, 2), (30, 3), (10, 4), (50, 5), (20, 6), (30, 7), (-5, 8), (45, 9)];

fn priority_of(payload: i64) -> i64 {
    PAIRS.iter().find(|&&(_, v)| v == payload).unwrap().0
}

#[test]
fn ascending_reading_is_exact() {
    let h = filled(&PAIRS);
    assert_eq!(h.to_a_asc(), vec![8, 2, 4, 6, 3, 7, 1, 9, 5]);
}

#[test]
fn descending_reading_is_exact() {
    let h = filled(&PAIRS);
    assert_eq!(h.to_a_desc(), vec![5, 9, 1, 7, 3, 6, 4, 2, 8]);
}

#[test]
fn ascending_reading_never_steps_down() {
    let h = filled(&PAIRS);
    let asc = h.to_a_asc();
    for w in asc.windows(2) {
        assert!(priority_of(w[0]) <= priority_of(w[1]));
    }
}

#[test]
fn descending_reading_is_the_ascending_one_backwards() {
    let h = filled(&PAIRS);
    let mut asc = h.to_a_asc();
    asc.reverse();
    assert_eq!(h.to_a_desc(), asc);
}

#[test]
fn readings_list_every_entry() {
    let h = filled(&PAIRS);
    assert_eq!(h.to_a_asc().len(), h.size());
    assert_eq!(h.to_a_desc().len(), h.size());
    let mut seen = h.to_a_asc();
    seen.sort();
    assert_eq!(seen, vec![1, 2, 3, 4, 5, 6, 7, 8, 9]);
}

#[test]
fn readings_leave_the_queue_alone() {
    let h = filled(&PAIRS);
    let before = h.each();
    h.to_a_asc();
    h.to_a_desc();
    h.each();
    assert_eq!(h.size(), 9);
    assert_eq!(h.each(), before);
    assert_eq!(h.peek_min().map(|e| e.payload), Some(8));
    assert_eq!(h.peek_max().map(|e| e.payload), Some(5));
}

#[test]
fn ascending_reading_is_what_pop_min_gives() {
    let mut h = filled(&PAIRS);
    let asc = h.to_a_asc();
    let mut popped = vec![];
    while let Some(e) = h.pop_min() {
        popped.push(e.payload);
    }
    assert_eq!(popped, asc);
}

#[test]
fn descending_reading_is_what_pop_max_gives() {
    let mut h = filled(&PAIRS);
    let desc = h.to_a_desc();
    let mut popped = vec![];
    while let Some(e) = h.pop_max() {
        popped.push(e.payload);
    }
    assert_eq!(popped, desc);
}

#[test]
fn each_follows_the_backing_array() {
    let mut h = MinMax::new();
    h.insert(5, 100);
    assert_eq!(h.each(), vec![100]);
    h.insert(2, 200);
    assert_eq!(h.each(), vec![200, 100]);
    h.insert(8, 300);
    assert_eq!(h.each(), vec![200, 100, 300]);
    h.insert(1, 400);
    assert_eq!(h.each(), vec![400, 100, 300, 200]);
    h.insert(9, 500);
    assert_eq!(h.each(), vec![400, 500, 300, 200, 100]);
    h.pop_min();
    assert_eq!(h.each(), vec![200, 500, 300, 100]);
}

#[test]
fn each_lists_every_payload_once_per_entry() {
    let h = filled(&PAIRS);
    let mut seen = h.each();
    assert_eq!(seen.len(), 9);
    seen.sort();
    assert_eq!(seen, vec![1, 2, 3, 4, 5, 6, 7, 8, 9]);
}

#[test]
fn snapshot_survives_inserts_pops_and_clear() {
    let mut h = filled(&PAIRS);
    let snapshot = h.each();
    let copy = snapshot.clone();
    let mut seen = vec![];
    for (n, payload) in snapshot.iter().enumerate() {
        seen.push(*payload);
        match n % 3 {
            0 => h.insert(100 + *payload, 1000),
            1 => {
                h.pop_min();
            }
            _ => h.clear(),
        }
        assert_eq!(snapshot.len(), 9);
        assert_eq!(&snapshot[..=n], &copy[..=n]);
        assert_eq!(&snapshot[n + 1..], &copy[n + 1..]);
    }
    assert_eq!(seen, copy);
    assert_ne!(h.each(), copy);
}

#[test]
fn snapshot_can_be_read_again() {
    let h = filled(&PAIRS);
    let snapshot = h.each();
    let first: Vec<i64> = snapshot.iter().copied().collect();
    let second: Vec<i64> = snapshot.iter().copied().collect();
    assert_eq!(first, second);
    assert_eq!(h.each(), snapshot);
}
