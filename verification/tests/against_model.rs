use min_max::{Entry, MinMax};

/// A small linear congruential generator, so that the runs are the same
/// every time.
struct Lcg(u64);

impl Lcg {
    fn next(&mut self) -> u64 {
        self.0 = self.0.wrapping_mul(6364136223846793005).wrapping_add(1442695040888963407);
        self.0 >> 33
    }

    fn below(&mut self, n: u64) -> u64 {
        self.next() % n
    }
}

/// The queue as a plain sorted vector of `(priority, payload)`.
struct Model(Vec<(i64, i64)>);

impl Model {
    fn insert(&mut self, p: i64, v: i64) {
        self.0.push((p, v));
        self.0.sort();
    }

    fn min(&self) -> Option<Entry> {
        self.0.first().map(|&(priority, payload)| Entry { priority, payload })
    }

    fn max(&self) -> Option<Entry> {
        self.0.last().map(|&(priority, payload)| Entry { priority, payload })
    }

    fn pop_min(&mut self) -> Option<Entry> {
        let out = self.min();
        if out.is_some() {
            self.0.remove(0);
        }
        out
    }

    fn pop_max(&mut self) -> Option<Entry> {
        let out = self.max();
        self.0.pop();
        out
    }
}

fn check_against(h: &MinMax, m: &Model) {
    assert_eq!(h.size(), m.0.len());
    assert_eq!(h.is_empty(), m.0.is_empty());
    assert_eq!(h.peek_min(), m.min());
    assert_eq!(h.peek_max(), m.max());
}

fn run(seed: u64, steps: usize, priorities: u64) {
    let mut rng = Lcg(seed);
    let mut h = MinMax::new();
    let mut m = Model(vec![]);
    for step in 0..steps {
        match rng.below(10) {
            0..=4 => {
                let p = rng.below(priorities) as i64 - (priorities / 2) as i64;
                let v = rng.below(priorities) as i64;
                h.insert(p, v);
                m.insert(p, v);
            }
            5 | 6 => assert_eq!(h.pop_min(), m.pop_min()),
            7 | 8 => assert_eq!(h.pop_max(), m.pop_max()),
            _ => {
                let count = rng.below(6) as i32 - 1;
                if rng.below(2) == 0 {
                    let out = h.pop_min_count(count);
                    let mut expect = vec![];
                    for _ in 0..count {
                        match m.pop_min() {
                            Some(e) => expect.push(e),
                            None => break,
                        }
                    }
                    assert_eq!(out, expect);
                } else {
                    let out = h.pop_max_count(count);
                    let mut expect = vec![];
                    for _ in 0..count {
                        match m.pop_max() {
                            Some(e) => expect.push(e),
                            None => break,
                        }
                    }
                    assert_eq!(out, expect);
                }
            }
        }
        check_against(&h, &m);
        if step % 16 == 0 {
            let asc: Vec<i64> = m.0.iter().map(|&(_, v)| v).collect();
            let mut desc = asc.clone();
            desc.reverse();
            assert_eq!(h.to_a_asc(), asc);
            assert_eq!(h.to_a_desc(), desc);
            let mut stored = h.each();
            stored.sort();
            let mut expect = asc.clone();
            expect.sort();
            assert_eq!(stored, expect);
            check_against(&h, &m);
        }
    }
}

#[test]
fn agrees_with_a_sorted_vector_on_distinct_priorities() {
    run(1, 3000, 1 << 40);
}

#[test]
fn agrees_with_a_sorted_vector_on_many_ties() {
    run(2, 3000, 7);
    run(3, 3000, 3);
}

#[test]
fn agrees_with_a_sorted_vector_on_equal_entries() {
    run(4, 3000, 2);
    run(5, 2000, 1);
}

#[test]
fn ends_stand_at_the_top_of_the_backing_array() {
    let mut rng = Lcg(6);
    let mut h = MinMax::new();
    let mut next_payload = 0;
    let mut priority_of = vec![];
    for _ in 0..2000 {
        if rng.below(3) < 2 {
            let p = rng.below(50) as i64;
            h.insert(p, next_payload);
            priority_of.push(p);
            next_payload += 1;
        } else if rng.below(2) == 0 {
            let root = h.each().first().copied();
            assert_eq!(h.pop_min().map(|e| e.payload), root);
        } else {
            let shown = h.peek_max();
            assert_eq!(h.pop_max(), shown);
        }
        let order = h.each();
        match order.len() {
            0 => {
                assert_eq!(h.peek_min(), None);
                assert_eq!(h.peek_max(), None);
            }
            n => {
                let pair = |slot: usize| (priority_of[order[slot] as usize], order[slot]);
                let slot = if n == 1 {
                    0
                } else if n == 2 {
                    1
                } else if pair(1) > pair(2) {
                    1
                } else {
                    2
                };
                assert_eq!(h.peek_min().map(|e| e.payload), Some(order[0]));
                assert_eq!(h.peek_max().map(|e| e.payload), Some(order[slot]));
            }
        }
    }
}
