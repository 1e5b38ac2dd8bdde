use persistence_search::enumerator::best_next;
use persistence_search::persistence::{persistence_steps, steps_within};
use persistence_search::search::{Action, ProgressTable, SearchConfig, Worker, SLOTS};

/// Runs the persistence engine from a running count `start`.
fn run_persistence(digits: &[u8], start: u64) -> (u64, Vec<u8>) {
    let mut cur = digits.to_vec();
    let mut steps = start;
    let r = persistence_steps(&mut cur, &mut steps);
    assert_eq!(r, steps);
    (r, cur)
}

fn allowed(d: u8) -> bool {
    matches!(d, 2 | 3 | 4 | 6 | 7 | 8 | 9)
}

#[test]
fn single_digit_needs_no_collapse() {
    assert_eq!(run_persistence(&[7], 0), (0, vec![7]));
    assert_eq!(run_persistence(&[0], 0), (0, vec![0]));
    // a running count is handed back unchanged
    assert_eq!(run_persistence(&[4], 5), (5, vec![4]));
}

#[test]
fn persistence_of_934_is_two() {
    // 934 -> 108 -> 0
    assert_eq!(run_persistence(&[4, 3, 9], 0), (2, vec![0]));
}

#[test]
fn persistence_of_known_numbers() {
    // 77 -> 49 -> 36 -> 18 -> 8
    assert_eq!(run_persistence(&[7, 7], 0), (4, vec![8]));
    // 679 -> 378 -> 168 -> 48 -> 32 -> 6
    assert_eq!(run_persistence(&[9, 7, 6], 0), (5, vec![6]));
    // 25 -> 10 -> 0
    assert_eq!(run_persistence(&[5, 2], 0), (2, vec![0]));
    // counting goes on from a running count
    assert_eq!(run_persistence(&[7, 7], 3).0, 7);
}

#[test]
fn persistence_of_the_record_holder() {
    // 277777788888899 has persistence 11
    let digits: Vec<u8> = "277777788888899".bytes().rev().map(|b| b - b'0').collect();
    assert_eq!(run_persistence(&digits, 0), (11, vec![0]));
}

#[test]
fn persistence_of_many_digits() {
    // 2^200 overflows every machine integer: 2^200 has 61 digits
    let digits = vec![2u8; 200];
    let mut cur = digits.clone();
    let mut steps: u64 = 0;
    let r = persistence_steps(&mut cur, &mut steps);
    assert!(r >= 1);
    assert_eq!(cur.len(), 1);
    assert_eq!(steps_within(&digits, u64::MAX), r);
}

#[test]
fn steps_within_stops_at_the_budget() {
    let digits = vec![7u8, 7];
    assert_eq!(steps_within(&digits, 2), 2);
    assert_eq!(steps_within(&digits, 4), 4);
    assert_eq!(steps_within(&digits, 10), 4);
    assert_eq!(steps_within(&digits, 0), 0);
    assert_eq!(steps_within(&vec![8u8], 10), 0);
    assert_eq!(digits, vec![7, 7]);
}

#[test]
fn best_next_plain_increment() {
    let mut v = vec![2];
    best_next(&mut v, 0);
    assert_eq!(v, vec![3]);
    let mut v = vec![7, 4];
    best_next(&mut v, 0);
    assert_eq!(v, vec![8, 4]);
}

#[test]
fn best_next_skips_ignored_digits() {
    // landing on 5 moves on to 6
    let mut v = vec![4, 3];
    best_next(&mut v, 0);
    assert_eq!(v, vec![6, 3]);
    // landing on 1 moves on to 2
    let mut v = vec![0];
    best_next(&mut v, 0);
    assert_eq!(v, vec![2]);
    // a wrap lands on 2 directly
    let mut v = vec![9, 2];
    best_next(&mut v, 0);
    assert_eq!(v, vec![2, 3]);
    // the carry into a 4 skips the 5
    let mut v = vec![9, 4, 7];
    best_next(&mut v, 0);
    assert_eq!(v, vec![2, 6, 7]);
}

#[test]
fn best_next_grows_past_all_nines() {
    let mut v = vec![9];
    best_next(&mut v, 0);
    assert_eq!(v, vec![2, 2]);
    let mut v = vec![9, 9, 9];
    best_next(&mut v, 0);
    assert_eq!(v, vec![2, 2, 2, 2]);
    // from a later position the digits before it stay
    let mut v = vec![3, 9];
    best_next(&mut v, 1);
    assert_eq!(v, vec![3, 2, 2]);
}

#[test]
fn best_next_never_repeats() {
    let mut seen = std::collections::HashSet::new();
    let mut v = vec![2];
    seen.insert(v.clone());
    for _ in 0..3000 {
        best_next(&mut v, 0);
        assert!(v.iter().all(|&d| allowed(d)));
        assert!(seen.insert(v.clone()));
    }
    // 7 + 49 + 343 + 2401 = 2800 sequences of lengths 1 to 4
    assert_eq!(v.len(), 5);
}

#[test]
fn found_candidate_is_sorted() {
    let mut w = Worker::new(9, 3);
    best_next(&mut w.num, 1);
    assert_eq!(w.num, vec![9, 2, 2, 2]);
    match w.decide(12, 11) {
        Action::Found { digits, steps } => assert_eq!((digits, steps), (vec![2, 2, 2, 9], 12)),
        Action::Progress { .. } => panic!("the record was beaten"),
    }
    assert_eq!(w.num, vec![9, 2, 2, 2]);
}

#[test]
fn standard_config() {
    let c = SearchConfig::standard();
    assert_eq!(c.seeds, vec![3, 4, 6, 7, 8, 9]);
    assert_eq!(c.min_len, 20_000);
    assert_eq!(c.record, 11);
}

#[test]
fn worker_moves_on_below_the_record() {
    let mut w = Worker::new(3, 2);
    assert_eq!((w.id, w.num.clone(), w.count), (3, vec![3, 3], 0));
    match w.decide(1, 11) {
        Action::Progress { id, count } => assert_eq!((id, count), (3, 1)),
        Action::Found { .. } => panic!("no record was beaten"),
    }
    assert_eq!((w.num.clone(), w.count), (vec![4, 3], 1));
    match w.decide(11, 11) {
        Action::Progress { id, count } => assert_eq!((id, count), (3, 2)),
        Action::Found { .. } => panic!("equal is not above"),
    }
    assert_eq!(w.num, vec![6, 3]);
}

#[test]
fn worker_reports_a_beaten_record() {
    let mut w = Worker::new(9, 3);
    match w.decide(12, 11) {
        Action::Found { digits, steps } => assert_eq!((digits, steps), (vec![9, 9, 9], 12)),
        Action::Progress { .. } => panic!("the record was beaten"),
    }
    assert_eq!((w.num.clone(), w.count), (vec![9, 9, 9], 0));
}

fn run_worker(seed: u8, len: usize, record: u64) -> (Vec<u8>, u64, Vec<(u8, u128)>) {
    let mut w = Worker::new(seed, len);
    let mut sent = Vec::new();
    loop {
        match w.step(record) {
            Action::Found { digits, steps } => return (digits, steps, sent),
            Action::Progress { id, count } => sent.push((id, count)),
        }
    }
}

#[test]
fn worker_step_computes_persistence() {
    let mut w = Worker::new(3, 2);
    match w.step(1) {
        // 33 -> 9
        Action::Progress { id, count } => assert_eq!((id, count), (3, 1)),
        Action::Found { .. } => panic!("33 has one step"),
    }
    match w.step(1) {
        // 34 -> 12 -> 2
        Action::Found { digits, steps } => assert_eq!((digits, steps), (vec![3, 4], 2)),
        Action::Progress { .. } => panic!("34 has two steps"),
    }
    assert_eq!(w.count, 1);
}

#[test]
fn two_workers_find_candidates_on_their_own() {
    let (a, sa, ma) = run_worker(3, 2, 1);
    let (b, sb, mb) = run_worker(4, 2, 1);
    // 33 -> 9 has one step, 43 -> 12 -> 2 has two
    // reported sorted: 34 is shown as 34
    assert_eq!((a.clone(), sa), (vec![3, 4], 2));
    // 44 -> 16 -> 6 has two steps already
    assert_eq!((b.clone(), sb), (vec![4, 4], 2));
    for (digits, steps) in [(&a, sa), (&b, sb)] {
        assert!(steps > 1);
        assert!(digits.iter().all(|&d| allowed(d)));
        assert_eq!(run_persistence(digits, 0).0, steps);
    }
    assert!(ma.iter().all(|m| m.0 == 3));
    assert!(mb.is_empty());
}

#[test]
fn progress_table_keeps_latest_counts() {
    let mut t = ProgressTable::new();
    assert_eq!(t.counts, vec![0u128; SLOTS]);
    t.record(3, 5);
    t.record(4, 2);
    t.record(3, 7);
    t.record(12, 1);
    assert_eq!(t.counts, vec![0, 0, 0, 7, 2, 0, 0, 0, 0, 0]);
}

#[test]
fn progress_table_after_workers_finish() {
    let (_, _, ma) = run_worker(3, 2, 2);
    let (_, _, mb) = run_worker(4, 2, 2);
    assert_eq!((ma.len(), mb.len()), (5, 2));
    let mut t = ProgressTable::new();
    // interleave the two streams, each in its own order
    let n = ma.len().max(mb.len());
    for k in 0..n {
        if k < mb.len() {
            t.record(mb[k].0, mb[k].1);
        }
        if k < ma.len() {
            t.record(ma[k].0, ma[k].1);
        }
    }
    for slot in 0..SLOTS {
        let expected = match slot {
            3 => ma.len() as u128,
            4 => mb.len() as u128,
            _ => 0,
        };
        assert_eq!(t.counts[slot], expected);
    }
}

#[test]
fn progress_table_slots_never_decrease() {
    // two rising streams, interleaved
    let msgs = [(3u8, 1u128), (7, 1), (7, 2), (3, 2), (3, 3), (7, 3), (3, 4)];
    let mut t = ProgressTable::new();
    let mut before = t.counts.clone();
    for (id, count) in msgs {
        t.record(id, count);
        for slot in 0..SLOTS {
            assert!(t.counts[slot] >= before[slot]);
        }
        before = t.counts.clone();
    }
    assert_eq!(t.counts, vec![0, 0, 0, 4, 0, 0, 0, 3, 0, 0]);
}
