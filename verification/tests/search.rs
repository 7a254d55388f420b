use isolation_checker::ser_checker::{build_index, find_entry, same_counts, SerChecker};
use isolation_checker::transaction::{Get, Op, Put, Transaction};

fn get(key: &str, val: usize) -> Op<String, usize> {
    Op::Get(Get::new(key.to_string(), val))
}

fn put(key: &str, val: usize) -> Op<String, usize> {
    Op::Put(Put::new(key.to_string(), val))
}

fn sample() -> Vec<Vec<Transaction<String, usize>>> {
    vec![
        vec![
            Transaction { ops: vec![put("x", 1), put("y", 1)] },
            Transaction { ops: vec![get("x", 1), put("x", 1)] },
        ],
        vec![Transaction { ops: vec![get("y", 1), put("x", 2), put("x", 2)] }],
    ]
}

#[test]
fn new_starts_at_the_zero_frontier_with_an_empty_memo() {
    let checker = SerChecker::new(sample());
    assert_eq!(checker.searched, vec![0, 0]);
    assert_eq!(checker.searched_cache.len(), 0);
    assert_eq!(checker.transactions.len(), 2);
}

#[test]
fn reverse_index_holds_every_writer_once() {
    let checker = SerChecker::new(sample());
    assert_eq!(checker.kv_rev.len(), 3);
    let x1 = find_entry(&checker.kv_rev, &String::from("x"), &1).expect("x=1 is written");
    assert_eq!(checker.kv_rev[x1].writers, vec![(0, 0), (0, 1)]);
    let y1 = find_entry(&checker.kv_rev, &String::from("y"), &1).expect("y=1 is written");
    assert_eq!(checker.kv_rev[y1].writers, vec![(0, 0)]);
    let x2 = find_entry(&checker.kv_rev, &String::from("x"), &2).expect("x=2 is written");
    assert_eq!(checker.kv_rev[x2].writers, vec![(1, 0)]);
    assert_eq!(find_entry(&checker.kv_rev, &String::from("y"), &2), None);
    assert_eq!(find_entry(&checker.kv_rev, &String::from("z"), &1), None);
    assert_eq!(build_index(&sample()).len(), 3);
}

#[test]
fn lengths_are_sums() {
    let mut checker = SerChecker::new(sample());
    assert_eq!(checker.target_len(), 3);
    assert_eq!(checker.searched_len(), 0);
    assert_eq!(checker.is_terminal(), false);
    checker.searched = vec![2, 0];
    assert_eq!(checker.searched_len(), 2);
    assert_eq!(checker.is_terminal(), false);
    checker.searched = vec![2, 1];
    assert_eq!(checker.searched_len(), 3);
    assert_eq!(checker.is_terminal(), true);
}

#[test]
fn writer_queries_follow_the_frontier() {
    let mut checker = SerChecker::new(sample());
    let x = String::from("x");
    assert_eq!(checker.some_writer_placed(&x, &1), false);
    assert_eq!(checker.all_writers_placed(&x, &1), false);
    assert_eq!(checker.all_writers_placed(&x, &9), true);
    assert_eq!(checker.some_writer_placed(&x, &9), false);
    checker.searched = vec![1, 0];
    assert_eq!(checker.some_writer_placed(&x, &1), true);
    assert_eq!(checker.all_writers_placed(&x, &1), false);
    checker.searched = vec![2, 0];
    assert_eq!(checker.all_writers_placed(&x, &1), true);
    assert_eq!(checker.some_writer_placed(&x, &2), false);
}

#[test]
fn filters_decide_what_is_placeable() {
    let mut checker = SerChecker::new(sample());
    assert_eq!(checker.read_feasible(0), true);
    assert_eq!(checker.read_feasible(1), false);
    assert_eq!(checker.write_conflict(0), false);
    checker.searched = vec![1, 0];
    assert_eq!(checker.read_feasible(0), true);
    assert_eq!(checker.read_feasible(1), true);
    assert_eq!(checker.write_conflict(1), false);
    assert_eq!(checker.strands(1, 0, 1), false);
    assert_eq!(checker.write_conflict(0), false);
}

#[test]
fn write_conflict_protects_an_anchored_read() {
    let history = vec![
        vec![Transaction { ops: vec![put("x", 1)] }],
        vec![Transaction { ops: vec![put("x", 2)] }],
        vec![Transaction { ops: vec![get("x", 1)] }],
    ];
    let mut checker = SerChecker::new(history);
    assert_eq!(checker.write_conflict(1), false);
    checker.searched = vec![1, 0, 0];
    assert_eq!(checker.strands(1, 2, 0), true);
    assert_eq!(checker.write_conflict(1), true);
    assert_eq!(checker.read_feasible(2), true);
    assert_eq!(checker.write_conflict(2), false);
    assert_eq!(checker.check(), true);
    assert_eq!(checker.searched, vec![1, 0, 0]);
}

#[test]
fn check_restores_the_frontier_and_fills_the_memo() {
    let mut checker = SerChecker::new(sample());
    assert_eq!(checker.check(), true);
    assert_eq!(checker.searched, vec![0, 0]);
    assert!(checker.searched_cache.len() >= 1);
    for (frontier, found) in checker.searched_cache.iter() {
        let mut again = SerChecker::new(sample());
        again.searched = frontier.clone();
        assert_eq!(again.check(), *found);
        assert_eq!(&again.searched, frontier);
    }
    assert_eq!(checker.check(), true);
}

#[test]
fn check_fails_where_no_order_exists() {
    let history = vec![
        vec![Transaction { ops: vec![get("x", 2), put("x", 1)] }],
        vec![Transaction { ops: vec![get("x", 1), put("x", 2)] }],
    ];
    let mut checker = SerChecker::new(history);
    assert_eq!(checker.check(), false);
    assert_eq!(checker.searched, vec![0, 0]);
}

#[test]
fn memo_recalls_what_it_was_told() {
    let mut checker = SerChecker::new(sample());
    assert_eq!(checker.recall(), None);
    checker.searched = vec![2, 1];
    checker.remember(true);
    assert_eq!(checker.recall(), Some(true));
    checker.searched = vec![2, 0];
    assert_eq!(checker.recall(), None);
    assert!(same_counts(&vec![1, 2], &vec![1, 2]));
    assert!(!same_counts(&vec![1, 2], &vec![1, 3]));
    assert!(!same_counts(&vec![1, 2], &vec![1]));
}
