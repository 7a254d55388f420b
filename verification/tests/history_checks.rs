use isolation_checker::transaction::{Get, History, Op, Put, Transaction};

fn x() -> String {
    String::from("x")
}

fn y() -> String {
    String::from("y")
}

fn get(key: String, val: usize) -> Op<String, usize> {
    Op::Get(Get::new(key, val))
}

fn put(key: String, val: usize) -> Op<String, usize> {
    Op::Put(Put::new(key, val))
}

#[test]
fn serializability_check() {
    let t1 = Transaction {
        ops: vec![Op::Put(Put::new(x(), 1)), Op::Put(Put::new(y(), 1))],
    };

    let t2 = Transaction {
        ops: vec![
            Op::Get(Get::new(x(), 1)),
            Op::Get(Get::new(y(), 1)),
            Op::Put(Put::new(x(), 2)),
        ],
    };

    let t3 = Transaction {
        ops: vec![
            Op::Get(Get::new(x(), 1)),
            Op::Get(Get::new(y(), 1)),
            Op::Put(Put::new(y(), 2)),
        ],
    };

    let history = History::new(vec![vec![t1], vec![t2], vec![t3]]);

    assert_eq!(history.ser_check(), false);
}

#[test]
fn lost_update() {
    let t1 = Transaction {
        ops: vec![Op::Get(Get::new(x(), 0)), Op::Put(Put::new(x(), 1))],
    };

    let t2 = Transaction {
        ops: vec![Op::Get(Get::new(x(), 0)), Op::Put(Put::new(x(), 2))],
    };

    let history = History::new(vec![vec![t1], vec![t2]]);

    assert_eq!(history.ser_check(), false);
    assert_eq!(history.si_check(), false);
    assert_eq!(history.prefix_check(), true);
}

#[test]
fn long_fork() {
    let t1 = Transaction {
        ops: vec![Op::Get(Get::new(x(), 0)), Op::Put(Put::new(x(), 1))],
    };

    let t2 = Transaction {
        ops: vec![Op::Get(Get::new(y(), 0)), Op::Put(Put::new(y(), 1))],
    };

    let t3 = Transaction {
        ops: vec![Op::Get(Get::new(x(), 1)), Op::Get(Get::new(y(), 0))],
    };

    let t4 = Transaction {
        ops: vec![Op::Get(Get::new(x(), 0)), Op::Get(Get::new(y(), 1))],
    };

    let history = History::new(vec![vec![t1], vec![t2], vec![t3], vec![t4]]);

    assert_eq!(history.ser_check(), false);
    assert_eq!(history.si_check(), false);
    assert_eq!(history.prefix_check(), false);
}

#[test]
fn write_skew() {
    let t1 = Transaction {
        ops: vec![
            Op::Get(Get::new(x(), 0)),
            Op::Get(Get::new(y(), 0)),
            Op::Put(Put::new(x(), 1)),
        ],
    };

    let t2 = Transaction {
        ops: vec![
            Op::Get(Get::new(x(), 0)),
            Op::Get(Get::new(y(), 0)),
            Op::Put(Put::new(y(), 1)),
        ],
    };

    let history = History::new(vec![vec![t1], vec![t2]]);

    assert_eq!(history.ser_check(), false);
    assert_eq!(history.si_check(), true);
    assert_eq!(history.prefix_check(), true);
}

#[test]
fn trivially_serial() {
    let t1 = Transaction { ops: vec![put(x(), 1)] };
    let t2 = Transaction { ops: vec![get(x(), 1), put(x(), 2)] };
    let history = History::new(vec![vec![t1, t2]]);

    assert_eq!(history.ser_check(), true);
    assert_eq!(history.si_check(), true);
    assert_eq!(history.prefix_check(), true);
}

#[test]
fn unread_write() {
    let t1 = Transaction { ops: vec![put(x(), 5)] };
    let t2 = Transaction { ops: vec![get(x(), 0)] };
    let history = History::new(vec![vec![t1], vec![t2]]);

    assert_eq!(history.ser_check(), true);
    assert_eq!(history.si_check(), true);
    assert_eq!(history.prefix_check(), true);
}

#[test]
fn empty_history_passes_every_check() {
    let history: History<String, usize> = History::new(vec![]);

    assert_eq!(history.ser_check(), true);
    assert_eq!(history.si_check(), true);
    assert_eq!(history.prefix_check(), true);
}

#[test]
fn read_of_a_value_never_written_fails() {
    let t1 = Transaction { ops: vec![put(x(), 1)] };
    let t2 = Transaction { ops: vec![get(x(), 7)] };
    let history = History::new(vec![vec![t1], vec![t2]]);

    assert_eq!(history.ser_check(), false);
    assert_eq!(history.si_check(), false);
    assert_eq!(history.prefix_check(), false);
}

#[test]
fn a_transaction_cannot_read_its_own_write() {
    let t1 = Transaction { ops: vec![get(x(), 1), put(x(), 1)] };
    let history = History::new(vec![vec![t1]]);

    assert_eq!(history.ser_check(), false);
}

#[test]
fn program_order_is_respected() {
    let t1 = Transaction { ops: vec![get(x(), 1)] };
    let t2 = Transaction { ops: vec![put(x(), 1)] };
    let history = History::new(vec![vec![t1, t2]]);
    assert_eq!(history.ser_check(), false);

    let t1 = Transaction { ops: vec![get(x(), 1)] };
    let t2 = Transaction { ops: vec![put(x(), 1)] };
    let history = History::new(vec![vec![t1], vec![t2]]);
    assert_eq!(history.ser_check(), true);
}

#[test]
fn checks_are_repeatable() {
    let t1 = Transaction { ops: vec![get(x(), 0), get(y(), 0), put(x(), 1)] };
    let t2 = Transaction { ops: vec![get(x(), 0), get(y(), 0), put(y(), 1)] };
    let history = History::new(vec![vec![t1], vec![t2]]);

    for _ in 0..3 {
        assert_eq!(history.ser_check(), false);
        assert_eq!(history.si_check(), true);
        assert_eq!(history.prefix_check(), true);
    }
    assert_eq!(history.transactions.len(), 2);
}

#[test]
fn prefix_check_is_ser_check_of_the_split_history() {
    let t1 = Transaction { ops: vec![get(x(), 0), put(x(), 1)] };
    let t2 = Transaction { ops: vec![get(x(), 0), put(x(), 2)] };
    let history = History::new(vec![vec![t1], vec![t2]]);

    assert_eq!(history.prefix_check(), history.split_rewrite().ser_check());
    assert_eq!(history.si_check(), history.si_rewrite().ser_check());
}

#[test]
fn serializable_histories_pass_the_weaker_checks() {
    let t1 = Transaction { ops: vec![put(x(), 1), put(y(), 1)] };
    let t2 = Transaction { ops: vec![get(x(), 1), put(y(), 2)] };
    let t3 = Transaction { ops: vec![get(y(), 2), get(x(), 1)] };
    let history = History::new(vec![vec![t1], vec![t2], vec![t3]]);

    assert_eq!(history.ser_check(), true);
    assert_eq!(history.prefix_check(), true);
    assert_eq!(history.si_check(), true);
}
