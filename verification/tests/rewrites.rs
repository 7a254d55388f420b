use isolation_checker::transaction::{Get, History, Op, Put, Transaction};

fn x() -> String {
    String::from("x")
}

fn y() -> String {
    String::from("y")
}

fn get(key: &str, val: usize) -> Op<String, usize> {
    Op::Get(Get::new(key.to_string(), val))
}

fn put(key: &str, val: usize) -> Op<String, usize> {
    Op::Put(Put::new(key.to_string(), val))
}

fn show(ops: &Vec<Op<String, usize>>) -> Vec<String> {
    ops.iter()
        .map(|op| match op {
            Op::Put(put) => format!("put {}={}", put.key, put.val),
            Op::Get(get) => format!("get {}={}", get.key, get.val),
        })
        .collect()
}

#[test]
fn writes_finds_a_written_key_only() {
    let t = Transaction { ops: vec![get("x", 0), put("y", 1)] };
    assert_eq!(t.writes(y()), true);
    assert_eq!(t.writes(x()), false);
    assert_eq!(t.writes(String::from("z")), false);

    let empty: Transaction<String, usize> = Transaction { ops: vec![] };
    assert_eq!(empty.writes(x()), false);
}

#[test]
fn split_groups_reads_before_writes_in_order() {
    let t = Transaction {
        ops: vec![put("a", 1), get("b", 2), put("c", 3), get("d", 4), get("a", 1)],
    };
    let (r, w) = t.split();
    assert_eq!(show(&r.ops), vec!["get b=2", "get d=4", "get a=1"]);
    assert_eq!(show(&w.ops), vec!["put a=1", "put c=3"]);
    assert_eq!(t.ops.len(), 5);
}

#[test]
fn split_of_an_empty_transaction_is_two_empty_halves() {
    let t: Transaction<String, usize> = Transaction { ops: vec![] };
    let (r, w) = t.split();
    assert_eq!(r.ops.len(), 0);
    assert_eq!(w.ops.len(), 0);
}

#[test]
fn vars_lists_keys_once_with_their_writing_clients() {
    let history = History::new(vec![
        vec![Transaction { ops: vec![get("x", 0), put("y", 1)] }],
        vec![Transaction { ops: vec![get("z", 0)] }, Transaction { ops: vec![put("y", 2)] }],
        vec![Transaction { ops: vec![put("x", 3), get("y", 1)] }],
    ]);
    let vars = history.vars();
    assert_eq!(
        vars,
        vec![
            (String::from("x"), vec![2]),
            (String::from("y"), vec![0, 1]),
            (String::from("z"), vec![]),
        ]
    );
    assert_eq!(history.writing_clients(&y()), vec![0, 1]);
    assert_eq!(history.writing_clients(&String::from("w")), Vec::<usize>::new());
}

#[test]
fn pre_init_appends_one_client_writing_the_default_to_every_key() {
    let mut history = History::new(vec![
        vec![Transaction { ops: vec![get("x", 0), put("y", 1)] }],
        vec![Transaction { ops: vec![get("y", 1), get("x", 0)] }],
    ]);
    history.pre_init();
    assert_eq!(history.transactions.len(), 3);
    assert_eq!(history.transactions[2].len(), 1);
    assert_eq!(show(&history.transactions[2][0].ops), vec!["put x=0", "put y=0"]);
    assert_eq!(show(&history.transactions[0][0].ops), vec!["get x=0", "put y=1"]);
}

#[test]
fn pre_init_of_an_empty_history_adds_an_empty_transaction() {
    let mut history: History<String, usize> = History::new(vec![]);
    history.pre_init();
    assert_eq!(history.transactions.len(), 1);
    assert_eq!(history.transactions[0].len(), 1);
    assert_eq!(history.transactions[0][0].ops.len(), 0);
}

#[test]
fn split_rewrite_doubles_every_session() {
    let history = History::new(vec![
        vec![
            Transaction { ops: vec![put("x", 1), get("y", 0)] },
            Transaction { ops: vec![get("x", 1)] },
        ],
        vec![],
    ]);
    let split = history.split_rewrite();
    assert_eq!(split.transactions.len(), 2);
    assert_eq!(split.transactions[0].len(), 4);
    assert_eq!(split.transactions[1].len(), 0);
    assert_eq!(show(&split.transactions[0][0].ops), vec!["get y=0"]);
    assert_eq!(show(&split.transactions[0][1].ops), vec!["put x=1"]);
    assert_eq!(show(&split.transactions[0][2].ops), vec!["get x=1"]);
    assert_eq!(show(&split.transactions[0][3].ops), Vec::<String>::new());
}

#[test]
fn si_rewrite_reserves_and_stamps_guards() {
    let history = History::new(vec![
        vec![Transaction { ops: vec![get("x", 0), put("x", 1)] }],
        vec![Transaction { ops: vec![get("x", 0), put("x", 2), put("y", 3)] }],
    ]);
    let encoded = history.si_rewrite();
    assert_eq!(encoded.transactions.len(), 2);
    assert_eq!(encoded.transactions[0].len(), 2);
    assert_eq!(
        show(&encoded.transactions[0][0].ops),
        vec!["get x=0", "put __checker__0__x=0"]
    );
    assert_eq!(
        show(&encoded.transactions[0][1].ops),
        vec!["put x=1", "get __checker__0__x=0", "put __checker__1__x=1"]
    );
    assert_eq!(
        show(&encoded.transactions[1][0].ops),
        vec!["get x=0", "put __checker__1__x=0", "put __checker__1__y=0"]
    );
    assert_eq!(
        show(&encoded.transactions[1][1].ops),
        vec![
            "put x=2",
            "put y=3",
            "put __checker__0__x=1",
            "get __checker__1__x=0",
            "get __checker__1__y=0"
        ]
    );
}

#[test]
fn si_rewrite_leaves_read_only_transactions_split_only() {
    let history = History::new(vec![vec![Transaction { ops: vec![get("x", 0), get("y", 0)] }]]);
    let encoded = history.si_rewrite();
    assert_eq!(show(&encoded.transactions[0][0].ops), vec!["get x=0", "get y=0"]);
    assert_eq!(encoded.transactions[0][1].ops.len(), 0);
}

#[test]
fn guards_are_fresh_where_no_key_looks_like_a_guard() {
    let history = History::new(vec![
        vec![Transaction { ops: vec![get("x", 0), put("x", 1)] }],
        vec![Transaction { ops: vec![get("__checker__x", 0), put("y", 2)] }],
    ]);
    assert_eq!(history.guards_fresh(), true);

    let empty: History<String, usize> = History::new(vec![]);
    assert_eq!(empty.guards_fresh(), true);
}

#[test]
fn guards_are_not_fresh_where_a_key_is_a_guard_of_a_written_key() {
    let history = History::new(vec![
        vec![Transaction { ops: vec![put("x", 1)] }],
        vec![Transaction { ops: vec![get("__checker__1__x", 0)] }],
    ]);
    assert_eq!(history.guards_fresh(), false);

    let only_read = History::new(vec![
        vec![Transaction { ops: vec![get("x", 1)] }],
        vec![Transaction { ops: vec![get("__checker__1__x", 0)] }],
    ]);
    assert_eq!(only_read.guards_fresh(), true);

    let beyond_the_clients = History::new(vec![
        vec![Transaction { ops: vec![put("x", 1)] }],
        vec![Transaction { ops: vec![get("__checker__2__x", 0)] }],
    ]);
    assert_eq!(beyond_the_clients.guards_fresh(), true);
}

#[test]
fn integer_guards_collide_with_keys_in_a_clients_block() {
    let low = History::new(vec![vec![Transaction {
        ops: vec![Op::Put(Put::new(5usize, 1usize)), Op::Get(Get::new(6usize, 0usize))],
    }]]);
    assert_eq!(low.guards_fresh(), true);

    let high = History::new(vec![vec![Transaction {
        ops: vec![Op::Put(Put::new(5usize, 1usize)), Op::Get(Get::new(1029usize, 0usize))],
    }]]);
    assert_eq!(high.guards_fresh(), false);
}
