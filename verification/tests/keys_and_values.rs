use isolation_checker::guard::make_usize_guard;
use isolation_checker::transaction::{
    AbnormalValue, GenerateGuard, Get, History, Key, Op, Put, Transaction, Value,
};

#[test]
fn string_guard_is_marker_index_separator_key() {
    let key = String::from("x");
    assert_eq!(key.generate_guard(0), "__checker__0__x");
    assert_eq!(key.generate_guard(7), "__checker__7__x");
    assert_eq!(key.generate_guard(10), "__checker__10__x");
    assert_eq!(key.generate_guard(1234567890), "__checker__1234567890__x");
    assert_eq!(String::new().generate_guard(3), "__checker__3__");
    assert_ne!(key.generate_guard(1), key);
}

#[test]
fn string_guards_of_different_clients_differ() {
    let key = String::from("balance");
    for i in 0..30usize {
        for j in 0..30usize {
            if i != j {
                assert_ne!(key.generate_guard(i), key.generate_guard(j));
            }
        }
    }
}

#[test]
fn usize_guard_is_the_place_in_the_clients_block() {
    assert_eq!(5usize.generate_guard(0), 1029);
    assert_eq!(5usize.generate_guard(2), 3077);
    assert_eq!(0usize.generate_guard(0), 1024);
    assert_eq!(1023usize.generate_guard(1), 3071);
    assert_eq!(make_usize_guard(7, 3), 4103);
}

#[test]
fn usize_guard_without_room_is_the_key() {
    assert_eq!(5usize.generate_guard(usize::MAX), 5);
    assert_eq!(usize::MAX.generate_guard(0), usize::MAX);
    let last = usize::MAX / 1024 - 1;
    assert_eq!(0usize.generate_guard(last), (last + 1) * 1024);
    assert_eq!(0usize.generate_guard(last + 1), 0);
}

#[test]
fn abnormal_value_differs_from_default() {
    assert_eq!(<usize as AbnormalValue>::abnormal_value(), 1);
    assert_eq!(<usize as Value>::default_value(), 0);
    assert_eq!(<String as AbnormalValue>::abnormal_value(), "1");
    assert_eq!(<String as Value>::default_value(), "");
}

#[test]
fn keys_and_values_compare_and_copy_by_content() {
    let a = String::from("k");
    let b = String::from("k");
    assert!(a.same_key(&b));
    assert!(!a.same_key(&String::from("j")));
    assert_eq!(a.copy_key(), "k");
    assert!(3usize.same_key(&3));
    assert!(!3usize.same_key(&4));
    assert_eq!(3usize.copy_key(), 3);
    assert!(a.same_value(&b));
    assert!(!a.same_value(&String::new()));
    assert_eq!(a.copy_value(), "k");
    assert!(9usize.same_value(&9));
    assert!(!9usize.same_value(&8));
    assert_eq!(9usize.copy_value(), 9);
}

#[test]
fn constructors_keep_their_arguments() {
    let put = Put::new(String::from("x"), 4usize);
    assert_eq!(put.key, "x");
    assert_eq!(put.val, 4);
    let get = Get::new(7usize, String::from("seen"));
    assert_eq!(get.key, 7);
    assert_eq!(get.val, "seen");
}

#[test]
fn operations_give_their_key_and_duplicate() {
    let op: Op<String, usize> = Op::Put(Put::new(String::from("x"), 4));
    assert_eq!(op.key(), "x");
    match op.duplicate() {
        Op::Put(put) => {
            assert_eq!(put.key, "x");
            assert_eq!(put.val, 4);
        }
        Op::Get(_) => panic!("a write was duplicated into a read"),
    }
    let op: Op<String, usize> = Op::Get(Get::new(String::from("y"), 2));
    assert_eq!(op.key(), "y");
    assert!(matches!(op.duplicate(), Op::Get(_)));
}

#[test]
fn histories_of_integer_keys_are_checked_too() {
    let t1 = Transaction { ops: vec![Op::Get(Get::new(1usize, 0usize)), Op::Put(Put::new(1, 1))] };
    let t2 = Transaction { ops: vec![Op::Get(Get::new(1usize, 0usize)), Op::Put(Put::new(1, 2))] };
    let history = History::new(vec![vec![t1], vec![t2]]);
    assert_eq!(history.ser_check(), false);
    assert_eq!(history.si_check(), false);
    assert_eq!(history.prefix_check(), true);
}
