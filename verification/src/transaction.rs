//! Operations, transactions and histories, and the three checks.

use vstd::prelude::*;
use crate::guard::{format_string_guard, make_usize_guard, string_guard, usize_guard};
use crate::model::{
    as_ints, lemma_writes_of, reads_of, txn_writes, writes_of, HistoryView, OpView, TxnView,
};
use crate::rewrite::{
    client_writes, first_occurrences, guards_fresh, history_keys, key_written, keys_of_client,
    keys_of_history, keys_of_txn, lemma_key_listed, lemma_written_has_clients,
    lemma_written_listed, origin_txn, prefix_consistent, reservations, serializable, si_client,
    si_history, si_reads, si_writes, snapshot_isolated, split_client, split_history, stamp, stamps,
    stamps_of_key, with_origin, writing_clients, writing_clients_upto,
};
use crate::ser_checker::SerChecker;

verus! {

/// Derives the guard keys that the snapshot-isolation encoding adds.
pub trait GenerateGuard: Sized + View {
    /// The view of the guard of `key` for client `index`.
    spec fn guard_view(key: Self::V, index: nat) -> Self::V;

    /// The guard of this key for client `index`.
    fn generate_guard(&self, index: usize) -> (guard: Self)
        ensures
            guard@ == Self::guard_view(self@, index as nat),
    ;
}

/// Supplies the value that marks a guard as taken.
pub trait AbnormalValue: Sized + View {
    /// The view of the abnormal value.
    spec fn abnormal_view() -> Self::V;

    /// The abnormal value.
    fn abnormal_value() -> (val: Self)
        ensures
            val@ == Self::abnormal_view(),
    ;
}

/// What the search needs of a key: comparison and duplication by view.
pub trait Key: Clone + GenerateGuard {
    /// Whether the two keys are the same key.
    fn same_key(&self, other: &Self) -> (same: bool)
        ensures
            same == (self@ == other@),
    ;

    /// A copy of the key.
    fn copy_key(&self) -> (copy: Self)
        ensures
            copy@ == self@,
    ;
}

/// What the search needs of a value: comparison, duplication, the initial
/// value of every key, and an abnormal value that differs from it.
pub trait Value: Clone + AbnormalValue {
    /// The view of the value that every key holds before any write.
    spec fn default_view() -> Self::V;

    /// The value that every key holds before any write.
    fn default_value() -> (val: Self)
        ensures
            val@ == Self::default_view(),
    ;

    /// Whether the two values are the same value.
    fn same_value(&self, other: &Self) -> (same: bool)
        ensures
            same == (self@ == other@),
    ;

    /// A copy of the value.
    fn copy_value(&self) -> (copy: Self)
        ensures
            copy@ == self@,
    ;

    /// The abnormal value is not the initial value.
    proof fn abnormal_differs_from_default()
        ensures
            Self::abnormal_view() != Self::default_view(),
    ;
}

impl GenerateGuard for usize {
    open spec fn guard_view(key: usize, index: nat) -> usize {
        usize_guard(key, index)
    }

    fn generate_guard(&self, index: usize) -> (guard: Self) {
        make_usize_guard(*self, index)
    }
}

impl AbnormalValue for usize {
    open spec fn abnormal_view() -> usize {
        1
    }

    fn abnormal_value() -> (val: Self) {
        1
    }
}

impl Key for usize {
    fn same_key(&self, other: &Self) -> (same: bool) {
        *self == *other
    }

    fn copy_key(&self) -> (copy: Self) {
        *self
    }
}

impl Value for usize {
    open spec fn default_view() -> usize {
        0
    }

    fn default_value() -> (val: Self) {
        0
    }

    fn same_value(&self, other: &Self) -> (same: bool) {
        *self == *other
    }

    fn copy_value(&self) -> (copy: Self) {
        *self
    }

    proof fn abnormal_differs_from_default() {
    }
}

impl GenerateGuard for String {
    open spec fn guard_view(key: Seq<char>, index: nat) -> Seq<char> {
        string_guard(key, index)
    }

    fn generate_guard(&self, index: usize) -> (guard: Self) {
        format_string_guard(self, index)
    }
}

impl AbnormalValue for String {
    open spec fn abnormal_view() -> Seq<char> {
        seq!['1']
    }

    fn abnormal_value() -> (val: Self) {
        proof {
            reveal_strlit("1");
        }
        let val = "1".to_owned();
        assert(val@ =~= seq!['1']);
        val
    }
}

impl Key for String {
    fn same_key(&self, other: &Self) -> (same: bool) {
        *self == *other
    }

    fn copy_key(&self) -> (copy: Self) {
        self.clone()
    }
}

impl Value for String {
    open spec fn default_view() -> Seq<char> {
        Seq::empty()
    }

    fn default_value() -> (val: Self) {
        String::new()
    }

    fn same_value(&self, other: &Self) -> (same: bool) {
        *self == *other
    }

    fn copy_value(&self) -> (copy: Self) {
        self.clone()
    }

    proof fn abnormal_differs_from_default() {
        assert(seq!['1'].len() == 1);
    }
}

/// A write of `val` to `key`.
#[derive(Clone, Debug)]
pub struct Put<K: Key, V: Value> {
    pub key: K,
    pub val: V,
}

impl<K: Key, V: Value> Put<K, V> {
    pub fn new(key: K, val: V) -> (put: Self)
        ensures
            put.key == key,
            put.val == val,
    {
        Put { key, val }
    }
}

/// A read of `key` that observed `val`.
#[derive(Clone, Debug)]
pub struct Get<K: Key, V: Value> {
    pub key: K,
    pub val: V,
}

impl<K: Key, V: Value> Get<K, V> {
    pub fn new(key: K, val: V) -> (get: Self)
        ensures
            get.key == key,
            get.val == val,
    {
        Get { key, val }
    }
}

/// One recorded operation: a write, or a read with the value it observed.
#[derive(Clone, Debug)]
pub enum Op<K: Key, V: Value> {
    Put(Put<K, V>),
    Get(Get<K, V>),
}

impl<K: Key, V: Value> View for Op<K, V> {
    type V = OpView<K::V, V::V>;

    open spec fn view(&self) -> OpView<K::V, V::V> {
        match *self {
            Op::Put(put) => OpView::Put { key: put.key@, val: put.val@ },
            Op::Get(get) => OpView::Get { key: get.key@, val: get.val@ },
        }
    }
}

/// The operations that a vector of operations stands for.
pub open spec fn ops_view<K: Key, V: Value>(ops: Seq<Op<K, V>>) -> TxnView<K::V, V::V> {
    ops.map_values(|op: Op<K, V>| op@)
}

impl<K: Key, V: Value> Op<K, V> {
    /// The key that the operation reads or writes.
    pub fn key(&self) -> (key: &K)
        ensures
            key@ == self@.key(),
    {
        match self {
            Op::Put(put) => &put.key,
            Op::Get(get) => &get.key,
        }
    }

    /// A copy of the operation with the same view.
    pub fn duplicate(&self) -> (copy: Self)
        ensures
            copy@ == self@,
    {
        match self {
            Op::Put(put) => Op::Put(Put::new(put.key.copy_key(), put.val.copy_value())),
            Op::Get(get) => Op::Get(Get::new(get.key.copy_key(), get.val.copy_value())),
        }
    }
}

/// An atomic, ordered list of operations.
#[derive(Clone, Debug)]
pub struct Transaction<K: Key, V: Value> {
    pub ops: Vec<Op<K, V>>,
}

impl<K: Key, V: Value> View for Transaction<K, V> {
    type V = Seq<OpView<K::V, V::V>>;

    open spec fn view(&self) -> Seq<OpView<K::V, V::V>> {
        ops_view(self.ops@)
    }
}

/// The session that a list of transactions stands for.
pub open spec fn client_view<K: Key, V: Value>(client: Vec<Transaction<K, V>>) -> Seq<
    TxnView<K::V, V::V>,
> {
    client@.map_values(|t: Transaction<K, V>| t@)
}

/// The history that a list of client sessions stands for.
pub open spec fn clients_view<K: Key, V: Value>(
    clients: Vec<Vec<Transaction<K, V>>>,
) -> HistoryView<K::V, V::V> {
    clients@.map_values(|client: Vec<Transaction<K, V>>| client_view(client))
}

/// The keys that a vector of keys stands for.
pub open spec fn keys_view<K: Key>(keys: Seq<K>) -> Seq<K::V> {
    keys.map_values(|key: K| key@)
}

/// The keys of a table that lists, for each key, the clients that write it.
pub open spec fn vars_keys<K: Key>(vars: Seq<(K, Vec<usize>)>) -> Seq<K::V> {
    vars.map_values(|entry: (K, Vec<usize>)| entry.0@)
}

/// The table lists every key of the history once, in the order of first
/// use, each with the clients that write it, in ascending order.
pub open spec fn vars_of<K: Key, V: Value>(
    vars: Seq<(K, Vec<usize>)>,
    h: HistoryView<K::V, V::V>,
) -> bool {
    &&& vars_keys(vars) == history_keys(h)
    &&& forall|j: int|
        0 <= j < vars.len() ==> as_ints((#[trigger] vars[j]).1@) == writing_clients(h, vars[j].0@)
}

impl<K: Key, V: Value> Transaction<K, V> {
    /// Whether the transaction writes `key`, whatever the value.
    pub fn writes(&self, key: K) -> (found: bool)
        ensures
            found == txn_writes(self@, key@),
    {
        let mut i: usize = 0;
        while i < self.ops.len()
            invariant
                i <= self.ops.len(),
                forall|o: int| 0 <= o < i ==> !((#[trigger] self@[o]) is Put && self@[o].key() == key@),
            decreases self.ops.len() - i,
        {
            if let Op::Put(put) = &self.ops[i] {
                if put.key.same_key(&key) {
                    assert(self@[i as int] is Put && self@[i as int].key() == key@);
                    return true;
                }
            }
            i += 1;
        }
        false
    }

    /// The reads and the writes of the transaction as two transactions, each
    /// in the order in which the operations stood.
    pub fn split(&self) -> (halves: (Transaction<K, V>, Transaction<K, V>))
        ensures
            halves.0@ == reads_of(self@),
            halves.1@ == writes_of(self@),
    {
        let mut gets: Vec<Op<K, V>> = Vec::new();
        let mut puts: Vec<Op<K, V>> = Vec::new();
        let mut i: usize = 0;
        assert(self@.take(0) =~= Seq::empty());
        assert(ops_view(gets@) =~= Seq::empty());
        assert(ops_view(puts@) =~= Seq::empty());
        proof {
            reveal(Seq::filter);
        }
        while i < self.ops.len()
            invariant
                i <= self.ops.len(),
                ops_view(gets@) == reads_of(self@.take(i as int)),
                ops_view(puts@) == writes_of(self@.take(i as int)),
            decreases self.ops.len() - i,
        {
            let op = &self.ops[i];
            let ghost before = self@.take(i as int);
            let ghost old_gets = gets@;
            let ghost old_puts = puts@;
            proof {
                assert(self@.take(i + 1) =~= before.push(self@[i as int]));
                before.lemma_filter_push(self@[i as int], |op: OpView<K::V, V::V>| op is Get);
                before.lemma_filter_push(self@[i as int], |op: OpView<K::V, V::V>| op is Put);
            }
            match op {
                Op::Put(_) => {
                    puts.push(op.duplicate());
                    assert(ops_view(puts@) =~= ops_view(old_puts).push(self@[i as int]));
                },
                Op::Get(_) => {
                    gets.push(op.duplicate());
                    assert(ops_view(gets@) =~= ops_view(old_gets).push(self@[i as int]));
                },
            }
            i += 1;
        }
        assert(self@.take(i as int) =~= self@);
        (Transaction { ops: gets }, Transaction { ops: puts })
    }

    /// A copy of the transaction with the same view.
    pub fn duplicate(&self) -> (copy: Self)
        ensures
            copy@ == self@,
    {
        let mut ops: Vec<Op<K, V>> = Vec::new();
        let mut o: usize = 0;
        while o < self.ops.len()
            invariant
                o <= self.ops@.len(),
                ops_view(ops@) == self@.take(o as int),
            decreases self.ops@.len() - o,
        {
            let ghost before = ops@;
            ops.push(self.ops[o].duplicate());
            assert(ops_view(ops@) =~= ops_view(before).push(self@[o as int]));
            assert(self@.take(o + 1) =~= self@.take(o as int).push(self@[o as int]));
            o += 1;
        }
        assert(self@.take(o as int) =~= self@);
        Transaction { ops }
    }
}

/// A copy of a session with the same view.
pub fn copy_client<K: Key, V: Value>(client: &Vec<Transaction<K, V>>) -> (copy: Vec<
    Transaction<K, V>,
>)
    ensures
        client_view(copy) == client_view(*client),
{
    let mut copy: Vec<Transaction<K, V>> = Vec::new();
    let mut d: usize = 0;
    while d < client.len()
        invariant
            d <= client@.len(),
            client_view(copy) == client_view(*client).take(d as int),
        decreases client@.len() - d,
    {
        let ghost before = copy;
        let ghost cv = client_view(*client);
        copy.push(client[d].duplicate());
        assert(client_view(copy) =~= client_view(before).push(cv[d as int]));
        assert(cv.take(d + 1) =~= cv.take(d as int).push(cv[d as int]));
        d += 1;
    }
    assert(client_view(*client).take(d as int) =~= client_view(*client));
    copy
}

/// A copy of a list of sessions with the same view.
pub fn copy_clients<K: Key, V: Value>(clients: &Vec<Vec<Transaction<K, V>>>) -> (copy: Vec<
    Vec<Transaction<K, V>>,
>)
    ensures
        clients_view(copy) == clients_view(*clients),
{
    let mut copy: Vec<Vec<Transaction<K, V>>> = Vec::new();
    let mut c: usize = 0;
    while c < clients.len()
        invariant
            c <= clients@.len(),
            clients_view(copy) == clients_view(*clients).take(c as int),
        decreases clients@.len() - c,
    {
        let ghost before = copy;
        let ghost hv = clients_view(*clients);
        copy.push(copy_client(&clients[c]));
        assert(clients_view(copy) =~= clients_view(before).push(hv[c as int]));
        assert(hv.take(c + 1) =~= hv.take(c as int).push(hv[c as int]));
        c += 1;
    }
    assert(clients_view(*clients).take(c as int) =~= clients_view(*clients));
    copy
}

/// Whether the vector of keys holds `key`.
pub fn holds_key<K: Key>(keys: &Vec<K>, key: &K) -> (found: bool)
    ensures
        found == keys_view(keys@).contains(key@),
{
    let mut j: usize = 0;
    while j < keys.len()
        invariant
            j <= keys@.len(),
            forall|k: int| 0 <= k < j ==> keys_view(keys@)[k] != key@,
        decreases keys@.len() - j,
    {
        if keys[j].same_key(key) {
            assert(keys_view(keys@)[j as int] == key@);
            return true;
        }
        j += 1;
    }
    false
}

/// Adds the keys of a transaction that `keys` does not hold yet.
fn add_txn_keys<K: Key, V: Value>(
    keys: &mut Vec<K>,
    t: &Transaction<K, V>,
    Ghost(seen): Ghost<Seq<K::V>>,
)
    requires
        keys_view(old(keys)@) == first_occurrences(seen),
    ensures
        keys_view(final(keys)@) == first_occurrences(seen + keys_of_txn(t@)),
{
    let ghost listed = keys_of_txn(t@);
    let mut o: usize = 0;
    assert(seen + listed.take(0) =~= seen);
    while o < t.ops.len()
        invariant
            listed == keys_of_txn(t@),
            o <= t.ops@.len(),
            keys_view(keys@) == first_occurrences(seen + listed.take(o as int)),
        decreases t.ops@.len() - o,
    {
        let key = t.ops[o].key();
        let ghost before = seen + listed.take(o as int);
        let ghost after = seen + listed.take(o + 1);
        let ghost old_keys = keys@;
        proof {
            assert(after.drop_last() =~= before);
            assert(after.last() == key@);
        }
        if !holds_key(keys, key) {
            keys.push(key.copy_key());
            assert(keys_view(keys@) =~= keys_view(old_keys).push(key@));
        }
        o += 1;
    }
    assert(listed.take(o as int) =~= listed);
}

/// Adds the keys of a session that `keys` does not hold yet.
fn add_client_keys<K: Key, V: Value>(
    keys: &mut Vec<K>,
    client: &Vec<Transaction<K, V>>,
    Ghost(seen): Ghost<Seq<K::V>>,
)
    requires
        keys_view(old(keys)@) == first_occurrences(seen),
    ensures
        keys_view(final(keys)@) == first_occurrences(seen + keys_of_client(client_view(*client))),
{
    let ghost cv = client_view(*client);
    let mut d: usize = 0;
    assert(seen + keys_of_client(cv.take(0)) =~= seen);
    while d < client.len()
        invariant
            cv == client_view(*client),
            d <= client@.len(),
            keys_view(keys@) == first_occurrences(seen + keys_of_client(cv.take(d as int))),
        decreases client@.len() - d,
    {
        let ghost before = seen + keys_of_client(cv.take(d as int));
        add_txn_keys(keys, &client[d], Ghost(before));
        proof {
            assert(cv.take(d + 1).drop_last() =~= cv.take(d as int));
            assert(cv.take(d + 1).last() == client@[d as int]@);
            assert(seen + keys_of_client(cv.take(d + 1)) =~= before + keys_of_txn(
                client@[d as int]@,
            ));
        }
        d += 1;
    }
    assert(cv.take(d as int) =~= cv);
}

/// Whether some transaction of the session writes `key`.
pub fn session_writes<K: Key, V: Value>(client: &Vec<Transaction<K, V>>, key: &K) -> (found: bool)
    ensures
        found == client_writes(client_view(*client), key@),
{
    let ghost cv = client_view(*client);
    let mut d: usize = 0;
    while d < client.len()
        invariant
            cv == client_view(*client),
            d <= client@.len(),
            forall|j: int| 0 <= j < d ==> !txn_writes(#[trigger] cv[j], key@),
        decreases client@.len() - d,
    {
        if client[d].writes(key.copy_key()) {
            assert(txn_writes(cv[d as int], key@));
            return true;
        }
        d += 1;
    }
    false
}

/// Whether the table lists `key`.
pub fn lists_key<K: Key>(vars: &Vec<(K, Vec<usize>)>, key: &K) -> (found: bool)
    ensures
        found == vars_keys(vars@).contains(key@),
{
    let mut j: usize = 0;
    while j < vars.len()
        invariant
            j <= vars@.len(),
            forall|k: int| 0 <= k < j ==> vars_keys(vars@)[k] != key@,
        decreases vars@.len() - j,
    {
        if vars[j].0.same_key(key) {
            assert(vars_keys(vars@)[j as int] == key@);
            return true;
        }
        j += 1;
    }
    false
}

/// The place of `key` in the table.
pub fn find_key<K: Key>(vars: &Vec<(K, Vec<usize>)>, key: &K) -> (j: usize)
    requires
        vars_keys(vars@).contains(key@),
    ensures
        j < vars@.len(),
        vars@[j as int].0@ == key@,
        forall|k: int| 0 <= k < j ==> vars@[k].0@ != key@,
{
    let ghost at = choose|at: int| 0 <= at < vars@.len() && vars_keys(vars@)[at] == key@;
    let mut j: usize = 0;
    while !vars[j].0.same_key(key)
        invariant
            0 <= at < vars.len(),
            vars@[at].0@ == key@,
            j <= at,
            forall|k: int| 0 <= k < j ==> vars@[k].0@ != key@,
        decreases at - j,
    {
        j += 1;
    }
    j
}

/// A session with each transaction replaced by its reads and then its
/// writes.
pub fn split_session<K: Key, V: Value>(client: &Vec<Transaction<K, V>>) -> (halves: Vec<
    Transaction<K, V>,
>)
    ensures
        client_view(halves) == split_client(client_view(*client)),
{
    let ghost cv = client_view(*client);
    let ghost target = split_client(cv);
    let mut halves: Vec<Transaction<K, V>> = Vec::new();
    let mut d: usize = 0;
    assert(client_view(halves) =~= target.take(0));
    while d < client.len()
        invariant
            cv == client_view(*client),
            target == split_client(cv),
            d <= client@.len(),
            client_view(halves) == target.take(2 * d),
        decreases client@.len() - d,
    {
        let ghost before = halves;
        let (r, w) = client[d].split();
        halves.push(r);
        halves.push(w);
        proof {
            assert(cv[d as int] == client@[d as int]@);
            assert(target[2 * d] == reads_of(cv[d as int]));
            assert(target[2 * d + 1] == writes_of(cv[d as int]));
            assert(client_view(halves) =~= client_view(before).push(target[2 * d]).push(
                target[2 * d + 1],
            ));
            assert(target.take(2 * d + 2) =~= target.take(2 * d).push(target[2 * d]).push(
                target[2 * d + 1],
            ));
        }
        d += 1;
    }
    assert(target.take(2 * d) =~= target);
    halves
}

/// The two halves of the guard encoding of `t`, a transaction of client
/// `index`, by the table of the history `h`.
fn encode_transaction<K: Key, V: Value>(
    t: &Transaction<K, V>,
    index: usize,
    vars: &Vec<(K, Vec<usize>)>,
    Ghost(h): Ghost<HistoryView<K::V, V::V>>,
) -> (halves: (Transaction<K, V>, Transaction<K, V>))
    requires
        vars_of::<K, V>(vars@, h),
        forall|o: int| 0 <= o < t@.len() ==> history_keys(h).contains(#[trigger] t@[o].key()),
    ensures
        halves.0@ == si_reads::<K, V>(t@, index as int),
        halves.1@ == si_writes::<K, V>(h, t@, index as int),
{
    let (mut r, mut w) = t.split();
    let ghost reads = reads_of(t@);
    let ghost writes = writes_of(t@);
    let ghost i = index as int;
    let mut extra: Vec<Op<K, V>> = Vec::new();
    let mut o: usize = 0;
    proof {
        assert forall|k: int| 0 <= k < writes.len() implies history_keys(h).contains(
            #[trigger] writes[k].key(),
        ) by {
            lemma_writes_of(t@, k);
            let o = choose|o: int| 0 <= o < t@.len() && t@[o] == writes[k];
            assert(history_keys(h).contains(t@[o].key()));
        }
        assert(reads + reservations::<K, V>(writes.take(0), i) =~= reads);
        assert(ops_view(extra@) =~= stamps::<K, V>(h, writes.take(0), i));
    }
    while o < w.ops.len()
        invariant
            vars_of::<K, V>(vars@, h),
            forall|k: int| 0 <= k < writes.len() ==> history_keys(h).contains(
                #[trigger] writes[k].key(),
            ),
            i == index as int,
            w@ == writes,
            o <= w.ops@.len(),
            r@ == reads + reservations::<K, V>(writes.take(o as int), i),
            ops_view(extra@) == stamps::<K, V>(h, writes.take(o as int), i),
        decreases w.ops@.len() - o,
    {
        let key = w.ops[o].key();
        assert(key@ == writes[o as int].key());
        let j = find_key(vars, key);
        let ghost r_before = r@;
        r.ops.push(Op::Put(Put::new(key.generate_guard(index), V::default_value())));
        let clients = &vars[j].1;
        let ghost done = stamps::<K, V>(h, writes.take(o as int), i);
        let ghost marks = stamps_of_key::<K, V>(h, key@, i);
        let mut k: usize = 0;
        assert(done + marks.take(0) =~= done);
        while k < clients.len()
            invariant
                i == index as int,
                as_ints(clients@) == writing_clients(h, key@),
                marks == stamps_of_key::<K, V>(h, key@, i),
                k <= clients@.len(),
                ops_view(extra@) == done + marks.take(k as int),
            decreases clients@.len() - k,
        {
            let c = clients[k];
            let ghost before = extra@;
            assert(as_ints(clients@)[k as int] == c);
            assert(marks[k as int] == stamp::<K, V>(key@, c as int, i));
            if c != index {
                extra.push(Op::Put(Put::new(key.generate_guard(c), V::abnormal_value())));
            } else {
                extra.push(Op::Get(Get::new(key.generate_guard(c), V::default_value())));
            }
            proof {
                assert(ops_view(extra@) =~= ops_view(before).push(marks[k as int]));
                assert(done + marks.take(k + 1) =~= (done + marks.take(k as int)).push(
                    marks[k as int],
                ));
            }
            k += 1;
        }
        proof {
            assert(marks.take(k as int) =~= marks);
            assert(writes.take(o + 1).drop_last() =~= writes.take(o as int));
            assert(writes.take(o + 1).last() == writes[o as int]);
            let reserved = reservations::<K, V>(writes.take(o as int), i);
            let reservation = OpView::Put {
                key: K::guard_view(key@, i as nat),
                val: V::default_view(),
            };
            assert(r@ =~= r_before.push(reservation));
            assert(reservations::<K, V>(writes.take(o + 1), i) =~= reserved.push(reservation));
            assert(reads + reserved.push(reservation) =~= (reads + reserved).push(reservation));
        }
        o += 1;
    }
    assert(writes.take(o as int) =~= writes);
    let ghost w_before = w.ops@;
    let ghost added = extra@;
    w.ops.append(&mut extra);
    assert(ops_view(w.ops@) =~= ops_view(w_before) + ops_view(added));
    (r, w)
}

/// The guard encoding of the session of client `index`.
fn encode_session<K: Key, V: Value>(
    client: &Vec<Transaction<K, V>>,
    index: usize,
    vars: &Vec<(K, Vec<usize>)>,
    Ghost(h): Ghost<HistoryView<K::V, V::V>>,
) -> (halves: Vec<Transaction<K, V>>)
    requires
        vars_of::<K, V>(vars@, h),
        index < h.len(),
        client_view(*client) == h[index as int],
    ensures
        client_view(halves) == si_client::<K, V>(h, index as int),
{
    let ghost cv = client_view(*client);
    let ghost target = si_client::<K, V>(h, index as int);
    let mut halves: Vec<Transaction<K, V>> = Vec::new();
    let mut d: usize = 0;
    assert(client_view(halves) =~= target.take(0));
    while d < client.len()
        invariant
            vars_of::<K, V>(vars@, h),
            index < h.len(),
            cv == client_view(*client),
            cv == h[index as int],
            target == si_client::<K, V>(h, index as int),
            d <= client@.len(),
            client_view(halves) == target.take(2 * d),
        decreases client@.len() - d,
    {
        let ghost before = halves;
        proof {
            assert(cv[d as int] == client@[d as int]@);
            assert forall|o: int| 0 <= o < client@[d as int]@.len() implies history_keys(
                h,
            ).contains(#[trigger] client@[d as int]@[o].key()) by {
                lemma_key_listed(h, index as int, d as int, o);
            }
        }
        let (r, w) = encode_transaction(&client[d], index, vars, Ghost(h));
        halves.push(r);
        halves.push(w);
        proof {
            assert(target[2 * d] == si_reads::<K, V>(cv[d as int], index as int));
            assert(target[2 * d + 1] == si_writes::<K, V>(h, cv[d as int], index as int));
            assert(client_view(halves) =~= client_view(before).push(target[2 * d]).push(
                target[2 * d + 1],
            ));
            assert(target.take(2 * d + 2) =~= target.take(2 * d).push(target[2 * d]).push(
                target[2 * d + 1],
            ));
        }
        d += 1;
    }
    assert(target.take(2 * d) =~= target);
    halves
}

/// A recorded history: one ordered session of transactions for each client.
#[derive(Clone)]
pub struct History<K: Key, V: Value> {
    pub transactions: Vec<Vec<Transaction<K, V>>>,
}

impl<K: Key, V: Value> View for History<K, V> {
    type V = HistoryView<K::V, V::V>;

    open spec fn view(&self) -> HistoryView<K::V, V::V> {
        clients_view(self.transactions)
    }
}

impl<K: Key, V: Value> History<K, V> {
    /// The history of the given client sessions.
    pub fn new(transactions: Vec<Vec<Transaction<K, V>>>) -> (history: Self)
        ensures
            history.transactions == transactions,
    {
        Self { transactions }
    }

    /// The clients that write `key`, in ascending order.
    pub fn writing_clients(&self, key: &K) -> (clients: Vec<usize>)
        ensures
            as_ints(clients@) == writing_clients(self@, key@),
    {
        let ghost h = self@;
        let mut clients: Vec<usize> = Vec::new();
        let mut c: usize = 0;
        assert(as_ints(clients@) =~= writing_clients_upto(h, key@, 0));
        while c < self.transactions.len()
            invariant
                h == self@,
                c <= self.transactions@.len(),
                as_ints(clients@) == writing_clients_upto(h, key@, c as int),
            decreases self.transactions@.len() - c,
        {
            let ghost before = clients@;
            if session_writes(&self.transactions[c], key) {
                clients.push(c);
                assert(as_ints(clients@) =~= as_ints(before).push(c as int));
            }
            c += 1;
        }
        clients
    }

    /// Every key that the history reads or writes, once, in the order of
    /// first use, each with the clients that write it.
    pub fn vars(&self) -> (vars: Vec<(K, Vec<usize>)>)
        ensures
            vars_of::<K, V>(vars@, self@),
    {
        let ghost h = self@;
        let mut keys: Vec<K> = Vec::new();
        let mut c: usize = 0;
        assert(keys_view(keys@) =~= first_occurrences(keys_of_history(h.take(0))));
        while c < self.transactions.len()
            invariant
                h == self@,
                c <= self.transactions@.len(),
                keys_view(keys@) == first_occurrences(keys_of_history(h.take(c as int))),
            decreases self.transactions@.len() - c,
        {
            let ghost before = keys_of_history(h.take(c as int));
            add_client_keys(&mut keys, &self.transactions[c], Ghost(before));
            proof {
                assert(h.take(c + 1).drop_last() =~= h.take(c as int));
                assert(h.take(c + 1).last() == client_view(self.transactions@[c as int]));
            }
            c += 1;
        }
        assert(h.take(c as int) =~= h);
        let mut vars: Vec<(K, Vec<usize>)> = Vec::new();
        let mut j: usize = 0;
        while j < keys.len()
            invariant
                h == self@,
                keys_view(keys@) == history_keys(h),
                j <= keys@.len(),
                vars_keys(vars@) == keys_view(keys@).take(j as int),
                forall|k: int|
                    0 <= k < vars@.len() ==> as_ints((#[trigger] vars@[k]).1@) == writing_clients(
                        h,
                        vars@[k].0@,
                    ),
            decreases keys@.len() - j,
        {
            let ghost before = vars@;
            let ghost kv = keys_view(keys@);
            let key = keys[j].copy_key();
            let clients = self.writing_clients(&key);
            vars.push((key, clients));
            assert(vars_keys(vars@) =~= vars_keys(before).push(kv[j as int]));
            assert(kv.take(j + 1) =~= kv.take(j as int).push(kv[j as int]));
            j += 1;
        }
        assert(keys_view(keys@).take(j as int) =~= keys_view(keys@));
        vars
    }

    /// Appends the origin client: one session of one transaction that writes
    /// the initial value to every key of the history.
    pub fn pre_init(&mut self)
        ensures
            final(self)@ == with_origin(old(self)@, V::default_view()),
    {
        let ghost h = self@;
        let vars = self.vars();
        let mut ops: Vec<Op<K, V>> = Vec::new();
        let mut j: usize = 0;
        while j < vars.len()
            invariant
                vars_keys(vars@) == history_keys(h),
                j <= vars@.len(),
                ops_view(ops@) == origin_txn(h, V::default_view()).take(j as int),
            decreases vars@.len() - j,
        {
            let ghost before = ops@;
            let ghost origin = origin_txn(h, V::default_view());
            ops.push(Op::Put(Put::new(vars[j].0.copy_key(), V::default_value())));
            assert(vars_keys(vars@)[j as int] == vars@[j as int].0@);
            assert(ops_view(ops@) =~= ops_view(before).push(origin[j as int]));
            assert(origin.take(j + 1) =~= origin.take(j as int).push(origin[j as int]));
            j += 1;
        }
        assert(origin_txn(h, V::default_view()).take(j as int) =~= origin_txn(
            h,
            V::default_view(),
        ));
        let init_transaction = Transaction { ops };
        let mut client: Vec<Transaction<K, V>> = Vec::new();
        client.push(init_transaction);
        assert(client_view(client) =~= seq![origin_txn(h, V::default_view())]);
        self.transactions.push(client);
        assert(self@ =~= with_origin(h, V::default_view()));
    }

    /// Whether the search finds an order of the transactions, the origin
    /// transaction among them, in which each is placeable in its turn.
    pub fn ser_check(&self) -> (found: bool)
        ensures
            found == serializable::<K, V>(self@),
    {
        let mut pre_inited_self = History { transactions: copy_clients(&self.transactions) };
        pre_inited_self.pre_init();
        let mut checker = SerChecker::new(pre_inited_self.transactions);
        checker.check()
    }

    /// The split history: every transaction replaced, in its session, by
    /// its reads and then its writes.
    pub fn split_rewrite(&self) -> (split: Self)
        ensures
            split@ == split_history(self@),
    {
        let ghost h = self@;
        let ghost target = split_history(h);
        let mut splited_transactions: Vec<Vec<Transaction<K, V>>> = Vec::new();
        let mut c: usize = 0;
        assert(clients_view(splited_transactions) =~= target.take(0));
        while c < self.transactions.len()
            invariant
                h == self@,
                target == split_history(h),
                c <= self.transactions@.len(),
                clients_view(splited_transactions) == target.take(c as int),
            decreases self.transactions@.len() - c,
        {
            let ghost before = splited_transactions;
            splited_transactions.push(split_session(&self.transactions[c]));
            proof {
                assert(clients_view(splited_transactions) =~= clients_view(before).push(
                    target[c as int],
                ));
                assert(target.take(c + 1) =~= target.take(c as int).push(target[c as int]));
            }
            c += 1;
        }
        assert(target.take(c as int) =~= target);
        Self::new(splited_transactions)
    }

    /// Whether the history is admissible under prefix consistency: whether
    /// the split history passes the serializability check.
    pub fn prefix_check(&self) -> (found: bool)
        ensures
            found == prefix_consistent::<K, V>(self@),
    {
        let history = self.split_rewrite();
        history.ser_check()
    }

    /// The guard encoding of the history.
    pub fn si_rewrite(&self) -> (encoded: Self)
        ensures
            encoded@ == si_history::<K, V>(self@),
    {
        let ghost h = self@;
        let ghost target = si_history::<K, V>(h);
        let vars_map = self.vars();
        let mut splited_transactions: Vec<Vec<Transaction<K, V>>> = Vec::new();
        let mut index: usize = 0;
        assert(clients_view(splited_transactions) =~= target.take(0));
        while index < self.transactions.len()
            invariant
                h == self@,
                target == si_history::<K, V>(h),
                vars_of::<K, V>(vars_map@, h),
                index <= self.transactions@.len(),
                clients_view(splited_transactions) == target.take(index as int),
            decreases self.transactions@.len() - index,
        {
            let ghost before = splited_transactions;
            let client = encode_session(&self.transactions[index], index, &vars_map, Ghost(h));
            splited_transactions.push(client);
            proof {
                assert(clients_view(splited_transactions) =~= clients_view(before).push(
                    target[index as int],
                ));
                assert(target.take(index + 1) =~= target.take(index as int).push(
                    target[index as int],
                ));
            }
            index += 1;
        }
        assert(target.take(index as int) =~= target);
        Self::new(splited_transactions)
    }

    /// Whether the guard encoding can be trusted on this history: whether no
    /// guard that it makes, for a written key and a client, is a key of the
    /// history.
    pub fn guards_fresh(&self) -> (fresh: bool)
        ensures
            fresh == guards_fresh::<K, V>(self@),
    {
        let ghost h = self@;
        let vars = self.vars();
        let n = self.transactions.len();
        let mut e: usize = 0;
        while e < vars.len()
            invariant
                h == self@,
                n == h.len(),
                vars_of::<K, V>(vars@, h),
                e <= vars@.len(),
                forall|e2: int, j: nat|
                    0 <= e2 < e && key_written(h, vars@[e2].0@) && j < n ==> !history_keys(
                        h,
                    ).contains(#[trigger] K::guard_view(vars@[e2].0@, j)),
            decreases vars@.len() - e,
        {
            let key = &vars[e].0;
            proof {
                lemma_written_has_clients(h, key@);
                assert(as_ints(vars@[e as int].1@).len() == vars@[e as int].1@.len());
            }
            if vars[e].1.len() > 0 {
                let mut j: usize = 0;
                while j < n
                    invariant
                        h == self@,
                        n == h.len(),
                        vars_of::<K, V>(vars@, h),
                        e < vars@.len(),
                        *key == vars@[e as int].0,
                        key_written(h, key@),
                        j <= n,
                        forall|j2: nat|
                            j2 < j ==> !history_keys(h).contains(
                                #[trigger] K::guard_view(key@, j2),
                            ),
                    decreases n - j,
                {
                    let guard = key.generate_guard(j);
                    if lists_key(&vars, &guard) {
                        assert(history_keys(h).contains(K::guard_view(key@, j as nat)));
                        return false;
                    }
                    j += 1;
                }
            }
            e += 1;
        }
        proof {
            assert forall|key: K::V, j: nat| key_written(h, key) && j < h.len() implies !history_keys(
                h,
            ).contains(#[trigger] K::guard_view(key, j)) by {
                lemma_written_listed(h, key);
                let e2 = choose|e2: int|
                    0 <= e2 < history_keys(h).len() && history_keys(h)[e2] == key;
                assert(vars_keys(vars@)[e2] == vars@[e2].0@);
            }
        }
        true
    }

    /// Whether the history is admissible under snapshot isolation: whether
    /// its guard encoding passes the serializability check.
    pub fn si_check(&self) -> (found: bool)
        ensures
            found == snapshot_isolated::<K, V>(self@),
    {
        let history = self.si_rewrite();
        history.ser_check()
    }
}

} // verus!
