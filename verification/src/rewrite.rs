//! What the history rewrites produce: the history with its origin
//! transaction, the split history, and the guard encoding.

use vstd::prelude::*;
use crate::model::{reads_of, searchable, txn_writes, writes_of, HistoryView, OpView, TxnView};
use crate::transaction::{Key, Value};

verus! {

/// The keys of a transaction's operations, in order.
pub open spec fn keys_of_txn<K, V>(t: TxnView<K, V>) -> Seq<K> {
    t.map_values(|op: OpView<K, V>| op.key())
}

/// The keys of a client's operations, in order.
pub open spec fn keys_of_client<K, V>(client: Seq<TxnView<K, V>>) -> Seq<K>
    decreases client.len(),
{
    if client.len() == 0 {
        Seq::empty()
    } else {
        keys_of_client(client.drop_last()) + keys_of_txn(client.last())
    }
}

/// The keys of all operations of a history, client after client.
pub open spec fn keys_of_history<K, V>(h: HistoryView<K, V>) -> Seq<K>
    decreases h.len(),
{
    if h.len() == 0 {
        Seq::empty()
    } else {
        keys_of_history(h.drop_last()) + keys_of_client(h.last())
    }
}

/// The sequence without repetitions: each element stays where it first
/// occurred.
pub open spec fn first_occurrences<A>(s: Seq<A>) -> Seq<A>
    decreases s.len(),
{
    if s.len() == 0 {
        Seq::empty()
    } else {
        let before = first_occurrences(s.drop_last());
        if before.contains(s.last()) {
            before
        } else {
            before.push(s.last())
        }
    }
}

/// Every key that the history reads or writes, once, in the order of first
/// use.
pub open spec fn history_keys<K, V>(h: HistoryView<K, V>) -> Seq<K> {
    first_occurrences(keys_of_history(h))
}

/// The origin transaction: one write of the initial value to every key of
/// the history.
pub open spec fn origin_txn<K, V>(h: HistoryView<K, V>, initial: V) -> TxnView<K, V> {
    history_keys(h).map_values(|key: K| OpView::Put { key, val: initial })
}

/// The history with one more client, whose only transaction is the origin
/// transaction.
pub open spec fn with_origin<K, V>(h: HistoryView<K, V>, initial: V) -> HistoryView<K, V> {
    h.push(seq![origin_txn(h, initial)])
}

/// Whether some transaction of the client writes `key`.
pub open spec fn client_writes<K, V>(client: Seq<TxnView<K, V>>, key: K) -> bool {
    exists|d: int| 0 <= d < client.len() && txn_writes(#[trigger] client[d], key)
}

/// The clients among the first `n` that write `key`, in ascending order.
pub open spec fn writing_clients_upto<K, V>(h: HistoryView<K, V>, key: K, n: int) -> Seq<int>
    decreases n,
{
    if n <= 0 {
        Seq::empty()
    } else {
        let before = writing_clients_upto(h, key, n - 1);
        if client_writes(h[n - 1], key) {
            before.push(n - 1)
        } else {
            before
        }
    }
}

/// The clients that write `key`, in ascending order.
pub open spec fn writing_clients<K, V>(h: HistoryView<K, V>, key: K) -> Seq<int> {
    writing_clients_upto(h, key, h.len() as int)
}

/// A client's transactions, each replaced by its reads and then its writes.
pub open spec fn split_client<K, V>(client: Seq<TxnView<K, V>>) -> Seq<TxnView<K, V>> {
    Seq::new(
        2 * client.len(),
        |j: int|
            if j % 2 == 0 {
                reads_of(client[j / 2])
            } else {
                writes_of(client[j / 2])
            },
    )
}

/// The history with every client split.
pub open spec fn split_history<K, V>(h: HistoryView<K, V>) -> HistoryView<K, V> {
    Seq::new(h.len(), |c: int| split_client(h[c]))
}

/// For each write of `writes`, the reservation of its key's guard for client
/// `i`: a write of the initial value to the guard.
pub open spec fn reservations<K: Key, V: Value>(writes: TxnView<K::V, V::V>, i: int) -> TxnView<
    K::V,
    V::V,
> {
    writes.map_values(
        |op: OpView<K::V, V::V>|
            OpView::Put { key: K::guard_view(op.key(), i as nat), val: V::default_view() },
    )
}

/// What a writer of `key` in client `i` does to the guard of client `c`: it
/// reads its own guard as still initial, and marks every other one abnormal.
pub open spec fn stamp<K: Key, V: Value>(key: K::V, c: int, i: int) -> OpView<K::V, V::V> {
    if c != i {
        OpView::Put { key: K::guard_view(key, c as nat), val: V::abnormal_view() }
    } else {
        OpView::Get { key: K::guard_view(key, c as nat), val: V::default_view() }
    }
}

/// The stamps of one write of `key` by client `i`: one for each client that
/// writes `key`, in ascending order of the clients.
pub open spec fn stamps_of_key<K: Key, V: Value>(
    h: HistoryView<K::V, V::V>,
    key: K::V,
    i: int,
) -> TxnView<K::V, V::V> {
    writing_clients(h, key).map_values(|c: int| stamp::<K, V>(key, c, i))
}

/// The stamps of all writes of `writes`, write after write.
pub open spec fn stamps<K: Key, V: Value>(
    h: HistoryView<K::V, V::V>,
    writes: TxnView<K::V, V::V>,
    i: int,
) -> TxnView<K::V, V::V>
    decreases writes.len(),
{
    if writes.len() == 0 {
        Seq::empty()
    } else {
        stamps::<K, V>(h, writes.drop_last(), i) + stamps_of_key::<K, V>(h, writes.last().key(), i)
    }
}

/// The read half of the encoding of `t` in client `i`: its reads, then the
/// reservations for its writes.
pub open spec fn si_reads<K: Key, V: Value>(t: TxnView<K::V, V::V>, i: int) -> TxnView<K::V, V::V> {
    reads_of(t) + reservations::<K, V>(writes_of(t), i)
}

/// The write half of the encoding of `t` in client `i`: its writes, then the
/// stamps for them.
pub open spec fn si_writes<K: Key, V: Value>(
    h: HistoryView<K::V, V::V>,
    t: TxnView<K::V, V::V>,
    i: int,
) -> TxnView<K::V, V::V> {
    writes_of(t) + stamps::<K, V>(h, writes_of(t), i)
}

/// Client `i` of the guard encoding: each transaction replaced by its two
/// halves.
pub open spec fn si_client<K: Key, V: Value>(h: HistoryView<K::V, V::V>, i: int) -> Seq<
    TxnView<K::V, V::V>,
> {
    Seq::new(
        2 * h[i].len(),
        |j: int|
            if j % 2 == 0 {
                si_reads::<K, V>(h[i][j / 2], i)
            } else {
                si_writes::<K, V>(h, h[i][j / 2], i)
            },
    )
}

/// The guard encoding of a history.
pub open spec fn si_history<K: Key, V: Value>(h: HistoryView<K::V, V::V>) -> HistoryView<
    K::V,
    V::V,
> {
    Seq::new(h.len(), |i: int| si_client::<K, V>(h, i))
}

/// Whether some client writes `key`.
pub open spec fn key_written<K, V>(h: HistoryView<K, V>, key: K) -> bool {
    exists|c: int| 0 <= c < h.len() && client_writes(#[trigger] h[c], key)
}

/// No guard that the encoding makes, for a written key and a client of the
/// history, is a key of the history.
pub open spec fn guards_fresh<K: Key, V: Value>(h: HistoryView<K::V, V::V>) -> bool {
    forall|key: K::V, j: nat|
        key_written(h, key) && j < h.len() ==> !history_keys(h).contains(
            #[trigger] K::guard_view(key, j),
        )
}

/// What the serializability check answers: the search succeeds on the
/// history with its origin transaction.
pub open spec fn serializable<K: Key, V: Value>(h: HistoryView<K::V, V::V>) -> bool {
    searchable(with_origin(h, V::default_view()))
}

/// What the prefix-consistency check answers.
pub open spec fn prefix_consistent<K: Key, V: Value>(h: HistoryView<K::V, V::V>) -> bool {
    serializable::<K, V>(split_history(h))
}

/// What the snapshot-isolation check answers.
pub open spec fn snapshot_isolated<K: Key, V: Value>(h: HistoryView<K::V, V::V>) -> bool {
    serializable::<K, V>(si_history::<K, V>(h))
}

/// An element is among the first occurrences exactly when it occurs.
pub proof fn lemma_first_occurrences<A>(s: Seq<A>, x: A)
    ensures
        first_occurrences(s).contains(x) <==> s.contains(x),
        first_occurrences(s).no_duplicates(),
    decreases s.len(),
{
    if s.len() > 0 {
        let init = s.drop_last();
        let before = first_occurrences(init);
        lemma_first_occurrences(init, x);
        lemma_first_occurrences(init, s.last());
        if s.contains(x) {
            let j = choose|j: int| 0 <= j < s.len() && s[j] == x;
            if j < s.len() - 1 {
                assert(init[j] == x);
                let k = choose|k: int| 0 <= k < before.len() && before[k] == x;
                assert(first_occurrences(s)[k] == x);
            } else if !before.contains(s.last()) {
                assert(first_occurrences(s)[before.len() as int] == x);
            }
        }
        if first_occurrences(s).contains(x) {
            let k = choose|k: int| 0 <= k < first_occurrences(s).len() && first_occurrences(s)[k] == x;
            if k < before.len() {
                assert(before[k] == x);
                let j = choose|j: int| 0 <= j < init.len() && init[j] == x;
                assert(s[j] == x);
            } else {
                assert(s[s.len() - 1] == x);
            }
        }
    }
}

/// The key of every operation of a client is among the client's keys.
pub proof fn lemma_client_key_listed<K, V>(client: Seq<TxnView<K, V>>, d: int, o: int)
    requires
        0 <= d < client.len(),
        0 <= o < client[d].len(),
    ensures
        keys_of_client(client).contains(client[d][o].key()),
    decreases client.len(),
{
    let init = keys_of_client(client.drop_last());
    let last = keys_of_txn(client.last());
    if d == client.len() - 1 {
        assert(last[o] == client[d][o].key());
        assert((init + last)[init.len() + o] == client[d][o].key());
    } else {
        lemma_client_key_listed(client.drop_last(), d, o);
        let j = choose|j: int| 0 <= j < init.len() && init[j] == client[d][o].key();
        assert((init + last)[j] == client[d][o].key());
    }
}

/// The key of every operation of a history is among the history's keys.
pub proof fn lemma_key_listed<K, V>(h: HistoryView<K, V>, c: int, d: int, o: int)
    requires
        0 <= c < h.len(),
        0 <= d < h[c].len(),
        0 <= o < h[c][d].len(),
    ensures
        keys_of_history(h).contains(h[c][d][o].key()),
        history_keys(h).contains(h[c][d][o].key()),
    decreases h.len(),
{
    let key = h[c][d][o].key();
    let init = keys_of_history(h.drop_last());
    let last = keys_of_client(h.last());
    if c == h.len() - 1 {
        lemma_client_key_listed(h.last(), d, o);
        let j = choose|j: int| 0 <= j < last.len() && last[j] == key;
        assert((init + last)[init.len() + j] == key);
    } else {
        lemma_key_listed(h.drop_last(), c, d, o);
        let j = choose|j: int| 0 <= j < init.len() && init[j] == key;
        assert((init + last)[j] == key);
    }
    lemma_first_occurrences(keys_of_history(h), key);
}

/// The writing clients among the first `n` are clients that write the key.
pub proof fn lemma_writing_clients<K, V>(h: HistoryView<K, V>, key: K, n: int)
    requires
        n <= h.len(),
    ensures
        forall|x: int|
            0 <= x < writing_clients_upto(h, key, n).len() ==> 0 <= (
            #[trigger] writing_clients_upto(h, key, n)[x]) < n && client_writes(
                h[writing_clients_upto(h, key, n)[x]],
                key,
            ),
    decreases n,
{
    if n > 0 {
        lemma_writing_clients(h, key, n - 1);
        let before = writing_clients_upto(h, key, n - 1);
        let all = writing_clients_upto(h, key, n);
        assert forall|x: int| 0 <= x < all.len() implies 0 <= (#[trigger] all[x]) < n
            && client_writes(h[all[x]], key) by {
            if x < before.len() {
                assert(all[x] == before[x]);
            }
        }
    }
}

/// A key is written exactly when it has a writing client.
pub proof fn lemma_written_has_clients<K, V>(h: HistoryView<K, V>, key: K)
    ensures
        key_written(h, key) <==> writing_clients(h, key).len() > 0,
{
    lemma_writing_clients(h, key, h.len() as int);
    if writing_clients(h, key).len() > 0 {
        let c = writing_clients(h, key)[0];
        assert(client_writes(h[c], key));
    }
    if key_written(h, key) {
        let c = choose|c: int| 0 <= c < h.len() && client_writes(#[trigger] h[c], key);
        lemma_writer_counted(h, key, c, h.len() as int);
    }
}

/// A client that writes the key is among the writing clients.
pub proof fn lemma_writer_counted<K, V>(h: HistoryView<K, V>, key: K, c: int, n: int)
    requires
        0 <= c < n <= h.len(),
        client_writes(h[c], key),
    ensures
        writing_clients_upto(h, key, n).len() > 0,
    decreases n,
{
    if c < n - 1 {
        lemma_writer_counted(h, key, c, n - 1);
    }
}

/// A written key is a key of the history.
pub proof fn lemma_written_listed<K, V>(h: HistoryView<K, V>, key: K)
    requires
        key_written(h, key),
    ensures
        history_keys(h).contains(key),
{
    let c = choose|c: int| 0 <= c < h.len() && client_writes(#[trigger] h[c], key);
    let d = choose|d: int| 0 <= d < h[c].len() && txn_writes(#[trigger] h[c][d], key);
    let t = h[c][d];
    let o = choose|o: int| 0 <= o < t.len() && (#[trigger] t[o]) is Put && t[o].key() == key;
    lemma_key_listed(h, c, d, o);
}

/// Each stamp is the stamp of a write of `writes` for a client that writes
/// the key.
pub proof fn lemma_stamp_form<K: Key, V: Value>(
    h: HistoryView<K::V, V::V>,
    writes: TxnView<K::V, V::V>,
    i: int,
    x: int,
) -> (at: (int, int))
    requires
        0 <= x < stamps::<K, V>(h, writes, i).len(),
    ensures
        0 <= at.0 < writes.len(),
        0 <= at.1 < h.len(),
        client_writes(h[at.1], writes[at.0].key()),
        stamps::<K, V>(h, writes, i)[x] == stamp::<K, V>(writes[at.0].key(), at.1, i),
    decreases writes.len(),
{
    if writes.len() == 0 {
        (0, 0)
    } else {
        let init = stamps::<K, V>(h, writes.drop_last(), i);
        let key = writes.last().key();
        let last = stamps_of_key::<K, V>(h, key, i);
        if x < init.len() {
            let (m, c) = lemma_stamp_form::<K, V>(h, writes.drop_last(), i, x);
            assert(writes.drop_last()[m] == writes[m]);
            (m, c)
        } else {
            let y = x - init.len();
            lemma_writing_clients(h, key, h.len() as int);
            let c = writing_clients(h, key)[y];
            assert(last[y] == stamp::<K, V>(key, c, i));
            (writes.len() - 1, c)
        }
    }
}

/// A key among a client's keys is the key of one of its operations.
pub proof fn lemma_client_key_used<K, V>(client: Seq<TxnView<K, V>>, key: K) -> (at: (int, int))
    requires
        keys_of_client(client).contains(key),
    ensures
        0 <= at.0 < client.len(),
        0 <= at.1 < client[at.0].len(),
        client[at.0][at.1].key() == key,
    decreases client.len(),
{
    let all = keys_of_client(client);
    let j = choose|j: int| 0 <= j < all.len() && all[j] == key;
    if client.len() == 0 {
        (0, 0)
    } else {
        let init = keys_of_client(client.drop_last());
        let last = keys_of_txn(client.last());
        if j < init.len() {
            assert(init[j] == key);
            lemma_client_key_used(client.drop_last(), key)
        } else {
            assert(last[j - init.len()] == key);
            (client.len() - 1, j - init.len())
        }
    }
}

/// A key among a history's keys is the key of one of its operations.
pub proof fn lemma_key_used<K, V>(h: HistoryView<K, V>, key: K) -> (at: (int, int, int))
    requires
        history_keys(h).contains(key),
    ensures
        0 <= at.0 < h.len(),
        0 <= at.1 < h[at.0].len(),
        0 <= at.2 < h[at.0][at.1].len(),
        h[at.0][at.1][at.2].key() == key,
    decreases h.len(),
{
    lemma_first_occurrences(keys_of_history(h), key);
    let all = keys_of_history(h);
    let j = choose|j: int| 0 <= j < all.len() && all[j] == key;
    if h.len() == 0 {
        (0, 0, 0)
    } else {
        let init = keys_of_history(h.drop_last());
        let last = keys_of_client(h.last());
        if j < init.len() {
            assert(init[j] == key);
            lemma_first_occurrences(init, key);
            lemma_key_used(h.drop_last(), key)
        } else {
            assert(last[j - init.len()] == key);
            let (d, o) = lemma_client_key_used(h.last(), key);
            (h.len() - 1, d, o)
        }
    }
}

/// The origin transaction writes the initial value to every key of the
/// history, and does nothing else.
pub proof fn lemma_origin_txn<K, V>(h: HistoryView<K, V>, initial: V)
    ensures
        forall|o: int|
            0 <= o < origin_txn(h, initial).len() ==> #[trigger] origin_txn(h, initial)[o]
                == (OpView::Put { key: history_keys(h)[o], val: initial }),
        forall|key: K| #[trigger]
            history_keys(h).contains(key) ==> origin_txn(h, initial).contains(
                OpView::Put { key, val: initial },
            ) && txn_writes(origin_txn(h, initial), key),
{
    let origin = origin_txn(h, initial);
    let keys = history_keys(h);
    assert forall|key: K| #[trigger] keys.contains(key) implies origin.contains(
        OpView::Put { key, val: initial },
    ) && txn_writes(origin, key) by {
        let j = choose|j: int| 0 <= j < keys.len() && keys[j] == key;
        assert(origin[j] == OpView::Put { key, val: initial });
        assert(origin[j] is Put && origin[j].key() == key);
    }
}

} // verus!
