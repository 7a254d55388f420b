//! The mathematical model of operations, transactions and histories.

use vstd::prelude::*;

verus! {

/// What an operation is, with key and value taken by their views.
pub enum OpView<K, V> {
    Put { key: K, val: V },
    Get { key: K, val: V },
}

/// A transaction as the sequence of its operations.
pub type TxnView<K, V> = Seq<OpView<K, V>>;

/// A history: clients, each a sequence of transactions.
pub type HistoryView<K, V> = Seq<Seq<Seq<OpView<K, V>>>>;

/// A frontier: for each client, how many of its transactions are placed.
pub type Frontier = Seq<int>;

impl<K, V> OpView<K, V> {
    /// The key that the operation reads or writes.
    pub open spec fn key(self) -> K {
        match self {
            OpView::Put { key, .. } => key,
            OpView::Get { key, .. } => key,
        }
    }

    /// The value written, or the value that the read observed.
    pub open spec fn val(self) -> V {
        match self {
            OpView::Put { val, .. } => val,
            OpView::Get { val, .. } => val,
        }
    }
}

/// A sequence of machine counts as mathematical integers.
pub open spec fn as_ints(counts: Seq<usize>) -> Seq<int> {
    counts.map_values(|count: usize| count as int)
}

/// Whether the transaction holds a write of `key`, whatever the value.
pub open spec fn txn_writes<K, V>(t: Seq<OpView<K, V>>, key: K) -> bool {
    exists|o: int| 0 <= o < t.len() && (#[trigger] t[o]) is Put && t[o].key() == key
}

/// The reads of a transaction, in order.
pub open spec fn reads_of<K, V>(t: Seq<OpView<K, V>>) -> Seq<OpView<K, V>> {
    t.filter(|op: OpView<K, V>| op is Get)
}

/// The writes of a transaction, in order.
pub open spec fn writes_of<K, V>(t: Seq<OpView<K, V>>) -> Seq<OpView<K, V>> {
    t.filter(|op: OpView<K, V>| op is Put)
}

/// Every element that a filter keeps satisfies the predicate and stood in
/// the sequence.
pub proof fn lemma_filter_keeps<A>(s: Seq<A>, pred: spec_fn(A) -> bool, k: int)
    requires
        0 <= k < s.filter(pred).len(),
    ensures
        pred(s.filter(pred)[k]),
        s.contains(s.filter(pred)[k]),
    decreases s.len(),
{
    reveal(Seq::filter);
    if s.len() > 0 {
        let init = s.drop_last();
        if k < init.filter(pred).len() {
            lemma_filter_keeps(init, pred, k);
            let j = choose|j: int| 0 <= j < init.len() && init[j] == init.filter(pred)[k];
            assert(s[j] == s.filter(pred)[k]);
        } else {
            assert(s[s.len() - 1] == s.filter(pred)[k]);
        }
    }
}

/// Every write of a transaction's write half is a write of the transaction.
pub proof fn lemma_writes_of<K, V>(t: TxnView<K, V>, k: int)
    requires
        0 <= k < writes_of(t).len(),
    ensures
        writes_of(t)[k] is Put,
        t.contains(writes_of(t)[k]),
{
    lemma_filter_keeps(t, |op: OpView<K, V>| op is Put, k);
}

/// Every read of a transaction's read half is a read of the transaction.
pub proof fn lemma_reads_of<K, V>(t: TxnView<K, V>, k: int)
    requires
        0 <= k < reads_of(t).len(),
    ensures
        reads_of(t)[k] is Get,
        t.contains(reads_of(t)[k]),
{
    lemma_filter_keeps(t, |op: OpView<K, V>| op is Get, k);
}

/// Every write of a transaction is in its write half, and every read in its
/// read half.
pub proof fn lemma_half_keeps<K, V>(t: TxnView<K, V>, o: int)
    requires
        0 <= o < t.len(),
    ensures
        t[o] is Put ==> writes_of(t).contains(t[o]),
        t[o] is Get ==> reads_of(t).contains(t[o]),
{
    if t[o] is Put {
        t.lemma_filter_contains(|op: OpView<K, V>| op is Put, o);
    } else {
        t.lemma_filter_contains(|op: OpView<K, V>| op is Get, o);
    }
}

/// Whether transaction `d` of client `c` writes `val` to `key`.
pub open spec fn is_writer<K, V>(h: HistoryView<K, V>, c: int, d: int, key: K, val: V) -> bool {
    0 <= c < h.len() && 0 <= d < h[c].len() && h[c][d].contains(OpView::Put { key, val })
}

/// The frontier counts, for each client, no more transactions than it has.
pub open spec fn valid_frontier<K, V>(h: HistoryView<K, V>, f: Frontier) -> bool {
    f.len() == h.len() && forall|c: int| 0 <= c < h.len() ==> 0 <= #[trigger] f[c] <= h[c].len()
}

/// The sum of the first `n` entries.
pub open spec fn sum_upto(s: Seq<int>, n: int) -> int
    decreases n,
{
    if n <= 0 {
        0
    } else {
        sum_upto(s, n - 1) + s[n - 1]
    }
}

/// The number of transactions that each client has.
pub open spec fn lengths<K, V>(h: HistoryView<K, V>) -> Seq<int> {
    Seq::new(h.len(), |c: int| h[c].len() as int)
}

/// The number of transactions in the history.
pub open spec fn total<K, V>(h: HistoryView<K, V>) -> int {
    sum_upto(lengths(h), h.len() as int)
}

/// The number of transactions that the frontier has placed.
pub open spec fn placed(f: Frontier) -> int {
    sum_upto(f, f.len() as int)
}

/// Every transaction is placed.
pub open spec fn terminal<K, V>(h: HistoryView<K, V>, f: Frontier) -> bool {
    placed(f) == total(h)
}

/// The number of transactions still to place.
pub open spec fn remaining<K, V>(h: HistoryView<K, V>, f: Frontier) -> nat {
    if total(h) >= placed(f) {
        (total(h) - placed(f)) as nat
    } else {
        0
    }
}

/// The frontier after the next transaction of client `i` is placed.
pub open spec fn advance(f: Frontier, i: int) -> Frontier {
    f.update(i, f[i] + 1)
}

/// Some transaction that writes `val` to `key` is already placed.
pub open spec fn some_writer_placed<K, V>(h: HistoryView<K, V>, f: Frontier, key: K, val: V) -> bool {
    exists|c: int, d: int| #[trigger] is_writer(h, c, d, key, val) && d < f[c]
}

/// Every transaction that writes `val` to `key` is already placed. This holds
/// in particular where nothing writes it.
pub open spec fn all_writers_placed<K, V>(h: HistoryView<K, V>, f: Frontier, key: K, val: V) -> bool {
    forall|c: int, d: int| #[trigger] is_writer(h, c, d, key, val) ==> d < f[c]
}

/// Each read of `t` observes a value that some placed transaction wrote.
pub open spec fn read_feasible<K, V>(h: HistoryView<K, V>, f: Frontier, t: TxnView<K, V>) -> bool {
    forall|o: int|
        0 <= o < t.len() && (#[trigger] t[o]) is Get ==> some_writer_placed(
            h,
            f,
            t[o].key(),
            t[o].val(),
        )
}

/// Placing `t` now would strand a read of `u`: `u` reads a key that `t`
/// writes, and every writer of the value it observed is already placed.
pub open spec fn strands<K, V>(
    h: HistoryView<K, V>,
    f: Frontier,
    t: TxnView<K, V>,
    u: TxnView<K, V>,
) -> bool {
    exists|o: int|
        0 <= o < u.len() && (#[trigger] u[o]) is Get && txn_writes(t, u[o].key())
            && all_writers_placed(h, f, u[o].key(), u[o].val())
}

/// Transaction `d` of client `c` is not placed and is not the next one of
/// client `i`.
pub open spec fn pending<K, V>(h: HistoryView<K, V>, f: Frontier, i: int, c: int, d: int) -> bool {
    0 <= c < h.len() && d < h[c].len() && d >= f[c] + (if c == i {
        1int
    } else {
        0int
    })
}

/// Placing the next transaction of client `i` would strand a read of some
/// pending transaction.
pub open spec fn write_conflict<K, V>(h: HistoryView<K, V>, f: Frontier, i: int) -> bool {
    exists|c: int, d: int| #[trigger]
        pending(h, f, i, c, d) && strands(h, f, h[i][f[i]], h[c][d])
}

/// Client `i` has a next transaction and both filters let it through.
pub open spec fn placeable<K, V>(h: HistoryView<K, V>, f: Frontier, i: int) -> bool {
    &&& 0 <= i < h.len()
    &&& f[i] < h[i].len()
    &&& read_feasible(h, f, h[i][f[i]])
    &&& !write_conflict(h, f, i)
}

/// The result of the search from frontier `f`: every transaction is placed,
/// or some client's next transaction is placeable and the search succeeds
/// from the frontier advanced by it.
pub open spec fn extend<K, V>(h: HistoryView<K, V>, f: Frontier) -> bool
    decreases remaining(h, f),
    via extend_terminates::<K, V>
{
    valid_frontier(h, f) && (terminal(h, f) || exists|i: int| #[trigger]
        placeable(h, f, i) && extend(h, advance(f, i)))
}

#[via_fn]
proof fn extend_terminates<K, V>(h: HistoryView<K, V>, f: Frontier) {
    if valid_frontier(h, f) {
        assert forall|i: int| #[trigger] placeable(h, f, i) implies remaining(h, advance(f, i))
            < remaining(h, f) by {
            lemma_advance(h, f, i);
        }
    }
}

/// The initial frontier of `n` clients.
pub open spec fn origin(n: nat) -> Frontier {
    Seq::new(n, |c: int| 0int)
}

/// Whether the search from the initial frontier places every transaction.
pub open spec fn searchable<K, V>(h: HistoryView<K, V>) -> bool {
    extend(h, origin(h.len()))
}

/// Updating one of the first `n` entries changes their sum by the difference.
pub proof fn lemma_sum_update(s: Seq<int>, n: int, i: int, v: int)
    requires
        0 <= i < s.len(),
        0 <= n <= s.len(),
    ensures
        sum_upto(s.update(i, v), n) == sum_upto(s, n) + (if i < n {
            v - s[i]
        } else {
            0
        }),
    decreases n,
{
    if n > 0 {
        lemma_sum_update(s, n - 1, i, v);
    }
}

/// Where one sequence stays below another entry by entry, so do the sums;
/// and where the sums meet, so do the entries.
pub proof fn lemma_sum_bounded(a: Seq<int>, b: Seq<int>, n: int)
    requires
        0 <= n <= a.len(),
        n <= b.len(),
        forall|c: int| 0 <= c < n ==> a[c] <= b[c],
    ensures
        sum_upto(a, n) <= sum_upto(b, n),
        sum_upto(a, n) == sum_upto(b, n) ==> forall|c: int| 0 <= c < n ==> a[c] == b[c],
    decreases n,
{
    if n > 0 {
        lemma_sum_bounded(a, b, n - 1);
    }
}

/// Sums of sequences that agree on the first `n` entries agree.
pub proof fn lemma_sum_agrees(a: Seq<int>, b: Seq<int>, n: int)
    requires
        0 <= n <= a.len(),
        n <= b.len(),
        forall|c: int| 0 <= c < n ==> a[c] == b[c],
    ensures
        sum_upto(a, n) == sum_upto(b, n),
    decreases n,
{
    if n > 0 {
        lemma_sum_agrees(a, b, n - 1);
    }
}

/// A valid frontier has placed no more than there is, and is terminal exactly
/// when every client is exhausted.
pub proof fn lemma_terminal<K, V>(h: HistoryView<K, V>, f: Frontier)
    requires
        valid_frontier(h, f),
    ensures
        0 <= placed(f) <= total(h),
        terminal(h, f) <==> forall|c: int| 0 <= c < h.len() ==> f[c] == h[c].len(),
{
    let l = lengths(h);
    lemma_sum_bounded(f, l, h.len() as int);
    lemma_sum_bounded(origin(h.len()), f, h.len() as int);
    lemma_sum_origin(h.len(), h.len() as int);
    if forall|c: int| 0 <= c < h.len() ==> f[c] == h[c].len() {
        lemma_sum_agrees(f, l, h.len() as int);
    }
}

/// The initial frontier has placed nothing.
pub proof fn lemma_sum_origin(n: nat, m: int)
    requires
        0 <= m <= n,
    ensures
        sum_upto(origin(n), m) == 0,
    decreases m,
{
    if m > 0 {
        lemma_sum_origin(n, m - 1);
    }
}

/// Placing a client's next transaction keeps the frontier valid and leaves
/// one transaction fewer to place.
pub proof fn lemma_advance<K, V>(h: HistoryView<K, V>, f: Frontier, i: int)
    requires
        valid_frontier(h, f),
        0 <= i < h.len(),
        f[i] < h[i].len(),
    ensures
        valid_frontier(h, advance(f, i)),
        placed(advance(f, i)) == placed(f) + 1,
        remaining(h, advance(f, i)) + 1 == remaining(h, f),
{
    lemma_sum_update(f, f.len() as int, i, f[i] + 1);
    lemma_terminal(h, f);
    lemma_terminal(h, advance(f, i));
}

} // verus!
