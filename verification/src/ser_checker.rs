//! The serializability search: a reverse index from written values to their
//! writers, and a memoized backtracking search over frontiers.

use vstd::prelude::*;
use crate::model::{
    advance, all_writers_placed, as_ints, extend, is_writer, lemma_advance,
    lemma_terminal, lengths, origin, pending, placeable, placed, read_feasible, remaining,
    some_writer_placed, strands, sum_upto, terminal, total, txn_writes, valid_frontier,
    write_conflict, Frontier, HistoryView, OpView,
};
use crate::transaction::{clients_view, Key, Op, Transaction, Value};

verus! {

/// One entry of the reverse index: a written pair and the positions
/// `(client, transaction)` of the transactions that write it.
pub struct WriterEntry<K: Key, V: Value> {
    pub key: K,
    pub val: V,
    pub writers: Vec<(usize, usize)>,
}

impl<K: Key, V: Value> WriterEntry<K, V> {
    /// The entry lists position `(c, d)`.
    pub open spec fn lists(&self, c: int, d: int) -> bool {
        exists|w: int|
            0 <= w < self.writers@.len() && (#[trigger] self.writers@[w]).0 == c
                && self.writers@[w].1 == d
    }

    /// The entry is for the pair `(key, val)` and lists position `(c, d)`.
    pub open spec fn records(&self, key: K::V, val: V::V, c: int, d: int) -> bool {
        self.key@ == key && self.val@ == val && self.lists(c, d)
    }
}

/// The index holds `(c, d)` as a writer of `(key, val)`.
pub open spec fn indexed<K: Key, V: Value>(
    index: Seq<WriterEntry<K, V>>,
    key: K::V,
    val: V::V,
    c: int,
    d: int,
) -> bool {
    exists|e: int| 0 <= e < index.len() && (#[trigger] index[e]).records(key, val, c, d)
}

/// Every position that the index lists does write the entry's pair.
pub open spec fn index_sound<K: Key, V: Value>(
    index: Seq<WriterEntry<K, V>>,
    h: HistoryView<K::V, V::V>,
) -> bool {
    forall|e: int, w: int|
        0 <= e < index.len() && 0 <= w < index[e].writers@.len() ==> is_writer(
            h,
            (#[trigger] index[e].writers@[w]).0 as int,
            index[e].writers@[w].1 as int,
            index[e].key@,
            index[e].val@,
        )
}

/// No pair has two entries, and no entry is empty.
pub open spec fn index_distinct<K: Key, V: Value>(index: Seq<WriterEntry<K, V>>) -> bool {
    &&& forall|e: int| 0 <= e < index.len() ==> (#[trigger] index[e]).writers@.len() > 0
    &&& forall|a: int, b: int|
        0 <= a < index.len() && 0 <= b < index.len() && (#[trigger] index[a]).key@ == (
        #[trigger] index[b]).key@ && index[a].val@ == index[b].val@ ==> a == b
}

/// Every write in the history is in the index under its pair and position.
pub open spec fn index_complete<K: Key, V: Value>(
    index: Seq<WriterEntry<K, V>>,
    h: HistoryView<K::V, V::V>,
) -> bool {
    forall|c: int, d: int, key: K::V, val: V::V| #[trigger]
        is_writer(h, c, d, key, val) ==> indexed(index, key, val, c, d)
}

/// Operation `o` of transaction `(c, d)` comes before operation `o2` of
/// transaction `(c2, d2)` in the order in which the history is scanned.
pub open spec fn scanned_before(c: int, d: int, o: int, c2: int, d2: int, o2: int) -> bool {
    c < c2 || (c == c2 && (d < d2 || (d == d2 && o < o2)))
}

/// Every write that the scan has passed is in the index.
pub open spec fn index_covers<K: Key, V: Value>(
    index: Seq<WriterEntry<K, V>>,
    h: HistoryView<K::V, V::V>,
    c2: int,
    d2: int,
    o2: int,
) -> bool {
    forall|c: int, d: int, o: int|
        0 <= c < h.len() && 0 <= d < h[c].len() && 0 <= o < h[c][d].len() && (
        #[trigger] h[c][d][o]) is Put && scanned_before(c, d, o, c2, d2, o2) ==> indexed(
            index,
            h[c][d][o].key(),
            h[c][d][o].val(),
            c,
            d,
        )
}

/// The entry of the pair `(key, val)`, if the index has one.
pub fn find_entry<K: Key, V: Value>(index: &Vec<WriterEntry<K, V>>, key: &K, val: &V) -> (found:
    Option<usize>)
    ensures
        match found {
            Some(e) => e < index@.len() && index@[e as int].key@ == key@ && index@[e as int].val@
                == val@,
            None => forall|e: int|
                0 <= e < index@.len() ==> !((#[trigger] index@[e]).key@ == key@ && index@[e].val@
                    == val@),
        },
{
    let mut e: usize = 0;
    while e < index.len()
        invariant
            e <= index@.len(),
            forall|j: int|
                0 <= j < e ==> !((#[trigger] index@[j]).key@ == key@ && index@[j].val@ == val@),
        decreases index@.len() - e,
    {
        if index[e].key.same_key(key) && index[e].val.same_value(val) {
            return Some(e);
        }
        e += 1;
    }
    None
}

/// Whether the list of positions holds `(c, d)`.
pub fn lists_position(writers: &Vec<(usize, usize)>, c: usize, d: usize) -> (found: bool)
    ensures
        found == exists|w: int|
            0 <= w < writers@.len() && (#[trigger] writers@[w]).0 == c && writers@[w].1 == d,
{
    let mut w: usize = 0;
    while w < writers.len()
        invariant
            w <= writers@.len(),
            forall|j: int| 0 <= j < w ==> !((#[trigger] writers@[j]).0 == c && writers@[j].1 == d),
        decreases writers@.len() - w,
    {
        if writers[w].0 == c && writers[w].1 == d {
            return true;
        }
        w += 1;
    }
    false
}

/// Enters `(c, d)` as a writer of `(key, val)`: into the pair's entry where
/// there is one, else into a new entry. What the index held, it still holds.
fn record_writer<K: Key, V: Value>(
    index: &mut Vec<WriterEntry<K, V>>,
    key: &K,
    val: &V,
    c: usize,
    d: usize,
    Ghost(h): Ghost<HistoryView<K::V, V::V>>,
)
    requires
        index_sound(old(index)@, h),
        index_distinct(old(index)@),
        is_writer(h, c as int, d as int, key@, val@),
    ensures
        index_sound(final(index)@, h),
        index_distinct(final(index)@),
        indexed(final(index)@, key@, val@, c as int, d as int),
        forall|k: K::V, v: V::V, c2: int, d2: int| #[trigger]
            indexed(old(index)@, k, v, c2, d2) ==> indexed(final(index)@, k, v, c2, d2),
{
    let ghost before = index@;
    match find_entry(index, key, val) {
        Some(e) => {
            if !lists_position(&index[e].writers, c, d) {
                let mut writers: Vec<(usize, usize)> = Vec::new();
                let mut w: usize = 0;
                while w < index[e].writers.len()
                    invariant
                        index@ == before,
                        e < before.len(),
                        w <= before[e as int].writers@.len(),
                        writers@ == before[e as int].writers@.take(w as int),
                    decreases before[e as int].writers@.len() - w,
                {
                    writers.push(index[e].writers[w]);
                    assert(writers@ =~= before[e as int].writers@.take(w + 1));
                    w += 1;
                }
                assert(writers@ =~= before[e as int].writers@);
                writers.push((c, d));
                let entry = WriterEntry {
                    key: index[e].key.copy_key(),
                    val: index[e].val.copy_value(),
                    writers,
                };
                index.set(e, entry);
                proof {
                    let after = index@;
                    let n = before[e as int].writers@.len() as int;
                    assert(after[e as int].writers@[n] == (c, d));
                    assert(after[e as int].records(key@, val@, c as int, d as int));
                    assert forall|j: int, w: int|
                        0 <= j < after.len() && 0 <= w < after[j].writers@.len() implies is_writer(
                        h,
                        (#[trigger] after[j].writers@[w]).0 as int,
                        after[j].writers@[w].1 as int,
                        after[j].key@,
                        after[j].val@,
                    ) by {
                        if j == e {
                            if w < n {
                                assert(after[j].writers@[w] == before[j].writers@[w]);
                            }
                        } else {
                            assert(after[j] == before[j]);
                        }
                    }
                    assert forall|a: int, b: int|
                        0 <= a < after.len() && 0 <= b < after.len() && (#[trigger] after[a]).key@
                            == (#[trigger] after[b]).key@ && after[a].val@
                            == after[b].val@ implies a == b by {
                        assert(after[a].key@ == before[a].key@ && after[a].val@ == before[a].val@);
                        assert(after[b].key@ == before[b].key@ && after[b].val@ == before[b].val@);
                    }
                    assert forall|j: int| 0 <= j < after.len() implies (
                    #[trigger] after[j]).writers@.len() > 0 by {
                        if j != e {
                            assert(after[j] == before[j]);
                        }
                    }
                    assert forall|k: K::V, v: V::V, c2: int, d2: int| #[trigger]
                        indexed(before, k, v, c2, d2) implies indexed(after, k, v, c2, d2) by {
                        let j = choose|j: int|
                            0 <= j < before.len() && (#[trigger] before[j]).records(k, v, c2, d2);
                        if j == e {
                            let w = choose|w: int|
                                0 <= w < before[j].writers@.len() && (
                                #[trigger] before[j].writers@[w]).0 == c2
                                    && before[j].writers@[w].1 == d2;
                            assert(after[j].writers@[w] == before[j].writers@[w]);
                            assert(after[j].lists(c2, d2));
                        } else {
                            assert(after[j] == before[j]);
                        }
                        assert(after[j].records(k, v, c2, d2));
                    }
                }
            } else {
                assert(index@[e as int].records(key@, val@, c as int, d as int));
            }
        },
        None => {
            let mut writers: Vec<(usize, usize)> = Vec::new();
            writers.push((c, d));
            let entry = WriterEntry { key: key.copy_key(), val: val.copy_value(), writers };
            index.push(entry);
            proof {
                let after = index@;
                let n = before.len() as int;
                assert(after[n].writers@[0] == (c, d));
                assert(after[n].records(key@, val@, c as int, d as int));
                assert forall|j: int, w: int|
                    0 <= j < after.len() && 0 <= w < after[j].writers@.len() implies is_writer(
                    h,
                    (#[trigger] after[j].writers@[w]).0 as int,
                    after[j].writers@[w].1 as int,
                    after[j].key@,
                    after[j].val@,
                ) by {
                    if j < n {
                        assert(after[j] == before[j]);
                    }
                }
                assert forall|a: int, b: int|
                    0 <= a < after.len() && 0 <= b < after.len() && (#[trigger] after[a]).key@ == (
                    #[trigger] after[b]).key@ && after[a].val@ == after[b].val@ implies a == b by {
                    if a < n {
                        assert(after[a] == before[a]);
                    }
                    if b < n {
                        assert(after[b] == before[b]);
                    }
                }
                assert forall|j: int| 0 <= j < after.len() implies (
                #[trigger] after[j]).writers@.len() > 0 by {
                    if j < n {
                        assert(after[j] == before[j]);
                    }
                }
                assert forall|k: K::V, v: V::V, c2: int, d2: int| #[trigger]
                    indexed(before, k, v, c2, d2) implies indexed(after, k, v, c2, d2) by {
                    let j = choose|j: int|
                        0 <= j < before.len() && (#[trigger] before[j]).records(k, v, c2, d2);
                    assert(after[j] == before[j]);
                    assert(after[j].records(k, v, c2, d2));
                }
            }
        },
    }
}

/// Builds the reverse index of a history in one scan.
pub fn build_index<K: Key, V: Value>(transactions: &Vec<Vec<Transaction<K, V>>>) -> (index: Vec<
    WriterEntry<K, V>,
>)
    ensures
        index_sound(index@, clients_view(*transactions)),
        index_distinct(index@),
        index_complete(index@, clients_view(*transactions)),
{
    let ghost h = clients_view(*transactions);
    let mut index: Vec<WriterEntry<K, V>> = Vec::new();
    let mut c: usize = 0;
    while c < transactions.len()
        invariant
            h == clients_view(*transactions),
            c <= transactions@.len(),
            index_sound(index@, h),
            index_distinct(index@),
            index_covers(index@, h, c as int, 0, 0),
        decreases transactions@.len() - c,
    {
        let client = &transactions[c];
        let mut d: usize = 0;
        while d < client.len()
            invariant
                h == clients_view(*transactions),
                c < transactions@.len(),
                *client == transactions@[c as int],
                d <= client@.len(),
                index_sound(index@, h),
                index_distinct(index@),
                index_covers(index@, h, c as int, d as int, 0),
            decreases client@.len() - d,
        {
            let t = &client[d];
            let mut o: usize = 0;
            while o < t.ops.len()
                invariant
                    h == clients_view(*transactions),
                    c < transactions@.len(),
                    *client == transactions@[c as int],
                    d < client@.len(),
                    *t == client@[d as int],
                    o <= t.ops@.len(),
                    index_sound(index@, h),
                    index_distinct(index@),
                    index_covers(index@, h, c as int, d as int, o as int),
                decreases t.ops@.len() - o,
            {
                assert(h[c as int][d as int][o as int] == t.ops@[o as int]@);
                if let Op::Put(put) = &t.ops[o] {
                    assert(h[c as int][d as int][o as int] == (OpView::Put {
                        key: put.key@,
                        val: put.val@,
                    }));
                    assert(is_writer(h, c as int, d as int, put.key@, put.val@));
                    record_writer(&mut index, &put.key, &put.val, c, d, Ghost(h));
                }
                o += 1;
            }
            d += 1;
        }
        c += 1;
    }
    proof {
        assert forall|c: int, d: int, key: K::V, val: V::V| #[trigger]
            is_writer(h, c, d, key, val) implies indexed(index@, key, val, c, d) by {
            let op = OpView::Put { key, val };
            let o = choose|o: int| 0 <= o < h[c][d].len() && h[c][d][o] == op;
            assert(h[c][d][o] is Put);
            assert(scanned_before(c, d, o, transactions@.len() as int, 0, 0));
        }
    }
    index
}

/// The frontier that a vector of counts stands for.
pub open spec fn frontier_of(counts: Seq<usize>) -> Frontier {
    as_ints(counts)
}

/// Every remembered answer is the search's answer for a valid frontier.
pub open spec fn cache_sound<K, V>(cache: Seq<(Vec<usize>, bool)>, h: HistoryView<K, V>) -> bool {
    forall|j: int|
        0 <= j < cache.len() ==> valid_frontier(h, frontier_of((#[trigger] cache[j]).0@))
            && cache[j].1 == extend(h, frontier_of(cache[j].0@))
}

/// Whether two vectors of counts are the same frontier.
pub fn same_counts(a: &Vec<usize>, b: &Vec<usize>) -> (same: bool)
    ensures
        same == (a@ == b@),
{
    if a.len() != b.len() {
        return false;
    }
    let mut c: usize = 0;
    while c < a.len()
        invariant
            a@.len() == b@.len(),
            c <= a@.len(),
            forall|j: int| 0 <= j < c ==> a@[j] == b@[j],
        decreases a@.len() - c,
    {
        if a[c] != b[c] {
            return false;
        }
        c += 1;
    }
    assert(a@ =~= b@);
    true
}

/// The partial sums of a sequence without negative entries do not shrink.
pub proof fn lemma_sum_grows(s: Seq<int>, a: int, b: int)
    requires
        0 <= a <= b <= s.len(),
        forall|c: int| 0 <= c < s.len() ==> s[c] >= 0,
    ensures
        0 <= sum_upto(s, a) <= sum_upto(s, b),
    decreases b,
{
    if a < b {
        lemma_sum_grows(s, a, b - 1);
    } else if a > 0 {
        lemma_sum_grows(s, a - 1, a - 1);
    }
}

/// The state of one serializability search.
pub struct SerChecker<K: Key, V: Value> {
    /// The history under check; never changed.
    pub transactions: Vec<Vec<Transaction<K, V>>>,
    /// The frontier: how many transactions of each client are placed.
    pub searched: Vec<usize>,
    /// The frontiers searched so far, each with the search's answer.
    pub searched_cache: Vec<(Vec<usize>, bool)>,
    /// The reverse index from written pairs to their writers.
    pub kv_rev: Vec<WriterEntry<K, V>>,
}

impl<K: Key, V: Value> SerChecker<K, V> {
    /// The history under check.
    pub open spec fn history(&self) -> HistoryView<K::V, V::V> {
        clients_view(self.transactions)
    }

    /// The current frontier.
    pub open spec fn frontier(&self) -> Frontier {
        frontier_of(self.searched@)
    }

    /// The frontier is valid, the reverse index holds exactly the writes of
    /// the history, and every remembered answer is right.
    pub open spec fn wf(&self) -> bool {
        &&& valid_frontier(self.history(), self.frontier())
        &&& index_sound(self.kv_rev@, self.history())
        &&& index_distinct(self.kv_rev@)
        &&& index_complete(self.kv_rev@, self.history())
        &&& cache_sound(self.searched_cache@, self.history())
    }

    /// A checker for the history, at the initial frontier, with the reverse
    /// index built and nothing remembered.
    pub fn new(transactions: Vec<Vec<Transaction<K, V>>>) -> (checker: Self)
        ensures
            checker.wf(),
            checker.transactions == transactions,
            checker.frontier() == origin(transactions@.len()),
            checker.searched_cache@.len() == 0,
    {
        let mut searched: Vec<usize> = Vec::new();
        let mut c: usize = 0;
        while c < transactions.len()
            invariant
                c <= transactions@.len(),
                searched@.len() == c,
                forall|j: int| 0 <= j < c ==> searched@[j] == 0,
            decreases transactions@.len() - c,
        {
            searched.push(0);
            c += 1;
        }
        let kv_rev = build_index(&transactions);
        let searched_cache: Vec<(Vec<usize>, bool)> = Vec::new();
        assert(frontier_of(searched@) =~= origin(transactions@.len()));
        SerChecker { transactions, searched, searched_cache, kv_rev }
    }

    /// The number of transactions in the history.
    pub fn target_len(&self) -> (len: usize)
        requires
            total(self.history()) <= usize::MAX,
        ensures
            len == total(self.history()),
    {
        let ghost l = lengths(self.history());
        let mut len: usize = 0;
        let mut c: usize = 0;
        while c < self.transactions.len()
            invariant
                l == lengths(self.history()),
                c <= self.transactions@.len(),
                len == sum_upto(l, c as int),
                sum_upto(l, l.len() as int) <= usize::MAX,
            decreases self.transactions@.len() - c,
        {
            proof {
                lemma_sum_grows(l, c + 1, l.len() as int);
            }
            len = len + self.transactions[c].len();
            c += 1;
        }
        len
    }

    /// The number of transactions that the frontier has placed.
    pub fn searched_len(&self) -> (len: usize)
        requires
            placed(self.frontier()) <= usize::MAX,
        ensures
            len == placed(self.frontier()),
    {
        let ghost f = self.frontier();
        let mut len: usize = 0;
        let mut c: usize = 0;
        while c < self.searched.len()
            invariant
                f == self.frontier(),
                c <= self.searched@.len(),
                len == sum_upto(f, c as int),
                sum_upto(f, f.len() as int) <= usize::MAX,
            decreases self.searched@.len() - c,
        {
            proof {
                lemma_sum_grows(f, c + 1, f.len() as int);
            }
            len = len + self.searched[c];
            c += 1;
        }
        len
    }

    /// Whether every transaction is placed.
    pub fn is_terminal(&self) -> (done: bool)
        requires
            self.wf(),
        ensures
            done == terminal(self.history(), self.frontier()),
    {
        let ghost h = self.history();
        let ghost f = self.frontier();
        let mut c: usize = 0;
        while c < self.transactions.len()
            invariant
                self.wf(),
                h == self.history(),
                f == self.frontier(),
                c <= self.transactions@.len(),
                forall|j: int| 0 <= j < c ==> (#[trigger] f[j]) == h[j].len(),
            decreases self.transactions@.len() - c,
        {
            if self.searched[c] != self.transactions[c].len() {
                proof {
                    lemma_terminal(h, f);
                    assert(f[c as int] != h[c as int].len());
                }
                return false;
            }
            c += 1;
        }
        proof {
            lemma_terminal(h, f);
        }
        true
    }

    /// Whether some placed transaction writes `val` to `key`.
    pub fn some_writer_placed(&self, key: &K, val: &V) -> (found: bool)
        requires
            self.wf(),
        ensures
            found == some_writer_placed(self.history(), self.frontier(), key@, val@),
    {
        let ghost h = self.history();
        let ghost f = self.frontier();
        match find_entry(&self.kv_rev, key, val) {
            None => {
                proof {
                    if some_writer_placed(h, f, key@, val@) {
                        let (c, d) = choose|c: int, d: int| #[trigger]
                            is_writer(h, c, d, key@, val@) && d < f[c];
                        assert(indexed(self.kv_rev@, key@, val@, c, d));
                    }
                }
                false
            },
            Some(e) => {
                let writers = &self.kv_rev[e].writers;
                let mut w: usize = 0;
                while w < writers.len()
                    invariant
                        self.wf(),
                        h == self.history(),
                        f == self.frontier(),
                        e < self.kv_rev@.len(),
                        *writers == self.kv_rev@[e as int].writers,
                        self.kv_rev@[e as int].key@ == key@,
                        self.kv_rev@[e as int].val@ == val@,
                        w <= writers@.len(),
                        forall|j: int|
                            0 <= j < w ==> (#[trigger] writers@[j]).1 >= f[writers@[j].0 as int],
                    decreases writers@.len() - w,
                {
                    let (c, d) = writers[w];
                    assert(is_writer(h, c as int, d as int, key@, val@));
                    if d < self.searched[c] {
                        return true;
                    }
                    w += 1;
                }
                proof {
                    if some_writer_placed(h, f, key@, val@) {
                        let (c, d) = choose|c: int, d: int| #[trigger]
                            is_writer(h, c, d, key@, val@) && d < f[c];
                        assert(indexed(self.kv_rev@, key@, val@, c, d));
                        let e2 = choose|e2: int|
                            0 <= e2 < self.kv_rev@.len() && (#[trigger] self.kv_rev@[e2]).records(
                                key@,
                                val@,
                                c,
                                d,
                            );
                        assert(e2 == e);
                        let j = choose|j: int|
                            0 <= j < writers@.len() && (#[trigger] writers@[j]).0 == c
                                && writers@[j].1 == d;
                        assert(writers@[j].1 >= f[writers@[j].0 as int]);
                    }
                }
                false
            },
        }
    }

    /// Whether every transaction that writes `val` to `key` is placed.
    pub fn all_writers_placed(&self, key: &K, val: &V) -> (all: bool)
        requires
            self.wf(),
        ensures
            all == all_writers_placed(self.history(), self.frontier(), key@, val@),
    {
        let ghost h = self.history();
        let ghost f = self.frontier();
        match find_entry(&self.kv_rev, key, val) {
            None => {
                proof {
                    assert forall|c: int, d: int| #[trigger]
                        is_writer(h, c, d, key@, val@) implies d < f[c] by {
                        assert(indexed(self.kv_rev@, key@, val@, c, d));
                    }
                }
                true
            },
            Some(e) => {
                let writers = &self.kv_rev[e].writers;
                let mut w: usize = 0;
                while w < writers.len()
                    invariant
                        self.wf(),
                        h == self.history(),
                        f == self.frontier(),
                        e < self.kv_rev@.len(),
                        *writers == self.kv_rev@[e as int].writers,
                        self.kv_rev@[e as int].key@ == key@,
                        self.kv_rev@[e as int].val@ == val@,
                        w <= writers@.len(),
                        forall|j: int|
                            0 <= j < w ==> (#[trigger] writers@[j]).1 < f[writers@[j].0 as int],
                    decreases writers@.len() - w,
                {
                    let (c, d) = writers[w];
                    assert(is_writer(h, c as int, d as int, key@, val@));
                    if d >= self.searched[c] {
                        return false;
                    }
                    w += 1;
                }
                proof {
                    assert forall|c: int, d: int| #[trigger]
                        is_writer(h, c, d, key@, val@) implies d < f[c] by {
                        assert(indexed(self.kv_rev@, key@, val@, c, d));
                        let e2 = choose|e2: int|
                            0 <= e2 < self.kv_rev@.len() && (#[trigger] self.kv_rev@[e2]).records(
                                key@,
                                val@,
                                c,
                                d,
                            );
                        assert(e2 == e);
                        let j = choose|j: int|
                            0 <= j < writers@.len() && (#[trigger] writers@[j]).0 == c
                                && writers@[j].1 == d;
                        assert(writers@[j].1 < f[writers@[j].0 as int]);
                    }
                }
                true
            },
        }
    }

    /// The read-feasibility filter on the next transaction of client `index`.
    pub fn read_feasible(&self, index: usize) -> (feasible: bool)
        requires
            self.wf(),
            index < self.transactions@.len(),
            self.searched@[index as int] < self.transactions@[index as int]@.len(),
        ensures
            feasible == read_feasible(
                self.history(),
                self.frontier(),
                self.history()[index as int][self.frontier()[index as int]],
            ),
    {
        let ghost h = self.history();
        let ghost f = self.frontier();
        let t = &self.transactions[index][self.searched[index]];
        let ghost tv = h[index as int][f[index as int]];
        assert(tv == t@);
        let mut o: usize = 0;
        while o < t.ops.len()
            invariant
                self.wf(),
                h == self.history(),
                f == self.frontier(),
                tv == t@,
                tv == h[index as int][f[index as int]],
                o <= t.ops@.len(),
                forall|j: int|
                    0 <= j < o && (#[trigger] tv[j]) is Get ==> some_writer_placed(
                        h,
                        f,
                        tv[j].key(),
                        tv[j].val(),
                    ),
            decreases t.ops@.len() - o,
        {
            if let Op::Get(get) = &t.ops[o] {
                assert(tv[o as int] == (OpView::Get { key: get.key@, val: get.val@ }));
                if !self.some_writer_placed(&get.key, &get.val) {
                    assert(tv[o as int] is Get && !some_writer_placed(
                        h,
                        f,
                        tv[o as int].key(),
                        tv[o as int].val(),
                    ));
                    return false;
                }
            }
            o += 1;
        }
        true
    }

    /// Whether placing the next transaction of client `index` would strand a
    /// read of transaction `d` of client `c`.
    pub fn strands(&self, index: usize, c: usize, d: usize) -> (stranded: bool)
        requires
            self.wf(),
            index < self.transactions@.len(),
            self.searched@[index as int] < self.transactions@[index as int]@.len(),
            c < self.transactions@.len(),
            d < self.transactions@[c as int]@.len(),
        ensures
            stranded == strands(
                self.history(),
                self.frontier(),
                self.history()[index as int][self.frontier()[index as int]],
                self.history()[c as int][d as int],
            ),
    {
        let ghost h = self.history();
        let ghost f = self.frontier();
        let t = &self.transactions[index][self.searched[index]];
        let u = &self.transactions[c][d];
        let ghost tv = h[index as int][f[index as int]];
        let ghost uv = h[c as int][d as int];
        assert(tv == t@);
        assert(uv == u@);
        let mut o: usize = 0;
        while o < u.ops.len()
            invariant
                self.wf(),
                h == self.history(),
                f == self.frontier(),
                tv == t@,
                uv == u@,
                tv == h[index as int][f[index as int]],
                uv == h[c as int][d as int],
                o <= u.ops@.len(),
                forall|j: int|
                    0 <= j < o ==> !((#[trigger] uv[j]) is Get && txn_writes(tv, uv[j].key())
                        && all_writers_placed(h, f, uv[j].key(), uv[j].val())),
            decreases u.ops@.len() - o,
        {
            if let Op::Get(get) = &u.ops[o] {
                assert(uv[o as int] == (OpView::Get { key: get.key@, val: get.val@ }));
                if t.writes(get.key.copy_key()) {
                    if self.all_writers_placed(&get.key, &get.val) {
                        assert(uv[o as int] is Get && txn_writes(tv, uv[o as int].key())
                            && all_writers_placed(h, f, uv[o as int].key(), uv[o as int].val()));
                        return true;
                    }
                }
            }
            o += 1;
        }
        false
    }

    /// The write-conflict filter on the next transaction of client `index`.
    pub fn write_conflict(&self, index: usize) -> (conflict: bool)
        requires
            self.wf(),
            index < self.transactions@.len(),
            self.searched@[index as int] < self.transactions@[index as int]@.len(),
        ensures
            conflict == write_conflict(self.history(), self.frontier(), index as int),
    {
        let ghost h = self.history();
        let ghost f = self.frontier();
        let ghost tv = h[index as int][f[index as int]];
        let mut c: usize = 0;
        while c < self.transactions.len()
            invariant
                self.wf(),
                h == self.history(),
                f == self.frontier(),
                tv == h[index as int][f[index as int]],
                index < self.transactions@.len(),
                self.searched@[index as int] < self.transactions@[index as int]@.len(),
                c <= self.transactions@.len(),
                forall|c2: int, d2: int|
                    0 <= c2 < c && #[trigger] pending(h, f, index as int, c2, d2) ==> !strands(
                        h,
                        f,
                        tv,
                        h[c2][d2],
                    ),
            decreases self.transactions@.len() - c,
        {
            let len = self.transactions[c].len();
            let mut d: usize = self.searched[c];
            if c == index {
                d += 1;
            }
            while d < len
                invariant
                    self.wf(),
                    h == self.history(),
                    f == self.frontier(),
                    tv == h[index as int][f[index as int]],
                    index < self.transactions@.len(),
                    self.searched@[index as int] < self.transactions@[index as int]@.len(),
                    c < self.transactions@.len(),
                    len == self.transactions@[c as int]@.len(),
                    d >= f[c as int] + (if c == index {
                        1int
                    } else {
                        0int
                    }),
                    forall|c2: int, d2: int|
                        0 <= c2 < c && #[trigger] pending(h, f, index as int, c2, d2) ==> !strands(
                            h,
                            f,
                            tv,
                            h[c2][d2],
                        ),
                    forall|d2: int|
                        d2 < d && #[trigger] pending(h, f, index as int, c as int, d2) ==> !strands(
                            h,
                            f,
                            tv,
                            h[c as int][d2],
                        ),
                decreases len - d,
            {
                if self.strands(index, c, d) {
                    assert(pending(h, f, index as int, c as int, d as int));
                    return true;
                }
                d += 1;
            }
            c += 1;
        }
        false
    }

    /// The remembered answer for the current frontier, if there is one.
    pub fn recall(&self) -> (answer: Option<bool>)
        requires
            self.wf(),
        ensures
            answer is Some <==> exists|j: int|
                0 <= j < self.searched_cache@.len() && (#[trigger] self.searched_cache@[j]).0@
                    == self.searched@,
            answer matches Some(found) ==> found == extend(self.history(), self.frontier()),
    {
        let mut j: usize = 0;
        while j < self.searched_cache.len()
            invariant
                self.wf(),
                j <= self.searched_cache@.len(),
                forall|k: int|
                    0 <= k < j ==> (#[trigger] self.searched_cache@[k]).0@ != self.searched@,
            decreases self.searched_cache@.len() - j,
        {
            if same_counts(&self.searched_cache[j].0, &self.searched) {
                return Some(self.searched_cache[j].1);
            }
            j += 1;
        }
        None
    }

    /// Remembers the search's answer for the current frontier.
    pub fn remember(&mut self, found: bool)
        requires
            old(self).wf(),
            found == extend(old(self).history(), old(self).frontier()),
        ensures
            final(self).wf(),
            final(self).transactions == old(self).transactions,
            final(self).searched == old(self).searched,
            final(self).kv_rev == old(self).kv_rev,
            final(self).searched_cache@.len() == old(self).searched_cache@.len() + 1,
            final(self).searched_cache@.drop_last() == old(self).searched_cache@,
            final(self).searched_cache@.last().0@ == old(self).searched@,
            final(self).searched_cache@.last().1 == found,
    {
        let mut counts: Vec<usize> = Vec::new();
        let mut c: usize = 0;
        while c < self.searched.len()
            invariant
                c <= self.searched@.len(),
                counts@ == self.searched@.take(c as int),
            decreases self.searched@.len() - c,
        {
            counts.push(self.searched[c]);
            assert(counts@ =~= self.searched@.take(c + 1));
            c += 1;
        }
        assert(counts@ =~= self.searched@);
        self.searched_cache.push((counts, found));
        assert(self.searched_cache@.drop_last() =~= old(self).searched_cache@);
    }

    /// The search from the current frontier: whether the transactions still
    /// to place can all be placed, one placeable transaction after another.
    /// The frontier is the same on return as on entry; only answers are added
    /// to the memo.
    pub fn check(&mut self) -> (found: bool)
        requires
            old(self).wf(),
        ensures
            final(self).wf(),
            final(self).transactions == old(self).transactions,
            final(self).kv_rev == old(self).kv_rev,
            final(self).searched@ == old(self).searched@,
            found == extend(old(self).history(), old(self).frontier()),
        decreases remaining(old(self).history(), old(self).frontier()),
    {
        let ghost h = self.history();
        let ghost f = self.frontier();
        if self.is_terminal() {
            return true;
        }
        let n = self.transactions.len();
        let mut index: usize = 0;
        while index < n
            invariant
                self.wf(),
                self.transactions == old(self).transactions,
                self.kv_rev == old(self).kv_rev,
                self.searched@ == old(self).searched@,
                h == self.history(),
                f == self.frontier(),
                n == self.transactions@.len(),
                index <= n,
                !terminal(h, f),
                forall|j: int|
                    0 <= j < index ==> !(#[trigger] placeable(h, f, j) && extend(
                        h,
                        advance(f, j),
                    )),
            decreases n - index,
        {
            if self.searched[index] < self.transactions[index].len() {
                if self.read_feasible(index) && !self.write_conflict(index) {
                    assert(placeable(h, f, index as int));
                    let count = self.searched[index];
                    self.searched.set(index, count + 1);
                    proof {
                        lemma_advance(h, f, index as int);
                        assert(self.frontier() =~= advance(f, index as int));
                    }
                    let found = match self.recall() {
                        Some(found) => found,
                        None => {
                            let found = self.check();
                            self.remember(found);
                            found
                        },
                    };
                    self.searched.set(index, count);
                    assert(self.searched@ =~= old(self).searched@);
                    if found {
                        return true;
                    }
                }
            }
            index += 1;
        }
        false
    }
}

} // verus!
