//! Why a successful search carries over from a history to a history in
//! which every transaction is replaced by two halves.

use vstd::prelude::*;
use crate::model::{
    advance, all_writers_placed, extend, is_writer, lemma_advance, lemma_terminal, pending,
    placeable, remaining, origin, searchable, some_writer_placed, strands, terminal, txn_writes,
    valid_frontier, write_conflict, Frontier, HistoryView, OpView,
};
use crate::rewrite::{
    history_keys, lemma_key_listed, lemma_key_used, lemma_origin_txn, origin_txn, with_origin,
};

verus! {

/// The frontier of the expanded history that stands for `f`: two halves for
/// each placed transaction, but for the last client, which is not expanded.
pub open spec fn doubled(f: Frontier) -> Frontier {
    Seq::new(
        f.len(),
        |c: int|
            if c < f.len() - 1 {
                2 * f[c]
            } else {
                f[c]
            },
    )
}

/// Where transaction `d` of client `c` went: to the second half of its pair;
/// the transaction of the last client stays where it is.
pub open spec fn carried(n: int, c: int, d: int) -> int {
    if c < n {
        2 * d + 1
    } else {
        d
    }
}

/// Operation `o` of transaction `j` of client `c` is a read.
pub open spec fn is_read<K, V>(e: HistoryView<K, V>, c: int, j: int, o: int) -> bool {
    0 <= c < e.len() && 0 <= j < e[c].len() && 0 <= o < e[c][j].len() && e[c][j][o] is Get
}

/// Transaction `j` of client `c` writes the key of the read at
/// `(c2, j2, o2)`.
pub open spec fn writes_read<K, V>(
    e: HistoryView<K, V>,
    c: int,
    j: int,
    c2: int,
    j2: int,
    o2: int,
) -> bool {
    txn_writes(e[c][j], e[c2][j2][o2].key())
}

/// Both histories end in a client of one transaction, and every other
/// client of `e` has two transactions for each one of `g`.
pub open spec fn same_shape<K, V>(g: HistoryView<K, V>, e: HistoryView<K, V>) -> bool {
    &&& g.len() >= 1
    &&& e.len() == g.len()
    &&& g[g.len() - 1].len() == 1
    &&& e[g.len() - 1].len() == 1
    &&& forall|c: int| 0 <= c < g.len() - 1 ==> (#[trigger] e[c]).len() == 2 * g[c].len()
}

/// Every write sits, in `e`, in the transaction that its transaction was
/// carried to.
pub open spec fn carries_writers<K, V>(g: HistoryView<K, V>, e: HistoryView<K, V>) -> bool {
    forall|c: int, d: int, key: K, val: V| #[trigger]
        is_writer(g, c, d, key, val) ==> is_writer(e, c, carried(g.len() - 1, c, d), key, val)
}

/// Only halves read, and a first half reads only what its transaction reads.
pub open spec fn first_halves_read_less<K, V>(g: HistoryView<K, V>, e: HistoryView<K, V>) -> bool {
    forall|c: int, j: int, o: int| #[trigger]
        is_read(e, c, j, o) ==> c < g.len() - 1 && (j % 2 == 0 ==> g[c][j / 2].contains(
            e[c][j][o],
        ))
}

/// What a second half reads, the first half of its pair writes.
pub open spec fn second_halves_read_own<K, V>(g: HistoryView<K, V>, e: HistoryView<K, V>) -> bool {
    forall|c: int, j: int, o: int| #[trigger]
        is_read(e, c, j, o) && j % 2 == 1 ==> e[c][j - 1].contains(
            OpView::Put { key: e[c][j][o].key(), val: e[c][j][o].val() },
        )
}

/// Where a first half writes the key of a read, it writes the value read.
pub open spec fn first_halves_supply<K, V>(g: HistoryView<K, V>, e: HistoryView<K, V>) -> bool {
    forall|c: int, j: int, c2: int, j2: int, o2: int|
        0 <= c < g.len() - 1 && 0 <= j < e[c].len() && j % 2 == 0 && is_read(e, c2, j2, o2)
            && #[trigger] writes_read(e, c, j, c2, j2, o2) ==> e[c][j].contains(
            OpView::Put { key: e[c2][j2][o2].key(), val: e[c2][j2][o2].val() },
        )
}

/// Where a second half, or the last client's transaction, writes the key of
/// a read of a first half, the transaction it came from writes that key.
pub open spec fn second_halves_write_less<K, V>(
    g: HistoryView<K, V>,
    e: HistoryView<K, V>,
) -> bool {
    forall|c: int, j: int, c2: int, j2: int, o2: int|
        0 <= c < g.len() && 0 <= j < e[c].len() && (c < g.len() - 1 ==> j % 2 == 1) && is_read(
            e,
            c2,
            j2,
            o2,
        ) && j2 % 2 == 0 && #[trigger] writes_read(e, c, j, c2, j2, o2) ==> txn_writes(
            g[c][if c < g.len() - 1 {
                j / 2
            } else {
                j
            }],
            e[c2][j2][o2].key(),
        )
}

/// `e` expands `g`: each transaction of `g` but the last client's is a pair
/// of halves in `e`, and reads and writes are divided between the halves as
/// the five conditions say.
pub open spec fn expands<K, V>(g: HistoryView<K, V>, e: HistoryView<K, V>) -> bool {
    &&& same_shape(g, e)
    &&& carries_writers(g, e)
    &&& first_halves_read_less(g, e)
    &&& second_halves_read_own(g, e)
    &&& first_halves_supply(g, e)
    &&& second_halves_write_less(g, e)
}

/// A frontier of `e` that has placed at least the halves that `f` stands
/// for.
pub open spec fn at_least<K, V>(g: HistoryView<K, V>, f: Frontier, f2: Frontier) -> bool {
    &&& f2.len() == f.len()
    &&& forall|c: int| 0 <= c < f.len() ==> (#[trigger] f2[c]) >= doubled(f)[c]
}

/// A frontier of `e` that has placed at most the halves that `f` stands for
/// and first halves beyond them.
pub open spec fn at_most<K, V>(g: HistoryView<K, V>, f: Frontier, f2: Frontier) -> bool {
    &&& f2.len() == f.len()
    &&& forall|c: int|
        0 <= c < f.len() ==> (#[trigger] f2[c]) <= doubled(f)[c] + (if c < f.len() - 1 {
            1int
        } else {
            0int
        })
}

/// Where every writer of a pair is placed in `e`, every writer of it is
/// placed in `g`.
pub proof fn lemma_all_placed_back<K, V>(
    g: HistoryView<K, V>,
    e: HistoryView<K, V>,
    f: Frontier,
    f2: Frontier,
    key: K,
    val: V,
)
    requires
        expands(g, e),
        valid_frontier(g, f),
        at_most(g, f, f2),
        all_writers_placed(e, f2, key, val),
    ensures
        all_writers_placed(g, f, key, val),
{
    let n = g.len() - 1;
    assert forall|c: int, d: int| #[trigger] is_writer(g, c, d, key, val) implies d < f[c] by {
        assert(is_writer(e, c, carried(n, c, d), key, val));
        assert(carried(n, c, d) < f2[c]);
        assert(f2[c] <= doubled(f)[c] + (if c < f.len() - 1 {
            1int
        } else {
            0int
        }));
    }
}

/// Where some writer of a pair is placed in `g`, some writer of it is placed
/// in `e`.
pub proof fn lemma_some_placed_forth<K, V>(
    g: HistoryView<K, V>,
    e: HistoryView<K, V>,
    f: Frontier,
    f2: Frontier,
    key: K,
    val: V,
)
    requires
        expands(g, e),
        valid_frontier(g, f),
        at_least(g, f, f2),
        some_writer_placed(g, f, key, val),
    ensures
        some_writer_placed(e, f2, key, val),
{
    let n = g.len() - 1;
    let (c, d) = choose|c: int, d: int| #[trigger] is_writer(g, c, d, key, val) && d < f[c];
    assert(is_writer(e, c, carried(n, c, d), key, val));
    assert(f2[c] >= doubled(f)[c]);
    assert(carried(n, c, d) < f2[c]);
}

/// The frontier that `f` stands for is a valid frontier of `e`.
pub proof fn lemma_doubled_valid<K, V>(g: HistoryView<K, V>, e: HistoryView<K, V>, f: Frontier)
    requires
        same_shape(g, e),
        valid_frontier(g, f),
    ensures
        valid_frontier(e, doubled(f)),
        terminal(g, f) ==> terminal(e, doubled(f)),
{
    let f2 = doubled(f);
    assert forall|c: int| 0 <= c < e.len() implies 0 <= #[trigger] f2[c] <= e[c].len() by {
        assert(0 <= f[c] <= g[c].len());
    }
    lemma_terminal(g, f);
    lemma_terminal(e, f2);
    if terminal(g, f) {
        assert forall|c: int| 0 <= c < e.len() implies f2[c] == e[c].len() by {
            assert(f[c] == g[c].len());
        }
    }
}

/// A pending read of `e` that placing `t` would strand, where `t` is a
/// second half or the last client's transaction carried from client `i`,
/// gives a write conflict in `g`. So there is none.
proof fn lemma_no_late_conflict<K, V>(
    g: HistoryView<K, V>,
    e: HistoryView<K, V>,
    f: Frontier,
    f2: Frontier,
    i: int,
    c2: int,
    j2: int,
)
    requires
        expands(g, e),
        valid_frontier(g, f),
        placeable(g, f, i),
        f2 == (if i < g.len() - 1 {
            advance(doubled(f), i)
        } else {
            doubled(f)
        }),
        pending(e, f2, i, c2, j2),
        0 <= j2,
    ensures
        !strands(e, f2, e[i][f2[i]], e[c2][j2]),
{
    let n = g.len() - 1;
    let t2 = e[i][f2[i]];
    let u2 = e[c2][j2];
    assert(0 <= f[i] < g[i].len());
    assert(0 <= f[c2] <= g[c2].len());
    assert(doubled(f)[c2] == (if c2 < n {
        2 * f[c2]
    } else {
        f[c2]
    }));
    if strands(e, f2, t2, u2) {
        let o2 = choose|o2: int|
            0 <= o2 < u2.len() && (#[trigger] u2[o2]) is Get && txn_writes(t2, u2[o2].key())
                && all_writers_placed(e, f2, u2[o2].key(), u2[o2].val());
        let key = u2[o2].key();
        let val = u2[o2].val();
        assert(is_read(e, c2, j2, o2));
        assert(c2 < n);
        if j2 % 2 == 1 {
            assert(e[c2][j2 - 1].contains(OpView::Put { key, val }));
            assert(is_writer(e, c2, j2 - 1, key, val));
            assert(j2 - 1 < f2[c2]);
        } else {
            let d2 = j2 / 2;
            assert(g[c2][d2].contains(u2[o2]));
            let o = choose|o: int| 0 <= o < g[c2][d2].len() && g[c2][d2][o] == u2[o2];
            assert(writes_read(e, i, f2[i], c2, j2, o2));
            assert(txn_writes(g[i][f[i]], key));
            assert(at_most(g, f, f2)) by {
                assert forall|c: int| 0 <= c < f.len() implies (#[trigger] f2[c]) <= doubled(f)[c]
                    + (if c < f.len() - 1 {
                    1int
                } else {
                    0int
                }) by {}
            }
            lemma_all_placed_back(g, e, f, f2, key, val);
            assert(g[c2][d2][o] is Get && txn_writes(g[i][f[i]], g[c2][d2][o].key())
                && all_writers_placed(g, f, g[c2][d2][o].key(), g[c2][d2][o].val()));
            assert(strands(g, f, g[i][f[i]], g[c2][d2]));
            assert(pending(g, f, i, c2, d2));
            assert(write_conflict(g, f, i));
        }
    }
}

/// Where a client's next transaction is placeable in `g`, the first half of
/// its pair is placeable in `e`.
pub proof fn lemma_first_half_placeable<K, V>(
    g: HistoryView<K, V>,
    e: HistoryView<K, V>,
    f: Frontier,
    i: int,
)
    requires
        expands(g, e),
        valid_frontier(g, f),
        placeable(g, f, i),
        i < g.len() - 1,
    ensures
        placeable(e, doubled(f), i),
{
    let f2 = doubled(f);
    let t = g[i][f[i]];
    let t2 = e[i][f2[i]];
    assert(0 <= f[i] < g[i].len());
    assert(at_least(g, f, f2));
    assert forall|o: int| 0 <= o < t2.len() && (#[trigger] t2[o]) is Get implies some_writer_placed(
        e,
        f2,
        t2[o].key(),
        t2[o].val(),
    ) by {
        assert(is_read(e, i, f2[i], o));
        assert(t.contains(t2[o]));
        let o1 = choose|o1: int| 0 <= o1 < t.len() && t[o1] == t2[o];
        assert(t[o1] is Get);
        lemma_some_placed_forth(g, e, f, f2, t2[o].key(), t2[o].val());
    }
    if write_conflict(e, f2, i) {
        let (c2, j2) = choose|c2: int, j2: int| #[trigger]
            pending(e, f2, i, c2, j2) && strands(e, f2, t2, e[c2][j2]);
        let u2 = e[c2][j2];
        assert(f2[c2] >= 0) by {
            assert(0 <= f[c2]);
        }
        let o2 = choose|o2: int|
            0 <= o2 < u2.len() && (#[trigger] u2[o2]) is Get && txn_writes(t2, u2[o2].key())
                && all_writers_placed(e, f2, u2[o2].key(), u2[o2].val());
        assert(is_read(e, c2, j2, o2));
        assert(writes_read(e, i, f2[i], c2, j2, o2));
        assert(is_writer(e, i, f2[i], u2[o2].key(), u2[o2].val()));
    }
}

/// Where a client's next transaction is placeable in `g`, the second half
/// of its pair is placeable in `e` once the first half is placed.
pub proof fn lemma_second_half_placeable<K, V>(
    g: HistoryView<K, V>,
    e: HistoryView<K, V>,
    f: Frontier,
    i: int,
)
    requires
        expands(g, e),
        valid_frontier(g, f),
        placeable(g, f, i),
        i < g.len() - 1,
    ensures
        placeable(e, advance(doubled(f), i), i),
{
    let f2 = advance(doubled(f), i);
    let t2 = e[i][f2[i]];
    assert(0 <= f[i] < g[i].len());
    assert(f2[i] == 2 * f[i] + 1);
    assert forall|o: int| 0 <= o < t2.len() && (#[trigger] t2[o]) is Get implies some_writer_placed(
        e,
        f2,
        t2[o].key(),
        t2[o].val(),
    ) by {
        assert(is_read(e, i, f2[i], o));
        assert(is_writer(e, i, f2[i] - 1, t2[o].key(), t2[o].val()));
    }
    if write_conflict(e, f2, i) {
        let (c2, j2) = choose|c2: int, j2: int| #[trigger]
            pending(e, f2, i, c2, j2) && strands(e, f2, t2, e[c2][j2]);
        assert(j2 >= 0) by {
            assert(0 <= f[c2]);
            assert(doubled(f)[c2] >= 0);
        }
        lemma_no_late_conflict(g, e, f, f2, i, c2, j2);
    }
}

/// Where the last client's transaction is placeable in `g`, it is placeable
/// in `e`.
pub proof fn lemma_last_placeable<K, V>(
    g: HistoryView<K, V>,
    e: HistoryView<K, V>,
    f: Frontier,
)
    requires
        expands(g, e),
        valid_frontier(g, f),
        placeable(g, f, g.len() - 1),
    ensures
        placeable(e, doubled(f), g.len() - 1),
{
    let i = g.len() - 1;
    let f2 = doubled(f);
    let t2 = e[i][f2[i]];
    assert(0 <= f[i] < g[i].len());
    assert forall|o: int| 0 <= o < t2.len() && (#[trigger] t2[o]) is Get implies some_writer_placed(
        e,
        f2,
        t2[o].key(),
        t2[o].val(),
    ) by {
        assert(is_read(e, i, f2[i], o));
    }
    if write_conflict(e, f2, i) {
        let (c2, j2) = choose|c2: int, j2: int| #[trigger]
            pending(e, f2, i, c2, j2) && strands(e, f2, t2, e[c2][j2]);
        assert(j2 >= 0) by {
            assert(0 <= f[c2]);
            assert(f2[c2] >= 0);
        }
        lemma_no_late_conflict(g, e, f, f2, i, c2, j2);
    }
}

/// Where the search succeeds on `g` from `f`, it succeeds on an expansion of
/// `g` from the frontier that `f` stands for.
pub proof fn lemma_simulation<K, V>(g: HistoryView<K, V>, e: HistoryView<K, V>, f: Frontier)
    requires
        expands(g, e),
        extend(g, f),
    ensures
        extend(e, doubled(f)),
    decreases remaining(g, f),
{
    let n = g.len() - 1;
    let f2 = doubled(f);
    lemma_doubled_valid(g, e, f);
    if !terminal(g, f) {
        let i = choose|i: int| #[trigger] placeable(g, f, i) && extend(g, advance(f, i));
        lemma_advance(g, f, i);
        lemma_simulation(g, e, advance(f, i));
        if i < n {
            lemma_first_half_placeable(g, e, f, i);
            lemma_second_half_placeable(g, e, f, i);
            let f3 = advance(f2, i);
            assert(doubled(advance(f, i)) =~= advance(f3, i));
            lemma_advance(e, f2, i);
            assert(placeable(e, f3, i) && extend(e, advance(f3, i)));
            assert(extend(e, f3));
            assert(placeable(e, f2, i) && extend(e, advance(f2, i)));
        } else {
            lemma_last_placeable(g, e, f);
            assert(doubled(advance(f, i)) =~= advance(f2, i));
            assert(placeable(e, f2, i) && extend(e, advance(f2, i)));
        }
    }
}

/// `s` holds `h` in halves: each transaction of `h` is a pair of
/// transactions in `s`. Every operation of the transaction stands in one of
/// the two, every write in the second. A first half reads only what the
/// transaction reads, and where it writes the key of a read of `s` it writes
/// the value read. A second half reads only what its first half writes, and
/// where it writes the key of a read of a first half, the transaction writes
/// that key.
pub open spec fn in_halves<K, V>(h: HistoryView<K, V>, s: HistoryView<K, V>) -> bool {
    &&& s.len() == h.len()
    &&& forall|c: int| 0 <= c < h.len() ==> (#[trigger] s[c]).len() == 2 * h[c].len()
    &&& forall|c: int, d: int, key: K, val: V| #[trigger]
        is_writer(h, c, d, key, val) ==> is_writer(s, c, 2 * d + 1, key, val)
    &&& forall|c: int, d: int, o: int|
        0 <= c < h.len() && 0 <= d < h[c].len() && 0 <= o < h[c][d].len() ==> s[c][2 * d].contains(
            #[trigger] h[c][d][o],
        ) || s[c][2 * d + 1].contains(h[c][d][o])
    &&& forall|c: int, j: int, o: int| #[trigger]
        is_read(s, c, j, o) ==> if j % 2 == 0 {
            h[c][j / 2].contains(s[c][j][o])
        } else {
            s[c][j - 1].contains(OpView::Put { key: s[c][j][o].key(), val: s[c][j][o].val() })
        }
    &&& forall|c: int, j: int, c2: int, j2: int, o2: int|
        0 <= c < h.len() && 0 <= j < s[c].len() && is_read(s, c2, j2, o2) && #[trigger] writes_read(
            s,
            c,
            j,
            c2,
            j2,
            o2,
        ) ==> if j % 2 == 0 {
            s[c][j].contains(OpView::Put { key: s[c2][j2][o2].key(), val: s[c2][j2][o2].val() })
        } else {
            j2 % 2 == 0 ==> txn_writes(h[c][j / 2], s[c2][j2][o2].key())
        }
}

/// Where `s` holds `h` in halves, `s` with its origin transaction expands
/// `h` with its origin transaction.
pub proof fn lemma_halves_expand<K, V>(h: HistoryView<K, V>, s: HistoryView<K, V>, initial: V)
    requires
        in_halves(h, s),
    ensures
        expands(with_origin(h, initial), with_origin(s, initial)),
{
    let g = with_origin(h, initial);
    let e = with_origin(s, initial);
    let n = h.len() as int;
    let from = origin_txn(h, initial);
    let to = origin_txn(s, initial);
    lemma_origin_txn(h, initial);
    lemma_origin_txn(s, initial);
    assert(g[n] == seq![from]);
    assert(e[n] == seq![to]);
    assert forall|c: int| 0 <= c < g.len() - 1 implies (#[trigger] e[c]).len() == 2
        * g[c].len() by {
        assert(e[c] == s[c]);
        assert(g[c] == h[c]);
    }
    assert(same_shape(g, e));
    assert forall|c: int, d: int, key: K, val: V| #[trigger]
        is_writer(g, c, d, key, val) implies is_writer(e, c, carried(n, c, d), key, val) by {
        if c < n {
            assert(g[c] == h[c]);
            assert(is_writer(h, c, d, key, val));
            assert(is_writer(s, c, 2 * d + 1, key, val));
            assert(e[c] == s[c]);
        } else {
            let put = OpView::Put { key, val };
            let j = choose|j: int| 0 <= j < from.len() && from[j] == put;
            assert(from[j] == OpView::Put { key: history_keys(h)[j], val: initial });
            assert(history_keys(h).contains(key));
            let (c1, d1, o1) = lemma_key_used(h, key);
            let op = h[c1][d1][o1];
            let first = s[c1][2 * d1];
            let second = s[c1][2 * d1 + 1];
            if first.contains(op) {
                let o2 = choose|o2: int| 0 <= o2 < first.len() && first[o2] == op;
                lemma_key_listed(s, c1, 2 * d1, o2);
            } else {
                let o2 = choose|o2: int| 0 <= o2 < second.len() && second[o2] == op;
                lemma_key_listed(s, c1, 2 * d1 + 1, o2);
            }
            assert(history_keys(s).contains(key));
            assert(to.contains(put));
        }
    }
    assert forall|c: int, j: int, o: int| #[trigger] is_read(e, c, j, o) implies c < g.len() - 1
        && (j % 2 == 0 ==> g[c][j / 2].contains(e[c][j][o])) by {
        if c < n {
            assert(e[c] == s[c]);
            assert(g[c] == h[c]);
            assert(is_read(s, c, j, o));
        } else {
            assert(e[c][j][o] == to[o]);
        }
    }
    assert forall|c: int, j: int, o: int| #[trigger] is_read(e, c, j, o) && j % 2
        == 1 implies e[c][j - 1].contains(
        OpView::Put { key: e[c][j][o].key(), val: e[c][j][o].val() },
    ) by {
        if c < n {
            assert(e[c] == s[c]);
            assert(is_read(s, c, j, o));
        } else {
            assert(e[c][j][o] == to[o]);
        }
    }
    assert forall|c: int, j: int, c2: int, j2: int, o2: int|
        0 <= c < g.len() - 1 && 0 <= j < e[c].len() && j % 2 == 0 && is_read(e, c2, j2, o2)
            && #[trigger] writes_read(e, c, j, c2, j2, o2) implies e[c][j].contains(
        OpView::Put { key: e[c2][j2][o2].key(), val: e[c2][j2][o2].val() },
    ) by {
        assert(e[c] == s[c]);
        if c2 < n {
            assert(e[c2] == s[c2]);
            assert(is_read(s, c2, j2, o2));
            assert(writes_read(s, c, j, c2, j2, o2));
        } else {
            assert(e[c2][j2][o2] == to[o2]);
        }
    }
    assert forall|c: int, j: int, c2: int, j2: int, o2: int|
        0 <= c < g.len() && 0 <= j < e[c].len() && (c < g.len() - 1 ==> j % 2 == 1) && is_read(
            e,
            c2,
            j2,
            o2,
        ) && j2 % 2 == 0 && #[trigger] writes_read(e, c, j, c2, j2, o2) implies txn_writes(
        g[c][if c < g.len() - 1 {
            j / 2
        } else {
            j
        }],
        e[c2][j2][o2].key(),
    ) by {
        if c2 < n {
            assert(e[c2] == s[c2]);
            assert(is_read(s, c2, j2, o2));
            if c < n {
                assert(e[c] == s[c]);
                assert(g[c] == h[c]);
                assert(writes_read(s, c, j, c2, j2, o2));
            } else {
                let op = s[c2][j2][o2];
                let whole = h[c2][j2 / 2];
                assert(whole.contains(op));
                let o = choose|o: int| 0 <= o < whole.len() && whole[o] == op;
                lemma_key_listed(h, c2, j2 / 2, o);
                assert(history_keys(h).contains(op.key()));
                assert(g[c][j] == from);
            }
        } else {
            assert(e[c2][j2][o2] == to[o2]);
        }
    }
}

/// Where the search succeeds on a history with its origin transaction, it
/// succeeds on every history that holds it in halves, with its own origin
/// transaction.
pub proof fn lemma_halves_searchable<K, V>(h: HistoryView<K, V>, s: HistoryView<K, V>, initial: V)
    requires
        in_halves(h, s),
        searchable(with_origin(h, initial)),
    ensures
        searchable(with_origin(s, initial)),
{
    let g = with_origin(h, initial);
    let e = with_origin(s, initial);
    lemma_halves_expand(h, s, initial);
    lemma_simulation(g, e, origin(g.len()));
    assert(doubled(origin(g.len())) =~= origin(e.len()));
}

} // verus!
