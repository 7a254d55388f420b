//! What holds of the rewrites and of the three checks, for every history.

use vstd::prelude::*;
use vstd::seq_lib::{lemma_multiset_commutative, to_multiset_build};
use crate::model::{
    advance, extend, is_writer, lemma_advance, lemma_half_keeps, lemma_reads_of, lemma_writes_of,
    placeable, reads_of, remaining, terminal, txn_writes, valid_frontier, writes_of, Frontier,
    HistoryView, OpView, TxnView,
};
use crate::rewrite::{
    client_writes, guards_fresh, history_keys, key_written, lemma_key_listed, lemma_stamp_form,
    origin_txn, prefix_consistent, reservations, serializable, si_history, snapshot_isolated,
    split_history, stamp, stamps, with_origin,
};
use crate::simulation::{in_halves, is_read, lemma_halves_searchable, writes_read};
use crate::transaction::{Key, Value};

verus! {

/// Whether `part` can be had from `whole` by leaving elements out: the
/// elements of `part` stand in `whole` in the same order.
pub open spec fn embeds<A>(part: Seq<A>, whole: Seq<A>) -> bool
    decreases whole.len(),
{
    if part.len() == 0 {
        true
    } else if whole.len() == 0 {
        false
    } else {
        (part.last() == whole.last() && embeds(part.drop_last(), whole.drop_last())) || embeds(
            part,
            whole.drop_last(),
        )
    }
}

/// What a filter keeps stands in the sequence in the same order.
pub proof fn lemma_filter_embeds<A>(s: Seq<A>, pred: spec_fn(A) -> bool)
    ensures
        embeds(s.filter(pred), s),
    decreases s.len(),
{
    reveal(Seq::filter);
    if s.len() > 0 {
        lemma_filter_embeds(s.drop_last(), pred);
        if pred(s.last()) {
            assert(s.filter(pred).drop_last() =~= s.drop_last().filter(pred));
        }
    }
}

/// The reads followed by the writes hold each operation as often as the
/// transaction does.
pub proof fn lemma_split_counts<K, V>(t: TxnView<K, V>)
    ensures
        (reads_of(t) + writes_of(t)).to_multiset() == t.to_multiset(),
    decreases t.len(),
{
    reveal(Seq::filter);
    let r = reads_of(t);
    let w = writes_of(t);
    lemma_multiset_commutative(r, w);
    if t.len() == 0 {
        assert(r + w =~= t);
    } else {
        let init = t.drop_last();
        let ri = reads_of(init);
        let wi = writes_of(init);
        lemma_split_counts(init);
        lemma_multiset_commutative(ri, wi);
        assert(t =~= init.push(t.last()));
        to_multiset_build(init, t.last());
        if t.last() is Get {
            assert(r == ri.push(t.last()));
            assert(w == wi);
            to_multiset_build(ri, t.last());
        } else {
            assert(r == ri);
            assert(w == wi.push(t.last()));
            to_multiset_build(wi, t.last());
        }
        assert(r.to_multiset().add(w.to_multiset()) =~= ri.to_multiset().add(
            wi.to_multiset(),
        ).insert(t.last()));
    }
}

/// Splitting reorders a transaction and no more: the reads followed by the
/// writes are a permutation of its operations, every read stands before
/// every write, and each half keeps the order in which its operations stood.
pub proof fn lemma_split_preserves<K, V>(t: TxnView<K, V>)
    ensures
        (reads_of(t) + writes_of(t)).to_multiset() == t.to_multiset(),
        forall|k: int| 0 <= k < reads_of(t).len() ==> (#[trigger] reads_of(t)[k]) is Get,
        forall|k: int| 0 <= k < writes_of(t).len() ==> (#[trigger] writes_of(t)[k]) is Put,
        embeds(reads_of(t), t),
        embeds(writes_of(t), t),
{
    lemma_split_counts(t);
    assert forall|k: int| 0 <= k < reads_of(t).len() implies (#[trigger] reads_of(t)[k]) is Get by {
        lemma_reads_of(t, k);
    }
    assert forall|k: int| 0 <= k < writes_of(t).len() implies (
    #[trigger] writes_of(t)[k]) is Put by {
        lemma_writes_of(t, k);
    }
    lemma_filter_embeds(t, |op: OpView<K, V>| op is Get);
    lemma_filter_embeds(t, |op: OpView<K, V>| op is Put);
}

/// In the history with its origin transaction, the origin transaction
/// writes the initial value to the key of every operation, so to every key
/// that is read.
pub proof fn lemma_origin_supplies<K, V>(h: HistoryView<K, V>, initial: V, c: int, d: int, o: int)
    requires
        0 <= c < with_origin(h, initial).len(),
        0 <= d < with_origin(h, initial)[c].len(),
        0 <= o < with_origin(h, initial)[c][d].len(),
    ensures
        is_writer(
            with_origin(h, initial),
            h.len() as int,
            0,
            with_origin(h, initial)[c][d][o].key(),
            initial,
        ),
{
    let g = with_origin(h, initial);
    let origin = origin_txn(h, initial);
    let keys = history_keys(h);
    let key = g[c][d][o].key();
    assert(g[h.len() as int][0] == origin);
    if c < h.len() {
        lemma_key_listed(h, c, d, o);
        let j = choose|j: int| 0 <= j < keys.len() && keys[j] == key;
        assert(origin[j] == OpView::Put { key, val: initial });
    } else {
        assert(g[c][d][o] == origin[o]);
        assert(origin[o] == OpView::Put { key: keys[o], val: initial });
    }
}

/// The prefix-consistency check of a history answers what the
/// serializability check of its split history answers.
pub proof fn lemma_prefix_check_reduces<K: Key, V: Value>(h: HistoryView<K::V, V::V>)
    ensures
        prefix_consistent::<K, V>(h) == serializable::<K, V>(split_history(h)),
{
}

/// The snapshot-isolation check of a history answers what the
/// serializability check of its guard encoding answers.
pub proof fn lemma_si_check_reduces<K: Key, V: Value>(h: HistoryView<K::V, V::V>)
    ensures
        snapshot_isolated::<K, V>(h) == serializable::<K, V>(si_history::<K, V>(h)),
{
}

/// Whether placing the next transaction of the clients that `schedule`
/// names, one after another from frontier `f`, finds each placeable in its
/// turn and leaves nothing to place.
pub open spec fn completes<K, V>(h: HistoryView<K, V>, f: Frontier, schedule: Seq<int>) -> bool
    decreases schedule.len(),
{
    if schedule.len() == 0 {
        valid_frontier(h, f) && terminal(h, f)
    } else {
        valid_frontier(h, f) && placeable(h, f, schedule[0]) && completes(
            h,
            advance(f, schedule[0]),
            schedule.drop_first(),
        )
    }
}

/// Where the search succeeds, some schedule completes the history.
pub proof fn lemma_search_gives_schedule<K, V>(h: HistoryView<K, V>, f: Frontier) -> (schedule:
    Seq<int>)
    requires
        extend(h, f),
    ensures
        completes(h, f, schedule),
    decreases remaining(h, f),
{
    if terminal(h, f) {
        Seq::empty()
    } else {
        let i = choose|i: int| #[trigger] placeable(h, f, i) && extend(h, advance(f, i));
        lemma_advance(h, f, i);
        let rest = lemma_search_gives_schedule(h, advance(f, i));
        let schedule = seq![i] + rest;
        assert(schedule.drop_first() =~= rest);
        schedule
    }
}

/// Where some schedule completes the history, the search succeeds.
pub proof fn lemma_schedule_gives_search<K, V>(
    h: HistoryView<K, V>,
    f: Frontier,
    schedule: Seq<int>,
)
    requires
        completes(h, f, schedule),
    ensures
        extend(h, f),
    decreases schedule.len(),
{
    if schedule.len() > 0 {
        lemma_schedule_gives_search(h, advance(f, schedule[0]), schedule.drop_first());
    }
}

/// The search from a frontier succeeds exactly when some schedule completes
/// the history from it: neither the order in which clients are tried nor
/// what is remembered changes the answer.
pub proof fn lemma_search_is_complete<K, V>(h: HistoryView<K, V>, f: Frontier)
    ensures
        extend(h, f) <==> exists|schedule: Seq<int>| completes(h, f, schedule),
{
    if extend(h, f) {
        let schedule = lemma_search_gives_schedule(h, f);
        assert(completes(h, f, schedule));
    }
    if exists|schedule: Seq<int>| completes(h, f, schedule) {
        let schedule = choose|schedule: Seq<int>| completes(h, f, schedule);
        lemma_schedule_gives_search(h, f, schedule);
    }
}

/// The split history holds the history in halves.
pub proof fn lemma_split_in_halves<K, V>(h: HistoryView<K, V>)
    ensures
        in_halves(h, split_history(h)),
{
    let s = split_history(h);
    assert forall|c: int, d: int, key: K, val: V| #[trigger]
        is_writer(h, c, d, key, val) implies is_writer(s, c, 2 * d + 1, key, val) by {
        let t = h[c][d];
        let put = OpView::Put { key, val };
        let o = choose|o: int| 0 <= o < t.len() && t[o] == put;
        lemma_half_keeps(t, o);
        assert(s[c][2 * d + 1] == writes_of(t));
    }
    assert forall|c: int, d: int, o: int|
        0 <= c < h.len() && 0 <= d < h[c].len() && 0 <= o < h[c][d].len() implies s[c][2
            * d].contains(#[trigger] h[c][d][o]) || s[c][2 * d + 1].contains(h[c][d][o]) by {
        lemma_half_keeps(h[c][d], o);
        assert(s[c][2 * d] == reads_of(h[c][d]));
        assert(s[c][2 * d + 1] == writes_of(h[c][d]));
    }
    assert forall|c: int, j: int, o: int| #[trigger] is_read(s, c, j, o) implies if j % 2 == 0 {
        h[c][j / 2].contains(s[c][j][o])
    } else {
        s[c][j - 1].contains(OpView::Put { key: s[c][j][o].key(), val: s[c][j][o].val() })
    } by {
        if j % 2 == 0 {
            lemma_reads_of(h[c][j / 2], o);
        } else {
            lemma_writes_of(h[c][j / 2], o);
        }
    }
    assert forall|c: int, j: int, c2: int, j2: int, o2: int|
        0 <= c < h.len() && 0 <= j < s[c].len() && is_read(s, c2, j2, o2) && #[trigger] writes_read(
            s,
            c,
            j,
            c2,
            j2,
            o2,
        ) implies if j % 2 == 0 {
        s[c][j].contains(OpView::Put { key: s[c2][j2][o2].key(), val: s[c2][j2][o2].val() })
    } else {
        j2 % 2 == 0 ==> txn_writes(h[c][j / 2], s[c2][j2][o2].key())
    } by {
        let t = h[c][j / 2];
        let half = s[c][j];
        let key = s[c2][j2][o2].key();
        let o = choose|o: int| 0 <= o < half.len() && (#[trigger] half[o]) is Put && half[o].key() == key;
        if j % 2 == 0 {
            lemma_reads_of(t, o);
        } else {
            lemma_writes_of(t, o);
            let at = choose|at: int| 0 <= at < t.len() && t[at] == half[o];
            assert(t[at] is Put && t[at].key() == key);
        }
    }
}

/// A history that passes the serializability check passes the
/// prefix-consistency check.
pub proof fn lemma_serializable_is_prefix_consistent<K: Key, V: Value>(h: HistoryView<K::V, V::V>)
    requires
        serializable::<K, V>(h),
    ensures
        prefix_consistent::<K, V>(h),
{
    lemma_split_in_halves(h);
    lemma_halves_searchable(h, split_history(h), V::default_view());
}

/// What a read of the guard encoding is: in a first half, a read of the
/// transaction; in a second half, a read of the initial value from a guard
/// that the first half reserves.
pub proof fn lemma_si_read<K: Key, V: Value>(h: HistoryView<K::V, V::V>, c: int, j: int, o: int)
    requires
        is_read(si_history::<K, V>(h), c, j, o),
    ensures
        j % 2 == 0 ==> h[c][j / 2].contains(si_history::<K, V>(h)[c][j][o]),
        j % 2 == 1 ==> si_history::<K, V>(h)[c][j][o].val() == V::default_view() && si_history::<
            K,
            V,
        >(h)[c][j - 1].contains(
            OpView::Put {
                key: si_history::<K, V>(h)[c][j][o].key(),
                val: si_history::<K, V>(h)[c][j][o].val(),
            },
        ),
{
    let s = si_history::<K, V>(h);
    let t = h[c][j / 2];
    let r = reads_of(t);
    let w = writes_of(t);
    let reserved = reservations::<K, V>(w, c);
    if j % 2 == 0 {
        assert(s[c][j] == r + reserved);
        if o < r.len() {
            lemma_reads_of(t, o);
        } else {
            assert(s[c][j][o] == reserved[o - r.len()]);
        }
    } else {
        let marks = stamps::<K, V>(h, w, c);
        assert(s[c][j] == w + marks);
        assert(s[c][j - 1] == r + reserved);
        if o < w.len() {
            lemma_writes_of(t, o);
        } else {
            let (m, c2) = lemma_stamp_form::<K, V>(h, w, c, o - w.len());
            assert(s[c][j][o] == stamp::<K, V>(w[m].key(), c2, c));
            assert(c2 == c);
            assert((r + reserved)[r.len() + m] == reserved[m]);
        }
    }
}

/// Where the guards are fresh, the guard encoding holds the history in
/// halves.
pub proof fn lemma_si_in_halves<K: Key, V: Value>(h: HistoryView<K::V, V::V>)
    requires
        guards_fresh::<K, V>(h),
    ensures
        in_halves(h, si_history::<K, V>(h)),
{
    let s = si_history::<K, V>(h);
    assert forall|c: int, d: int, key: K::V, val: V::V| #[trigger]
        is_writer(h, c, d, key, val) implies is_writer(s, c, 2 * d + 1, key, val) by {
        let t = h[c][d];
        let w = writes_of(t);
        let put = OpView::Put { key, val };
        let o = choose|o: int| 0 <= o < t.len() && t[o] == put;
        lemma_half_keeps(t, o);
        let at = choose|at: int| 0 <= at < w.len() && w[at] == put;
        assert(s[c][2 * d + 1] == w + stamps::<K, V>(h, w, c));
        assert(s[c][2 * d + 1][at] == put);
    }
    assert forall|c: int, d: int, o: int|
        0 <= c < h.len() && 0 <= d < h[c].len() && 0 <= o < h[c][d].len() implies s[c][2
            * d].contains(#[trigger] h[c][d][o]) || s[c][2 * d + 1].contains(h[c][d][o]) by {
        let t = h[c][d];
        let r = reads_of(t);
        let w = writes_of(t);
        lemma_half_keeps(t, o);
        assert(s[c][2 * d] == r + reservations::<K, V>(w, c));
        assert(s[c][2 * d + 1] == w + stamps::<K, V>(h, w, c));
        if t[o] is Put {
            let at = choose|at: int| 0 <= at < w.len() && w[at] == t[o];
            assert(s[c][2 * d + 1][at] == t[o]);
        } else {
            let at = choose|at: int| 0 <= at < r.len() && r[at] == t[o];
            assert(s[c][2 * d][at] == t[o]);
        }
    }
    assert forall|c: int, j: int, o: int| #[trigger] is_read(s, c, j, o) implies if j % 2 == 0 {
        h[c][j / 2].contains(s[c][j][o])
    } else {
        s[c][j - 1].contains(OpView::Put { key: s[c][j][o].key(), val: s[c][j][o].val() })
    } by {
        lemma_si_read::<K, V>(h, c, j, o);
    }
    assert forall|c: int, j: int, c2: int, j2: int, o2: int|
        0 <= c < h.len() && 0 <= j < s[c].len() && is_read(s, c2, j2, o2) && #[trigger] writes_read(
            s,
            c,
            j,
            c2,
            j2,
            o2,
        ) implies if j % 2 == 0 {
        s[c][j].contains(OpView::Put { key: s[c2][j2][o2].key(), val: s[c2][j2][o2].val() })
    } else {
        j2 % 2 == 0 ==> txn_writes(h[c][j / 2], s[c2][j2][o2].key())
    } by {
        let t = h[c][j / 2];
        let r = reads_of(t);
        let w = writes_of(t);
        let half = s[c][j];
        let read = s[c2][j2][o2];
        let key = read.key();
        let o = choose|o: int| 0 <= o < half.len() && (#[trigger] half[o]) is Put && half[o].key() == key;
        lemma_si_read::<K, V>(h, c2, j2, o2);
        if j2 % 2 == 0 {
            let whole = h[c2][j2 / 2];
            let at = choose|at: int| 0 <= at < whole.len() && whole[at] == read;
            lemma_key_listed(h, c2, j2 / 2, at);
        }
        if j % 2 == 0 {
            let reserved = reservations::<K, V>(w, c);
            assert(half == r + reserved);
            if o < r.len() {
                lemma_reads_of(t, o);
            } else {
                let m = o - r.len();
                assert(half[o] == reserved[m]);
                lemma_writes_of(t, m);
                let at = choose|at: int| 0 <= at < t.len() && t[at] == w[m];
                assert(t[at] is Put && t[at].key() == w[m].key());
                assert(txn_writes(t, w[m].key()));
                assert(client_writes(h[c], w[m].key()));
                assert(key_written(h, w[m].key()));
                assert(key == K::guard_view(w[m].key(), c as nat));
            }
        } else if j2 % 2 == 0 {
            let marks = stamps::<K, V>(h, w, c);
            assert(half == w + marks);
            if o < w.len() {
                lemma_writes_of(t, o);
                let at = choose|at: int| 0 <= at < t.len() && t[at] == w[o];
                assert(t[at] is Put && t[at].key() == key);
            } else {
                let (m, c3) = lemma_stamp_form::<K, V>(h, w, c, o - w.len());
                assert(half[o] == stamp::<K, V>(w[m].key(), c3, c));
                assert(key_written(h, w[m].key()));
                assert(key == K::guard_view(w[m].key(), c3 as nat));
            }
        }
    }
}

/// A history that passes the serializability check passes the
/// snapshot-isolation check, where no guard of the encoding is a key of the
/// history.
pub proof fn lemma_serializable_is_snapshot_isolated<K: Key, V: Value>(
    h: HistoryView<K::V, V::V>,
)
    requires
        guards_fresh::<K, V>(h),
        serializable::<K, V>(h),
    ensures
        snapshot_isolated::<K, V>(h),
{
    lemma_si_in_halves::<K, V>(h);
    lemma_halves_searchable(h, si_history::<K, V>(h), V::default_view());
}

} // verus!
