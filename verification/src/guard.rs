//! Guard keys for the two key types the crate ships: how a guard is spelled,
//! and why guards of different clients differ.

use vstd::prelude::*;

verus! {

/// The character of one decimal digit.
pub open spec fn digit_char(d: nat) -> char {
    if d == 0 {
        '0'
    } else if d == 1 {
        '1'
    } else if d == 2 {
        '2'
    } else if d == 3 {
        '3'
    } else if d == 4 {
        '4'
    } else if d == 5 {
        '5'
    } else if d == 6 {
        '6'
    } else if d == 7 {
        '7'
    } else if d == 8 {
        '8'
    } else {
        '9'
    }
}

/// The decimal spelling of `n`: most significant digit first, no sign, no
/// leading zero.
pub open spec fn decimal(n: nat) -> Seq<char>
    decreases n,
{
    if n < 10 {
        seq![digit_char(n)]
    } else {
        decimal(n / 10).push(digit_char(n % 10))
    }
}

/// The marker that every guard of a string key begins with.
pub open spec fn guard_prefix() -> Seq<char> {
    seq!['_', '_', 'c', 'h', 'e', 'c', 'k', 'e', 'r', '_', '_']
}

/// The two underscores between the client index and the key.
pub open spec fn guard_separator() -> Seq<char> {
    seq!['_', '_']
}

/// The guard of a string key: the marker, the client index in decimal, the
/// separator, then the key itself.
pub open spec fn string_guard(key: Seq<char>, index: nat) -> Seq<char> {
    guard_prefix() + decimal(index) + guard_separator() + key
}

/// The guard of an integer key: client `index` owns the block of 1024
/// numbers that starts at `(index + 1) * 1024`, and the guard of `key` is its
/// place in that block. Where that number does not fit the machine word there
/// is no guard and the key itself is returned.
pub open spec fn usize_guard(key: usize, index: nat) -> usize {
    if (index + 1) * 1024 + key <= usize::MAX {
        ((index + 1) * 1024 + key) as usize
    } else {
        key
    }
}

/// Spells the guard of a string key with `format!`, which renders the index
/// through `Display` for `usize`: decimal digits, no sign, no padding. The
/// contract is exactly that spelling; it is believed, not proved.
#[verifier::external_body]
pub(crate) fn format_string_guard(key: &String, index: usize) -> (guard: String)
    ensures
        guard@ == string_guard(key@, index as nat),
{
    format!("__checker__{}__{}", index, key)
}

/// Computes the guard of an integer key.
pub fn make_usize_guard(key: usize, index: usize) -> (guard: usize)
    ensures
        guard == usize_guard(key, index as nat),
{
    let room: usize = (usize::MAX - key) / 1024;
    if index < room {
        (index + 1) * 1024 + key
    } else {
        key
    }
}

/// A decimal spelling is never empty.
pub proof fn lemma_decimal_nonempty(n: nat)
    ensures
        decimal(n).len() >= 1,
    decreases n,
{
    if n >= 10 {
        lemma_decimal_nonempty(n / 10);
    }
}

/// Different numbers are spelled differently.
pub proof fn lemma_decimal_injective(i: nat, j: nat)
    requires
        decimal(i) == decimal(j),
    ensures
        i == j,
    decreases i,
{
    if i < 10 && j < 10 {
        assert(decimal(i)[0] == digit_char(i));
        assert(decimal(j)[0] == digit_char(j));
    } else if i < 10 {
        lemma_decimal_nonempty(j / 10);
        assert(decimal(j).len() >= 2);
        assert(decimal(i).len() == 1);
    } else if j < 10 {
        lemma_decimal_nonempty(i / 10);
        assert(decimal(i).len() >= 2);
        assert(decimal(j).len() == 1);
    } else {
        let a = decimal(i / 10);
        let b = decimal(j / 10);
        assert(decimal(i) == a.push(digit_char(i % 10)));
        assert(decimal(j) == b.push(digit_char(j % 10)));
        assert(a =~= decimal(i).drop_last());
        assert(b =~= decimal(j).drop_last());
        assert(decimal(i).last() == digit_char(i % 10));
        assert(decimal(j).last() == digit_char(j % 10));
        lemma_decimal_injective(i / 10, j / 10);
    }
}

/// The guards that one string key gets for two different clients differ.
pub proof fn lemma_string_guards_differ(key: Seq<char>, i: nat, j: nat)
    requires
        i != j,
    ensures
        string_guard(key, i) != string_guard(key, j),
{
    if string_guard(key, i) == string_guard(key, j) {
        let gi = string_guard(key, i);
        let gj = string_guard(key, j);
        let p = guard_prefix().len() as int;
        let di = decimal(i);
        let dj = decimal(j);
        assert(gi.len() == p + di.len() + 2 + key.len());
        assert(gj.len() == p + dj.len() + 2 + key.len());
        assert(di.len() == dj.len());
        assert(di =~= gi.subrange(p, p + di.len()));
        assert(dj =~= gj.subrange(p, p + dj.len()));
        lemma_decimal_injective(i, j);
    }
}

/// A guard of a string key begins with the marker, so it differs from every
/// key that does not.
pub proof fn lemma_string_guard_is_marked(key: Seq<char>, index: nat, other: Seq<char>)
    requires
        !guard_prefix().is_prefix_of(other),
    ensures
        string_guard(key, index) != other,
{
    let g = string_guard(key, index);
    assert(guard_prefix() =~= g.subrange(0, guard_prefix().len() as int));
}

/// Within the range where integer guards exist, the guards that one key gets
/// for two different clients differ.
pub proof fn lemma_usize_guards_differ(key: usize, i: nat, j: nat)
    requires
        i != j,
        (i + 1) * 1024 + key <= usize::MAX,
        (j + 1) * 1024 + key <= usize::MAX,
    ensures
        usize_guard(key, i) != usize_guard(key, j),
{
}

/// An integer guard lies at or above 1024, so it differs from every key
/// below 1024.
pub proof fn lemma_usize_guard_is_high(key: usize, index: nat, other: usize)
    requires
        (index + 1) * 1024 + key <= usize::MAX,
        other < 1024,
    ensures
        usize_guard(key, index) != other,
{
}

} // verus!
