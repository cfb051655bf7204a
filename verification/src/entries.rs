//! Facts about the entries of a dictionary in ascending order of keys.

use vstd::prelude::*;
use crate::model::{
    collected, has_key, key_lt, keys_ascending, lookup, put, rank, with_entry, without, Datum,
    Entries,
};
use crate::order::lemma_key_order;

verus! {

/// Among the first `n` entries at most `n` keys come before `key`.
pub proof fn lemma_rank_bound(entries: Entries, key: Seq<char>, n: nat)
    ensures
        rank(entries, key, n) <= n,
    decreases n,
{
    if n > 0 && n <= entries.len() {
        lemma_rank_bound(entries, key, (n - 1) as nat);
    }
}

/// Where the keys before offset `at` come before `key` and the others do
/// not, `at` of them come before `key`.
pub proof fn lemma_rank_split(entries: Entries, key: Seq<char>, at: int, n: nat)
    requires
        0 <= at <= entries.len(),
        n <= entries.len(),
        forall|j: int| 0 <= j < at ==> key_lt(#[trigger] entries[j].0, key),
        forall|j: int| at <= j < entries.len() ==> !key_lt(#[trigger] entries[j].0, key),
    ensures
        rank(entries, key, n) == if n <= at {
            n as int
        } else {
            at
        },
    decreases n,
{
    if n > 0 {
        lemma_rank_split(entries, key, at, (n - 1) as nat);
    }
}

/// In ascending entries the keys that come before `key` are those in front
/// of its rank.
pub proof fn lemma_rank_prefix(entries: Entries, key: Seq<char>, n: nat)
    requires
        keys_ascending(entries),
        n <= entries.len(),
    ensures
        rank(entries, key, n) <= n,
        forall|j: int| 0 <= j < n ==> (key_lt(#[trigger] entries[j].0, key) <==> j < rank(entries, key, n)),
    decreases n,
{
    if n > 0 {
        let m = (n - 1) as nat;
        lemma_rank_prefix(entries, key, m);
        if key_lt(entries[n - 1].0, key) {
            assert forall|j: int| 0 <= j < m implies key_lt(#[trigger] entries[j].0, key) by {
                lemma_key_order(entries[j].0, entries[n - 1].0, key);
            }
            if m > 0 {
                assert(key_lt(entries[m - 1].0, key));
            }
        }
    }
}

/// In ascending entries no two offsets hold the same key.
pub proof fn lemma_keys_differ(entries: Entries, i: int, j: int)
    requires
        keys_ascending(entries),
        0 <= i < entries.len(),
        0 <= j < entries.len(),
        i != j,
    ensures
        entries[i].0 != entries[j].0,
{
    lemma_key_order(entries[i].0, entries[j].0, entries[i].0);
    if i < j {
        assert(key_lt(entries[i].0, entries[j].0));
    } else {
        assert(key_lt(entries[j].0, entries[i].0));
    }
}

/// In ascending entries two offsets that hold the same key are the same.
pub proof fn lemma_keys_differ_or_same(entries: Entries, i: int, j: int)
    requires
        keys_ascending(entries),
        0 <= i < entries.len(),
        0 <= j < entries.len(),
        entries[i].0 == entries[j].0,
    ensures
        i == j,
{
    if i != j {
        lemma_keys_differ(entries, i, j);
    }
}

/// In ascending entries the value under a key is the one that stands
/// beside it.
pub proof fn lemma_lookup_at(entries: Entries, key: Seq<char>, at: int)
    requires
        keys_ascending(entries),
        0 <= at < entries.len(),
        entries[at].0 == key,
    ensures
        has_key(entries, key),
        lookup(entries, key) == Some(entries[at].1),
    decreases entries.len(),
{
    assert(has_key(entries, key));
    if entries.last().0 == key {
        lemma_keys_differ_or_same(entries, at, entries.len() - 1);
    } else {
        let front = entries.drop_last();
        assert forall|i: int, j: int| 0 <= i < j < front.len() implies key_lt(
            #[trigger] front[i].0,
            #[trigger] front[j].0,
        ) by {
            assert(key_lt(entries[i].0, entries[j].0));
        }
        lemma_lookup_at(front, key, at);
    }
}

/// Entries hold no value under a key that is not among them.
pub proof fn lemma_lookup_none(entries: Entries, key: Seq<char>)
    requires
        !has_key(entries, key),
    ensures
        lookup(entries, key) is None,
    decreases entries.len(),
{
    if entries.len() > 0 {
        assert(entries[entries.len() - 1].0 != key);
        let front = entries.drop_last();
        if has_key(front, key) {
            let at = choose|i: int| 0 <= i < front.len() && (#[trigger] front[i]).0 == key;
            assert(entries[at].0 == key);
        }
        lemma_lookup_none(front, key);
    }
}

/// In ascending entries a key that is held stands at its rank.
pub proof fn lemma_key_at_rank(entries: Entries, key: Seq<char>)
    requires
        keys_ascending(entries),
        has_key(entries, key),
    ensures
        rank(entries, key, entries.len()) < entries.len(),
        entries[rank(entries, key, entries.len()) as int].0 == key,
{
    let at = choose|i: int| 0 <= i < entries.len() && (#[trigger] entries[i]).0 == key;
    assert forall|j: int| 0 <= j < at implies key_lt(#[trigger] entries[j].0, key) by {}
    assert forall|j: int| at <= j < entries.len() implies !key_lt(#[trigger] entries[j].0, key) by {
        lemma_key_order(key, entries[j].0, key);
        if at < j {
            assert(key_lt(entries[at].0, entries[j].0));
        }
    }
    lemma_rank_split(entries, key, at, entries.len());
}

/// Putting a new key into ascending entries at its rank keeps them
/// ascending.
pub proof fn lemma_with_entry_ascending(
    entries: Entries,
    key: Seq<char>,
    value: Datum,
)
    requires
        keys_ascending(entries),
        !has_key(entries, key),
    ensures
        keys_ascending(with_entry(entries, key, value)),
{
    let at = rank(entries, key, entries.len()) as int;
    let after = with_entry(entries, key, value);
    lemma_rank_prefix(entries, key, entries.len());
    assert forall|i: int, j: int| 0 <= i < j < after.len() implies key_lt(
        #[trigger] after[i].0,
        #[trigger] after[j].0,
    ) by {
        let a = if i < at {
            i
        } else {
            i - 1
        };
        let b = if j < at {
            j
        } else {
            j - 1
        };
        if i == at {
            assert(after[j] == entries[b]);
            assert(!key_lt(entries[b].0, key));
            lemma_key_order(entries[b].0, key, key);
        } else if j == at {
            assert(after[i] == entries[a]);
            assert(key_lt(entries[a].0, key));
        } else {
            assert(after[i] == entries[a]);
            assert(after[j] == entries[b]);
            assert(key_lt(entries[a].0, entries[b].0));
        }
    }
}

/// A key that comes behind the last key of ascending entries goes to their
/// end.
pub proof fn lemma_with_entry_last(entries: Entries, key: Seq<char>, value: Datum)
    requires
        keys_ascending(entries),
        entries.len() > 0 ==> key_lt(entries.last().0, key),
    ensures
        !has_key(entries, key),
        with_entry(entries, key, value) == entries.push((key, value)),
{
    assert forall|j: int| 0 <= j < entries.len() implies key_lt(#[trigger] entries[j].0, key) by {
        lemma_key_order(entries[j].0, entries.last().0, key);
        if j < entries.len() - 1 {
            assert(key_lt(entries[j].0, entries[entries.len() - 1].0));
        }
    }
    lemma_rank_split(entries, key, entries.len() as int, entries.len());
    assert(with_entry(entries, key, value) =~= entries.push((key, value)));
    if has_key(entries, key) {
        let at = choose|i: int| 0 <= i < entries.len() && (#[trigger] entries[i]).0 == key;
        lemma_key_order(key, key, key);
        assert(key_lt(entries[at].0, key));
    }
}

/// The front of ascending entries is ascending.
pub proof fn lemma_front_ascending(entries: Entries)
    requires
        keys_ascending(entries),
        entries.len() > 0,
    ensures
        keys_ascending(entries.drop_last()),
        !has_key(entries.drop_last(), entries.last().0),
{
    let front = entries.drop_last();
    assert forall|i: int, j: int| 0 <= i < j < front.len() implies key_lt(
        #[trigger] front[i].0,
        #[trigger] front[j].0,
    ) by {
        assert(key_lt(entries[i].0, entries[j].0));
    }
    if has_key(front, entries.last().0) {
        let at = choose|i: int| 0 <= i < front.len() && (#[trigger] front[i]).0 == entries.last().0;
        assert(entries[at].0 == front[at].0);
        lemma_keys_differ(entries, at, entries.len() - 1);
    }
}

/// Entries hold a value under the keys that are among them, and under no
/// others.
pub proof fn lemma_lookup_some(entries: Entries, key: Seq<char>)
    ensures
        lookup(entries, key) is Some <==> has_key(entries, key),
    decreases entries.len(),
{
    if has_key(entries, key) {
        if entries.last().0 != key {
            let at = choose|i: int| 0 <= i < entries.len() && (#[trigger] entries[i]).0 == key;
            assert(entries.drop_last()[at].0 == key);
            lemma_lookup_some(entries.drop_last(), key);
        }
    } else {
        lemma_lookup_none(entries, key);
    }
}

/// Putting a value under a key keeps ascending entries ascending, sets the
/// value under that key, and leaves the values under the other keys as they
/// were.
pub proof fn lemma_put(
    entries: Entries,
    key: Seq<char>,
    value: Datum,
    other: Seq<char>,
)
    requires
        keys_ascending(entries),
    ensures
        keys_ascending(put(entries, key, value)),
        lookup(put(entries, key, value), key) == Some(value),
        other != key ==> lookup(put(entries, key, value), other) == lookup(entries, other),
{
    let after = put(entries, key, value);
    let at = rank(entries, key, entries.len()) as int;
    lemma_rank_bound(entries, key, entries.len());
    if has_key(entries, key) {
        lemma_key_at_rank(entries, key);
        assert forall|i: int, j: int| 0 <= i < j < after.len() implies key_lt(
            #[trigger] after[i].0,
            #[trigger] after[j].0,
        ) by {
            assert(after[i].0 == entries[i].0);
            assert(after[j].0 == entries[j].0);
        }
        lemma_lookup_at(after, key, at);
        if other != key {
            if has_key(entries, other) {
                let j = choose|i: int| 0 <= i < entries.len() && (#[trigger] entries[i]).0 == other;
                assert(after[j] == entries[j]);
                lemma_lookup_at(entries, other, j);
                lemma_lookup_at(after, other, j);
            } else {
                if has_key(after, other) {
                    let j = choose|i: int| 0 <= i < after.len() && (#[trigger] after[i]).0 == other;
                    assert(entries[j].0 == other);
                }
                lemma_lookup_none(entries, other);
                lemma_lookup_none(after, other);
            }
        }
    } else {
        lemma_with_entry_ascending(entries, key, value);
        assert(after[at] == (key, value));
        lemma_lookup_at(after, key, at);
        if other != key {
            if has_key(entries, other) {
                let j = choose|i: int| 0 <= i < entries.len() && (#[trigger] entries[i]).0 == other;
                let k = if j < at {
                    j
                } else {
                    j + 1
                };
                assert(after[k] == entries[j]);
                lemma_lookup_at(entries, other, j);
                lemma_lookup_at(after, other, k);
            } else {
                if has_key(after, other) {
                    let j = choose|i: int| 0 <= i < after.len() && (#[trigger] after[i]).0 == other;
                    let k = if j < at {
                        j
                    } else {
                        j - 1
                    };
                    assert(entries[k].0 == other);
                }
                lemma_lookup_none(entries, other);
                lemma_lookup_none(after, other);
            }
        }
    }
}

/// Taking a key out keeps ascending entries ascending, leaves no value
/// under that key, and leaves the values under the other keys as they were.
pub proof fn lemma_without(entries: Entries, key: Seq<char>, other: Seq<char>)
    requires
        keys_ascending(entries),
    ensures
        keys_ascending(without(entries, key)),
        lookup(without(entries, key), key) is None,
        other != key ==> lookup(without(entries, key), other) == lookup(entries, other),
{
    let after = without(entries, key);
    if has_key(entries, key) {
        lemma_key_at_rank(entries, key);
        let at = rank(entries, key, entries.len()) as int;
        assert forall|i: int, j: int| 0 <= i < j < after.len() implies key_lt(
            #[trigger] after[i].0,
            #[trigger] after[j].0,
        ) by {
            let a = if i < at {
                i
            } else {
                i + 1
            };
            let b = if j < at {
                j
            } else {
                j + 1
            };
            assert(after[i] == entries[a]);
            assert(after[j] == entries[b]);
            assert(key_lt(entries[a].0, entries[b].0));
        }
        if has_key(after, key) {
            let j = choose|i: int| 0 <= i < after.len() && (#[trigger] after[i]).0 == key;
            let b = if j < at {
                j
            } else {
                j + 1
            };
            assert(after[j] == entries[b]);
            lemma_keys_differ(entries, at, b);
        }
        lemma_lookup_none(after, key);
        if other != key {
            if has_key(entries, other) {
                let j = choose|i: int| 0 <= i < entries.len() && (#[trigger] entries[i]).0 == other;
                let k = if j < at {
                    j
                } else {
                    j - 1
                };
                assert(after[k] == entries[j]);
                lemma_lookup_at(entries, other, j);
                lemma_lookup_at(after, other, k);
            } else {
                if has_key(after, other) {
                    let j = choose|i: int| 0 <= i < after.len() && (#[trigger] after[i]).0 == other;
                    let b = if j < at {
                        j
                    } else {
                        j + 1
                    };
                    assert(entries[b].0 == other);
                }
                lemma_lookup_none(entries, other);
                lemma_lookup_none(after, other);
            }
        }
    } else {
        lemma_lookup_none(entries, key);
    }
}

/// Ascending entries are told by what they hold: two that hold the same
/// value, or none, under every key are the same.
pub proof fn lemma_ascending_unique(p: Entries, q: Entries)
    requires
        keys_ascending(p),
        keys_ascending(q),
        forall|key: Seq<char>| lookup(p, key) == lookup(q, key),
    ensures
        p == q,
    decreases p.len(),
{
    if p.len() == 0 {
        if q.len() > 0 {
            lemma_lookup_at(q, q[0].0, 0);
            assert(lookup(p, q[0].0) is None);
        }
        assert(p =~= q);
    } else {
        let last = p.len() - 1;
        let key = p.last().0;
        lemma_lookup_at(p, key, last);
        lemma_lookup_some(q, key);
        let j = choose|i: int| 0 <= i < q.len() && (#[trigger] q[i]).0 == key;
        let qlast = q.len() - 1;
        let qkey = q.last().0;
        lemma_lookup_at(q, qkey, qlast);
        lemma_lookup_some(p, qkey);
        let i = choose|i: int| 0 <= i < p.len() && (#[trigger] p[i]).0 == qkey;
        lemma_key_order(key, qkey, key);
        if i < last {
            assert(key_lt(p[i].0, p[last].0));
        }
        if j < qlast {
            assert(key_lt(q[j].0, q[qlast].0));
        }
        assert(key == qkey);
        lemma_lookup_at(q, key, qlast);
        assert(p.last() == q.last());
        lemma_front_ascending(p);
        lemma_front_ascending(q);
        let pf = p.drop_last();
        let qf = q.drop_last();
        assert forall|other: Seq<char>| lookup(pf, other) == lookup(qf, other) by {
            if other == key {
                lemma_lookup_none(pf, key);
                lemma_lookup_none(qf, key);
            } else {
                assert(lookup(p, other) == lookup(pf, other));
                assert(lookup(q, other) == lookup(qf, other));
            }
        }
        lemma_ascending_unique(pf, qf);
        assert(p =~= pf.push(p.last()));
        assert(q =~= qf.push(q.last()));
    }
}

/// The order in which two keys are put into a dictionary does not show.
pub proof fn lemma_put_commutes(
    entries: Entries,
    a: Seq<char>,
    x: Datum,
    b: Seq<char>,
    y: Datum,
)
    requires
        keys_ascending(entries),
        a != b,
    ensures
        put(put(entries, a, x), b, y) == put(put(entries, b, y), a, x),
{
    let ab = put(put(entries, a, x), b, y);
    let ba = put(put(entries, b, y), a, x);
    lemma_put(entries, a, x, b);
    lemma_put(entries, b, y, a);
    lemma_put(put(entries, a, x), b, y, a);
    lemma_put(put(entries, b, y), a, x, b);
    assert forall|key: Seq<char>| lookup(ab, key) == lookup(ba, key) by {
        lemma_put(entries, a, x, key);
        lemma_put(entries, b, y, key);
        lemma_put(put(entries, a, x), b, y, key);
        lemma_put(put(entries, b, y), a, x, key);
    }
    lemma_ascending_unique(ab, ba);
}

/// No two of `pairs` have the same key.
pub open spec fn keys_distinct(pairs: Entries) -> bool {
    forall|i: int, j: int|
        0 <= i < j < pairs.len() ==> (#[trigger] pairs[i]).0 != (#[trigger] pairs[j]).0
}

/// Pairs with distinct keys that are collected are held as they are: each
/// key with its value, and no other key.
pub proof fn lemma_collected(pairs: Entries, n: nat)
    requires
        n <= pairs.len(),
        keys_distinct(pairs),
    ensures
        keys_ascending(collected(pairs, n)),
        forall|i: int| 0 <= i < n ==> lookup(collected(pairs, n), (#[trigger] pairs[i]).0) == Some(pairs[i].1),
        forall|key: Seq<char>| #[trigger]
            has_key(collected(pairs, n), key) ==> exists|i: int|
                0 <= i < n && (#[trigger] pairs[i]).0 == key,
    decreases n,
{
    let now = collected(pairs, n);
    if n == 0 {
        assert forall|key: Seq<char>| #[trigger] has_key(now, key) implies exists|i: int|
            0 <= i < n && (#[trigger] pairs[i]).0 == key by {
            assert(now.len() == 0);
        }
    } else {
        let m = (n - 1) as nat;
        let before = collected(pairs, m);
        let last = pairs[n - 1];
        lemma_collected(pairs, m);
        lemma_put(before, last.0, last.1, last.0);
        assert forall|i: int| 0 <= i < n implies lookup(now, (#[trigger] pairs[i]).0) == Some(
            pairs[i].1,
        ) by {
            lemma_put(before, last.0, last.1, pairs[i].0);
        }
        assert forall|key: Seq<char>| #[trigger] has_key(now, key) implies exists|i: int|
            0 <= i < n && (#[trigger] pairs[i]).0 == key by {
            if key == last.0 {
                assert(pairs[n - 1].0 == key);
            } else {
                lemma_put(before, last.0, last.1, key);
                lemma_lookup_some(now, key);
                lemma_lookup_some(before, key);
                let i = choose|i: int| 0 <= i < m && (#[trigger] pairs[i]).0 == key;
                assert(pairs[i].0 == key);
            }
        }
    }
}

} // verus!
