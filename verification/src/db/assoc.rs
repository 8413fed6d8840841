//! Lists of named values, and the maps they stand for.

use crate::text::{lemma_lex_asymmetric, lex_lt};
use vstd::prelude::*;

verus! {

/// The map that a list of pairs stands for. Where a key occurs more than
/// once, the last pair with it counts.
pub open spec fn pairs_map<V>(pairs: Seq<(Seq<char>, V)>) -> Map<Seq<char>, V>
    decreases pairs.len(),
{
    if pairs.len() == 0 {
        Map::empty()
    } else {
        pairs_map(pairs.drop_last()).insert(pairs.last().0, pairs.last().1)
    }
}

/// Whether some pair of the list has the key.
pub open spec fn has_key<V>(pairs: Seq<(Seq<char>, V)>, key: Seq<char>) -> bool {
    exists|i: int| 0 <= i < pairs.len() && #[trigger] pairs[i].0 == key
}

/// No key occurs twice.
pub open spec fn keys_distinct<V>(pairs: Seq<(Seq<char>, V)>) -> bool {
    forall|i: int, j: int|
        0 <= i < j < pairs.len() ==> #[trigger] pairs[i].0 != #[trigger] pairs[j].0
}

/// The keys grow strictly along the list.
pub open spec fn keys_sorted<V>(pairs: Seq<(Seq<char>, V)>) -> bool {
    forall|i: int, j: int|
        0 <= i < j < pairs.len() ==> lex_lt(#[trigger] pairs[i].0, #[trigger] pairs[j].0)
}

/// The list with `key` bound to `value`: in place where the key is there
/// already, at the end where it is new.
pub open spec fn upsert<V>(pairs: Seq<(Seq<char>, V)>, key: Seq<char>, value: V) -> Seq<
    (Seq<char>, V),
> {
    if has_key(pairs, key) {
        let i = choose|i: int| 0 <= i < pairs.len() && #[trigger] pairs[i].0 == key;
        pairs.update(i, (key, value))
    } else {
        pairs.push((key, value))
    }
}

/// A sorted list has no key twice.
pub proof fn lemma_sorted_distinct<V>(pairs: Seq<(Seq<char>, V)>)
    requires
        keys_sorted(pairs),
    ensures
        keys_distinct(pairs),
{
    assert forall|i: int, j: int| 0 <= i < j < pairs.len() implies #[trigger] pairs[i].0
        != #[trigger] pairs[j].0 by {
        lemma_lex_asymmetric(pairs[i].0, pairs[j].0);
    }
}

/// The keys of the map are the keys of the list.
pub proof fn lemma_pairs_map_dom<V>(pairs: Seq<(Seq<char>, V)>)
    ensures
        forall|k: Seq<char>| #[trigger] pairs_map(pairs).dom().contains(k) <==> has_key(pairs, k),
        pairs_map(pairs).dom().finite(),
    decreases pairs.len(),
{
    if pairs.len() > 0 {
        let front = pairs.drop_last();
        lemma_pairs_map_dom(front);
        assert forall|k: Seq<char>| #[trigger]
            pairs_map(pairs).dom().contains(k) <==> has_key(pairs, k) by {
            if has_key(pairs, k) {
                let i = choose|i: int| 0 <= i < pairs.len() && #[trigger] pairs[i].0 == k;
                if i < pairs.len() - 1 {
                    assert(front[i].0 == k);
                }
            }
            if has_key(front, k) {
                let i = choose|i: int| 0 <= i < front.len() && #[trigger] front[i].0 == k;
                assert(pairs[i].0 == k);
            }
            if pairs.last().0 == k {
                assert(pairs[pairs.len() - 1].0 == k);
            }
        }
    }
}

/// Where no key occurs twice, the map binds each key to the value beside it.
pub proof fn lemma_pairs_map_value<V>(pairs: Seq<(Seq<char>, V)>, i: int)
    requires
        keys_distinct(pairs),
        0 <= i < pairs.len(),
    ensures
        pairs_map(pairs).dom().contains(pairs[i].0),
        pairs_map(pairs)[pairs[i].0] == pairs[i].1,
    decreases pairs.len(),
{
    if i < pairs.len() - 1 {
        let front = pairs.drop_last();
        assert(front[i] == pairs[i]);
        assert(pairs[i].0 != pairs[pairs.len() - 1].0);
        lemma_pairs_map_value(front, i);
    }
}

/// Two lists without repeated keys that hold the same pairs stand for the
/// same map.
pub proof fn lemma_pairs_map_same<V>(a: Seq<(Seq<char>, V)>, b: Seq<(Seq<char>, V)>)
    requires
        keys_distinct(a),
        keys_distinct(b),
        forall|i: int| 0 <= i < a.len() ==> b.contains(#[trigger] a[i]),
        forall|j: int| 0 <= j < b.len() ==> a.contains(#[trigger] b[j]),
    ensures
        pairs_map(a) == pairs_map(b),
{
    lemma_pairs_map_dom(a);
    lemma_pairs_map_dom(b);
    assert forall|k: Seq<char>| pairs_map(a).dom().contains(k) implies #[trigger] pairs_map(
        b,
    ).dom().contains(k) && pairs_map(a)[k] == pairs_map(b)[k] by {
        let i = choose|i: int| 0 <= i < a.len() && #[trigger] a[i].0 == k;
        assert(b.contains(a[i]));
        let j = choose|j: int| 0 <= j < b.len() && b[j] == a[i];
        lemma_pairs_map_value(a, i);
        lemma_pairs_map_value(b, j);
    }
    assert forall|k: Seq<char>| pairs_map(b).dom().contains(k) implies #[trigger] pairs_map(
        a,
    ).dom().contains(k) by {
        let j = choose|j: int| 0 <= j < b.len() && #[trigger] b[j].0 == k;
        assert(a.contains(b[j]));
        let i = choose|i: int| 0 <= i < a.len() && a[i] == b[j];
        lemma_pairs_map_value(a, i);
    }
    assert(pairs_map(a) =~= pairs_map(b));
}

/// Putting a new key anywhere into a list without repeated keys binds it in
/// the map and keeps the keys apart.
pub proof fn lemma_insert_new<V>(pairs: Seq<(Seq<char>, V)>, at: int, key: Seq<char>, value: V)
    requires
        keys_distinct(pairs),
        !has_key(pairs, key),
        0 <= at <= pairs.len(),
    ensures
        keys_distinct(pairs.insert(at, (key, value))),
        pairs_map(pairs.insert(at, (key, value))) == pairs_map(pairs).insert(key, value),
{
    let after = pairs.insert(at, (key, value));
    assert forall|i: int, j: int| 0 <= i < j < after.len() implies #[trigger] after[i].0
        != #[trigger] after[j].0 by {
        let oi = if i < at {
            i
        } else {
            i - 1
        };
        let oj = if j < at {
            j
        } else {
            j - 1
        };
        if i != at && j != at {
            assert(after[i] == pairs[oi]);
            assert(after[j] == pairs[oj]);
        } else if i == at {
            assert(after[j] == pairs[oj]);
        } else {
            assert(after[i] == pairs[oi]);
        }
    }
    let pushed = pairs.push((key, value));
    assert(pushed.drop_last() =~= pairs);
    assert forall|i: int, j: int| 0 <= i < j < pushed.len() implies #[trigger] pushed[i].0
        != #[trigger] pushed[j].0 by {
        if j < pairs.len() {
            assert(pushed[i] == pairs[i]);
            assert(pushed[j] == pairs[j]);
        } else {
            assert(pushed[i] == pairs[i]);
        }
    }
    assert forall|i: int| 0 <= i < after.len() implies pushed.contains(#[trigger] after[i]) by {
        if i < at {
            assert(pushed[i] == after[i]);
        } else if i == at {
            assert(pushed[pairs.len() as int] == after[i]);
        } else {
            assert(pushed[i - 1] == after[i]);
        }
    }
    assert forall|j: int| 0 <= j < pushed.len() implies after.contains(#[trigger] pushed[j]) by {
        if j < at {
            assert(after[j] == pushed[j]);
        } else if j < pairs.len() {
            assert(after[j + 1] == pushed[j]);
        } else {
            assert(after[at] == pushed[j]);
        }
    }
    lemma_pairs_map_same(after, pushed);
}

/// Replacing the value beside a key rebinds the key in the map and keeps the
/// keys as they were.
pub proof fn lemma_replace_value<V>(pairs: Seq<(Seq<char>, V)>, at: int, value: V)
    requires
        keys_distinct(pairs),
        0 <= at < pairs.len(),
    ensures
        keys_distinct(pairs.update(at, (pairs[at].0, value))),
        pairs_map(pairs.update(at, (pairs[at].0, value))) == pairs_map(pairs).insert(
            pairs[at].0,
            value,
        ),
{
    let key = pairs[at].0;
    let after = pairs.update(at, (key, value));
    assert forall|i: int, j: int| 0 <= i < j < after.len() implies #[trigger] after[i].0
        != #[trigger] after[j].0 by {
        assert(after[i].0 == pairs[i].0);
        assert(after[j].0 == pairs[j].0);
    }
    lemma_pairs_map_dom(pairs);
    lemma_pairs_map_dom(after);
    let want = pairs_map(pairs).insert(key, value);
    assert forall|k: Seq<char>| #[trigger] pairs_map(after).dom().contains(k) <==> want.dom().contains(
        k,
    ) by {
        if has_key(after, k) {
            let i = choose|i: int| 0 <= i < after.len() && #[trigger] after[i].0 == k;
            assert(pairs[i].0 == k);
        }
        if has_key(pairs, k) {
            let i = choose|i: int| 0 <= i < pairs.len() && #[trigger] pairs[i].0 == k;
            assert(after[i].0 == k);
        }
        if k == key {
            assert(after[at].0 == k);
        }
    }
    assert forall|k: Seq<char>| pairs_map(after).dom().contains(k) implies #[trigger] pairs_map(
        after,
    )[k] == want[k] by {
        let i = choose|i: int| 0 <= i < after.len() && #[trigger] after[i].0 == k;
        lemma_pairs_map_value(after, i);
        if i != at {
            assert(after[i] == pairs[i]);
            lemma_pairs_map_value(pairs, i);
        }
    }
    assert(pairs_map(after) =~= want);
}

/// Taking a pair out of a list without repeated keys takes its key out of
/// the map and keeps the keys apart.
pub proof fn lemma_remove_pair<V>(pairs: Seq<(Seq<char>, V)>, at: int)
    requires
        keys_distinct(pairs),
        0 <= at < pairs.len(),
    ensures
        keys_distinct(pairs.remove(at)),
        pairs_map(pairs.remove(at)) == pairs_map(pairs).remove(pairs[at].0),
{
    let key = pairs[at].0;
    let after = pairs.remove(at);
    assert forall|i: int, j: int| 0 <= i < j < after.len() implies #[trigger] after[i].0
        != #[trigger] after[j].0 by {
        let oi = if i < at {
            i
        } else {
            i + 1
        };
        let oj = if j < at {
            j
        } else {
            j + 1
        };
        assert(after[i] == pairs[oi]);
        assert(after[j] == pairs[oj]);
    }
    lemma_pairs_map_dom(pairs);
    lemma_pairs_map_dom(after);
    let want = pairs_map(pairs).remove(key);
    assert forall|k: Seq<char>| #[trigger] pairs_map(after).dom().contains(k) <==> want.dom().contains(
        k,
    ) by {
        if has_key(after, k) {
            let i = choose|i: int| 0 <= i < after.len() && #[trigger] after[i].0 == k;
            let oi = if i < at {
                i
            } else {
                i + 1
            };
            assert(after[i] == pairs[oi]);
            assert(pairs[oi].0 == k);
            if oi < at {
                assert(pairs[oi].0 != pairs[at].0);
            } else {
                assert(pairs[at].0 != pairs[oi].0);
            }
        }
        if has_key(pairs, k) && k != key {
            let i = choose|i: int| 0 <= i < pairs.len() && #[trigger] pairs[i].0 == k;
            let ni = if i < at {
                i
            } else {
                i - 1
            };
            assert(after[ni] == pairs[i]);
            assert(after[ni].0 == k);
        }
    }
    assert forall|k: Seq<char>| pairs_map(after).dom().contains(k) implies #[trigger] pairs_map(
        after,
    )[k] == want[k] by {
        let i = choose|i: int| 0 <= i < after.len() && #[trigger] after[i].0 == k;
        let oi = if i < at {
            i
        } else {
            i + 1
        };
        assert(after[i] == pairs[oi]);
        lemma_pairs_map_value(after, i);
        lemma_pairs_map_value(pairs, oi);
    }
    assert(pairs_map(after) =~= want);
}

/// Binding a key with `upsert` keeps the keys apart and binds it in the map.
pub proof fn lemma_upsert<V>(pairs: Seq<(Seq<char>, V)>, key: Seq<char>, value: V)
    requires
        keys_distinct(pairs),
    ensures
        keys_distinct(upsert(pairs, key, value)),
        pairs_map(upsert(pairs, key, value)) == pairs_map(pairs).insert(key, value),
{
    if has_key(pairs, key) {
        let i = choose|i: int| 0 <= i < pairs.len() && #[trigger] pairs[i].0 == key;
        lemma_replace_value(pairs, i, value);
    } else {
        lemma_insert_new(pairs, pairs.len() as int, key, value);
        assert(pairs.insert(pairs.len() as int, (key, value)) =~= pairs.push((key, value)));
    }
}

} // verus!
