//! Key/value pairs kept in strictly ascending key order.
//!
//! Both the mapping variant of a value and the store hold their entries this
//! way. The place of a key is the index of the first key that does not sort
//! before it: there the key is, if it is there at all, and there a pair with
//! that key is put in.

use crate::order::{
    keys_ascend, lemma_before_irreflexive, lemma_before_total, lemma_before_transitive,
    lemma_order_equal, lemma_order_flip, sorts_before, Order,
};
use crate::value::{lemma_view_pairs, view_pairs, SpecValue, Value};
use vstd::prelude::*;

verus! {

/// The keys of `pairs`, in place.
pub open spec fn keys<T>(pairs: Seq<(SpecValue, T)>) -> Seq<SpecValue> {
    Seq::new(pairs.len(), |i: int| pairs[i].0)
}

/// The first index at or after `i` whose key does not sort before `key`, or
/// the length of `keys` if every key from `i` on does.
pub open spec fn lower_bound(keys: Seq<SpecValue>, key: SpecValue, i: int) -> int
    decreases keys.len() - i,
{
    if i < 0 || i >= keys.len() {
        keys.len() as int
    } else if sorts_before(keys[i], key) {
        lower_bound(keys, key, i + 1)
    } else {
        i
    }
}

/// The place of `key` among `pairs`: where it is, or where it belongs.
pub open spec fn slot<T>(pairs: Seq<(SpecValue, T)>, key: SpecValue) -> int {
    lower_bound(keys(pairs), key, 0)
}

/// `key` is the key of one of `pairs`.
pub open spec fn holds_key<T>(pairs: Seq<(SpecValue, T)>, key: SpecValue) -> bool {
    slot(pairs, key) < pairs.len() && pairs[slot(pairs, key)].0 == key
}

/// What `pairs` holds under `key`.
pub open spec fn lookup<T>(pairs: Seq<(SpecValue, T)>, key: SpecValue) -> Option<T> {
    if holds_key(pairs, key) {
        Some(pairs[slot(pairs, key)].1)
    } else {
        None
    }
}

/// `pairs` with `val` under `key`, in place of what was there under it.
pub open spec fn insert_pair<T>(pairs: Seq<(SpecValue, T)>, key: SpecValue, val: T) -> Seq<
    (SpecValue, T),
> {
    if holds_key(pairs, key) {
        pairs.update(slot(pairs, key), (key, val))
    } else {
        pairs.insert(slot(pairs, key), (key, val))
    }
}

/// Where a walk from `i` stops: every key passed sorts before `key`, and
/// the key stopped at does not.
pub proof fn lemma_lower_bound(keys: Seq<SpecValue>, key: SpecValue, i: int)
    requires
        0 <= i <= keys.len(),
    ensures
        i <= lower_bound(keys, key, i) <= keys.len(),
        forall|j: int| i <= j < lower_bound(keys, key, i) ==> sorts_before(#[trigger] keys[j], key),
        lower_bound(keys, key, i) < keys.len() ==> !sorts_before(
            keys[lower_bound(keys, key, i)],
            key,
        ),
    decreases keys.len() - i,
{
    if i < keys.len() && sorts_before(keys[i], key) {
        lemma_lower_bound(keys, key, i + 1);
    }
}

/// Among ascending keys, the place of `key` parts the keys that sort before
/// it from those that sort after it, with `key` itself, if it is there, at
/// that place.
pub proof fn lemma_slot<T>(pairs: Seq<(SpecValue, T)>, key: SpecValue)
    requires
        keys_ascend(pairs),
    ensures
        0 <= slot(pairs, key) <= pairs.len(),
        forall|j: int| 0 <= j < slot(pairs, key) ==> sorts_before((#[trigger] pairs[j]).0, key),
        forall|j: int|
            slot(pairs, key) <= j < pairs.len() ==> !sorts_before((#[trigger] pairs[j]).0, key),
        forall|j: int|
            slot(pairs, key) < j < pairs.len() ==> sorts_before(key, (#[trigger] pairs[j]).0),
        !holds_key(pairs, key) ==> forall|j: int|
            slot(pairs, key) <= j < pairs.len() ==> sorts_before(key, (#[trigger] pairs[j]).0),
{
    let ks = keys(pairs);
    let at = slot(pairs, key);
    lemma_lower_bound(ks, key, 0);
    assert forall|j: int| 0 <= j < at implies sorts_before((#[trigger] pairs[j]).0, key) by {
        assert(ks[j] == pairs[j].0);
    }
    if at < pairs.len() {
        assert(ks[at] == pairs[at].0);
        lemma_before_total(pairs[at].0, key);
    }
    assert forall|j: int| at < j < pairs.len() implies sorts_before(key, (#[trigger] pairs[j]).0)
        && !sorts_before(pairs[j].0, key) by {
        // key is pairs[at].0 or sorts before it, and pairs[at].0 sorts before pairs[j].0
        assert(sorts_before(pairs[at].0, pairs[j].0));
        if key != pairs[at].0 {
            lemma_before_transitive(key, pairs[at].0, pairs[j].0);
        }
        lemma_before_total(key, pairs[j].0);
    }
}

/// Putting a pair in keeps the keys ascending.
pub proof fn lemma_insert_ascends<T>(pairs: Seq<(SpecValue, T)>, key: SpecValue, val: T)
    requires
        keys_ascend(pairs),
    ensures
        keys_ascend(insert_pair(pairs, key, val)),
{
    lemma_slot(pairs, key);
    let at = slot(pairs, key);
    let out = insert_pair(pairs, key, val);
    if holds_key(pairs, key) {
        assert forall|i: int, j: int| 0 <= i < j < out.len() implies sorts_before(
            (#[trigger] out[i]).0,
            (#[trigger] out[j]).0,
        ) by {
            assert(out[i].0 == pairs[i].0);
            assert(out[j].0 == pairs[j].0);
        }
    } else {
        assert forall|i: int, j: int| 0 <= i < j < out.len() implies sorts_before(
            (#[trigger] out[i]).0,
            (#[trigger] out[j]).0,
        ) by {
            if j < at {
                assert(out[i] == pairs[i] && out[j] == pairs[j]);
            } else if j == at {
                assert(out[i] == pairs[i]);
            } else if i < at {
                assert(out[i] == pairs[i] && out[j] == pairs[j - 1]);
            } else if i == at {
                assert(out[j] == pairs[j - 1]);
            } else {
                assert(out[i] == pairs[i - 1] && out[j] == pairs[j - 1]);
            }
        }
    }
}

/// Among ascending keys, a key is at its place or nowhere.
pub proof fn lemma_key_place<T>(pairs: Seq<(SpecValue, T)>, j: int)
    requires
        keys_ascend(pairs),
        0 <= j < pairs.len(),
    ensures
        slot(pairs, pairs[j].0) == j,
        holds_key(pairs, pairs[j].0),
{
    let key = pairs[j].0;
    lemma_slot(pairs, key);
    lemma_before_irreflexive(key);
    let at = slot(pairs, key);
    if at < j {
        assert(sorts_before(pairs[at].0, pairs[j].0));
    }
}

/// What holds of every pair and of the pair put in holds of every pair
/// afterwards.
pub proof fn lemma_insert_keeps<T>(
    pairs: Seq<(SpecValue, T)>,
    key: SpecValue,
    val: T,
    holds: spec_fn((SpecValue, T)) -> bool,
)
    requires
        forall|i: int| 0 <= i < pairs.len() ==> holds(#[trigger] pairs[i]),
        holds((key, val)),
    ensures
        forall|i: int|
            0 <= i < insert_pair(pairs, key, val).len() ==> holds(
                #[trigger] insert_pair(pairs, key, val)[i],
            ),
{
    lemma_lower_bound(keys(pairs), key, 0);
    let at = slot(pairs, key);
    let out = insert_pair(pairs, key, val);
    assert forall|i: int| 0 <= i < out.len() implies holds(#[trigger] out[i]) by {
        if holds_key(pairs, key) {
            if i != at {
                assert(out[i] == pairs[i]);
            }
        } else if i < at {
            assert(out[i] == pairs[i]);
        } else if i > at {
            assert(out[i] == pairs[i - 1]);
        }
    }
}

/// What was put in under a key is what is found under it.
pub proof fn lemma_lookup_inserted<T>(pairs: Seq<(SpecValue, T)>, key: SpecValue, val: T)
    requires
        keys_ascend(pairs),
    ensures
        lookup(insert_pair(pairs, key, val), key) == Some(val),
{
    lemma_slot(pairs, key);
    lemma_insert_ascends(pairs, key, val);
    let out = insert_pair(pairs, key, val);
    assert(out[slot(pairs, key)] == (key, val));
    lemma_key_place(out, slot(pairs, key));
}

/// Putting a pair in changes nothing under any other key.
pub proof fn lemma_lookup_other<T>(
    pairs: Seq<(SpecValue, T)>,
    key: SpecValue,
    val: T,
    other: SpecValue,
)
    requires
        keys_ascend(pairs),
        other != key,
    ensures
        lookup(insert_pair(pairs, key, val), other) == lookup(pairs, other),
{
    lemma_slot(pairs, key);
    lemma_insert_ascends(pairs, key, val);
    let out = insert_pair(pairs, key, val);
    let at = slot(pairs, key);
    if holds_key(pairs, other) {
        // the pair under `other` is still there, one place up if `key` went in before it
        lemma_slot(pairs, other);
        let was = slot(pairs, other);
        let now = if holds_key(pairs, key) || was < at {
            was
        } else {
            was + 1
        };
        assert(out[now] == pairs[was]);
        lemma_key_place(out, now);
    } else if holds_key(out, other) {
        // a pair under `other` in `out` would have been in `pairs` too
        lemma_slot(out, other);
        let now = slot(out, other);
        let was = if holds_key(pairs, key) || now < at {
            now
        } else {
            now - 1
        };
        assert(out[now] == pairs[was]);
        lemma_key_place(pairs, was);
    }
}

/// A pair whose key sorts after every key there goes in at the end.
pub proof fn lemma_insert_greatest<T>(pairs: Seq<(SpecValue, T)>, key: SpecValue, val: T)
    requires
        forall|j: int| 0 <= j < pairs.len() ==> sorts_before((#[trigger] pairs[j]).0, key),
    ensures
        insert_pair(pairs, key, val) == pairs.push((key, val)),
{
    let ks = keys(pairs);
    lemma_lower_bound(ks, key, 0);
    let at = lower_bound(ks, key, 0);
    if at < pairs.len() {
        assert(ks[at] == pairs[at].0);
    }
    assert(pairs.insert(at, (key, val)) =~= pairs.push((key, val)));
}

/// A pair whose key sorts after the last of the ascending keys there goes
/// in at the end, and the keys still ascend.
pub proof fn lemma_insert_after_last<T>(pairs: Seq<(SpecValue, T)>, key: SpecValue, val: T)
    requires
        keys_ascend(pairs),
        pairs.len() > 0 ==> sorts_before(pairs.last().0, key),
    ensures
        insert_pair(pairs, key, val) == pairs.push((key, val)),
        keys_ascend(pairs.push((key, val))),
{
    let n = pairs.len() as int;
    assert forall|j: int| 0 <= j < n implies sorts_before((#[trigger] pairs[j]).0, key) by {
        if j < n - 1 {
            assert(sorts_before(pairs[j].0, pairs[n - 1].0));
            lemma_before_transitive(pairs[j].0, pairs[n - 1].0, key);
        }
    }
    lemma_insert_greatest(pairs, key, val);
    lemma_insert_ascends(pairs, key, val);
}

/// A pair whose key sorts after every key there keeps the keys ascending
/// when it is put at the end.
pub proof fn lemma_push_ascends<T>(pairs: Seq<(SpecValue, T)>, pair: (SpecValue, T))
    requires
        keys_ascend(pairs),
        forall|k: int| 0 <= k < pairs.len() ==> sorts_before((#[trigger] pairs[k]).0, pair.0),
    ensures
        keys_ascend(pairs.push(pair)),
{
    let out = pairs.push(pair);
    assert forall|i: int, j: int| 0 <= i < j < out.len() implies sorts_before(
        (#[trigger] out[i]).0,
        (#[trigger] out[j]).0,
    ) by {
        assert(out[i] == pairs[i]);
        if j < pairs.len() {
            assert(out[j] == pairs[j]);
        }
    }
}

/// What is kept of ascending pairs is in ascending order too, and each
/// pair kept is one of the pairs.
pub proof fn lemma_filter_ascends<T>(
    pairs: Seq<(SpecValue, T)>,
    keep: spec_fn((SpecValue, T)) -> bool,
)
    requires
        keys_ascend(pairs),
    ensures
        keys_ascend(pairs.filter(keep)),
        forall|k: int|
            0 <= k < pairs.filter(keep).len() ==> exists|j: int|
                0 <= j < pairs.len() && pairs[j] == #[trigger] pairs.filter(keep)[k],
    decreases pairs.len(),
{
    reveal(Seq::filter);
    if pairs.len() > 0 {
        let init = pairs.drop_last();
        let last = pairs.last();
        let kept = init.filter(keep);
        assert forall|i: int, j: int| 0 <= i < j < init.len() implies sorts_before(
            (#[trigger] init[i]).0,
            (#[trigger] init[j]).0,
        ) by {
            assert(init[i] == pairs[i] && init[j] == pairs[j]);
        }
        lemma_filter_ascends(init, keep);
        assert forall|k: int| 0 <= k < kept.len() implies sorts_before(
            (#[trigger] kept[k]).0,
            last.0,
        ) && exists|j: int| 0 <= j < pairs.len() && pairs[j] == kept[k] by {
            let j = choose|j: int| 0 <= j < init.len() && init[j] == kept[k];
            assert(pairs[j] == kept[k]);
            assert(sorts_before(pairs[j].0, pairs[pairs.len() - 1].0));
        }
        if keep(last) {
            lemma_push_ascends(kept, last);
            let out = kept.push(last);
            assert forall|k: int| 0 <= k < out.len() implies exists|j: int|
                0 <= j < pairs.len() && pairs[j] == #[trigger] out[k] by {
                if k < kept.len() {
                    assert(out[k] == kept[k]);
                } else {
                    assert(pairs[pairs.len() - 1] == out[k]);
                }
            }
        }
    }
}

/// What is kept of ascending pairs holds under a key what the pairs hold
/// under it, if that is kept, and nothing under it otherwise.
pub proof fn lemma_lookup_filtered<T>(
    pairs: Seq<(SpecValue, T)>,
    keep: spec_fn((SpecValue, T)) -> bool,
    key: SpecValue,
)
    requires
        keys_ascend(pairs),
    ensures
        lookup(pairs.filter(keep), key) == match lookup(pairs, key) {
            Some(val) => if keep((key, val)) {
                Some(val)
            } else {
                None
            },
            None => None,
        },
    decreases pairs.len(),
{
    reveal(Seq::filter);
    if pairs.len() == 0 {
        assert(keys(pairs).len() == 0);
    } else {
        let init = pairs.drop_last();
        let last = pairs.last();
        let kept = init.filter(keep);
        assert forall|i: int, j: int| 0 <= i < j < init.len() implies sorts_before(
            (#[trigger] init[i]).0,
            (#[trigger] init[j]).0,
        ) by {
            assert(init[i] == pairs[i] && init[j] == pairs[j]);
        }
        lemma_filter_ascends(init, keep);
        lemma_lookup_filtered(init, keep, key);
        // `pairs` is `init` with `last` put in, and so is what is kept of it
        if init.len() > 0 {
            assert(init.last() == pairs[pairs.len() - 2]);
            assert(sorts_before(pairs[pairs.len() - 2].0, pairs[pairs.len() - 1].0));
        }
        lemma_insert_after_last(init, last.0, last.1);
        assert(init.push(last) =~= pairs);
        assert forall|k: int| 0 <= k < kept.len() implies sorts_before(
            (#[trigger] kept[k]).0,
            last.0,
        ) by {
            let j = choose|j: int| 0 <= j < init.len() && init[j] == kept[k];
            assert(pairs[j] == kept[k]);
            assert(sorts_before(pairs[j].0, pairs[pairs.len() - 1].0));
        }
        if key == last.0 {
            lemma_lookup_inserted(init, last.0, last.1);
            // no pair of `init` has this key, so none that is kept has it
            lemma_lookup_greatest(kept, key);
            if keep(last) {
                lemma_insert_greatest(kept, last.0, last.1);
                lemma_lookup_inserted(kept, last.0, last.1);
            }
        } else {
            lemma_lookup_other(init, last.0, last.1, key);
            if keep(last) {
                lemma_insert_greatest(kept, last.0, last.1);
                lemma_lookup_other(kept, last.0, last.1, key);
            }
        }
    }
}

/// Pairs whose keys all sort before `key` hold nothing under `key`.
pub proof fn lemma_lookup_greatest<T>(pairs: Seq<(SpecValue, T)>, key: SpecValue)
    requires
        forall|k: int| 0 <= k < pairs.len() ==> sorts_before((#[trigger] pairs[k]).0, key),
    ensures
        lookup(pairs, key) is None,
{
    lemma_before_irreflexive(key);
    lemma_lower_bound(keys(pairs), key, 0);
    if holds_key(pairs, key) {
        assert(sorts_before(pairs[slot(pairs, key)].0, key));
    }
}

/// The keys ascend strictly.
pub open spec fn ascending(keys: Seq<SpecValue>) -> bool {
    forall|i: int, j: int|
        0 <= i < j < keys.len() ==> sorts_before(#[trigger] keys[i], #[trigger] keys[j])
}

/// The keys of ascending pairs ascend.
pub proof fn lemma_keys_ascending<T>(pairs: Seq<(SpecValue, T)>)
    requires
        keys_ascend(pairs),
    ensures
        ascending(keys(pairs)),
{
    let ks = keys(pairs);
    assert forall|i: int, j: int| 0 <= i < j < ks.len() implies sorts_before(
        #[trigger] ks[i],
        #[trigger] ks[j],
    ) by {
        assert(sorts_before(pairs[i].0, pairs[j].0));
    }
}

/// The index that parts the keys that sort before `key` from the rest is
/// where a walk from `i` at or before it stops.
pub proof fn lemma_partition_point(keys: Seq<SpecValue>, key: SpecValue, at: int, i: int)
    requires
        0 <= i <= at <= keys.len(),
        forall|j: int| 0 <= j < at ==> sorts_before(#[trigger] keys[j], key),
        at < keys.len() ==> !sorts_before(keys[at], key),
    ensures
        lower_bound(keys, key, i) == at,
    decreases at - i,
{
    if i < at {
        lemma_partition_point(keys, key, at, i + 1);
    }
}

/// The keys of a vector of pairs, by their views.
pub open spec fn key_views<T>(pairs: Seq<(Value, T)>) -> Seq<SpecValue> {
    Seq::new(pairs.len(), |i: int| pairs[i].0@)
}

/// Finds the place of `key` among pairs with ascending keys, by halving:
/// the index of the first key that does not sort before `key`, and whether
/// the key there is `key` itself.
pub fn find_slot<T>(pairs: &Vec<(Value, T)>, key: &Value) -> (r: (usize, bool))
    requires
        ascending(key_views(pairs@)),
    ensures
        r.0 == lower_bound(key_views(pairs@), key@, 0),
        r.0 <= pairs.len(),
        r.1 == (r.0 < pairs.len() && pairs[r.0 as int].0@ == key@),
{
    let ghost ks = key_views(pairs@);
    let mut lo: usize = 0;
    let mut hi: usize = pairs.len();
    while lo < hi
        invariant
            lo <= hi <= pairs.len(),
            ks == key_views(pairs@),
            ascending(ks),
            forall|j: int| 0 <= j < lo ==> sorts_before(#[trigger] ks[j], key@),
            forall|j: int| hi <= j < ks.len() ==> sorts_before(key@, #[trigger] ks[j]),
        decreases hi - lo,
    {
        let mid = lo + (hi - lo) / 2;
        proof {
            reveal(sorts_before);
            lemma_order_flip(ks[mid as int], key@);
        }
        match pairs[mid].0.compare(key) {
            Order::Less => {
                proof {
                    assert forall|j: int| 0 <= j < mid + 1 implies sorts_before(
                        #[trigger] ks[j],
                        key@,
                    ) by {
                        if j < mid {
                            assert(sorts_before(ks[j], ks[mid as int]));
                            lemma_before_transitive(ks[j], ks[mid as int], key@);
                        }
                    }
                }
                lo = mid + 1;
            },
            Order::Equal => {
                proof {
                    lemma_order_equal(ks[mid as int], key@);
                    lemma_before_irreflexive(key@);
                    assert forall|j: int| 0 <= j < mid implies sorts_before(
                        #[trigger] ks[j],
                        key@,
                    ) by {
                        assert(sorts_before(ks[j], ks[mid as int]));
                    }
                    lemma_partition_point(ks, key@, mid as int, 0);
                }
                return (mid, true);
            },
            Order::Greater => {
                proof {
                    assert forall|j: int| mid <= j < ks.len() implies sorts_before(
                        key@,
                        #[trigger] ks[j],
                    ) by {
                        if mid < j {
                            assert(sorts_before(ks[mid as int], ks[j]));
                            lemma_before_transitive(key@, ks[mid as int], ks[j]);
                        }
                    }
                }
                hi = mid;
            },
        }
    }
    proof {
        if lo < ks.len() {
            lemma_before_total(key@, ks[lo as int]);
        }
        lemma_partition_point(ks, key@, lo as int, 0);
    }
    (lo, false)
}

/// Puts `val` under `key` into pairs with ascending keys, at the place of
/// `key`, in place of what was there under it.
pub fn put_pair(pairs: &mut Vec<(Value, Value)>, key: Value, val: Value)
    requires
        keys_ascend(view_pairs(old(pairs)@)),
    ensures
        keys_ascend(view_pairs(final(pairs)@)),
        view_pairs(final(pairs)@) == insert_pair(view_pairs(old(pairs)@), key@, val@),
{
    let ghost before = pairs@;
    let ghost entry = (key, val);
    proof {
        lemma_view_pairs(before);
        assert(keys(view_pairs(before)) =~= key_views(before));
        lemma_keys_ascending(view_pairs(before));
        lemma_insert_ascends(view_pairs(before), entry.0@, entry.1@);
    }
    let (at, found) = find_slot(pairs, &key);
    if found {
        pairs[at] = (key, val);
    } else {
        pairs.insert(at, (key, val));
    }
    proof {
        lemma_view_pairs(pairs@);
        assert(view_pairs(pairs@) =~= insert_pair(view_pairs(before), entry.0@, entry.1@));
    }
}

/// What pairs with ascending keys hold under `key`.
pub fn get_pair<'a>(pairs: &'a Vec<(Value, Value)>, key: &Value) -> (r: Option<&'a Value>)
    requires
        keys_ascend(view_pairs(pairs@)),
    ensures
        match r {
            Some(val) => lookup(view_pairs(pairs@), key@) == Some(val@),
            None => lookup(view_pairs(pairs@), key@) is None,
        },
{
    proof {
        lemma_view_pairs(pairs@);
        assert(keys(view_pairs(pairs@)) =~= key_views(pairs@));
        lemma_keys_ascending(view_pairs(pairs@));
    }
    let (at, found) = find_slot(pairs, key);
    if found {
        Some(&pairs[at].1)
    } else {
        None
    }
}

} // verus!
