//! The state that commands work on: the expiring store and the settings.

use crate::order::{keys_ascend, sorts_before};
use crate::sorted::{
    find_slot, insert_pair, key_views, keys, lemma_insert_ascends, lemma_keys_ascending,
    lemma_push_ascends, lookup,
};
use crate::value::{SpecValue, Value};
use vstd::prelude::*;

verus! {

/// The content of an [`Entry`].
pub struct SpecEntry {
    pub value: SpecValue,
    /// The instant, in milliseconds since the epoch, after which the entry
    /// counts as gone; `None` for an entry that stays.
    pub expiry: Option<u128>,
}

impl SpecEntry {
    /// The entry counts as gone at the instant `now`.
    pub open spec fn expired_at(self, now: u128) -> bool {
        self.expiry matches Some(at) && now > at
    }
}

/// `now + ms`, or the greatest instant if the sum is beyond it.
pub open spec fn deadline(now: u128, ms: u128) -> u128 {
    if now + ms > u128::MAX {
        u128::MAX
    } else {
        (now + ms) as u128
    }
}

/// A stored value and the instant at which it expires, if it does.
#[derive(Debug, PartialEq, Eq)]
pub struct Entry {
    value: Value,
    expiry: Option<u128>,
}

impl View for Entry {
    type V = SpecEntry;

    closed spec fn view(&self) -> SpecEntry {
        SpecEntry { value: self.value@, expiry: self.expiry }
    }
}

impl Entry {
    /// An entry that holds `value` and does not expire.
    pub fn new(value: Value) -> (r: Entry)
        ensures
            r@ == (SpecEntry { value: value@, expiry: None }),
    {
        Entry { value, expiry: None }
    }

    /// Whether the entry counts as gone at the instant `now`: it has an
    /// expiry, and `now` is past it.
    pub fn is_expired(&self, now: u128) -> (r: bool)
        ensures
            r == self@.expired_at(now),
    {
        match self.expiry {
            Some(at) => now > at,
            None => false,
        }
    }

    /// Makes the entry expire `ms` milliseconds after the instant `now`.
    pub fn expires_in(&mut self, now: u128, ms: u128)
        ensures
            final(self)@ == (SpecEntry {
                value: old(self)@.value,
                expiry: Some(deadline(now, ms)),
            }),
    {
        self.expiry = Some(now.saturating_add(ms));
    }

    /// The stored value.
    pub fn value(&self) -> (r: &Value)
        ensures
            r@ == self@.value,
    {
        &self.value
    }

    /// The instant at which the entry expires, if it does.
    pub fn expiry(&self) -> (r: Option<u128>)
        ensures
            r == self@.expiry,
    {
        self.expiry
    }
}

/// The contents of a vector of stored entries, entry by entry.
pub open spec fn view_entries(entries: Seq<(Value, Entry)>) -> Seq<(SpecValue, SpecEntry)> {
    Seq::new(entries.len(), |i: int| (entries[i].0@, entries[i].1@))
}

/// The entries of `store` that have not expired at the instant `now`.
pub open spec fn unexpired(store: Seq<(SpecValue, SpecEntry)>, now: u128) -> Seq<
    (SpecValue, SpecEntry),
> {
    store.filter(|p: (SpecValue, SpecEntry)| !p.1.expired_at(now))
}

/// An ordered mapping from keys to entries: pairs of a key and its entry,
/// in strictly ascending key order. That order holds of every store at all
/// times, and each operation says so.
#[derive(Debug)]
pub struct Store {
    entries: Vec<(Value, Entry)>,
}

impl View for Store {
    type V = Seq<(SpecValue, SpecEntry)>;

    closed spec fn view(&self) -> Seq<(SpecValue, SpecEntry)> {
        view_entries(self.entries@)
    }
}

impl Store {
    #[verifier::type_invariant]
    pub(crate) open spec fn inv(self) -> bool {
        keys_ascend(self@)
    }

    /// Takes the entries out, leaving the store empty.
    fn take_entries(&mut self) -> (r: Vec<(Value, Entry)>)
        ensures
            view_entries(r@) == old(self)@,
            keys_ascend(old(self)@),
            final(self).entries@.len() == 0,
    {
        proof {
            use_type_invariant(&*self);
        }
        let mut taken = Store { entries: Vec::new() };
        core::mem::swap(self, &mut taken);
        let Store { entries } = taken;
        entries
    }

    /// An empty store.
    pub fn new() -> (r: Store)
        ensures
            r@ == Seq::<(SpecValue, SpecEntry)>::empty(),
    {
        let r = Store { entries: Vec::new() };
        assert(r@ =~= Seq::<(SpecValue, SpecEntry)>::empty());
        r
    }

    /// The number of entries, expired ones included.
    pub fn len(&self) -> (r: usize)
        ensures
            r == self@.len(),
            keys_ascend(self@),
    {
        proof {
            use_type_invariant(self);
        }
        self.entries.len()
    }

    /// Puts `entry` under `key`, in place of what was there under it.
    pub fn insert(&mut self, key: Value, entry: Entry)
        ensures
            final(self)@ == insert_pair(old(self)@, key@, entry@),
            keys_ascend(old(self)@),
            keys_ascend(final(self)@),
    {
        let mut entries = self.take_entries();
        let ghost before = entries@;
        let ghost pair = (key@, entry@);
        proof {
            assert(keys(view_entries(before)) =~= key_views(before));
            lemma_keys_ascending(view_entries(before));
            lemma_insert_ascends(view_entries(before), pair.0, pair.1);
        }
        let (at, found) = find_slot(&entries, &key);
        if found {
            let ghost after = before.update(at as int, (key, entry));
            assert(view_entries(after) =~= insert_pair(view_entries(before), pair.0, pair.1));
            entries[at] = (key, entry);
        } else {
            let ghost after = before.insert(at as int, (key, entry));
            assert(view_entries(after) =~= insert_pair(view_entries(before), pair.0, pair.1));
            entries.insert(at, (key, entry));
        }
        *self = Store { entries };
    }

    /// The entry under `key`, expired or not.
    pub fn get(&self, key: &Value) -> (r: Option<&Entry>)
        ensures
            match r {
                Some(entry) => lookup(self@, key@) == Some(entry@),
                None => lookup(self@, key@) is None,
            },
            keys_ascend(self@),
    {
        proof {
            use_type_invariant(self);
            assert(keys(view_entries(self.entries@)) =~= key_views(self.entries@));
            lemma_keys_ascending(view_entries(self.entries@));
        }
        let (at, found) = find_slot(&self.entries, key);
        if found {
            Some(&self.entries[at].1)
        } else {
            None
        }
    }

    /// Takes out every entry that has expired at the instant `now`.
    pub fn prune_expired(&mut self, now: u128)
        ensures
            final(self)@ == unexpired(old(self)@, now),
            keys_ascend(old(self)@),
            keys_ascend(final(self)@),
    {
        let mut entries = self.take_entries();
        let ghost before = view_entries(entries@);
        let ghost keep = |p: (SpecValue, SpecEntry)| !p.1.expired_at(now);
        let mut kept: Vec<(Value, Entry)> = Vec::new();
        let mut i: usize = 0;
        proof {
            reveal(Seq::filter);
            assert(before.take(0).filter(keep) =~= Seq::<(SpecValue, SpecEntry)>::empty());
            assert(view_entries(kept@) =~= Seq::<(SpecValue, SpecEntry)>::empty());
        }
        while i < entries.len()
            invariant
                i <= entries.len(),
                entries.len() == before.len(),
                keep == |p: (SpecValue, SpecEntry)| !p.1.expired_at(now),
                keys_ascend(before),
                forall|j: int|
                    i <= j < entries.len() ==> (#[trigger] entries@[j].0@, entries@[j].1@)
                        == before[j],
                view_entries(kept@) == before.take(i as int).filter(keep),
                keys_ascend(view_entries(kept@)),
                forall|k: int, j: int|
                    0 <= k < kept.len() && i <= j < before.len() ==> sorts_before(
                        (#[trigger] view_entries(kept@)[k]).0,
                        (#[trigger] before[j]).0,
                    ),
            decreases entries.len() - i,
        {
            let ghost kept_before = view_entries(kept@);
            let mut taken = (Value::Null, Entry::new(Value::Null));
            entries.set_and_swap(i, &mut taken);
            proof {
                assert((taken.0@, taken.1@) == before[i as int]);
                assert(before.take(i + 1).drop_last() =~= before.take(i as int));
                reveal(Seq::filter);
            }
            if !taken.1.is_expired(now) {
                proof {
                    lemma_push_ascends(kept_before, before[i as int]);
                    assert(view_entries(kept@.push(taken)) =~= kept_before.push(before[i as int]));
                }
                kept.push(taken);
            }
            i += 1;
        }
        assert(before.take(i as int) =~= before);
        *self = Store { entries: kept };
    }
}

/// The mapping that a list of name/value pairs stands for: each pair puts
/// its value under its name, a later pair over an earlier one.
pub open spec fn settings_map(pairs: Seq<(String, String)>) -> Map<Seq<char>, Seq<char>>
    decreases pairs.len(),
{
    if pairs.len() == 0 {
        Map::empty()
    } else {
        settings_map(pairs.drop_last()).insert(pairs.last().0@, pairs.last().1@)
    }
}

/// The index of the last pair of `pairs` below `end` that has the name
/// `name`, or `-1` if there is none.
pub open spec fn last_named(pairs: Seq<(String, String)>, name: Seq<char>, end: int) -> int
    decreases end,
{
    if end <= 0 || end > pairs.len() {
        -1
    } else if pairs[end - 1].0@ == name {
        end - 1
    } else {
        last_named(pairs, name, end - 1)
    }
}

/// What the last pair with a name says is what the mapping holds under
/// that name, and a name that no pair has is not in the mapping.
pub proof fn lemma_settings_lookup(pairs: Seq<(String, String)>, name: Seq<char>)
    ensures
        ({
            let at = last_named(pairs, name, pairs.len() as int);
            &&& -1 <= at < pairs.len()
            &&& at >= 0 ==> pairs[at].0@ == name && settings_map(pairs).dom().contains(name)
                && settings_map(pairs)[name] == pairs[at].1@
            &&& at < 0 ==> !settings_map(pairs).dom().contains(name)
        }),
    decreases pairs.len(),
{
    if pairs.len() > 0 {
        lemma_settings_lookup(pairs.drop_last(), name);
        lemma_last_named_prefix(pairs, name, pairs.len() - 1);
    }
}

/// Looking below `end` does not depend on the pairs from `end` on.
proof fn lemma_last_named_prefix(pairs: Seq<(String, String)>, name: Seq<char>, end: int)
    requires
        0 <= end <= pairs.len(),
    ensures
        last_named(pairs.take(end), name, end) == last_named(pairs, name, end),
        -1 <= last_named(pairs, name, end) < end,
    decreases end,
{
    if end > 0 {
        lemma_last_named_prefix(pairs, name, end - 1);
        lemma_last_named_prefix(pairs.take(end), name, end - 1);
        assert(pairs.take(end).take(end - 1) =~= pairs.take(end - 1));
    }
}

/// Changing the value of the last pair with a name puts that value under
/// the name.
pub proof fn lemma_settings_replace(pairs: Seq<(String, String)>, at: int, pair: (String, String))
    requires
        0 <= at < pairs.len(),
        at == last_named(pairs, pair.0@, pairs.len() as int),
    ensures
        settings_map(pairs.update(at, pair)) == settings_map(pairs).insert(pair.0@, pair.1@),
    decreases pairs.len(),
{
    let n = pairs.len() - 1;
    let changed = pairs.update(at, pair);
    lemma_last_named_prefix(pairs, pair.0@, n);
    assert(pairs.take(n) =~= pairs.drop_last());
    if at == n {
        assert(changed.drop_last() =~= pairs.drop_last());
        assert(settings_map(changed) =~= settings_map(pairs).insert(pair.0@, pair.1@));
    } else {
        assert(changed.drop_last() =~= pairs.drop_last().update(at, pair));
        assert(changed.last() == pairs.last());
        lemma_settings_replace(pairs.drop_last(), at, pair);
        assert(settings_map(changed) =~= settings_map(pairs).insert(pair.0@, pair.1@));
    }
}

/// Named text settings.
#[derive(Debug)]
pub struct Settings {
    pairs: Vec<(String, String)>,
}

impl View for Settings {
    type V = Map<Seq<char>, Seq<char>>;

    closed spec fn view(&self) -> Map<Seq<char>, Seq<char>> {
        settings_map(self.pairs@)
    }
}

impl Settings {
    /// No settings.
    pub fn new() -> (r: Settings)
        ensures
            r@ == Map::<Seq<char>, Seq<char>>::empty(),
    {
        Settings { pairs: Vec::new() }
    }

    /// The index of the last pair with the name `name`, if there is one.
    fn find(&self, name: &String) -> (r: Option<usize>)
        ensures
            match r {
                Some(at) => at < self.pairs@.len() && at == last_named(
                    self.pairs@,
                    name@,
                    self.pairs@.len() as int,
                ),
                None => last_named(self.pairs@, name@, self.pairs@.len() as int) == -1,
            },
    {
        let mut i: usize = self.pairs.len();
        while i > 0
            invariant
                i <= self.pairs.len(),
                last_named(self.pairs@, name@, self.pairs@.len() as int) == last_named(
                    self.pairs@,
                    name@,
                    i as int,
                ),
            decreases i,
        {
            i -= 1;
            if self.pairs[i].0 == *name {
                return Some(i);
            }
        }
        None
    }

    /// Puts `value` under `name`, in place of what was there under it.
    pub fn set(&mut self, name: String, value: String)
        ensures
            final(self)@ == old(self)@.insert(name@, value@),
    {
        match self.find(&name) {
            Some(at) => {
                proof {
                    lemma_settings_replace(self.pairs@, at as int, (name, value));
                }
                self.pairs[at] = (name, value);
            },
            None => {
                proof {
                    assert(self.pairs@.push((name, value)).drop_last() =~= self.pairs@);
                }
                self.pairs.push((name, value));
            },
        }
    }

    /// The value under `name`, if there is one.
    pub fn get(&self, name: &String) -> (r: Option<&String>)
        ensures
            match r {
                Some(value) => self@.dom().contains(name@) && self@[name@] == value@,
                None => !self@.dom().contains(name@),
            },
    {
        proof {
            lemma_settings_lookup(self.pairs@, name@);
        }
        match self.find(name) {
            Some(at) => Some(&self.pairs[at].1),
            None => None,
        }
    }
}

} // verus!
