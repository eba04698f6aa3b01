//! The expiring store of key-value pairs.
use vstd::prelude::*;
use crate::clock::steady_now;
use crate::clock::NANOS_PER_SECOND;
use crate::key::Key;
use crate::KEY_EXPIRATION;

verus! {

/// What the store holds under a key.
pub ghost struct StoredItem {
    /// The value.
    pub value: Seq<char>,
    /// When it was inserted, in nanoseconds of the steady clock.
    pub publish_time: nat,
}

/// One key-value pair of the store.
pub struct StorageEntry {
    key: Key,
    value: String,
    publish_time: u64,
}

impl StorageEntry {
    /// The key of the entry.
    pub closed spec fn spec_key(&self) -> Seq<u8> {
        self.key@
    }

    /// What the entry holds under its key.
    pub closed spec fn item(&self) -> StoredItem {
        StoredItem { value: self.value@, publish_time: self.publish_time as nat }
    }
}

/// Whether at the time `now` an item published at `publish_time` is older
/// than `KEY_EXPIRATION` seconds.
pub open spec fn expired(publish_time: nat, now: nat) -> bool {
    publish_time + KEY_EXPIRATION * NANOS_PER_SECOND < now
}

/// The items of `items` that are not expired at the time `now`.
pub open spec fn unexpired(items: Map<Seq<u8>, StoredItem>, now: nat) -> Map<Seq<u8>, StoredItem> {
    Map::new(
        |key: Seq<u8>| items.contains_key(key) && !expired(items[key].publish_time, now),
        |key: Seq<u8>| items[key],
    )
}

/// The reverse index of a store: under each publish time the keys that were
/// published then.
pub open spec fn publish_times(items: Map<Seq<u8>, StoredItem>) -> Map<nat, Set<Seq<u8>>> {
    Map::new(
        |time: nat|
            exists|key: Seq<u8>| #[trigger] items.contains_key(key) && items[key].publish_time == time,
        |time: nat|
            Set::new(|key: Seq<u8>| items.contains_key(key) && items[key].publish_time == time),
    )
}

/// What a list of entries holds under `key`: the item of the last entry with
/// that key.
pub open spec fn find_item(entries: Seq<StorageEntry>, key: Seq<u8>) -> Option<StoredItem>
    decreases entries.len(),
{
    if entries.len() == 0 {
        None
    } else if entries.last().spec_key() == key {
        Some(entries.last().item())
    } else {
        find_item(entries.drop_last(), key)
    }
}

/// Whether no two entries of the list have one key.
pub open spec fn distinct_keys(entries: Seq<StorageEntry>) -> bool {
    forall|i: int, j: int|
        0 <= i < entries.len() && 0 <= j < entries.len() && i != j ==> (
        #[trigger] entries[i]).spec_key() != (#[trigger] entries[j]).spec_key()
}

/// A simple storage container that removes stale items.
///
/// `Storage` removes an item once it is older than `KEY_EXPIRATION` seconds.
pub struct Storage {
    items: Vec<StorageEntry>,
}

impl View for Storage {
    type V = Map<Seq<u8>, StoredItem>;

    closed spec fn view(&self) -> Map<Seq<u8>, StoredItem> {
        Map::new(
            |key: Seq<u8>| find_item(self.items@, key) is Some,
            |key: Seq<u8>| find_item(self.items@, key)->0,
        )
    }
}

impl Default for Storage {
    fn default() -> (storage: Storage)
        ensures
            storage.wf(),
            storage@ == Map::<Seq<u8>, StoredItem>::empty(),
    {
        Storage::new()
    }
}

impl Storage {
    /// Whether the store holds no key twice.
    pub closed spec fn wf(&self) -> bool {
        distinct_keys(self.items@)
    }

    /// Constructs a new, empty `Storage`.
    pub fn new() -> (storage: Storage)
        ensures
            storage.wf(),
            storage@ == Map::<Seq<u8>, StoredItem>::empty(),
    {
        let storage = Storage { items: Vec::new() };
        assert(storage@ =~= Map::<Seq<u8>, StoredItem>::empty());
        storage
    }

    /// The number of items in the store.
    pub fn len(&self) -> (len: usize)
        requires
            self.wf(),
        ensures
            len == self@.dom().len(),
            self@.dom().finite(),
    {
        proof {
            lemma_domain_size(self.items@);
            assert(self@.dom() =~= key_set(self.items@));
        }
        self.items.len()
    }

    /// The place of the entry with the key `key`.
    fn index_of(&self, key: &Key) -> (found: Option<usize>)
        requires
            self.wf(),
        ensures
            match found {
                Some(index) => index < self.items@.len() && self.items@[index as int].spec_key()
                    == key@ && find_item(self.items@, key@) == Some(
                    self.items@[index as int].item(),
                ),
                None => find_item(self.items@, key@) is None && forall|i: int|
                    0 <= i < self.items@.len() ==> (#[trigger] self.items@[i]).spec_key() != key@,
            },
    {
        let mut i: usize = 0;
        while i < self.items.len()
            invariant
                i <= self.items.len(),
                self.wf(),
                forall|j: int| 0 <= j < i ==> (#[trigger] self.items@[j]).spec_key() != key@,
            decreases self.items.len() - i,
        {
            if self.items[i].key == *key {
                proof {
                    lemma_find_at(self.items@, i as int);
                }
                return Some(i);
            }
            i += 1;
        }
        proof {
            lemma_find_none(self.items@, key@);
        }
        None
    }

    /// Removes all items that are older than `KEY_EXPIRATION` seconds at the
    /// time `now`.
    pub fn remove_expired(&mut self, now: u64)
        requires
            old(self).wf(),
        ensures
            final(self).wf(),
            final(self)@ == unexpired(old(self)@, now as nat),
    {
        let ghost all = self.items@;
        let mut i: usize = 0;
        let mut kept: Vec<StorageEntry> = Vec::new();
        let n = self.items.len();
        proof {
            assert(all.skip(0) =~= all);
        }
        while i < n
            invariant
                i <= n,
                n == all.len(),
                self.items@ == all.skip(i as int),
                distinct_keys(all),
                kept@ == live_entries(all.take(i as int), now as nat),
            decreases n - i,
        {
            let ghost rest = self.items@;
            let ghost kept_before = kept@;
            let entry = self.items.remove(0);
            proof {
                assert(entry == rest[0]);
                assert(rest[0] == all[i as int]);
                assert(self.items@ =~= all.skip(i + 1));
                assert(all.take(i + 1).drop_last() =~= all.take(i as int));
                assert(all.take(i + 1).last() == entry);
            }
            let stale = now > KEY_EXPIRATION * NANOS_PER_SECOND && entry.publish_time < now
                - KEY_EXPIRATION * NANOS_PER_SECOND;
            if !stale {
                kept.push(entry);
            }
            i += 1;
        }
        proof {
            assert(all.take(n as int) =~= all);
            lemma_live_entries(all, now as nat);
        }
        self.items = kept;
        proof {
            assert(self@ =~= unexpired(old(self)@, now as nat)) by {
                assert forall|key: Seq<u8>| #[trigger]
                    self@.contains_key(key) == unexpired(old(self)@, now as nat).contains_key(
                        key,
                    ) && (self@.contains_key(key) ==> self@[key] == unexpired(
                        old(self)@,
                        now as nat,
                    )[key]) by {
                    lemma_live_item(all, now as nat, key);
                }
            }
        }
    }

    /// Inserts an item into `Storage` at the time `now`, in place of what was
    /// there under `key`. Before that, the items that are expired at `now`
    /// are removed.
    pub fn insert_at(&mut self, key: Key, value: String, now: u64)
        requires
            old(self).wf(),
        ensures
            final(self).wf(),
            final(self)@ == unexpired(old(self)@, now as nat).insert(
                key@,
                StoredItem { value: value@, publish_time: now as nat },
            ),
    {
        self.remove_expired(now);
        let ghost before = self.items@;
        let ghost items = self@;
        let entry = StorageEntry { key, value, publish_time: now };
        match self.index_of(&key) {
            Some(index) => {
                self.items.remove(index);
                let ghost without = self.items@;
                self.items.push(entry);
                proof {
                    assert(without =~= before.remove(index as int));
                    lemma_remove_entry(before, index as int);
                    assert(self.items@ =~= without.push(entry));
                    lemma_push_entry(without, entry);
                    assert(self@ =~= items.insert(key@, entry.item())) by {
                        assert forall|other: Seq<u8>| #[trigger]
                            self@.contains_key(other) == items.insert(
                                key@,
                                entry.item(),
                            ).contains_key(other) && (self@.contains_key(other) ==> self@[other]
                                == items.insert(key@, entry.item())[other]) by {
                            if other != key@ {
                                lemma_remove_entry_item(before, index as int, other);
                            }
                        }
                    }
                }
            },
            None => {
                self.items.push(entry);
                proof {
                    assert(self.items@ =~= before.push(entry));
                    lemma_push_entry(before, entry);
                    assert(self@ =~= items.insert(key@, entry.item()));
                }
            },
        }
    }

    /// Inserts an item into `Storage` at the time that the steady clock
    /// shows; see `insert_at`.
    pub fn insert(&mut self, key: Key, value: String)
        requires
            old(self).wf(),
        ensures
            final(self).wf(),
            exists|now: nat|
                final(self)@ == #[trigger] unexpired(old(self)@, now).insert(
                    key@,
                    StoredItem { value: value@, publish_time: now },
                ),
    {
        let now = steady_now();
        let ghost item = StoredItem { value: value@, publish_time: now as nat };
        self.insert_at(key, value, now);
        assert(self@ == unexpired(old(self)@, now as nat).insert(key@, item));
    }

    /// The value that the store holds under `key` as it is, `None` where
    /// there is none.
    fn peek(&self, key: &Key) -> (value: Option<&String>)
        requires
            self.wf(),
        ensures
            match value {
                Some(value) => self@.contains_key(key@) && value@ == self@[key@].value,
                None => !self@.contains_key(key@),
            },
    {
        match self.index_of(key) {
            Some(index) => Some(&self.items[index].value),
            None => None,
        }
    }

    /// Returns the value associated with `key` at the time `now`, `None`
    /// where there is none. Before that, the items that are expired at `now`
    /// are removed.
    pub fn get_at(&mut self, key: &Key, now: u64) -> (value: Option<&String>)
        requires
            old(self).wf(),
        ensures
            final(self).wf(),
            final(self)@ == unexpired(old(self)@, now as nat),
            match value {
                Some(value) => final(self)@.contains_key(key@) && value@ == final(self)@[key@].value,
                None => !final(self)@.contains_key(key@),
            },
    {
        self.remove_expired(now);
        self.peek(key)
    }

    /// Returns the value associated with `key` at the time that the steady
    /// clock shows; see `get_at`.
    pub fn get(&mut self, key: &Key) -> (value: Option<&String>)
        requires
            old(self).wf(),
        ensures
            final(self).wf(),
            exists|now: nat| final(self)@ == #[trigger] unexpired(old(self)@, now),
            match value {
                Some(value) => final(self)@.contains_key(key@) && value@ == final(self)@[key@].value,
                None => !final(self)@.contains_key(key@),
            },
    {
        let now = steady_now();
        self.remove_expired(now);
        assert(self@ == unexpired(old(self)@, now as nat));
        self.peek(key)
    }
}

/// The entries of a list that are not expired at the time `now`, in their
/// order.
pub open spec fn live_entries(entries: Seq<StorageEntry>, now: nat) -> Seq<StorageEntry>
    decreases entries.len(),
{
    if entries.len() == 0 {
        Seq::empty()
    } else if expired(entries.last().item().publish_time, now) {
        live_entries(entries.drop_last(), now)
    } else {
        live_entries(entries.drop_last(), now).push(entries.last())
    }
}

/// The keys of a list of entries.
pub open spec fn key_set(entries: Seq<StorageEntry>) -> Set<Seq<u8>> {
    Set::new(|key: Seq<u8>| find_item(entries, key) is Some)
}

/// A list of entries holds something under a key exactly where one of its
/// entries has that key.
pub proof fn lemma_find_none(entries: Seq<StorageEntry>, key: Seq<u8>)
    ensures
        find_item(entries, key) is None <==> forall|i: int|
            0 <= i < entries.len() ==> (#[trigger] entries[i]).spec_key() != key,
    decreases entries.len(),
{
    if entries.len() > 0 {
        let init = entries.drop_last();
        lemma_find_none(init, key);
        if entries.last().spec_key() != key {
            if find_item(init, key) is None {
                assert forall|i: int| 0 <= i < entries.len() implies (#[trigger] entries[i]).spec_key()
                    != key by {
                    if i < init.len() {
                        assert(init[i] == entries[i]);
                    }
                }
            } else {
                let i = choose|i: int| 0 <= i < init.len() && (#[trigger] init[i]).spec_key() == key;
                assert(entries[i] == init[i]);
            }
        } else {
            assert(entries[entries.len() - 1].spec_key() == key);
        }
    }
}

/// In a list with distinct keys, what is held under the key of an entry is
/// the item of that entry.
pub proof fn lemma_find_at(entries: Seq<StorageEntry>, index: int)
    requires
        distinct_keys(entries),
        0 <= index < entries.len(),
    ensures
        find_item(entries, entries[index].spec_key()) == Some(entries[index].item()),
    decreases entries.len(),
{
    if index < entries.len() - 1 {
        let init = entries.drop_last();
        assert(entries[entries.len() - 1].spec_key() != entries[index].spec_key());
        assert(init[index] == entries[index]);
        assert forall|i: int, j: int|
            0 <= i < init.len() && 0 <= j < init.len() && i != j implies (#[trigger] init[i]).spec_key()
            != (#[trigger] init[j]).spec_key() by {
            assert(init[i] == entries[i] && init[j] == entries[j]);
        }
        lemma_find_at(init, index);
    }
}

/// The live entries of a list with distinct keys have distinct keys, and are
/// entries of the list.
pub proof fn lemma_live_entries(entries: Seq<StorageEntry>, now: nat)
    requires
        distinct_keys(entries),
    ensures
        distinct_keys(live_entries(entries, now)),
        forall|i: int|
            0 <= i < live_entries(entries, now).len() ==> entries.contains(
                #[trigger] live_entries(entries, now)[i],
            ),
    decreases entries.len(),
{
    let live = live_entries(entries, now);
    if entries.len() > 0 {
        let init = entries.drop_last();
        let earlier = live_entries(init, now);
        assert forall|i: int, j: int|
            0 <= i < init.len() && 0 <= j < init.len() && i != j implies (#[trigger] init[i]).spec_key()
            != (#[trigger] init[j]).spec_key() by {
            assert(init[i] == entries[i] && init[j] == entries[j]);
        }
        lemma_live_entries(init, now);
        assert forall|i: int| 0 <= i < live.len() implies entries.contains(#[trigger] live[i]) by {
            if i < earlier.len() {
                assert(init.contains(earlier[i]));
                let at = choose|at: int| 0 <= at < init.len() && init[at] == earlier[i];
                assert(entries[at] == live[i]);
            } else {
                assert(entries[entries.len() - 1] == live[i]);
            }
        }
        assert forall|i: int, j: int|
            0 <= i < live.len() && 0 <= j < live.len() && i != j implies (#[trigger] live[i]).spec_key()
            != (#[trigger] live[j]).spec_key() by {
            if i < earlier.len() && j < earlier.len() {
            } else if i < earlier.len() {
                assert(init.contains(earlier[i]));
                let at = choose|at: int| 0 <= at < init.len() && init[at] == earlier[i];
                assert(entries[at] == earlier[i]);
                assert(entries[entries.len() - 1] == live[j]);
            } else {
                assert(init.contains(earlier[j]));
                let at = choose|at: int| 0 <= at < init.len() && init[at] == earlier[j];
                assert(entries[at] == earlier[j]);
                assert(entries[entries.len() - 1] == live[i]);
            }
        }
    }
}

/// Under a key the live entries hold what the list holds, where that is not
/// expired, and nothing where it is.
pub proof fn lemma_live_item(entries: Seq<StorageEntry>, now: nat, key: Seq<u8>)
    requires
        distinct_keys(entries),
    ensures
        find_item(live_entries(entries, now), key) == match find_item(entries, key) {
            Some(item) => if expired(item.publish_time, now) {
                None
            } else {
                Some(item)
            },
            None => None,
        },
    decreases entries.len(),
{
    if entries.len() > 0 {
        let init = entries.drop_last();
        assert forall|i: int, j: int|
            0 <= i < init.len() && 0 <= j < init.len() && i != j implies (#[trigger] init[i]).spec_key()
            != (#[trigger] init[j]).spec_key() by {
            assert(init[i] == entries[i] && init[j] == entries[j]);
        }
        lemma_live_item(init, now, key);
        let earlier = live_entries(init, now);
        if entries.last().spec_key() == key {
            lemma_find_none(init, key);
            if find_item(init, key) is Some {
                let i = choose|i: int| 0 <= i < init.len() && (#[trigger] init[i]).spec_key() == key;
                assert(entries[i] == init[i]);
                assert(entries[i].spec_key() != entries[entries.len() - 1].spec_key());
            }
            assert(find_item(init, key) is None);
        } else if !expired(entries.last().item().publish_time, now) {
            assert(earlier.push(entries.last()).drop_last() =~= earlier);
        }
    }
}

/// A list with distinct keys that gets an entry with a new key has distinct
/// keys.
pub proof fn lemma_push_entry(entries: Seq<StorageEntry>, entry: StorageEntry)
    requires
        distinct_keys(entries),
        forall|i: int| 0 <= i < entries.len() ==> (#[trigger] entries[i]).spec_key() != entry.spec_key(),
    ensures
        distinct_keys(entries.push(entry)),
        entries.push(entry).drop_last() == entries,
{
    assert(entries.push(entry).drop_last() =~= entries);
}

/// A list with distinct keys that loses an entry has distinct keys, and does
/// not hold the key of that entry.
pub proof fn lemma_remove_entry(entries: Seq<StorageEntry>, index: int)
    requires
        distinct_keys(entries),
        0 <= index < entries.len(),
    ensures
        distinct_keys(entries.remove(index)),
        forall|i: int|
            0 <= i < entries.remove(index).len() ==> (#[trigger] entries.remove(index)[i]).spec_key()
                != entries[index].spec_key(),
{
    let out = entries.remove(index);
    assert forall|i: int| 0 <= i < out.len() implies (#[trigger] out[i]).spec_key()
        != entries[index].spec_key() by {
        let a = if i < index { i } else { i + 1 };
        assert(out[i] == entries[a]);
    }
    assert forall|i: int, j: int| 0 <= i < out.len() && 0 <= j < out.len() && i != j implies (
    #[trigger] out[i]).spec_key() != (#[trigger] out[j]).spec_key() by {
        let a = if i < index { i } else { i + 1 };
        let b = if j < index { j } else { j + 1 };
        assert(out[i] == entries[a] && out[j] == entries[b]);
    }
}

/// Under another key a list that loses an entry holds what it held.
pub proof fn lemma_remove_entry_item(entries: Seq<StorageEntry>, index: int, key: Seq<u8>)
    requires
        distinct_keys(entries),
        0 <= index < entries.len(),
        key != entries[index].spec_key(),
    ensures
        find_item(entries.remove(index), key) == find_item(entries, key),
    decreases entries.len(),
{
    let out = entries.remove(index);
    let init = entries.drop_last();
    if index == entries.len() - 1 {
        assert(out =~= init);
    } else {
        assert forall|i: int, j: int|
            0 <= i < init.len() && 0 <= j < init.len() && i != j implies (#[trigger] init[i]).spec_key()
            != (#[trigger] init[j]).spec_key() by {
            assert(init[i] == entries[i] && init[j] == entries[j]);
        }
        assert(out.drop_last() =~= init.remove(index));
        assert(out.last() == entries.last());
        assert(init[index] == entries[index]);
        lemma_remove_entry_item(init, index, key);
    }
}

/// A list with distinct keys has as many keys as entries.
pub proof fn lemma_domain_size(entries: Seq<StorageEntry>)
    requires
        distinct_keys(entries),
    ensures
        key_set(entries).finite(),
        key_set(entries).len() == entries.len(),
    decreases entries.len(),
{
    if entries.len() == 0 {
        assert(key_set(entries) =~= Set::empty());
    } else {
        let init = entries.drop_last();
        assert forall|i: int, j: int|
            0 <= i < init.len() && 0 <= j < init.len() && i != j implies (#[trigger] init[i]).spec_key()
            != (#[trigger] init[j]).spec_key() by {
            assert(init[i] == entries[i] && init[j] == entries[j]);
        }
        lemma_domain_size(init);
        lemma_find_none(init, entries.last().spec_key());
        assert forall|i: int| 0 <= i < init.len() implies (#[trigger] init[i]).spec_key()
            != entries.last().spec_key() by {
            assert(init[i] == entries[i]);
            assert(entries[entries.len() - 1] == entries.last());
        }
        assert(key_set(entries) =~= key_set(init).insert(entries.last().spec_key()));
    }
}

/// An item that was inserted is there, with its value, for as long as it is
/// not expired.
pub proof fn lemma_get_after_insert(
    items: Map<Seq<u8>, StoredItem>,
    key: Seq<u8>,
    value: Seq<char>,
    inserted: nat,
    now: nat,
)
    requires
        !expired(inserted, now),
    ensures
        unexpired(
            unexpired(items, inserted).insert(key, StoredItem { value, publish_time: inserted }),
            now,
        ).contains_key(key),
        unexpired(
            unexpired(items, inserted).insert(key, StoredItem { value, publish_time: inserted }),
            now,
        )[key].value == value,
{
}

/// Of two values inserted under one key, the second is there for as long as
/// it is not expired.
pub proof fn lemma_get_after_overwrite(
    items: Map<Seq<u8>, StoredItem>,
    key: Seq<u8>,
    first: Seq<char>,
    first_time: nat,
    second: Seq<char>,
    second_time: nat,
    now: nat,
)
    requires
        !expired(second_time, now),
    ensures
        unexpired(
            unexpired(
                unexpired(items, first_time).insert(
                    key,
                    StoredItem { value: first, publish_time: first_time },
                ),
                second_time,
            ).insert(key, StoredItem { value: second, publish_time: second_time }),
            now,
        ).contains_key(key),
        unexpired(
            unexpired(
                unexpired(items, first_time).insert(
                    key,
                    StoredItem { value: first, publish_time: first_time },
                ),
                second_time,
            ).insert(key, StoredItem { value: second, publish_time: second_time }),
            now,
        )[key].value == second,
{
}

/// An item that was inserted is gone once it is expired.
pub proof fn lemma_get_after_expiry(
    items: Map<Seq<u8>, StoredItem>,
    key: Seq<u8>,
    value: Seq<char>,
    inserted: nat,
    now: nat,
)
    requires
        expired(inserted, now),
    ensures
        !unexpired(
            unexpired(items, inserted).insert(key, StoredItem { value, publish_time: inserted }),
            now,
        ).contains_key(key),
{
}

/// Every item of a store stands in the reverse index under its publish time,
/// and the reverse index holds nothing else.
pub proof fn lemma_publish_times(items: Map<Seq<u8>, StoredItem>)
    ensures
        forall|key: Seq<u8>| #[trigger]
            items.contains_key(key) ==> publish_times(items).contains_key(items[key].publish_time)
                && publish_times(items)[items[key].publish_time].contains(key),
        forall|time: nat, key: Seq<u8>|
            publish_times(items).contains_key(time) && #[trigger] publish_times(
                items,
            )[time].contains(key) ==> items.contains_key(key) && items[key].publish_time == time,
{
}

} // verus!
