//! Key-value tables that stand for a contract's ledger entries, and small
//! facts about sequences that the contracts share.
use crate::values::{Address, Symbol};
use vstd::prelude::*;

verus! {

/// A value that entries are stored under.
pub trait Key: Sized {
    /// Whether the two keys are the same.
    fn same(&self, other: &Self) -> (b: bool)
        ensures
            b == (*self == *other),
    ;
}

impl Key for Symbol {
    fn same(&self, other: &Self) -> (b: bool) {
        *self == *other
    }
}

impl Key for Address {
    fn same(&self, other: &Self) -> (b: bool) {
        *self == *other
    }
}

impl Key for u64 {
    fn same(&self, other: &Self) -> (b: bool) {
        *self == *other
    }
}

impl Key for u32 {
    fn same(&self, other: &Self) -> (b: bool) {
        *self == *other
    }
}

impl<A: Key, B: Key> Key for (A, B) {
    fn same(&self, other: &Self) -> (b: bool) {
        self.0.same(&other.0) && self.1.same(&other.1)
    }
}

/// The value of the first entry under `key`.
pub open spec fn lookup<K, V>(entries: Seq<(K, V)>, key: K) -> Option<V>
    decreases entries.len(),
{
    if entries.len() == 0 {
        None
    } else if entries[0].0 == key {
        Some(entries[0].1)
    } else {
        lookup(entries.drop_first(), key)
    }
}

/// A map from keys to values, read and written one entry at a time.
pub struct Table<K, V> {
    entries: Vec<(K, V)>,
}

proof fn lemma_lookup_at<K, V>(entries: Seq<(K, V)>, key: K, i: int)
    requires
        0 <= i < entries.len(),
        entries[i].0 == key,
        forall|j: int| 0 <= j < i ==> (#[trigger] entries[j]).0 != key,
    ensures
        lookup(entries, key) == Some(entries[i].1),
    decreases i,
{
    if i > 0 {
        assert(entries[0].0 != key);
        let rest = entries.drop_first();
        assert forall|j: int| 0 <= j < i - 1 implies (#[trigger] rest[j]).0 != key by {
            assert(rest[j] == entries[j + 1]);
        }
        lemma_lookup_at(rest, key, i - 1);
    }
}

proof fn lemma_lookup_absent<K, V>(entries: Seq<(K, V)>, key: K)
    requires
        forall|j: int| 0 <= j < entries.len() ==> (#[trigger] entries[j]).0 != key,
    ensures
        lookup(entries, key) is None,
    decreases entries.len(),
{
    if entries.len() > 0 {
        assert(entries[0].0 != key);
        let rest = entries.drop_first();
        assert forall|j: int| 0 <= j < rest.len() implies (#[trigger] rest[j]).0 != key by {
            assert(rest[j] == entries[j + 1]);
        }
        lemma_lookup_absent(rest, key);
    }
}

proof fn lemma_lookup_update<K, V>(entries: Seq<(K, V)>, i: int, value: V, key: K)
    requires
        0 <= i < entries.len(),
        entries[i].0 != key,
    ensures
        lookup(entries.update(i, (entries[i].0, value)), key) == lookup(entries, key),
    decreases i,
{
    let next = entries.update(i, (entries[i].0, value));
    if i == 0 {
        assert(next.drop_first() =~= entries.drop_first());
    } else {
        let rest = entries.drop_first();
        assert(next.drop_first() =~= rest.update(i - 1, (rest[i - 1].0, value)));
        lemma_lookup_update(rest, i - 1, value, key);
    }
}

proof fn lemma_lookup_push<K, V>(entries: Seq<(K, V)>, added: K, value: V, key: K)
    ensures
        lookup(entries.push((added, value)), key) == (if lookup(entries, key) is Some {
            lookup(entries, key)
        } else if added == key {
            Some(value)
        } else {
            None
        }),
    decreases entries.len(),
{
    let next = entries.push((added, value));
    if entries.len() == 0 {
        assert(next.drop_first() =~= Seq::<(K, V)>::empty());
        assert(lookup(next.drop_first(), key) is None);
    } else {
        assert(next.drop_first() =~= entries.drop_first().push((added, value)));
        lemma_lookup_push(entries.drop_first(), added, value, key);
    }
}

proof fn lemma_lookup_remove<K, V>(entries: Seq<(K, V)>, i: int, key: K)
    requires
        0 <= i < entries.len(),
        entries[i].0 != key,
    ensures
        lookup(entries.remove(i), key) == lookup(entries, key),
    decreases i,
{
    let next = entries.remove(i);
    if i == 0 {
        assert(next =~= entries.drop_first());
    } else {
        assert(next.drop_first() =~= entries.drop_first().remove(i - 1));
        lemma_lookup_remove(entries.drop_first(), i - 1, key);
    }
}

impl<K, V> View for Table<K, V> {
    type V = Map<K, V>;

    closed spec fn view(&self) -> Map<K, V> {
        Map::new(
            |key: K| lookup(self.entries@, key) is Some,
            |key: K| lookup(self.entries@, key)->0,
        )
    }
}

impl<K: Key, V> Table<K, V> {
    /// A table without entries.
    pub fn new() -> (table: Self)
        ensures
            table@ == Map::<K, V>::empty(),
    {
        let table = Table { entries: Vec::new() };
        assert(table@ =~= Map::<K, V>::empty());
        table
    }

    /// The entries one by one. The first one under a key is the one that
    /// counts.
    pub fn entries(&self) -> (entries: &Vec<(K, V)>)
        ensures
            forall|key: K| #[trigger]
                self@.contains_key(key) <==> lookup(entries@, key) is Some,
            forall|key: K| #[trigger]
                self@.contains_key(key) ==> lookup(entries@, key) == Some(self@[key]),
    {
        &self.entries
    }

    fn position(&self, key: &K) -> (at: Option<usize>)
        ensures
            at matches Some(i) ==> i < self.entries@.len() && self.entries@[i as int].0 == *key
                && (forall|j: int| 0 <= j < i ==> (#[trigger] self.entries@[j]).0 != *key),
            at is None ==> forall|j: int|
                0 <= j < self.entries@.len() ==> (#[trigger] self.entries@[j]).0 != *key,
    {
        let mut i: usize = 0;
        while i < self.entries.len()
            invariant
                i <= self.entries@.len(),
                forall|j: int| 0 <= j < i ==> (#[trigger] self.entries@[j]).0 != *key,
            decreases self.entries@.len() - i,
        {
            if self.entries[i].0.same(key) {
                return Some(i);
            }
            i += 1;
        }
        None
    }

    /// Whether an entry is stored under `key`.
    pub fn has(&self, key: &K) -> (b: bool)
        ensures
            b == self@.contains_key(*key),
    {
        self.get(key).is_some()
    }

    /// The value stored under `key`.
    pub fn get(&self, key: &K) -> (value: Option<&V>)
        ensures
            value is Some <==> self@.contains_key(*key),
            value matches Some(v) ==> *v == self@[*key],
    {
        match self.position(key) {
            Some(i) => {
                proof {
                    lemma_lookup_at(self.entries@, *key, i as int);
                }
                Some(&self.entries[i].1)
            },
            None => {
                proof {
                    lemma_lookup_absent(self.entries@, *key);
                }
                None
            },
        }
    }

    /// Store `value` under `key`, replacing what was there.
    pub fn set(&mut self, key: K, value: V)
        ensures
            final(self)@ == old(self)@.insert(key, value),
    {
        let ghost before = self.entries@;
        match self.position(&key) {
            Some(i) => {
                let ghost k = key;
                let ghost v = value;
                self.entries.set(i, (key, value));
                proof {
                    let after = self.entries@;
                    assert(after == before.update(i as int, (before[i as int].0, v)));
                    lemma_lookup_at(after, k, i as int);
                    assert forall|other: K| other != k implies lookup(after, other) == lookup(
                        before,
                        other,
                    ) by {
                        lemma_lookup_update(before, i as int, v, other);
                    }
                    assert(self@ =~= old(self)@.insert(k, v));
                }
            },
            None => {
                let ghost k = key;
                let ghost v = value;
                self.entries.push((key, value));
                proof {
                    lemma_lookup_absent(before, k);
                    assert forall|other: K| true implies lookup(self.entries@, other) == (if lookup(
                        before,
                        other,
                    ) is Some {
                        lookup(before, other)
                    } else if k == other {
                        Some(v)
                    } else {
                        None
                    }) by {
                        lemma_lookup_push(before, k, v, other);
                    }
                    assert(self@ =~= old(self)@.insert(k, v));
                }
            },
        }
    }

    /// Remove what is stored under `key` and hand it out.
    pub fn take(&mut self, key: &K) -> (value: Option<V>)
        ensures
            final(self)@ == old(self)@.remove(*key),
            value is Some <==> old(self)@.contains_key(*key),
            value matches Some(v) ==> v == old(self)@[*key],
    {
        let mut found: Option<V> = None;
        let ghost before = self.entries@;
        let mut i: usize = 0;
        while i < self.entries.len()
            invariant
                i <= self.entries@.len(),
                before == old(self).entries@,
                forall|j: int| 0 <= j < i ==> (#[trigger] self.entries@[j]).0 != *key,
                forall|other: K| other != *key ==> lookup(self.entries@, other) == lookup(
                    before,
                    other,
                ),
                found is Some ==> lookup(before, *key) == found,
                found is None ==> lookup(self.entries@, *key) == lookup(before, *key),
            decreases self.entries@.len() - i,
        {
            if self.entries[i].0.same(key) {
                let ghost now = self.entries@;
                let entry = self.entries.remove(i);
                proof {
                    lemma_lookup_at(now, *key, i as int);
                    assert forall|other: K| other != *key implies lookup(self.entries@, other)
                        == lookup(before, other) by {
                        lemma_lookup_remove(now, i as int, other);
                    }
                }
                if found.is_none() {
                    found = Some(entry.1);
                }
            } else {
                i += 1;
            }
        }
        proof {
            lemma_lookup_absent(self.entries@, *key);
            assert(self@ =~= old(self)@.remove(*key));
        }
        found
    }
}

/// A value that can be copied piece by piece.
pub trait Duplicate: View + Sized {
    /// A second value with the same content.
    fn duplicate(&self) -> (copy: Self)
        ensures
            copy@ == self@,
    ;
}

/// A second list with the same items.
pub fn copy_list<T: Copy>(list: &Vec<T>) -> (copy: Vec<T>)
    ensures
        copy@ == list@,
{
    let mut copy: Vec<T> = Vec::new();
    let mut i: usize = 0;
    while i < list.len()
        invariant
            i <= list@.len(),
            copy@ == list@.take(i as int),
        decreases list@.len() - i,
    {
        copy.push(list[i]);
        i += 1;
        assert(list@.take(i as int) =~= list@.take(i - 1).push(list@[i - 1]));
    }
    assert(list@.take(i as int) =~= list@);
    copy
}

proof fn lemma_lookup_alike<K, V>(a: Seq<(K, V)>, b: Seq<(K, V)>, alike: spec_fn(V, V) -> bool, key: K)
    requires
        a.len() == b.len(),
        forall|i: int| 0 <= i < a.len() ==> (#[trigger] a[i]).0 == b[i].0 && alike(a[i].1, b[i].1),
    ensures
        lookup(a, key) is Some <==> lookup(b, key) is Some,
        lookup(a, key) is Some ==> alike(lookup(a, key)->0, lookup(b, key)->0),
    decreases a.len(),
{
    if a.len() > 0 {
        assert(a[0].0 == b[0].0);
        let x = a.drop_first();
        let y = b.drop_first();
        assert forall|i: int| 0 <= i < x.len() implies (#[trigger] x[i]).0 == y[i].0 && alike(
            x[i].1,
            y[i].1,
        ) by {
            assert(x[i] == a[i + 1]);
        }
        lemma_lookup_alike(x, y, alike, key);
    }
}

impl<K: Key + Copy, V: Copy> Table<K, V> {
    /// A second table with the same entries.
    pub fn copy(&self) -> (table: Self)
        ensures
            table@ == self@,
    {
        let table = Table { entries: copy_list(&self.entries) };
        assert(table@ =~= self@);
        table
    }
}

impl<K: Key + Copy, V: Duplicate> Table<K, V> {
    /// A second table whose entries have the same content.
    pub fn duplicate(&self) -> (table: Self)
        ensures
            table@.dom() == self@.dom(),
            forall|key: K| self@.contains_key(key) ==> #[trigger] table@[key]@ == self@[key]@,
    {
        let mut entries: Vec<(K, V)> = Vec::new();
        let mut i: usize = 0;
        while i < self.entries.len()
            invariant
                i <= self.entries@.len(),
                entries@.len() == i,
                forall|j: int|
                    0 <= j < i ==> (#[trigger] entries@[j]).0 == self.entries@[j].0
                        && entries@[j].1@ == self.entries@[j].1@,
            decreases self.entries@.len() - i,
        {
            let v = self.entries[i].1.duplicate();
            entries.push((self.entries[i].0, v));
            i += 1;
        }
        let table = Table { entries };
        proof {
            let alike = |a: V, b: V| a@ == b@;
            assert forall|key: K| true implies (lookup(table.entries@, key) is Some <==> lookup(
                self.entries@,
                key,
            ) is Some) && (lookup(table.entries@, key) is Some ==> alike(
                lookup(table.entries@, key)->0,
                lookup(self.entries@, key)->0,
            )) by {
                lemma_lookup_alike(table.entries@, self.entries@, alike, key);
            }
            assert(table@.dom() =~= self@.dom());
            assert forall|key: K| self@.contains_key(key) implies #[trigger] table@[key]@
                == self@[key]@ by {
                lemma_lookup_alike(table.entries@, self.entries@, alike, key);
                assert(table@.dom().contains(key));
            }
        }
        table
    }
}

/// A key with a position in an order.
pub trait Ranked: Key {
    /// The position; different keys have different positions.
    spec fn rank(&self) -> int;

    proof fn rank_tells_apart(a: Self, b: Self)
        requires
            a.rank() == b.rank(),
        ensures
            a == b,
    ;

    /// Whether `self` comes before `other`.
    fn precedes(&self, other: &Self) -> (b: bool)
        ensures
            b == (self.rank() < other.rank()),
    ;
}

impl Ranked for u64 {
    open spec fn rank(&self) -> int {
        *self as int
    }

    proof fn rank_tells_apart(a: Self, b: Self) {
    }

    fn precedes(&self, other: &Self) -> (b: bool) {
        *self < *other
    }
}

impl Ranked for Symbol {
    open spec fn rank(&self) -> int {
        self.hi * 0x1_0000_0000_0000_0000_0000_0000_0000_0000 + self.lo
    }

    proof fn rank_tells_apart(a: Self, b: Self) {
    }

    fn precedes(&self, other: &Self) -> (b: bool) {
        self.hi < other.hi || (self.hi == other.hi && self.lo < other.lo)
    }
}

/// A map that hands its entries out in ascending key order.
pub struct OrderedTable<K, V> {
    entries: Vec<(K, V)>,
}

impl<K: Ranked, V> OrderedTable<K, V> {
    /// The entries, in the order in which they are handed out.
    pub closed spec fn in_order(&self) -> Seq<(K, V)> {
        self.entries@
    }

    /// Keys ascend strictly: each occurs once.
    pub open spec fn wf(&self) -> bool {
        forall|i: int, j: int|
            0 <= i < j < self.in_order().len() ==> (#[trigger] self.in_order()[i]).0.rank() < (
            #[trigger] self.in_order()[j]).0.rank()
    }

    /// The entries as a map.
    pub open spec fn view(&self) -> Map<K, V> {
        Map::new(
            |key: K| exists|i: int|
                0 <= i < self.in_order().len() && (#[trigger] self.in_order()[i]).0 == key,
            |key: K| self.in_order()[self.index_of(key)].1,
        )
    }

    /// Where `key` stands.
    pub open spec fn index_of(&self, key: K) -> int {
        choose|i: int| 0 <= i < self.in_order().len() && (#[trigger] self.in_order()[i]).0 == key
    }

    proof fn lemma_at(&self, i: int)
        requires
            self.wf(),
            0 <= i < self.in_order().len(),
        ensures
            self.view().contains_key(self.in_order()[i].0),
            self.view()[self.in_order()[i].0] == self.in_order()[i].1,
    {
        let key = self.in_order()[i].0;
        let j = self.index_of(key);
        assert(0 <= j < self.in_order().len() && self.in_order()[j].0 == key);
        if i < j {
            assert(self.in_order()[i].0.rank() < self.in_order()[j].0.rank());
        } else if j < i {
            assert(self.in_order()[j].0.rank() < self.in_order()[i].0.rank());
        }
    }

    /// A table without entries.
    pub fn new() -> (table: Self)
        ensures
            table.wf(),
            table.in_order() == Seq::<(K, V)>::empty(),
            table.view() == Map::<K, V>::empty(),
    {
        let table = OrderedTable { entries: Vec::new() };
        assert(table.view() =~= Map::<K, V>::empty());
        table
    }

    /// How many entries there are.
    pub fn len(&self) -> (n: usize)
        ensures
            n == self.in_order().len(),
    {
        self.entries.len()
    }

    /// Entry `i` in key order.
    pub fn at(&self, i: usize) -> (entry: &(K, V))
        requires
            i < self.in_order().len(),
        ensures
            *entry == self.in_order()[i as int],
    {
        &self.entries[i]
    }

    /// Position of the first key that does not come before `key`.
    fn seek(&self, key: &K) -> (at: usize)
        requires
            self.wf(),
        ensures
            at <= self.in_order().len(),
            forall|j: int| 0 <= j < at ==> (#[trigger] self.in_order()[j]).0.rank() < key.rank(),
            at < self.in_order().len() ==> self.in_order()[at as int].0.rank() >= key.rank(),
    {
        let mut i: usize = 0;
        while i < self.entries.len()
            invariant
                i <= self.entries@.len(),
                forall|j: int| 0 <= j < i ==> (#[trigger] self.in_order()[j]).0.rank() < key.rank(),
            decreases self.entries@.len() - i,
        {
            if !self.entries[i].0.precedes(key) {
                return i;
            }
            i += 1;
        }
        i
    }

    /// The value stored under `key`.
    pub fn get(&self, key: &K) -> (value: Option<&V>)
        requires
            self.wf(),
        ensures
            value is Some <==> self.view().contains_key(*key),
            value matches Some(v) ==> *v == self.view()[*key],
    {
        let i = self.seek(key);
        if i < self.entries.len() && self.entries[i].0.same(key) {
            proof {
                self.lemma_at(i as int);
            }
            Some(&self.entries[i].1)
        } else {
            proof {
                self.lemma_absent(*key, i as int);
            }
            None
        }
    }

    proof fn lemma_absent(&self, key: K, at: int)
        requires
            self.wf(),
            0 <= at <= self.in_order().len(),
            forall|j: int| 0 <= j < at ==> (#[trigger] self.in_order()[j]).0.rank() < key.rank(),
            at < self.in_order().len() ==> self.in_order()[at].0.rank() >= key.rank()
                && self.in_order()[at].0 != key,
        ensures
            !self.view().contains_key(key),
            at < self.in_order().len() ==> self.in_order()[at].0.rank() > key.rank(),
    {
        if at < self.in_order().len() {
            if self.in_order()[at].0.rank() == key.rank() {
                K::rank_tells_apart(self.in_order()[at].0, key);
            }
        }
        if self.view().contains_key(key) {
            let j = self.index_of(key);
            assert(0 <= j < self.in_order().len() && self.in_order()[j].0 == key);
            if j >= at {
                if at < j {
                    assert(self.in_order()[at].0.rank() < self.in_order()[j].0.rank());
                }
            }
        }
    }

    /// Store `value` under `key`, replacing what was there.
    pub fn set(&mut self, key: K, value: V)
        requires
            old(self).wf(),
        ensures
            final(self).wf(),
            final(self).view() == old(self).view().insert(key, value),
            old(self).view().contains_key(key) ==> final(self).in_order().len() == old(
                self,
            ).in_order().len(),
            !old(self).view().contains_key(key) ==> final(self).in_order().len() == old(
                self,
            ).in_order().len() + 1,
    {
        let ghost before = *self;
        let ghost k = key;
        let ghost v = value;
        let i = self.seek(&key);
        if i < self.entries.len() && self.entries[i].0.same(&key) {
            proof {
                before.lemma_at(i as int);
            }
            self.entries.set(i, (key, value));
            proof {
                assert(self.in_order() == before.in_order().update(i as int, (k, v)));
                assert forall|a: int, b: int| 0 <= a < b < self.in_order().len() implies (
                #[trigger] self.in_order()[a]).0.rank() < (#[trigger] self.in_order()[b]).0.rank() by {
                    assert(self.in_order()[a].0 == before.in_order()[a].0);
                    assert(self.in_order()[b].0 == before.in_order()[b].0);
                }
                assert forall|other: K| #![auto]
                    self.view().contains_key(other) == before.view().insert(k, v).contains_key(
                        other,
                    ) by {
                    if before.view().contains_key(other) {
                        let j = before.index_of(other);
                        assert(self.in_order()[j].0 == other);
                    }
                    if self.view().contains_key(other) {
                        let j = self.index_of(other);
                        assert(before.in_order()[j].0 == other);
                    }
                    if other == k {
                        assert(self.in_order()[i as int].0 == other);
                    }
                }
                assert forall|other: K| self.view().contains_key(other) implies self.view()[other]
                    == before.view().insert(k, v)[other] by {
                    let j = self.index_of(other);
                    self.lemma_at(j);
                    before.lemma_at(j);
                    if other != k {
                        assert(j != i);
                    } else {
                        self.lemma_at(i as int);
                    }
                }
                assert(self.view() =~= before.view().insert(k, v));
            }
        } else {
            proof {
                before.lemma_absent(k, i as int);
            }
            self.entries.insert(i, (key, value));
            proof {
                let s = self.in_order();
                let b = before.in_order();
                assert(s == b.insert(i as int, (k, v)));
                assert forall|x: int, y: int| 0 <= x < y < s.len() implies (
                #[trigger] s[x]).0.rank() < (#[trigger] s[y]).0.rank() by {
                    let px = if x < i { x } else { x - 1 };
                    let py = if y < i { y } else { y - 1 };
                    if x != i {
                        assert(s[x] == b[px]);
                    }
                    if y != i {
                        assert(s[y] == b[py]);
                    }
                    if x != i && y != i {
                        assert(b[px].0.rank() < b[py].0.rank());
                    } else if x == i {
                        if py > i {
                            assert(b[i as int].0.rank() < b[py].0.rank());
                        }
                    }
                }
                assert forall|other: K| #![auto]
                    self.view().contains_key(other) == before.view().insert(k, v).contains_key(
                        other,
                    ) by {
                    if before.view().contains_key(other) {
                        let j = before.index_of(other);
                        assert(s[if j < i { j } else { j + 1 }].0 == other);
                    }
                    if self.view().contains_key(other) {
                        let j = self.index_of(other);
                        if j != i {
                            assert(b[if j < i { j } else { j - 1 }].0 == other);
                        }
                    }
                    if other == k {
                        assert(s[i as int].0 == other);
                    }
                }
                assert forall|other: K| self.view().contains_key(other) implies self.view()[other]
                    == before.view().insert(k, v)[other] by {
                    let j = self.index_of(other);
                    self.lemma_at(j);
                    if j == i {
                    } else {
                        let p = if j < i { j } else { j - 1 };
                        before.lemma_at(p);
                        self.lemma_at(i as int);
                    }
                }
                assert(self.view() =~= before.view().insert(k, v));
            }
        }
    }

    /// Remove what is stored under `key` and hand it out.
    pub fn take(&mut self, key: &K) -> (value: Option<V>)
        requires
            old(self).wf(),
        ensures
            final(self).wf(),
            final(self).view() == old(self).view().remove(*key),
            value is Some <==> old(self).view().contains_key(*key),
            value matches Some(v) ==> v == old(self).view()[*key],
            value is Some ==> final(self).in_order().len() + 1 == old(self).in_order().len(),
            value is None ==> *final(self) == *old(self),
    {
        let ghost before = *self;
        let i = self.seek(key);
        if i < self.entries.len() && self.entries[i].0.same(key) {
            proof {
                before.lemma_at(i as int);
            }
            let entry = self.entries.remove(i);
            proof {
                let s = self.in_order();
                let b = before.in_order();
                assert(s == b.remove(i as int));
                assert forall|x: int, y: int| 0 <= x < y < s.len() implies (
                #[trigger] s[x]).0.rank() < (#[trigger] s[y]).0.rank() by {
                    let px = if x < i { x } else { x + 1 };
                    let py = if y < i { y } else { y + 1 };
                    assert(s[x] == b[px]);
                    assert(s[y] == b[py]);
                }
                assert forall|other: K| #![auto]
                    self.view().contains_key(other) == before.view().remove(*key).contains_key(
                        other,
                    ) by {
                    if before.view().contains_key(other) && other != *key {
                        let j = before.index_of(other);
                        assert(j != i);
                        assert(s[if j < i { j } else { j - 1 }].0 == other);
                    }
                    if self.view().contains_key(other) {
                        let j = self.index_of(other);
                        let p = if j < i { j } else { j + 1 };
                        assert(b[p].0 == other);
                        if p < i {
                            assert(b[p].0.rank() < b[i as int].0.rank());
                        } else {
                            assert(b[i as int].0.rank() < b[p].0.rank());
                        }
                    }
                }
                assert forall|other: K| self.view().contains_key(other) implies self.view()[other]
                    == before.view().remove(*key)[other] by {
                    let j = self.index_of(other);
                    self.lemma_at(j);
                    let p = if j < i { j } else { j + 1 };
                    before.lemma_at(p);
                    assert(b[p] == s[j]);
                }
                assert(self.view() =~= before.view().remove(*key));
            }
            Some(entry.1)
        } else {
            proof {
                before.lemma_absent(*key, i as int);
                assert(self.view() =~= before.view().remove(*key));
            }
            None
        }
    }
}

/// Whether `s` is the entries of `m` in ascending key order.
pub open spec fn enumerates<K: Ranked, V>(s: Seq<(K, V)>, m: Map<K, V>) -> bool {
    &&& forall|i: int, j: int|
        0 <= i < j < s.len() ==> (#[trigger] s[i]).0.rank() < (#[trigger] s[j]).0.rank()
    &&& forall|i: int|
        0 <= i < s.len() ==> m.contains_key((#[trigger] s[i]).0) && m[s[i].0] == s[i].1
    &&& forall|key: K| #[trigger]
        m.contains_key(key) ==> exists|i: int| 0 <= i < s.len() && (#[trigger] s[i]).0 == key
}

/// The entries of a map in ascending key order.
pub open spec fn ordered<K: Ranked, V>(m: Map<K, V>) -> Seq<(K, V)> {
    choose|s: Seq<(K, V)>| enumerates(s, m)
}

/// There is one enumeration of a map.
proof fn lemma_enumeration_is_unique<K: Ranked, V>(a: Seq<(K, V)>, b: Seq<(K, V)>, m: Map<K, V>)
    requires
        enumerates(a, m),
        enumerates(b, m),
    ensures
        a == b,
    decreases a.len(),
{
    if a.len() == 0 {
        if b.len() > 0 {
            assert(m.contains_key(b[0].0));
            assert(false);
        }
        assert(a =~= b);
    } else {
        let x = a.last();
        assert(m.contains_key(a[a.len() - 1].0));
        let j = choose|j: int| 0 <= j < b.len() && (#[trigger] b[j]).0 == x.0;
        assert(m.contains_key(b[b.len() - 1].0));
        let y = b.last();
        let i = choose|i: int| 0 <= i < a.len() && (#[trigger] a[i]).0 == y.0;
        if j < b.len() - 1 {
            assert(b[j].0.rank() < b[b.len() - 1].0.rank());
            if i < a.len() - 1 {
                assert(a[i].0.rank() < a[a.len() - 1].0.rank());
            }
            assert(false);
        }
        assert(x == y);
        let less = m.remove(x.0);
        let a1 = a.drop_last();
        let b1 = b.drop_last();
        lemma_enumeration_without_last(a, m);
        lemma_enumeration_without_last(b, m);
        lemma_enumeration_is_unique(a1, b1, less);
        assert(a =~= a1.push(x));
        assert(b =~= b1.push(y));
    }
}

proof fn lemma_enumeration_without_last<K: Ranked, V>(s: Seq<(K, V)>, m: Map<K, V>)
    requires
        enumerates(s, m),
        s.len() > 0,
    ensures
        enumerates(s.drop_last(), m.remove(s.last().0)),
{
    let less = m.remove(s.last().0);
    let s1 = s.drop_last();
    let n = s.len() - 1;
    assert forall|i: int| 0 <= i < s1.len() implies less.contains_key((#[trigger] s1[i]).0)
        && less[s1[i].0] == s1[i].1 by {
        assert(s1[i] == s[i]);
        assert(s[i].0.rank() < s[n].0.rank());
    }
    assert forall|i: int, j: int| 0 <= i < j < s1.len() implies (#[trigger] s1[i]).0.rank() < (
    #[trigger] s1[j]).0.rank() by {
        assert(s1[i] == s[i] && s1[j] == s[j]);
    }
    assert forall|key: K| #[trigger] less.contains_key(key) implies exists|i: int|
        0 <= i < s1.len() && (#[trigger] s1[i]).0 == key by {
        assert(m.contains_key(key));
        let i = choose|i: int| 0 <= i < s.len() && (#[trigger] s[i]).0 == key;
        assert(i < n);
        assert(s1[i] == s[i]);
    }
}

impl<K: Ranked, V> OrderedTable<K, V> {
    /// The entries are handed out as the map enumerates them.
    pub proof fn lemma_in_order(&self)
        requires
            self.wf(),
        ensures
            self.in_order() == ordered(self.view()),
            enumerates(self.in_order(), self.view()),
    {
        let s = self.in_order();
        let m = self.view();
        assert forall|i: int| 0 <= i < s.len() implies m.contains_key((#[trigger] s[i]).0)
            && m[s[i].0] == s[i].1 by {
            self.lemma_at(i);
        }
        assert(enumerates(s, m));
        lemma_enumeration_is_unique(s, ordered(m), m);
    }
}

/// What references point to.
pub open spec fn targets<T>(list: Seq<&T>) -> Seq<T> {
    Seq::new(list.len(), |i: int| *list[i])
}

/// References to the items of a list.
pub fn refer<T>(list: &Vec<T>) -> (refs: Vec<&T>)
    ensures
        targets(refs@) == list@,
{
    let mut refs: Vec<&T> = Vec::new();
    let mut i: usize = 0;
    assert(targets(refs@) =~= list@.take(0));
    while i < list.len()
        invariant
            i <= list@.len(),
            targets(refs@) == list@.take(i as int),
        decreases list@.len() - i,
    {
        let ghost before = refs@;
        refs.push(&list[i]);
        i += 1;
        assert(targets(refs@) =~= targets(before).push(list@[i - 1]));
        assert(list@.take(i as int) =~= list@.take(i - 1).push(list@[i - 1]));
    }
    assert(list@.take(i as int) =~= list@);
    refs
}

/// References to the items of the list under `key`; none where there is no
/// list.
pub fn refer_to<'a, K: Key, T>(table: &'a Table<K, Vec<T>>, key: &K) -> (refs: Vec<&'a T>)
    ensures
        targets(refs@) == list_at(lists(table@), *key),
{
    match table.get(key) {
        Some(list) => refer(list),
        None => {
            let refs: Vec<&'a T> = Vec::new();
            assert(targets(refs@) =~= Seq::<T>::empty());
            refs
        },
    }
}

/// What a reference to an item adds.
pub proof fn lemma_targets_push<T>(list: Seq<&T>, item: &T)
    ensures
        targets(list.push(item)) == targets(list).push(*item),
{
    assert(targets(list.push(item)) =~= targets(list).push(*item));
}

/// A value of which an equal one can be made.
pub trait Replicate: Sized {
    /// An equal value.
    fn replicate(&self) -> (copy: Self)
        ensures
            copy == *self,
    ;
}

/// A second list with equal items.
pub fn replicate_list<T: Replicate>(list: &Vec<T>) -> (copy: Vec<T>)
    ensures
        copy@ == list@,
{
    let mut copy: Vec<T> = Vec::new();
    let mut i: usize = 0;
    while i < list.len()
        invariant
            i <= list@.len(),
            copy@ == list@.take(i as int),
        decreases list@.len() - i,
    {
        copy.push(list[i].replicate());
        i += 1;
        assert(list@.take(i as int) =~= list@.take(i - 1).push(list@[i - 1]));
    }
    assert(list@.take(i as int) =~= list@);
    copy
}

/// The lists of a table as sequences.
pub open spec fn lists<K, T>(table: Map<K, Vec<T>>) -> Map<K, Seq<T>> {
    table.map_values(|list: Vec<T>| list@)
}

/// The list under `key`; empty where there is none.
pub open spec fn list_at<K, T>(table: Map<K, Seq<T>>, key: K) -> Seq<T> {
    if table.contains_key(key) {
        table[key]
    } else {
        Seq::empty()
    }
}

/// The value under `key`, or else `other`.
pub open spec fn value_or<K, V>(table: Map<K, V>, key: K, other: V) -> V {
    if table.contains_key(key) {
        table[key]
    } else {
        other
    }
}

/// Put `item` at the end of the list under `key`.
pub fn append<K: Key + Copy, T>(table: &mut Table<K, Vec<T>>, key: K, item: T)
    ensures
        lists(final(table)@) == lists(old(table)@).insert(
            key,
            list_at(lists(old(table)@), key).push(item),
        ),
{
    let ghost before = lists(table@);
    let mut list: Vec<T> = match table.take(&key) {
        Some(list) => list,
        None => Vec::new(),
    };
    assert(list@ =~= list_at(before, key));
    list.push(item);
    let ghost longer = list@;
    table.set(key, list);
    assert(lists(table@) =~= before.insert(key, longer));
}

/// Put `list` under `key`.
pub fn put_list<K: Key + Copy, T>(table: &mut Table<K, Vec<T>>, key: K, list: Vec<T>)
    ensures
        lists(final(table)@) == lists(old(table)@).insert(key, list@),
{
    let ghost before = lists(table@);
    let ghost items = list@;
    table.set(key, list);
    assert(lists(table@) =~= before.insert(key, items));
}

/// A copy of the list under `key`; empty where there is none.
pub fn list_of<K: Key + Copy, T: Copy>(table: &Table<K, Vec<T>>, key: &K) -> (list: Vec<T>)
    ensures
        list@ == list_at(lists(table@), *key),
{
    match table.get(key) {
        Some(list) => copy_list(list),
        None => {
            let list: Vec<T> = Vec::new();
            assert(list@ =~= Seq::<T>::empty());
            list
        },
    }
}

/// What filtering the first `i + 1` items adds to filtering the first `i`.
pub proof fn lemma_filter_step<T>(s: Seq<T>, i: int, keep: spec_fn(T) -> bool)
    requires
        0 <= i < s.len(),
    ensures
        s.take(i + 1).filter(keep) == (if keep(s[i]) {
            s.take(i).filter(keep).push(s[i])
        } else {
            s.take(i).filter(keep)
        }),
{
    reveal(Seq::filter);
    let next = s.take(i + 1);
    assert(next.drop_last() =~= s.take(i));
    assert(next.last() == s[i]);
}

/// Filtering nothing keeps nothing.
pub proof fn lemma_filter_none<T>(s: Seq<T>, keep: spec_fn(T) -> bool)
    ensures
        s.take(0).filter(keep) == Seq::<T>::empty(),
{
    reveal(Seq::filter);
}

} // verus!
