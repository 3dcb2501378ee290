//! An ordered map keyed by 32-byte strings.
//!
//! The entries are kept in one vector, strictly ascending by key, so that a
//! lookup is a binary search and iteration is in key order.

use vstd::prelude::*;

verus! {

/// A 32-byte key.
pub type Key = [u8; 32];

/// Whether `i` is the first position at which the keys differ, and `a` has the
/// smaller byte there.
pub open spec fn less_at(a: Key, b: Key, i: int) -> bool {
    &&& 0 <= i < 32
    &&& a[i] < b[i]
    &&& forall|j: int| 0 <= j < i ==> a[j] == b[j]
}

/// Lexicographic order.
pub open spec fn less(a: Key, b: Key) -> bool {
    exists|i: int| less_at(a, b, i)
}

/// The map that a list of entries spells; of two entries for one key the later
/// one counts.
pub open spec fn as_map<V>(entries: Seq<(Key, V)>) -> Map<Key, V>
    decreases entries.len(),
{
    if entries.len() == 0 {
        Map::empty()
    } else {
        as_map(entries.drop_last()).insert(entries.last().0, entries.last().1)
    }
}

/// Strictly ascending by key.
pub open spec fn ascending<V>(entries: Seq<(Key, V)>) -> bool {
    forall|i: int, j: int|
        0 <= i < j < entries.len() ==> less(#[trigger] entries[i].0, #[trigger] entries[j].0)
}

pub proof fn lemma_less_irreflexive(a: Key)
    ensures
        !less(a, a),
{
}

pub proof fn lemma_less_transitive(a: Key, b: Key, c: Key)
    requires
        less(a, b),
        less(b, c),
    ensures
        less(a, c),
{
    let i = choose|i: int| less_at(a, b, i);
    let j = choose|j: int| less_at(b, c, j);
    let k = if i < j {
        i
    } else {
        j
    };
    assert(less_at(a, c, k));
}

/// A finite list spells a finite map, whose keys are those of the entries.
pub proof fn lemma_as_map<V>(entries: Seq<(Key, V)>)
    ensures
        as_map(entries).dom().finite(),
        forall|k: Key| #[trigger]
            as_map(entries).contains_key(k) <==> exists|i: int|
                0 <= i < entries.len() && #[trigger] entries[i].0 == k,
    decreases entries.len(),
{
    if entries.len() > 0 {
        let rest = entries.drop_last();
        lemma_as_map(rest);
        assert forall|k: Key| #[trigger] as_map(entries).contains_key(k) <==> exists|i: int|
            0 <= i < entries.len() && #[trigger] entries[i].0 == k by {
            if as_map(rest).contains_key(k) {
                let i = choose|i: int| 0 <= i < rest.len() && #[trigger] rest[i].0 == k;
                assert(entries[i].0 == k);
            }
            if entries.last().0 == k {
                assert(entries[entries.len() - 1].0 == k);
            }
            if exists|i: int| 0 <= i < entries.len() && #[trigger] entries[i].0 == k {
                let i = choose|i: int| 0 <= i < entries.len() && #[trigger] entries[i].0 == k;
                if i < rest.len() {
                    assert(rest[i].0 == k);
                }
            }
        }
    }
}

/// In an ascending list every entry counts.
pub proof fn lemma_as_map_value<V>(entries: Seq<(Key, V)>, i: int)
    requires
        ascending(entries),
        0 <= i < entries.len(),
    ensures
        as_map(entries).contains_key(entries[i].0),
        as_map(entries)[entries[i].0] == entries[i].1,
    decreases entries.len(),
{
    if i < entries.len() - 1 {
        let rest = entries.drop_last();
        assert(ascending(rest)) by {
            assert forall|a: int, b: int| 0 <= a < b < rest.len() implies less(
                #[trigger] rest[a].0,
                #[trigger] rest[b].0,
            ) by {
                assert(less(entries[a].0, entries[b].0));
            }
        }
        lemma_as_map_value(rest, i);
        assert(less(entries[i].0, entries[entries.len() - 1].0));
        lemma_less_irreflexive(entries[i].0);
    }
}

/// An entry inserted before others counts, if those are for other keys.
proof fn lemma_as_map_insert<V>(entries: Seq<(Key, V)>, at: int, key: Key, value: V)
    requires
        0 <= at <= entries.len(),
        forall|i: int| at <= i < entries.len() ==> #[trigger] entries[i].0 != key,
    ensures
        as_map(entries.insert(at, (key, value))) == as_map(entries).insert(key, value),
    decreases entries.len() - at,
{
    let after = entries.insert(at, (key, value));
    if at == entries.len() {
        assert(after.drop_last() =~= entries);
    } else {
        let rest = entries.drop_last();
        let last = entries[entries.len() - 1];
        assert forall|i: int| at <= i < rest.len() implies #[trigger] rest[i].0 != key by {
            assert(entries[i].0 != key);
        }
        lemma_as_map_insert(rest, at, key, value);
        assert(after.drop_last() =~= rest.insert(at, (key, value)));
        assert(as_map(rest).insert(key, value).insert(last.0, last.1) =~= as_map(rest).insert(
            last.0,
            last.1,
        ).insert(key, value));
    }
}

/// A replaced entry counts, if those after it are for other keys.
proof fn lemma_as_map_update<V>(entries: Seq<(Key, V)>, at: int, key: Key, value: V)
    requires
        0 <= at < entries.len(),
        entries[at].0 == key,
        forall|i: int| at < i < entries.len() ==> #[trigger] entries[i].0 != key,
    ensures
        as_map(entries.update(at, (key, value))) == as_map(entries).insert(key, value),
    decreases entries.len() - at,
{
    let after = entries.update(at, (key, value));
    let rest = entries.drop_last();
    let last = entries[entries.len() - 1];
    if at == entries.len() - 1 {
        assert(after.drop_last() =~= rest);
        assert(as_map(rest).insert(key, last.1).insert(key, value) =~= as_map(rest).insert(
            key,
            value,
        ));
    } else {
        assert forall|i: int| at < i < rest.len() implies #[trigger] rest[i].0 != key by {
            assert(entries[i].0 != key);
        }
        lemma_as_map_update(rest, at, key, value);
        assert(after.drop_last() =~= rest.update(at, (key, value)));
        assert(as_map(rest).insert(key, value).insert(last.0, last.1) =~= as_map(rest).insert(
            last.0,
            last.1,
        ).insert(key, value));
    }
}

/// An ascending list is determined by the map it spells.
pub proof fn lemma_ascending_unique<V>(a: Seq<(Key, V)>, b: Seq<(Key, V)>)
    requires
        ascending(a),
        ascending(b),
        as_map(a) == as_map(b),
    ensures
        a == b,
    decreases a.len(),
{
    lemma_as_map(a);
    lemma_as_map(b);
    if a.len() == 0 {
        if b.len() > 0 {
            lemma_as_map_value(b, 0);
        }
        assert(a =~= b);
    } else if b.len() == 0 {
        lemma_as_map_value(a, 0);
    } else {
        let p = a.len() - 1;
        let q = b.len() - 1;
        lemma_as_map_value(a, p);
        lemma_as_map_value(b, q);
        let i = choose|i: int| 0 <= i < a.len() && #[trigger] a[i].0 == b[q].0;
        let j = choose|j: int| 0 <= j < b.len() && #[trigger] b[j].0 == a[p].0;
        if a[p].0 != b[q].0 {
            assert(less(a[i].0, a[p].0));
            assert(less(b[j].0, b[q].0));
            lemma_less_transitive(a[p].0, b[q].0, a[p].0);
            lemma_less_irreflexive(a[p].0);
        }
        let ra = a.drop_last();
        let rb = b.drop_last();
        assert(ascending(ra)) by {
            assert forall|i: int, j: int| 0 <= i < j < ra.len() implies less(
                #[trigger] ra[i].0,
                #[trigger] ra[j].0,
            ) by {
                assert(less(a[i].0, a[j].0));
            }
        }
        assert(ascending(rb)) by {
            assert forall|i: int, j: int| 0 <= i < j < rb.len() implies less(
                #[trigger] rb[i].0,
                #[trigger] rb[j].0,
            ) by {
                assert(less(b[i].0, b[j].0));
            }
        }
        lemma_as_map(ra);
        lemma_as_map(rb);
        let last = a[p].0;
        assert(!as_map(ra).contains_key(last)) by {
            if as_map(ra).contains_key(last) {
                let i = choose|i: int| 0 <= i < ra.len() && #[trigger] ra[i].0 == last;
                assert(less(a[i].0, a[p].0));
                lemma_less_irreflexive(last);
            }
        }
        assert(!as_map(rb).contains_key(last)) by {
            if as_map(rb).contains_key(last) {
                let i = choose|i: int| 0 <= i < rb.len() && #[trigger] rb[i].0 == last;
                assert(less(b[i].0, b[q].0));
                lemma_less_irreflexive(last);
            }
        }
        assert(as_map(ra) =~= as_map(a).remove(last));
        assert(as_map(rb) =~= as_map(b).remove(last));
        lemma_ascending_unique(ra, rb);
        assert(a =~= ra.push(a[p]));
        assert(b =~= rb.push(b[q]));
    }
}

/// How two keys relate.
pub enum Side {
    Before,
    Same,
    After,
}

/// Compares two keys byte by byte.
pub fn side(a: &Key, b: &Key) -> (s: Side)
    ensures
        match s {
            Side::Before => less(*a, *b),
            Side::Same => *a == *b,
            Side::After => less(*b, *a),
        },
{
    let mut i: usize = 0;
    while i < 32
        invariant
            i <= 32,
            forall|j: int| 0 <= j < i ==> a[j] == b[j],
        decreases 32 - i,
    {
        if a[i] < b[i] {
            assert(less_at(*a, *b, i as int));
            return Side::Before;
        }
        if a[i] > b[i] {
            assert(less_at(*b, *a, i as int));
            return Side::After;
        }
        i += 1;
    }
    assert(*a =~= *b);
    Side::Same
}

/// A map from 32-byte keys to values.
#[derive(Debug)]
pub struct ByteMap<V> {
    entries: Vec<(Key, V)>,
}

impl<V> View for ByteMap<V> {
    type V = Map<Key, V>;

    closed spec fn view(&self) -> Map<Key, V> {
        as_map(self.entries@)
    }
}

impl<V> ByteMap<V> {
    #[verifier::type_invariant]
    spec fn well_formed(&self) -> bool {
        ascending(self.entries@)
    }

    /// The entries in key order.
    pub closed spec fn entries(&self) -> Seq<(Key, V)> {
        self.entries@
    }

    pub fn new() -> (m: ByteMap<V>)
        ensures
            m@ == Map::<Key, V>::empty(),
            m.entries() == Seq::<(Key, V)>::empty(),
    {
        ByteMap { entries: Vec::new() }
    }

    /// The number of entries.
    pub fn len(&self) -> (n: usize)
        ensures
            n == self.entries().len(),
            ascending(self.entries()),
            self@ == as_map(self.entries()),
            self@.dom().finite(),
            n == self@.dom().len(),
    {
        proof {
            use_type_invariant(self);
            lemma_as_map(self.entries@);
            lemma_as_map_len(self.entries@);
        }
        self.entries.len()
    }

    /// The key of the `i`-th entry in key order.
    pub fn key_at(&self, i: usize) -> (k: &Key)
        requires
            i < self.entries().len(),
        ensures
            *k == self.entries()[i as int].0,
    {
        &self.entries[i].0
    }

    /// The value of the `i`-th entry in key order.
    pub fn value_at(&self, i: usize) -> (v: &V)
        requires
            i < self.entries().len(),
        ensures
            *v == self.entries()[i as int].1,
            self@.contains_key(self.entries()[i as int].0),
            self@[self.entries()[i as int].0] == *v,
    {
        proof {
            use_type_invariant(self);
            lemma_as_map_value(self.entries@, i as int);
        }
        &self.entries[i].1
    }

    /// Where `key` stands, or where it would have to be inserted.
    fn find(entries: &Vec<(Key, V)>, key: &Key) -> (r: (bool, usize))
        requires
            ascending(entries@),
        ensures
            r.1 <= entries@.len(),
            r.0 ==> r.1 < entries@.len() && entries@[r.1 as int].0 == *key,
            forall|i: int| 0 <= i < r.1 ==> less(#[trigger] entries@[i].0, *key),
            !r.0 ==> forall|i: int|
                r.1 <= i < entries@.len() ==> less(*key, #[trigger] entries@[i].0),
    {
        let mut lo: usize = 0;
        let mut hi: usize = entries.len();
        while lo < hi
            invariant
                lo <= hi <= entries@.len(),
                ascending(entries@),
                forall|i: int| 0 <= i < lo ==> less(#[trigger] entries@[i].0, *key),
                forall|i: int| hi <= i < entries@.len() ==> less(*key, #[trigger] entries@[i].0),
            decreases hi - lo,
        {
            let mid: usize = lo + (hi - lo) / 2;
            match side(&entries[mid].0, key) {
                Side::Same => {
                    assert forall|i: int| 0 <= i < mid implies less(
                        #[trigger] entries@[i].0,
                        *key,
                    ) by {
                        assert(less(entries@[i].0, entries@[mid as int].0));
                    }
                    return (true, mid);
                },
                Side::Before => {
                    assert forall|i: int| 0 <= i < mid + 1 implies less(
                        #[trigger] entries@[i].0,
                        *key,
                    ) by {
                        if i < mid {
                            assert(less(entries@[i].0, entries@[mid as int].0));
                            lemma_less_transitive(entries@[i].0, entries@[mid as int].0, *key);
                        }
                    }
                    lo = mid + 1;
                },
                Side::After => {
                    assert forall|i: int| mid <= i < entries@.len() implies less(
                        *key,
                        #[trigger] entries@[i].0,
                    ) by {
                        if i > mid {
                            assert(less(entries@[mid as int].0, entries@[i].0));
                            lemma_less_transitive(*key, entries@[mid as int].0, entries@[i].0);
                        }
                    }
                    hi = mid;
                },
            }
        }
        (false, lo)
    }

    pub fn get(&self, key: &Key) -> (v: Option<&V>)
        ensures
            match v {
                Some(v) => self@.contains_key(*key) && self@[*key] == *v,
                None => !self@.contains_key(*key),
            },
    {
        proof {
            use_type_invariant(self);
        }
        let (found, at): (bool, usize) = Self::find(&self.entries, key);
        if found {
            proof {
                lemma_as_map_value(self.entries@, at as int);
            }
            Some(&self.entries[at].1)
        } else {
            proof {
                lemma_absent(self.entries@, *key, at as int);
            }
            None
        }
    }

    pub fn contains_key(&self, key: &Key) -> (b: bool)
        ensures
            b == self@.contains_key(*key),
    {
        self.get(key).is_some()
    }

    /// Insert or replace.
    pub fn insert(&mut self, key: Key, value: V)
        ensures
            final(self)@ == old(self)@.insert(key, value),
    {
        proof {
            use_type_invariant(&*self);
        }
        let mut entries: Vec<(Key, V)> = Vec::new();
        std::mem::swap(&mut entries, &mut self.entries);
        let ghost before = entries@;
        let (found, at): (bool, usize) = Self::find(&entries, &key);
        if found {
            entries.set(at, (key, value));
            proof {
                lemma_replace(before, at as int, key, value);
                assert(entries@ =~= before.update(at as int, (key, value)));
            }
        } else {
            entries.insert(at, (key, value));
            proof {
                lemma_insert(before, at as int, key, value);
                assert(entries@ =~= before.insert(at as int, (key, value)));
            }
        }
        self.entries = entries;
    }

    /// Drop a key; nothing happens if it is not there.
    pub fn remove(&mut self, key: &Key)
        ensures
            final(self)@ == old(self)@.remove(*key),
    {
        proof {
            use_type_invariant(&*self);
        }
        let mut entries: Vec<(Key, V)> = Vec::new();
        std::mem::swap(&mut entries, &mut self.entries);
        let ghost before = entries@;
        let (found, at): (bool, usize) = Self::find(&entries, key);
        if found {
            entries.remove(at);
            proof {
                lemma_remove(before, at as int);
                assert(entries@ =~= before.remove(at as int));
            }
        } else {
            proof {
                lemma_absent(before, *key, at as int);
                assert(as_map(before).remove(*key) =~= as_map(before));
            }
        }
        self.entries = entries;
    }
}

/// Dropping the entry of a key drops the key.
proof fn lemma_remove<V>(before: Seq<(Key, V)>, at: int)
    requires
        ascending(before),
        0 <= at < before.len(),
    ensures
        ascending(before.remove(at)),
        as_map(before.remove(at)) == as_map(before).remove(before[at].0),
{
    let after = before.remove(at);
    let key = before[at].0;
    assert(ascending(after)) by {
        assert forall|i: int, j: int| 0 <= i < j < after.len() implies less(
            #[trigger] after[i].0,
            #[trigger] after[j].0,
        ) by {
            let i0 = if i < at { i } else { i + 1 };
            let j0 = if j < at { j } else { j + 1 };
            assert(less(before[i0].0, before[j0].0));
        }
    }
    lemma_as_map(after);
    lemma_less_irreflexive(key);
    assert(!as_map(after).contains_key(key)) by {
        if as_map(after).contains_key(key) {
            let i = choose|i: int| 0 <= i < after.len() && #[trigger] after[i].0 == key;
            if i < at {
                assert(less(before[i].0, before[at].0));
            } else {
                assert(less(before[at].0, before[i + 1].0));
            }
        }
    }
    assert forall|i: int| at <= i < after.len() implies #[trigger] after[i].0 != key by {
        assert(less(before[at].0, before[i + 1].0));
    }
    lemma_as_map_insert(after, at, key, before[at].1);
    assert(after.insert(at, (key, before[at].1)) =~= before);
    assert(as_map(after).insert(key, before[at].1).remove(key) =~= as_map(after));
}

proof fn lemma_absent<V>(entries: Seq<(Key, V)>, key: Key, at: int)
    requires
        0 <= at <= entries.len(),
        forall|i: int| 0 <= i < at ==> less(#[trigger] entries[i].0, key),
        forall|i: int| at <= i < entries.len() ==> less(key, #[trigger] entries[i].0),
    ensures
        !as_map(entries).contains_key(key),
{
    lemma_as_map(entries);
    lemma_less_irreflexive(key);
}

proof fn lemma_replace<V>(before: Seq<(Key, V)>, at: int, key: Key, value: V)
    requires
        ascending(before),
        0 <= at < before.len(),
        before[at].0 == key,
    ensures
        ascending(before.update(at, (key, value))),
        as_map(before.update(at, (key, value))) == as_map(before).insert(key, value),
{
    let after = before.update(at, (key, value));
    assert(ascending(after)) by {
        assert forall|i: int, j: int| 0 <= i < j < after.len() implies less(
            #[trigger] after[i].0,
            #[trigger] after[j].0,
        ) by {
            assert(less(before[i].0, before[j].0));
        }
    }
    assert forall|i: int| at < i < before.len() implies #[trigger] before[i].0 != key by {
        assert(less(before[at].0, before[i].0));
        lemma_less_irreflexive(key);
    }
    lemma_as_map_update(before, at, key, value);
}

proof fn lemma_insert<V>(before: Seq<(Key, V)>, at: int, key: Key, value: V)
    requires
        ascending(before),
        0 <= at <= before.len(),
        forall|i: int| 0 <= i < at ==> less(#[trigger] before[i].0, key),
        forall|i: int| at <= i < before.len() ==> less(key, #[trigger] before[i].0),
    ensures
        ascending(before.insert(at, (key, value))),
        as_map(before.insert(at, (key, value))) == as_map(before).insert(key, value),
{
    let after = before.insert(at, (key, value));
    lemma_less_irreflexive(key);
    assert(ascending(after)) by {
        assert forall|i: int, j: int| 0 <= i < j < after.len() implies less(
            #[trigger] after[i].0,
            #[trigger] after[j].0,
        ) by {
            let i0 = if i < at { i } else { i - 1 };
            let j0 = if j < at { j } else { j - 1 };
            if i == at {
                assert(less(key, before[j0].0));
            } else if j == at {
                assert(less(before[i0].0, key));
            } else {
                assert(less(before[i0].0, before[j0].0));
            }
        }
    }
    lemma_as_map_insert(before, at, key, value);
}

proof fn lemma_as_map_len<V>(entries: Seq<(Key, V)>)
    requires
        ascending(entries),
    ensures
        as_map(entries).dom().len() == entries.len(),
    decreases entries.len(),
{
    if entries.len() > 0 {
        let rest = entries.drop_last();
        assert(ascending(rest)) by {
            assert forall|i: int, j: int| 0 <= i < j < rest.len() implies less(
                #[trigger] rest[i].0,
                #[trigger] rest[j].0,
            ) by {
                assert(less(entries[i].0, entries[j].0));
            }
        }
        lemma_as_map_len(rest);
        lemma_as_map(rest);
        let last = entries.last().0;
        assert(!as_map(rest).contains_key(last)) by {
            if as_map(rest).contains_key(last) {
                let i = choose|i: int| 0 <= i < rest.len() && #[trigger] rest[i].0 == last;
                assert(less(entries[i].0, entries[entries.len() - 1].0));
                lemma_less_irreflexive(last);
            }
        }
    }
}

/// The keys agree up to the first index at which they differ.
proof fn lemma_first_difference(a: Key, b: Key, i: int) -> (d: int)
    requires
        0 <= i < 32,
        a[i] != b[i],
    ensures
        0 <= d <= i,
        a[d] != b[d],
        forall|j: int| 0 <= j < d ==> a[j] == b[j],
    decreases i,
{
    if forall|j: int| 0 <= j < i ==> a[j] == b[j] {
        i
    } else {
        let j = choose|j: int| 0 <= j < i && a[j] != b[j];
        lemma_first_difference(a, b, j)
    }
}

/// Of two different keys one is less.
pub proof fn lemma_less_total(a: Key, b: Key)
    requires
        a != b,
    ensures
        less(a, b) || less(b, a),
{
    if forall|i: int| 0 <= i < 32 ==> a[i] == b[i] {
        assert(a =~= b);
    } else {
        let i = choose|i: int| 0 <= i < 32 && a[i] != b[i];
        let d = lemma_first_difference(a, b, i);
        assert(less_at(a, b, d) || less_at(b, a, d));
    }
}

/// Where an absent key belongs in an ascending list.
proof fn lemma_place<V>(entries: Seq<(Key, V)>, key: Key) -> (at: int)
    requires
        ascending(entries),
        !as_map(entries).contains_key(key),
    ensures
        0 <= at <= entries.len(),
        forall|i: int| 0 <= i < at ==> less(#[trigger] entries[i].0, key),
        forall|i: int| at <= i < entries.len() ==> less(key, #[trigger] entries[i].0),
    decreases entries.len(),
{
    if entries.len() == 0 {
        0
    } else {
        let last = entries.len() - 1;
        lemma_as_map_value(entries, last);
        lemma_less_total(entries[last].0, key);
        if less(entries[last].0, key) {
            assert forall|i: int| 0 <= i < entries.len() implies less(
                #[trigger] entries[i].0,
                key,
            ) by {
                if i < last {
                    assert(less(entries[i].0, entries[last].0));
                    lemma_less_transitive(entries[i].0, entries[last].0, key);
                }
            }
            entries.len() as int
        } else {
            let rest = entries.drop_last();
            assert forall|i: int, j: int| 0 <= i < j < rest.len() implies less(
                #[trigger] rest[i].0,
                #[trigger] rest[j].0,
            ) by {
                assert(less(entries[i].0, entries[j].0));
            }
            let at = lemma_place(rest, key);
            assert forall|i: int| 0 <= i < at implies less(#[trigger] entries[i].0, key) by {
                assert(rest[i] == entries[i]);
            }
            assert forall|i: int| at <= i < entries.len() implies less(
                key,
                #[trigger] entries[i].0,
            ) by {
                if i < last {
                    assert(rest[i] == entries[i]);
                }
            }
            at
        }
    }
}

/// Every finite map has an ascending list of its entries.
pub proof fn lemma_has_listing<V>(m: Map<Key, V>) -> (entries: Seq<(Key, V)>)
    requires
        m.dom().finite(),
    ensures
        ascending(entries),
        as_map(entries) == m,
    decreases m.dom().len(),
{
    if m.dom().len() == 0 {
        let entries = Seq::<(Key, V)>::empty();
        assert(as_map(entries) =~= m);
        entries
    } else {
        let key = m.dom().choose();
        let rest = lemma_has_listing(m.remove(key));
        let at = lemma_place(rest, key);
        lemma_insert(rest, at, key, m[key]);
        assert(m.remove(key).insert(key, m[key]) =~= m);
        rest.insert(at, (key, m[key]))
    }
}

/// Keys are ordered by the first byte in which they differ, and of two different
/// keys one comes first.
pub proof fn law_keys_are_ordered_bytewise(a: Key, b: Key, i: int)
    requires
        0 <= i < 32,
        forall|j: int| 0 <= j < i ==> a[j] == b[j],
        a[i] != b[i],
    ensures
        less(a, b) <==> a[i] < b[i],
        less(b, a) <==> b[i] < a[i],
{
    if a[i] < b[i] {
        assert(less_at(a, b, i));
    } else {
        assert(less_at(b, a, i));
    }
    if less(a, b) {
        let k = choose|k: int| less_at(a, b, k);
        assert(k == i);
    }
    if less(b, a) {
        let k = choose|k: int| less_at(b, a, k);
        assert(k == i);
    }
}

/// A list of entries is read as a map in which the last entry of a key counts.
pub proof fn law_later_entries_count<V>(entries: Seq<(Key, V)>, key: Key, v: V)
    ensures
        as_map(Seq::<(Key, V)>::empty()) == Map::<Key, V>::empty(),
        as_map(entries.push((key, v))) == as_map(entries).insert(key, v),
{
    assert(entries.push((key, v)).drop_last() =~= entries);
}

} // verus!
