use vstd::prelude::*;
use vstd::slice::slice_to_vec;
use crate::error::AggregateError;
use crate::temperature::Temperature;

verus! {

/// Multiplier of the key hash.
pub const HASH_MULTIPLIER: u64 = 0x517c_c1b7_2722_0a95;

/// One step of the key hash: the running value, rotated, mixed with one byte.
pub open spec fn hash_step(h: u64, b: u8) -> u64 {
    (((h << 5u64) | (h >> 59u64)) ^ (b as u64)).wrapping_mul(HASH_MULTIPLIER)
}

/// The hash of a key, over all of its bytes.
pub open spec fn key_hash(key: Seq<u8>) -> u64
    decreases key.len(),
{
    if key.len() == 0 {
        0
    } else {
        hash_step(key_hash(key.drop_last()), key.last())
    }
}

/// Hashes a station name, byte by byte.
pub fn hash(key: &[u8]) -> (r: u64)
    ensures
        r == key_hash(key@),
{
    let mut h: u64 = 0;
    let mut i: usize = 0;
    while i < key.len()
        invariant
            0 <= i <= key.len(),
            h == key_hash(key@.subrange(0, i as int)),
        decreases key.len() - i,
    {
        assert(key@.subrange(0, i + 1).drop_last() == key@.subrange(0, i as int));
        h = (((h << 5u64) | (h >> 59u64)) ^ (key[i] as u64)).wrapping_mul(HASH_MULTIPLIER);
        i += 1;
    }
    assert(key@.subrange(0, key.len() as int) == key@);
    h
}

/// Whether two byte strings are equal.
fn same_bytes(a: &[u8], b: &[u8]) -> (r: bool)
    ensures
        r == (a@ == b@),
{
    if a.len() != b.len() {
        return false;
    }
    let mut i: usize = 0;
    while i < a.len()
        invariant
            a.len() == b.len(),
            0 <= i <= a.len(),
            forall|j: int| 0 <= j < i ==> a@[j] == b@[j],
        decreases a.len() - i,
    {
        if a[i] != b[i] {
            assert(a@[i as int] != b@[i as int]);
            return false;
        }
        i += 1;
    }
    assert(a@ =~= b@);
    true
}

/// A station name with its hash and its value.
pub struct Entry<T> {
    hash: u64,
    pub key: Vec<u8>,
    pub value: T,
}

/// A table of `N - 1` slots keyed by byte strings, with linear probing and no
/// removal. It never grows.
pub struct StationMap<T, const N: usize> {
    pub table: Vec<Option<Entry<T>>>,
}

/// The table that one worker fills.
pub type ResultMap = StationMap<Temperature, 16384>;

/// What the occupied slots of a table map each key to.
pub closed spec fn table_view<T>(s: Seq<Option<Entry<T>>>) -> Map<Seq<u8>, T>
    decreases s.len(),
{
    if s.len() == 0 {
        Map::empty()
    } else {
        let m = table_view(s.drop_last());
        match s.last() {
            Some(e) => m.insert(e.key@, e.value),
            None => m,
        }
    }
}

/// How many slots are occupied.
pub closed spec fn occupied<T>(s: Seq<Option<Entry<T>>>) -> nat
    decreases s.len(),
{
    if s.len() == 0 {
        0
    } else {
        occupied(s.drop_last()) + if s.last() is Some {
            1nat
        } else {
            0nat
        }
    }
}

/// No key stands in two slots.
pub closed spec fn keys_unique<T>(s: Seq<Option<Entry<T>>>) -> bool {
    forall|i: int, j: int|
        0 <= i < s.len() && 0 <= j < s.len() && i != j && s[i] is Some && s[j] is Some
            ==> #[trigger] s[i]->Some_0.key@ != #[trigger] s[j]->Some_0.key@
}

/// The slot a probe for a hash starts at.
pub open spec fn home(h: u64, cap: int) -> int {
    h as int % cap
}

/// The slot `k` steps after `start`, wrapping round.
pub open spec fn probe(start: int, k: int, cap: int) -> int {
    if start + k < cap {
        start + k
    } else {
        start + k - cap
    }
}

/// How many steps lead from `start` to `i`, wrapping round.
pub open spec fn dist(start: int, i: int, cap: int) -> int {
    if i >= start {
        i - start
    } else {
        i + cap - start
    }
}

/// Every slot that a probe passes before it reaches slot `i` is occupied.
pub closed spec fn path_occupied<T>(s: Seq<Option<Entry<T>>>, start: int, i: int, cap: int) -> bool {
    forall|k: int| 0 <= k < dist(start, i, cap) ==> #[trigger] s[probe(start, k, cap)] is Some
}

/// Each entry can be reached from its home slot without crossing an empty slot.
pub closed spec fn clustered<T>(s: Seq<Option<Entry<T>>>, cap: int) -> bool {
    forall|i: int|
        0 <= i < cap && #[trigger] s[i] is Some ==> path_occupied(
            s,
            home(s[i]->Some_0.hash, cap),
            i,
            cap,
        )
}

/// Each key is stored with its own hash.
pub closed spec fn hashes_match<T>(s: Seq<Option<Entry<T>>>) -> bool {
    forall|i: int|
        0 <= i < s.len() && #[trigger] s[i] is Some ==> s[i]->Some_0.hash == key_hash(
            s[i]->Some_0.key@,
        )
}

/// A table lists each key of a map once, with its value.
pub open spec fn lists_map<T>(ps: Seq<(Vec<u8>, T)>, m: Map<Seq<u8>, T>) -> bool {
    &&& forall|i: int| 0 <= i < ps.len() ==> #[trigger] m.contains_key(ps[i].0@) && m[ps[i].0@] == ps[i].1
    &&& forall|k: Seq<u8>| #[trigger] m.contains_key(k) ==> exists|i: int| 0 <= i < ps.len() && ps[i].0@ == k
    &&& forall|i: int, j: int| 0 <= i < j < ps.len() ==> #[trigger] ps[i].0@ != #[trigger] ps[j].0@
}

proof fn lemma_insert_commutes<T>(m: Map<Seq<u8>, T>, a: Seq<u8>, x: T, b: Seq<u8>, y: T)
    requires
        a != b,
    ensures
        m.insert(a, x).insert(b, y) == m.insert(b, y).insert(a, x),
{
    assert(m.insert(a, x).insert(b, y) =~= m.insert(b, y).insert(a, x));
}

/// A key is in the view exactly when some slot holds it.
proof fn lemma_view_contains<T>(s: Seq<Option<Entry<T>>>, k: Seq<u8>)
    ensures
        table_view(s).contains_key(k) <==> exists|i: int|
            0 <= i < s.len() && #[trigger] s[i] is Some && s[i]->Some_0.key@ == k,
    decreases s.len(),
{
    if s.len() > 0 {
        let d = s.drop_last();
        lemma_view_contains(d, k);
        if table_view(s).contains_key(k) {
            if !(s.last() is Some && s.last()->Some_0.key@ == k) {
                let i = choose|i: int| 0 <= i < d.len() && #[trigger] d[i] is Some && d[i]->Some_0.key@ == k;
                assert(s[i] == d[i]);
            } else {
                assert(s[s.len() - 1] is Some);
            }
        }
        if exists|i: int| 0 <= i < s.len() && #[trigger] s[i] is Some && s[i]->Some_0.key@ == k {
            let i = choose|i: int| 0 <= i < s.len() && #[trigger] s[i] is Some && s[i]->Some_0.key@ == k;
            if i < s.len() - 1 {
                assert(d[i] == s[i]);
            }
        }
    }
}

/// The view maps the key of an occupied slot to that slot's value.
proof fn lemma_view_value<T>(s: Seq<Option<Entry<T>>>, i: int)
    requires
        keys_unique(s),
        0 <= i < s.len(),
        s[i] is Some,
    ensures
        table_view(s).contains_key(s[i]->Some_0.key@),
        table_view(s)[s[i]->Some_0.key@] == s[i]->Some_0.value,
    decreases s.len(),
{
    let d = s.drop_last();
    if i < s.len() - 1 {
        assert(d[i] == s[i]);
        assert(keys_unique(d)) by {
            assert forall|a: int, b: int|
                0 <= a < d.len() && 0 <= b < d.len() && a != b && d[a] is Some && d[b] is Some
                    implies #[trigger] d[a]->Some_0.key@ != #[trigger] d[b]->Some_0.key@ by {
                assert(d[a] == s[a] && d[b] == s[b]);
            }
        }
        lemma_view_value(d, i);
        if s.last() is Some {
            assert(s[s.len() - 1] is Some);
            assert(s[i]->Some_0.key@ != s[s.len() - 1]->Some_0.key@);
        }
    }
}

/// The view has as many keys as the table has occupied slots.
proof fn lemma_view_len<T>(s: Seq<Option<Entry<T>>>)
    requires
        keys_unique(s),
    ensures
        table_view(s).dom().finite(),
        table_view(s).len() == occupied(s),
    decreases s.len(),
{
    if s.len() > 0 {
        let d = s.drop_last();
        assert(keys_unique(d)) by {
            assert forall|a: int, b: int|
                0 <= a < d.len() && 0 <= b < d.len() && a != b && d[a] is Some && d[b] is Some
                    implies #[trigger] d[a]->Some_0.key@ != #[trigger] d[b]->Some_0.key@ by {
                assert(d[a] == s[a] && d[b] == s[b]);
            }
        }
        lemma_view_len(d);
        if s.last() is Some {
            let k = s.last()->Some_0.key@;
            lemma_view_contains(d, k);
            if table_view(d).contains_key(k) {
                let i = choose|i: int| 0 <= i < d.len() && #[trigger] d[i] is Some && d[i]->Some_0.key@ == k;
                assert(s[i] == d[i]);
                assert(s[s.len() - 1] is Some);
            }
        }
    }
}

/// At most every slot is occupied, and all are exactly when the count says so.
proof fn lemma_occupied_bound<T>(s: Seq<Option<Entry<T>>>)
    ensures
        occupied(s) <= s.len(),
        occupied(s) == s.len() <==> forall|i: int| 0 <= i < s.len() ==> #[trigger] s[i] is Some,
    decreases s.len(),
{
    if s.len() > 0 {
        let d = s.drop_last();
        lemma_occupied_bound(d);
        if occupied(s) == s.len() {
            assert forall|i: int| 0 <= i < s.len() implies #[trigger] s[i] is Some by {
                if i < s.len() - 1 {
                    assert(d[i] == s[i]);
                }
            }
        }
        if forall|i: int| 0 <= i < s.len() ==> #[trigger] s[i] is Some {
            assert forall|i: int| 0 <= i < d.len() implies #[trigger] d[i] is Some by {
                assert(d[i] == s[i]);
            }
            assert(s[s.len() - 1] is Some);
        }
    }
}

/// Writing an entry into a slot, either empty with a new key or holding the
/// same key, inserts into the view.
proof fn lemma_view_update<T>(s: Seq<Option<Entry<T>>>, i: int, e: Entry<T>)
    requires
        keys_unique(s),
        0 <= i < s.len(),
        (s[i] is None && !table_view(s).contains_key(e.key@)) || (s[i] is Some
            && s[i]->Some_0.key@ == e.key@),
    ensures
        keys_unique(s.update(i, Some(e))),
        table_view(s.update(i, Some(e))) == table_view(s).insert(e.key@, e.value),
        occupied(s.update(i, Some(e))) == occupied(s) + if s[i] is None {
            1nat
        } else {
            0nat
        },
    decreases s.len(),
{
    let u = s.update(i, Some(e));
    let d = s.drop_last();
    assert(keys_unique(u)) by {
        if s[i] is None {
            lemma_view_contains(s, e.key@);
        }
        assert forall|a: int, b: int|
            0 <= a < u.len() && 0 <= b < u.len() && a != b && u[a] is Some && u[b] is Some
                implies #[trigger] u[a]->Some_0.key@ != #[trigger] u[b]->Some_0.key@ by {
            if a != i && b != i {
                assert(u[a] == s[a] && u[b] == s[b]);
            } else if a == i {
                assert(u[b] == s[b]);
            } else {
                assert(u[a] == s[a]);
            }
        }
    }
    assert(keys_unique(d)) by {
        assert forall|a: int, b: int|
            0 <= a < d.len() && 0 <= b < d.len() && a != b && d[a] is Some && d[b] is Some
                implies #[trigger] d[a]->Some_0.key@ != #[trigger] d[b]->Some_0.key@ by {
            assert(d[a] == s[a] && d[b] == s[b]);
        }
    }
    if i == s.len() - 1 {
        assert(u.drop_last() =~= d);
        assert(table_view(u) =~= table_view(s).insert(e.key@, e.value));
    } else {
        assert(u.drop_last() =~= d.update(i, Some(e)));
        assert(d[i] == s[i]);
        if s[i] is None {
            lemma_view_contains(d, e.key@);
            lemma_view_contains(s, e.key@);
            if table_view(d).contains_key(e.key@) {
                let j = choose|j: int| 0 <= j < d.len() && #[trigger] d[j] is Some && d[j]->Some_0.key@ == e.key@;
                assert(s[j] == d[j]);
            }
        }
        lemma_view_update(d, i, e);
        if s.last() is Some {
            let l = s.last()->Some_0;
            assert(u[u.len() - 1] == s[s.len() - 1]);
            assert(u[i] is Some);
            assert(l.key@ != e.key@);
            lemma_insert_commutes(table_view(d), e.key@, e.value, l.key@, l.value);
        }
    }
}

/// A table with no occupied slot has an empty view.
proof fn lemma_view_empty<T>(s: Seq<Option<Entry<T>>>)
    requires
        forall|i: int| 0 <= i < s.len() ==> #[trigger] s[i] is None,
    ensures
        table_view(s) == Map::<Seq<u8>, T>::empty(),
{
    assert forall|k: Seq<u8>| !table_view(s).contains_key(k) by {
        lemma_view_contains(s, k);
    }
    assert(table_view(s) =~= Map::<Seq<u8>, T>::empty());
}

impl<T: Copy, const N: usize> View for StationMap<T, N> {
    type V = Map<Seq<u8>, T>;

    closed spec fn view(&self) -> Map<Seq<u8>, T> {
        table_view(self.table@)
    }
}

impl<T: Copy, const N: usize> StationMap<T, N> {
    /// How many distinct keys the table can hold.
    pub open spec fn capacity() -> nat {
        (N - 1) as nat
    }

    /// The table is laid out so that a probe finds every key it holds.
    pub closed spec fn wf(&self) -> bool {
        &&& 2 <= N
        &&& self.table@.len() == N - 1
        &&& hashes_match(self.table@)
        &&& keys_unique(self.table@)
        &&& clustered(self.table@, N - 1)
    }

    /// The view has finitely many keys, at most the capacity.
    pub proof fn lemma_len(&self)
        requires
            self.wf(),
        ensures
            self@.dom().finite(),
            self@.len() <= Self::capacity(),
    {
        lemma_view_len(self.table@);
        lemma_occupied_bound(self.table@);
    }

    /// An empty table of `N - 1` slots.
    pub fn new() -> (r: Self)
        requires
            2 <= N,
        ensures
            r.wf(),
            r@ == Map::<Seq<u8>, T>::empty(),
    {
        let mut table: Vec<Option<Entry<T>>> = Vec::new();
        let mut i: usize = 0;
        while i < N - 1
            invariant
                2 <= N,
                i <= N - 1,
                table@.len() == i,
                forall|j: int| 0 <= j < i ==> #[trigger] table@[j] is None,
            decreases N - 1 - i,
        {
            table.push(None);
            i += 1;
        }
        proof {
            lemma_view_empty(table@);
        }
        Self { table }
    }

    /// Probes from the key's home slot: the slot that holds the key, else the
    /// first empty slot, else `None` when every slot holds another key.
    fn find_slot(&self, key: &[u8]) -> (r: (u64, Option<usize>))
        requires
            self.wf(),
        ensures
            r.0 == key_hash(key@),
            match r.1 {
                Some(slot) => slot < N - 1 && ((self.table@[slot as int] is Some
                    && self.table@[slot as int]->Some_0.key@ == key@) || (self.table@[slot as int] is None
                    && !self@.contains_key(key@) && path_occupied(
                    self.table@,
                    home(r.0, N - 1),
                    slot as int,
                    N - 1,
                ))),
                None => !self@.contains_key(key@) && forall|i: int|
                    0 <= i < N - 1 ==> #[trigger] self.table@[i] is Some,
            },
    {
        let h = hash(key);
        let cap: usize = N - 1;
        let start: usize = (h % (cap as u64)) as usize;
        let mut slot: usize = start;
        let mut steps: usize = 0;
        while steps < cap
            invariant
                self.wf(),
                cap == N - 1,
                h == key_hash(key@),
                start == home(h, cap as int),
                steps <= cap,
                slot < cap,
                slot == probe(start as int, steps as int, cap as int),
                forall|k: int|
                    0 <= k < steps ==> #[trigger] self.table@[probe(start as int, k, cap as int)] is Some
                        && self.table@[probe(start as int, k, cap as int)]->Some_0.key@ != key@,
            decreases cap - steps,
        {
            match &self.table[slot] {
                Some(entry) => {
                    if entry.hash == h && same_bytes(entry.key.as_slice(), key) {
                        return (h, Some(slot));
                    }
                    assert(self.table@[slot as int] is Some);
                    assert(hashes_match(self.table@));
                },
                None => {
                    proof {
                        assert(dist(start as int, slot as int, cap as int) == steps);
                        assert(path_occupied(self.table@, start as int, slot as int, cap as int));
                        self.lemma_absent(key@, start as int, steps as int);
                    }
                    return (h, Some(slot));
                },
            }
            slot = if slot + 1 == cap {
                0
            } else {
                slot + 1
            };
            steps += 1;
        }
        proof {
            assert forall|i: int| 0 <= i < N - 1 implies #[trigger] self.table@[i] is Some by {
                assert(probe(start as int, dist(start as int, i, cap as int), cap as int) == i);
            }
            self.lemma_absent(key@, start as int, steps as int);
        }
        (h, None)
    }

    /// A key is absent when a probe from its home slot met only other keys and
    /// then an empty slot or the end of the table.
    proof fn lemma_absent(&self, key: Seq<u8>, start: int, steps: int)
        requires
            self.wf(),
            start == home(key_hash(key), N - 1),
            0 <= steps <= N - 1,
            steps < N - 1 ==> self.table@[probe(start, steps, N - 1)] is None,
            forall|k: int|
                0 <= k < steps ==> #[trigger] self.table@[probe(start, k, N - 1)] is Some
                    && self.table@[probe(start, k, N - 1)]->Some_0.key@ != key,
        ensures
            !self@.contains_key(key),
    {
        let s = self.table@;
        let cap = N - 1;
        lemma_view_contains(s, key);
        if self@.contains_key(key) {
            let j = choose|j: int| 0 <= j < s.len() && #[trigger] s[j] is Some && s[j]->Some_0.key@ == key;
            assert(s[j]->Some_0.hash == key_hash(key));
            assert(path_occupied(s, start, j, cap));
            let d = dist(start, j, cap);
            assert(probe(start, d, cap) == j);
            if d < steps {
                assert(s[probe(start, d, cap)]->Some_0.key@ != key);
            } else if d > steps {
                assert(s[probe(start, steps, cap)] is Some);
            }
        }
    }

    /// Sets the value of a key, adding the key when it is new. Fails, changing
    /// nothing, when the key is new and the table holds as many keys as it can.
    pub fn set(&mut self, key: &[u8], value: &T) -> (r: Result<(), AggregateError>)
        requires
            old(self).wf(),
        ensures
            final(self).wf(),
            match r {
                Ok(()) => final(self)@ == old(self)@.insert(key@, *value),
                Err(e) => e == AggregateError::CapacityExceeded && *final(self) == *old(self),
            },
            r is Err <==> (!old(self)@.contains_key(key@) && old(self)@.len() == Self::capacity()),
    {
        proof {
            lemma_view_len(self.table@);
            lemma_occupied_bound(self.table@);
        }
        let (h, found) = self.find_slot(key);
        match found {
            None => Err(AggregateError::CapacityExceeded),
            Some(slot) => {
                let ghost s = self.table@;
                proof {
                    lemma_view_contains(s, key@);
                }
                let e = Entry { hash: h, key: slice_to_vec(key), value: *value };
                self.table.set(slot, Some(e));
                proof {
                    lemma_view_update(s, slot as int, e);
                    let u = self.table@;
                    assert(u == s.update(slot as int, Some(e)));
                    assert(hashes_match(u)) by {
                        assert forall|i: int| 0 <= i < u.len() && #[trigger] u[i] is Some implies u[i]->Some_0.hash
                            == key_hash(u[i]->Some_0.key@) by {
                            if i != slot {
                                assert(u[i] == s[i]);
                            }
                        }
                    }
                    Self::lemma_clustered_after_write(s, slot as int, e, u);
                }
                Ok(())
            },
        }
    }

    /// Writing into a slot keeps the table clustered when the slot was
    /// occupied, or when the path from the new key's home slot is occupied.
    proof fn lemma_clustered_after_write(
        s: Seq<Option<Entry<T>>>,
        slot: int,
        e: Entry<T>,
        u: Seq<Option<Entry<T>>>,
    )
        requires
            2 <= N,
            s.len() == N - 1,
            clustered(s, N - 1),
            hashes_match(s),
            0 <= slot < N - 1,
            u == s.update(slot, Some(e)),
            (s[slot] is Some && s[slot]->Some_0.hash == e.hash) || path_occupied(
                s,
                home(e.hash, N - 1),
                slot,
                N - 1,
            ),
        ensures
            clustered(u, N - 1),
    {
        let cap = N - 1;
        assert forall|i: int| 0 <= i < cap && #[trigger] u[i] is Some implies path_occupied(
            u,
            home(u[i]->Some_0.hash, cap),
            i,
            cap,
        ) by {
            let st = home(u[i]->Some_0.hash, cap);
            if i == slot {
                if s[slot] is Some && s[slot]->Some_0.hash == e.hash {
                    assert(path_occupied(s, st, i, cap));
                }
                assert forall|k: int| 0 <= k < dist(st, i, cap) implies #[trigger] u[probe(st, k, cap)] is Some by {
                    assert(s[probe(st, k, cap)] is Some);
                }
            } else {
                assert(u[i] == s[i]);
                assert(path_occupied(s, st, i, cap));
                assert forall|k: int| 0 <= k < dist(st, i, cap) implies #[trigger] u[probe(st, k, cap)] is Some by {
                    assert(s[probe(st, k, cap)] is Some);
                }
            }
        }
    }

    /// Writing a value into the slot of a key that is present keeps the table
    /// well formed and sets that key in the view.
    proof fn lemma_write_value(s: Seq<Option<Entry<T>>>, slot: int, x: T, u: Seq<Option<Entry<T>>>)
        requires
            2 <= N,
            s.len() == N - 1,
            clustered(s, N - 1),
            hashes_match(s),
            keys_unique(s),
            0 <= slot < N - 1,
            s[slot] is Some,
            u == s.update(
                slot,
                Some(Entry { hash: s[slot]->Some_0.hash, key: s[slot]->Some_0.key, value: x }),
            ),
        ensures
            hashes_match(u),
            keys_unique(u),
            clustered(u, N - 1),
            table_view(u) == table_view(s).insert(s[slot]->Some_0.key@, x),
    {
        let e = Entry { hash: s[slot]->Some_0.hash, key: s[slot]->Some_0.key, value: x };
        lemma_view_update(s, slot, e);
        assert(hashes_match(u)) by {
            assert forall|i: int| 0 <= i < u.len() && #[trigger] u[i] is Some implies u[i]->Some_0.hash
                == key_hash(u[i]->Some_0.key@) by {
                if i != slot {
                    assert(u[i] == s[i]);
                }
            }
        }
        Self::lemma_clustered_after_write(s, slot, e, u);
    }

    /// The value of a key, to change in place, or `None` when the key is absent.
    pub fn get_mut(&mut self, key: &[u8]) -> (r: Option<&mut T>)
        requires
            old(self).wf(),
        ensures
            match r {
                Some(v) => {
                    &&& old(self)@.contains_key(key@)
                    &&& *v == old(self)@[key@]
                    &&& final(self).wf()
                    &&& final(self)@ == old(self)@.insert(key@, *final(v))
                },
                None => !old(self)@.contains_key(key@) && *final(self) == *old(self),
            },
    {
        let (_, found) = self.find_slot(key);
        let ghost s = self.table@;
        match found {
            None => None,
            Some(slot) => {
                if self.table[slot].is_none() {
                    return None;
                }
                proof {
                    lemma_view_value(s, slot as int);
                }
                match &mut self.table[slot] {
                    Some(entry) => {
                        let ghost old_entry = *entry;
                        let v = &mut entry.value;
                        proof {
                            let x = *final(v);
                            let u = s.update(
                                slot as int,
                                Some(Entry { hash: old_entry.hash, key: old_entry.key, value: x }),
                            );
                            Self::lemma_write_value(s, slot as int, x, u);
                        }
                        Some(v)
                    },
                    None => None,
                }
            },
        }
    }

    /// Each key of the table with its value, in slot order.
    pub fn entries(&self) -> (r: Vec<(Vec<u8>, T)>)
        requires
            self.wf(),
        ensures
            lists_map(r@, self@),
            r@.len() == self@.len(),
    {
        let ghost s = self.table@;
        let mut r: Vec<(Vec<u8>, T)> = Vec::new();
        let mut i: usize = 0;
        proof {
            lemma_view_empty(s.subrange(0, 0));
        }
        while i < self.table.len()
            invariant
                self.wf(),
                s == self.table@,
                i <= s.len(),
                lists_map(r@, table_view(s.subrange(0, i as int))),
                r@.len() == occupied(s.subrange(0, i as int)),
            decreases s.len() - i,
        {
            let ghost p = s.subrange(0, i as int);
            let ghost q = s.subrange(0, i + 1);
            assert(q.drop_last() == p);
            assert(q.last() == s[i as int]);
            match &self.table[i] {
                Some(entry) => {
                    let ghost k = entry.key@;
                    proof {
                        assert(keys_unique(p)) by {
                            assert forall|a: int, b: int|
                                0 <= a < p.len() && 0 <= b < p.len() && a != b && p[a] is Some
                                    && p[b] is Some implies #[trigger] p[a]->Some_0.key@
                                    != #[trigger] p[b]->Some_0.key@ by {
                                assert(p[a] == s[a] && p[b] == s[b]);
                            }
                        }
                        lemma_view_contains(p, k);
                        if table_view(p).contains_key(k) {
                            let j = choose|j: int| 0 <= j < p.len() && #[trigger] p[j] is Some && p[j]->Some_0.key@ == k;
                            assert(s[j] == p[j]);
                            assert(s[i as int] is Some);
                        }
                    }
                    let ghost r0 = r@;
                    r.push((slice_to_vec(entry.key.as_slice()), entry.value));
                    proof {
                        assert(r@ == r0.push((r@[r@.len() - 1].0, entry.value)));
                        assert(occupied(q) == occupied(p) + 1);
                        let m = table_view(q);
                        assert(m == table_view(p).insert(k, entry.value));
                        assert forall|a: int| 0 <= a < r@.len() implies #[trigger] m.contains_key(r@[a].0@)
                            && m[r@[a].0@] == r@[a].1 by {
                            if a < r@.len() - 1 {
                                assert(r@[a] == r0[a]);
                                assert(table_view(p).contains_key(r@[a].0@));
                            }
                        }
                        assert forall|kk: Seq<u8>| #[trigger] m.contains_key(kk) implies exists|a: int|
                            0 <= a < r@.len() && r@[a].0@ == kk by {
                            if kk != k {
                                assert(table_view(p).contains_key(kk));
                                let a = choose|a: int| 0 <= a < r0.len() && r0[a].0@ == kk;
                                assert(r@[a] == r0[a]);
                            } else {
                                assert(r@[r@.len() - 1].0@ == kk);
                            }
                        }
                        assert forall|a: int, b: int| 0 <= a < b < r@.len() implies #[trigger] r@[a].0@
                            != #[trigger] r@[b].0@ by {
                            assert(r@[a] == r0[a]);
                            if b == r@.len() - 1 {
                                assert(table_view(p).contains_key(r@[a].0@));
                            } else {
                                assert(r@[b] == r0[b]);
                            }
                        }
                    }
                },
                None => {
                    proof {
                        assert(table_view(q) == table_view(p));
                        assert(occupied(q) == occupied(p));
                    }
                },
            }
            i += 1;
        }
        proof {
            assert(s.subrange(0, s.len() as int) == s);
            lemma_view_len(s);
        }
        r
    }


    /// The value of a key, or `None` when the key is absent.
    pub fn get(&self, key: &[u8]) -> (r: Option<T>)
        requires
            self.wf(),
        ensures
            r == if self@.contains_key(key@) {
                Some(self@[key@])
            } else {
                None
            },
    {
        let (_, found) = self.find_slot(key);
        match found {
            None => None,
            Some(slot) => match &self.table[slot] {
                Some(entry) => {
                    proof {
                        lemma_view_value(self.table@, slot as int);
                    }
                    Some(entry.value)
                },
                None => None,
            },
        }
    }

}

} // verus!
