//! A cache of HTTP objects that is bounded in bytes and evicts the least recently used first.
use bytes::Bytes;
use vstd::hash_map::StringHashMap;
use vstd::prelude::*;

use crate::text::same_text;

verus! {

// ---------------------------------------------------------------------------
// Bytes
// ---------------------------------------------------------------------------
/// A cheaply cloned, immutable run of bytes.
#[verifier::external_type_specification]
#[verifier::external_body]
pub struct ExBytes(bytes::Bytes);

/// The bytes that a `Bytes` holds.
pub uninterp spec fn content(b: Bytes) -> Seq<u8>;

/// `bytes::Bytes::len`: the number of bytes held.
pub assume_specification[ Bytes::len ](b: &Bytes) -> (n: usize)
    ensures
        n == content(*b).len(),
;

/// `bytes::Bytes::clone`: the same bytes once more.
pub assume_specification[ <Bytes as Clone>::clone ](b: &Bytes) -> (r: Bytes)
    ensures
        content(r) == content(*b),
;

/// `bytes::Bytes::from` on a vector: the bytes of the vector.
#[verifier::external_body]
pub(crate) fn bytes_from(v: Vec<u8>) -> (r: Bytes)
    ensures
        content(r) == v@,
{
    Bytes::from(v)
}

/// `<bytes::Bytes as AsRef<[u8]>>::as_ref`: the bytes held.
#[verifier::external_body]
pub(crate) fn bytes_slice(b: &Bytes) -> (r: &[u8])
    ensures
        r@ == content(*b),
{
    b.as_ref()
}

// ---------------------------------------------------------------------------
// Cached objects
// ---------------------------------------------------------------------------
/// What an object is: its status and its body.
pub struct ObjectView {
    pub status: u16,
    pub body: Seq<u8>,
}

/// A response that can be served from memory.
#[derive(Debug)]
pub struct CachedObject {
    pub status: u16,
    pub body: Bytes,
}

impl View for CachedObject {
    type V = ObjectView;

    open spec fn view(&self) -> ObjectView {
        ObjectView { status: self.status, body: content(self.body) }
    }
}

impl Clone for CachedObject {
    fn clone(&self) -> (r: Self)
        ensures
            r@ == self@,
    {
        CachedObject { status: self.status, body: self.body.clone() }
    }
}

/// Success statuses are the ones that are worth caching.
pub open spec fn status_cacheable(status: u16) -> bool {
    200 <= status < 300
}

impl CachedObject {
    /// The length of the body.
    pub fn len(&self) -> (n: u64)
        ensures
            n == self@.body.len(),
    {
        self.body.len() as u64
    }

    /// Whether the status is a success.
    pub fn cacheable(&self) -> (b: bool)
        ensures
            b == status_cacheable(self@.status),
    {
        200 <= self.status && self.status < 300
    }
}

// ---------------------------------------------------------------------------
// The model of the cache
// ---------------------------------------------------------------------------
/// A key and the object stored under it.
pub type Entry = (Seq<char>, ObjectView);

/// A cache: its entries, the least recently used first, and its limits in bytes.
pub struct LruView {
    pub entries: Seq<Entry>,
    pub max_bytes: u64,
    pub max_object_bytes: u64,
}

/// The bytes that some entries hold together.
pub open spec fn total(entries: Seq<Entry>) -> nat
    decreases entries.len(),
{
    if entries.len() == 0 {
        0
    } else {
        entries.first().1.body.len() + total(entries.drop_first())
    }
}

/// Whether an object is stored under a key.
pub open spec fn has_key(entries: Seq<Entry>, key: Seq<char>) -> bool {
    exists|i: int| 0 <= i < entries.len() && (#[trigger] entries[i]).0 == key
}

/// The object that is stored under a key.
pub open spec fn lookup(entries: Seq<Entry>, key: Seq<char>) -> Option<ObjectView> {
    if has_key(entries, key) {
        Some(entries[choose|i: int| 0 <= i < entries.len() && (#[trigger] entries[i]).0 == key].1)
    } else {
        None
    }
}

/// The entries of the other keys, in their order.
pub open spec fn without(entries: Seq<Entry>, key: Seq<char>) -> Seq<Entry> {
    entries.filter(|e: Entry| e.0 != key)
}

/// No key occurs twice.
pub open spec fn keys_differ(entries: Seq<Entry>) -> bool {
    forall|i: int, j: int|
        0 <= i < j < entries.len() ==> (#[trigger] entries[i]).0 != (#[trigger] entries[j]).0
}

impl LruView {
    /// What holds of a cache at all times: keys do not repeat, the objects fit, each of them is
    /// no larger than an object may be, and each of them has a success status.
    pub open spec fn valid(self) -> bool {
        &&& keys_differ(self.entries)
        &&& total(self.entries) <= self.max_bytes
        &&& 1 <= self.max_bytes
        &&& 1 <= self.max_object_bytes
        &&& forall|i: int|
            0 <= i < self.entries.len() ==> self.storable(#[trigger] self.entries[i].1)
    }

    /// Whether an object is taken at all.
    pub open spec fn storable(self, obj: ObjectView) -> bool {
        &&& obj.body.len() <= self.max_object_bytes
        &&& obj.body.len() <= self.max_bytes
        &&& status_cacheable(obj.status)
    }

    /// The cache after a key was asked for: a key that is there becomes the most recently used.
    pub open spec fn after_get(self, key: Seq<char>) -> LruView {
        match lookup(self.entries, key) {
            Some(obj) => LruView { entries: without(self.entries, key).push((key, obj)), ..self },
            None => self,
        }
    }

    /// Whether `n` is the number of evictions that make room for `obj` under `key`: as few of
    /// the least recently used entries as will do.
    pub open spec fn evictions(self, key: Seq<char>, obj: ObjectView, n: int) -> bool {
        let rest = without(self.entries, key);
        &&& 0 <= n <= rest.len()
        &&& total(rest.skip(n)) + obj.body.len() <= self.max_bytes
        &&& n > 0 ==> total(rest.skip(n - 1)) + obj.body.len() > self.max_bytes
    }

    /// The cache after an object was stored and `n` entries were evicted for it.
    pub open spec fn after_insert(self, key: Seq<char>, obj: ObjectView, n: int) -> LruView {
        LruView { entries: without(self.entries, key).skip(n).push((key, obj)), ..self }
    }
}

// ---------------------------------------------------------------------------
// Facts about entries
// ---------------------------------------------------------------------------
proof fn lemma_total_add(a: Seq<Entry>, b: Seq<Entry>)
    ensures
        total(a + b) == total(a) + total(b),
    decreases a.len(),
{
    if a.len() == 0 {
        assert(a + b == b);
    } else {
        assert((a + b).drop_first() == a.drop_first() + b);
        lemma_total_add(a.drop_first(), b);
    }
}

proof fn lemma_total_one(e: Entry)
    ensures
        total(seq![e]) == e.1.body.len(),
{
    assert(seq![e].drop_first() == Seq::<Entry>::empty());
    assert(total(Seq::<Entry>::empty()) == 0);
}

proof fn lemma_total_push(a: Seq<Entry>, e: Entry)
    ensures
        total(a.push(e)) == total(a) + e.1.body.len(),
{
    assert(a.push(e) == a + seq![e]);
    lemma_total_add(a, seq![e]);
    lemma_total_one(e);
}

proof fn lemma_total_remove(a: Seq<Entry>, i: int)
    requires
        0 <= i < a.len(),
    ensures
        total(a.remove(i)) == total(a) - a[i].1.body.len(),
{
    assert(a == a.take(i) + seq![a[i]] + a.skip(i + 1));
    lemma_total_add(a.take(i) + seq![a[i]], a.skip(i + 1));
    lemma_total_add(a.take(i), seq![a[i]]);
    lemma_total_one(a[i]);
    assert(a.remove(i) == a.take(i) + a.skip(i + 1));
    lemma_total_add(a.take(i), a.skip(i + 1));
}

/// Fewer entries hold fewer bytes.
proof fn lemma_total_skip(a: Seq<Entry>, i: int, j: int)
    requires
        0 <= i <= j <= a.len(),
    ensures
        total(a.skip(j)) <= total(a.skip(i)),
{
    assert(a.skip(i) == a.subrange(i, j) + a.skip(j));
    lemma_total_add(a.subrange(i, j), a.skip(j));
}

proof fn lemma_without_absent(a: Seq<Entry>, key: Seq<char>)
    requires
        forall|i: int| 0 <= i < a.len() ==> (#[trigger] a[i]).0 != key,
    ensures
        without(a, key) == a,
    decreases a.len(),
{
    reveal(Seq::filter);
    if a.len() > 0 {
        lemma_without_absent(a.drop_last(), key);
        assert(a.drop_last().push(a.last()) == a);
    }
}

/// Where keys do not repeat, leaving a key out is removing its entry.
proof fn lemma_without_is_remove(a: Seq<Entry>, i: int)
    requires
        keys_differ(a),
        0 <= i < a.len(),
    ensures
        without(a, a[i].0) == a.remove(i),
    decreases a.len(),
{
    reveal(Seq::filter);
    let front = a.drop_last();
    if i == a.len() - 1 {
        lemma_without_absent(front, a[i].0);
        assert(a.remove(i) == front);
    } else {
        lemma_without_is_remove(front, i);
        assert(front[i] == a[i]);
        assert(a.remove(i) == front.remove(i).push(a.last()));
    }
}

/// The entry that is found under a key is the one that has the key.
proof fn lemma_lookup(a: Seq<Entry>, i: int)
    requires
        keys_differ(a),
        0 <= i < a.len(),
    ensures
        has_key(a, a[i].0),
        lookup(a, a[i].0) == Some(a[i].1),
{
    let key = a[i].0;
    let j = choose|j: int| 0 <= j < a.len() && (#[trigger] a[j]).0 == key;
    assert(a[i].0 == key);
    assert(a[j].0 == key);
}

/// Removing an entry takes away its key and no other.
proof fn lemma_keys_remove(a: Seq<Entry>, i: int)
    requires
        keys_differ(a),
        0 <= i < a.len(),
    ensures
        keys_differ(a.remove(i)),
        forall|k: Seq<char>| #[trigger]
            has_key(a.remove(i), k) <==> k != a[i].0 && has_key(a, k),
{
    let b = a.remove(i);
    assert forall|k: Seq<char>| #[trigger] has_key(b, k) implies k != a[i].0 && has_key(a, k) by {
        let j = choose|j: int| 0 <= j < b.len() && (#[trigger] b[j]).0 == k;
        let h = if j < i {
            j
        } else {
            j + 1
        };
        assert(a[h] == b[j]);
        assert(a[i].0 != a[h].0);
    }
    assert forall|k: Seq<char>| k != a[i].0 && has_key(a, k) implies #[trigger] has_key(b, k) by {
        let h = choose|h: int| 0 <= h < a.len() && (#[trigger] a[h]).0 == k;
        let j = if h < i {
            h
        } else {
            h - 1
        };
        assert(b[j] == a[h]);
    }
    assert forall|j: int, h: int| 0 <= j < h < b.len() implies (#[trigger] b[j]).0 != (
    #[trigger] b[h]).0 by {
        let j1 = if j < i {
            j
        } else {
            j + 1
        };
        let h1 = if h < i {
            h
        } else {
            h + 1
        };
        assert(a[j1] == b[j] && a[h1] == b[h]);
    }
}

/// A new key joins the keys.
proof fn lemma_keys_push(a: Seq<Entry>, e: Entry)
    requires
        keys_differ(a),
        !has_key(a, e.0),
    ensures
        keys_differ(a.push(e)),
        forall|k: Seq<char>| #[trigger] has_key(a.push(e), k) <==> k == e.0 || has_key(a, k),
{
    let b = a.push(e);
    assert forall|k: Seq<char>| #[trigger] has_key(b, k) implies k == e.0 || has_key(a, k) by {
        let j = choose|j: int| 0 <= j < b.len() && (#[trigger] b[j]).0 == k;
        if j < a.len() {
            assert(a[j].0 == k);
        }
    }
    assert forall|k: Seq<char>| k == e.0 || has_key(a, k) implies #[trigger] has_key(b, k) by {
        if k == e.0 {
            assert(b[a.len() as int].0 == k);
        } else {
            let j = choose|j: int| 0 <= j < a.len() && (#[trigger] a[j]).0 == k;
            assert(b[j].0 == k);
        }
    }
}

// ---------------------------------------------------------------------------
// The cache
// ---------------------------------------------------------------------------
/// A byte-capped cache with least-recently-used eviction.
pub struct ByteLru {
    map: StringHashMap<CachedObject>,
    order: Vec<String>,
    bytes: u64,
    max_bytes: u64,
    max_object_bytes: u64,
}

impl View for ByteLru {
    type V = LruView;

    closed spec fn view(&self) -> LruView {
        LruView {
            entries: Seq::new(
                self.order@.len(),
                |i: int| (self.order@[i]@, self.map@[self.order@[i]@]@),
            ),
            max_bytes: self.max_bytes,
            max_object_bytes: self.max_object_bytes,
        }
    }
}

impl ByteLru {
    /// Whether the order, the map and the byte count agree.
    closed spec fn consistent(&self) -> bool {
        &&& forall|k: Seq<char>| #[trigger]
            self.map@.contains_key(k) <==> has_key(self@.entries, k)
        &&& self.bytes == total(self@.entries)
    }

    /// Whether the cache is in order.
    pub closed spec fn wf(&self) -> bool {
        self.consistent() && self@.valid()
    }

    /// What holds of every cache.
    pub proof fn lemma_valid(&self)
        requires
            self.wf(),
        ensures
            self@.valid(),
    {
    }

    /// An empty cache of at most `max_bytes` bytes, which takes objects of at most
    /// `max_object_bytes` bytes. Either limit is at least one.
    pub fn new(max_bytes: u64, max_object_bytes: u64) -> (r: Self)
        ensures
            r.wf(),
            r@ == (LruView {
                entries: Seq::empty(),
                max_bytes: if max_bytes == 0 {
                    1
                } else {
                    max_bytes
                },
                max_object_bytes: if max_object_bytes == 0 {
                    1
                } else {
                    max_object_bytes
                },
            }),
    {
        let r = ByteLru {
            map: StringHashMap::new(),
            order: Vec::new(),
            bytes: 0,
            max_bytes: if max_bytes == 0 {
                1
            } else {
                max_bytes
            },
            max_object_bytes: if max_object_bytes == 0 {
                1
            } else {
                max_object_bytes
            },
        };
        assert(r@.entries == Seq::<Entry>::empty());
        r
    }

    /// Where a key stands in the order of use.
    fn find(&self, key: &str) -> (r: Option<usize>)
        ensures
            match r {
                Some(i) => i < self@.entries.len() && self@.entries[i as int].0 == key@,
                None => !has_key(self@.entries, key@),
            },
    {
        let mut i: usize = 0;
        while i < self.order.len()
            invariant
                i <= self.order@.len(),
                forall|j: int| 0 <= j < i ==> (#[trigger] self@.entries[j]).0 != key@,
            decreases self.order@.len() - i,
        {
            if same_text(self.order[i].as_str(), key) {
                return Some(i);
            }
            i += 1;
        }
        None
    }

    /// Takes out the entry at a place in the order of use, and hands out what was there.
    fn take_out(&mut self, i: usize) -> (key: String)
        requires
            old(self).consistent(),
            keys_differ(old(self)@.entries),
            i < old(self)@.entries.len(),
        ensures
            final(self).consistent(),
            final(self)@ == (LruView {
                entries: old(self)@.entries.remove(i as int),
                ..old(self)@
            }),
            keys_differ(final(self)@.entries),
            key@ == old(self)@.entries[i as int].0,
    {
        let ghost before = self@.entries;
        proof {
            lemma_keys_remove(before, i as int);
            lemma_total_remove(before, i as int);
            assert(before[i as int].0 == self.order@[i as int]@);
            assert(has_key(before, before[i as int].0));
            assert(self.map@.contains_key(before[i as int].0));
        }
        let key = self.order.remove(i);
        let n: u64 = match self.map.get(key.as_str()) {
            Some(obj) => obj.len(),
            None => 0,
        };
        self.map.remove(key.as_str());
        self.bytes = self.bytes - n;
        proof {
            assert forall|j: int| 0 <= j < self@.entries.len() implies #[trigger] self@.entries[j]
                == before.remove(i as int)[j] by {
                let h = if j < i {
                    j
                } else {
                    j + 1
                };
                assert(before[h].0 != before[i as int].0);
            }
            assert(self@.entries == before.remove(i as int));
        }
        key
    }

    /// The object under a key, if there is one. The key becomes the most recently used.
    pub fn get(&mut self, key: &str) -> (r: Option<CachedObject>)
        requires
            old(self).wf(),
        ensures
            final(self).wf(),
            final(self)@ == old(self)@.after_get(key@),
            match r {
                Some(obj) => lookup(old(self)@.entries, key@) == Some(obj@),
                None => lookup(old(self)@.entries, key@) is None,
            },
    {
        let ghost before = self@.entries;
        match self.find(key) {
            None => None,
            Some(i) => {
                proof {
                    lemma_lookup(before, i as int);
                    lemma_without_is_remove(before, i as int);
                    assert(self.map@.contains_key(key@));
                }
                let obj = match self.map.get(key) {
                    Some(obj) => obj.clone(),
                    None => return None,
                };
                self.touch(i);
                proof {
                    assert forall|j: int| 0 <= j < self@.entries.len() implies self@.storable(
                        #[trigger] self@.entries[j].1,
                    ) by {
                        let h = if j < i {
                            j
                        } else if j < before.len() - 1 {
                            j + 1
                        } else {
                            i as int
                        };
                        assert(self@.entries[j] == before[h]);
                    }
                }
                Some(obj)
            },
        }
    }

    /// Makes the entry at a place in the order of use the most recently used.
    fn touch(&mut self, i: usize)
        requires
            old(self).consistent(),
            keys_differ(old(self)@.entries),
            i < old(self)@.entries.len(),
        ensures
            final(self).consistent(),
            final(self)@ == (LruView {
                entries: old(self)@.entries.remove(i as int).push(old(self)@.entries[i as int]),
                ..old(self)@
            }),
            keys_differ(final(self)@.entries),
            total(final(self)@.entries) == total(old(self)@.entries),
    {
        let ghost before = self@.entries;
        proof {
            let e = before[i as int];
            lemma_keys_remove(before, i as int);
            lemma_total_remove(before, i as int);
            lemma_keys_push(before.remove(i as int), e);
            lemma_total_push(before.remove(i as int), e);
            assert(has_key(before, e.0));
        }
        let name = self.order.remove(i);
        self.order.push(name);
        assert(self@.entries == before.remove(i as int).push(before[i as int]));
    }

    /// Adds an entry as the most recently used.
    fn put_last(&mut self, key: String, obj: CachedObject)
        requires
            old(self).consistent(),
            keys_differ(old(self)@.entries),
            !has_key(old(self)@.entries, key@),
            total(old(self)@.entries) + obj@.body.len() <= u64::MAX,
        ensures
            final(self).consistent(),
            final(self)@ == (LruView {
                entries: old(self)@.entries.push((key@, obj@)),
                ..old(self)@
            }),
            keys_differ(final(self)@.entries),
    {
        let ghost before = self@.entries;
        let ghost entry = (key@, obj@);
        proof {
            lemma_keys_push(before, entry);
            lemma_total_push(before, entry);
        }
        self.bytes = self.bytes + obj.len();
        let name = key.clone();
        self.order.push(name);
        self.map.insert(key, obj);
        proof {
            assert forall|j: int| 0 <= j < self@.entries.len() implies #[trigger] self@.entries[j]
                == before.push(entry)[j] by {
                if j < before.len() {
                    assert(before[j].0 != key@);
                }
            }
            assert(self@.entries == before.push(entry));
        }
    }

    /// Stores an object under a key as the most recently used, in place of what was there, and
    /// evicts the least recently used entries until it fits. An object that is too large or has
    /// no success status changes nothing. The result is the number of evictions.
    pub fn insert(&mut self, key: String, obj: CachedObject) -> (n: u64)
        requires
            old(self).wf(),
        ensures
            final(self).wf(),
            old(self)@.storable(obj@) ==> old(self)@.evictions(key@, obj@, n as int),
            old(self)@.storable(obj@) ==> final(self)@ == old(self)@.after_insert(
                key@,
                obj@,
                n as int,
            ),
            !old(self)@.storable(obj@) ==> n == 0 && final(self)@ == old(self)@,
    {
        let ghost before = self@;
        let size: u64 = obj.len();
        if size > self.max_object_bytes || size > self.max_bytes || !obj.cacheable() {
            return 0;
        }
        match self.find(key.as_str()) {
            Some(i) => {
                proof {
                    lemma_without_is_remove(before.entries, i as int);
                    lemma_total_remove(before.entries, i as int);
                    lemma_keys_remove(before.entries, i as int);
                    assert forall|j: int| 0 <= j < before.entries.len() - 1 implies before.storable(
                        #[trigger] before.entries.remove(i as int)[j].1,
                    ) by {
                        let h = if j < i {
                            j
                        } else {
                            j + 1
                        };
                        assert(before.entries.remove(i as int)[j] == before.entries[h]);
                    }
                }
                self.take_out(i);
            },
            None => {
                proof {
                    lemma_without_absent(before.entries, key@);
                }
            },
        }
        let ghost rest = without(before.entries, key@);
        assert(rest.skip(0) == rest);
        assert(rest.len() == self.order.len());
        let room: u64 = self.max_bytes - size;
        let mut n: u64 = 0;
        while self.bytes > room
            invariant
                self.consistent(),
                0 <= n <= rest.len(),
                self@ == (LruView { entries: rest.skip(n as int), ..before }),
                keys_differ(self@.entries),
                rest.len() <= u64::MAX,
                !has_key(self@.entries, key@),
                n > 0 ==> total(rest.skip(n - 1)) > room,
                forall|j: int| 0 <= j < rest.len() ==> before.storable(#[trigger] rest[j].1),
            decreases rest.len() - n,
        {
            proof {
                if n == rest.len() {
                    assert(rest.skip(n as int) == Seq::<Entry>::empty());
                    assert(total(Seq::<Entry>::empty()) == 0);
                }
                lemma_keys_remove(self@.entries, 0);
                assert(rest.skip(n as int).remove(0) == rest.skip(n + 1));
            }
            self.take_out(0);
            n = n + 1;
        }
        proof {
            lemma_total_push(self@.entries, (key@, obj@));
        }
        self.put_last(key, obj);
        assert forall|j: int| 0 <= j < self@.entries.len() implies self@.storable(
            #[trigger] self@.entries[j].1,
        ) by {
            if j < self@.entries.len() - 1 {
                assert(self@.entries[j] == rest[n + j]);
            }
        }
        n
    }

    /// The number of bytes that are stored.
    pub fn bytes(&self) -> (n: u64)
        requires
            self.wf(),
        ensures
            n == total(self@.entries),
    {
        self.bytes
    }

    /// The keys, the least recently used first.
    pub fn keys(&self) -> (r: Vec<String>)
        ensures
            r@.len() == self@.entries.len(),
            forall|i: int| 0 <= i < r@.len() ==> (#[trigger] r@[i])@ == self@.entries[i].0,
    {
        let mut r: Vec<String> = Vec::new();
        let mut i: usize = 0;
        while i < self.order.len()
            invariant
                i <= self.order@.len(),
                r@.len() == i,
                forall|j: int| 0 <= j < i ==> (#[trigger] r@[j])@ == self@.entries[j].0,
            decreases self.order@.len() - i,
        {
            r.push(self.order[i].clone());
            i += 1;
        }
        r
    }

    /// The size of the largest object that is stored.
    pub fn max_object_bytes(&self) -> (n: u64)
        ensures
            n == self@.max_object_bytes,
    {
        self.max_object_bytes
    }
}

// ---------------------------------------------------------------------------
// Laws
// ---------------------------------------------------------------------------
/// Leaving a key out takes that key away and keeps the others as they are.
proof fn lemma_without(a: Seq<Entry>, key: Seq<char>)
    requires
        keys_differ(a),
    ensures
        keys_differ(without(a, key)),
        !has_key(without(a, key), key),
        total(without(a, key)) <= total(a),
        forall|k: Seq<char>| k != key ==> #[trigger] lookup(without(a, key), k) == lookup(a, k),
        forall|j: int|
            0 <= j < without(a, key).len() ==> exists|h: int|
                0 <= h < a.len() && #[trigger] a[h] == #[trigger] without(a, key)[j],
{
    if has_key(a, key) {
        let i = choose|i: int| 0 <= i < a.len() && (#[trigger] a[i]).0 == key;
        lemma_without_is_remove(a, i);
        lemma_keys_remove(a, i);
        lemma_total_remove(a, i);
        let b = a.remove(i);
        assert forall|j: int| 0 <= j < b.len() implies exists|h: int|
            0 <= h < a.len() && #[trigger] a[h] == #[trigger] b[j] by {
            let h = if j < i {
                j
            } else {
                j + 1
            };
            assert(a[h] == b[j]);
        }
        assert forall|k: Seq<char>| k != key implies #[trigger] lookup(b, k) == lookup(a, k) by {
            if has_key(b, k) {
                let j = choose|j: int| 0 <= j < b.len() && (#[trigger] b[j]).0 == k;
                let h = if j < i {
                    j
                } else {
                    j + 1
                };
                assert(a[h] == b[j]);
                lemma_lookup(b, j);
                lemma_lookup(a, h);
            } else {
                assert(!has_key(a, k));
            }
        }
    } else {
        lemma_without_absent(a, key);
    }
}

/// What is found after an entry was added.
proof fn lemma_lookup_push(a: Seq<Entry>, e: Entry)
    requires
        keys_differ(a),
        !has_key(a, e.0),
    ensures
        lookup(a.push(e), e.0) == Some(e.1),
        forall|k: Seq<char>| k != e.0 ==> #[trigger] lookup(a.push(e), k) == lookup(a, k),
{
    let b = a.push(e);
    lemma_keys_push(a, e);
    lemma_lookup(b, a.len() as int);
    assert forall|k: Seq<char>| k != e.0 implies #[trigger] lookup(b, k) == lookup(a, k) by {
        if has_key(a, k) {
            let j = choose|j: int| 0 <= j < a.len() && (#[trigger] a[j]).0 == k;
            assert(b[j] == a[j]);
            lemma_lookup(a, j);
            lemma_lookup(b, j);
        } else {
            assert(!has_key(b, k));
        }
    }
}

/// What is found after the oldest entries were dropped was there before.
proof fn lemma_lookup_skip(a: Seq<Entry>, n: int)
    requires
        keys_differ(a),
        0 <= n <= a.len(),
    ensures
        keys_differ(a.skip(n)),
        forall|k: Seq<char>| #[trigger]
            lookup(a.skip(n), k) is Some ==> lookup(a.skip(n), k) == lookup(a, k),
        forall|k: Seq<char>| #[trigger] has_key(a.skip(n), k) ==> has_key(a, k),
{
    let b = a.skip(n);
    assert forall|k: Seq<char>| #[trigger] has_key(b, k) implies has_key(a, k) by {
        let j = choose|j: int| 0 <= j < b.len() && (#[trigger] b[j]).0 == k;
        assert(a[n + j].0 == k);
    }
    assert(keys_differ(b)) by {
        assert forall|i: int, j: int| 0 <= i < j < b.len() implies (#[trigger] b[i]).0 != (
        #[trigger] b[j]).0 by {
            assert(a[n + i].0 != a[n + j].0);
        }
    }
    assert forall|k: Seq<char>| #[trigger] lookup(b, k) is Some implies lookup(b, k) == lookup(
        a,
        k,
    ) by {
        let j = choose|j: int| 0 <= j < b.len() && (#[trigger] b[j]).0 == k;
        lemma_lookup(b, j);
        lemma_lookup(a, n + j);
    }
}

/// Asking for a key changes nothing but the order of use: the cache stays valid, and every key
/// has the object that it had.
pub proof fn law_get_keeps_objects(c: LruView, key: Seq<char>, other: Seq<char>)
    requires
        c.valid(),
    ensures
        c.after_get(key).valid(),
        lookup(c.after_get(key).entries, other) == lookup(c.entries, other),
        total(c.after_get(key).entries) == total(c.entries),
{
    if has_key(c.entries, key) {
        let i = choose|i: int| 0 <= i < c.entries.len() && (#[trigger] c.entries[i]).0 == key;
        lemma_lookup(c.entries, i);
        lemma_without_is_remove(c.entries, i);
        lemma_total_remove(c.entries, i);
        lemma_without(c.entries, key);
        let rest = without(c.entries, key);
        let e = c.entries[i];
        lemma_keys_push(rest, e);
        lemma_lookup_push(rest, e);
        lemma_total_push(rest, e);
        assert(c.after_get(key).entries == rest.push(e));
        if other != key {
            assert(lookup(rest, other) == lookup(c.entries, other));
        }
        assert forall|j: int| 0 <= j < rest.push(e).len() implies c.storable(
            #[trigger] rest.push(e)[j].1,
        ) by {
            if j < rest.len() {
                let h = choose|h: int|
                    0 <= h < c.entries.len() && #[trigger] c.entries[h] == rest[j];
                assert(rest[j] == c.entries[h]);
            }
        }
    }
}

/// What was stored is read back: right after an object was stored its key has that object.
pub proof fn law_insert_then_get(c: LruView, key: Seq<char>, obj: ObjectView, n: int)
    requires
        c.valid(),
        c.storable(obj),
        c.evictions(key, obj, n),
    ensures
        lookup(c.after_insert(key, obj, n).entries, key) == Some(obj),
{
    lemma_without(c.entries, key);
    lemma_lookup_skip(without(c.entries, key), n);
    lemma_lookup_push(without(c.entries, key).skip(n), (key, obj));
}

/// Storing an object keeps the cache within its limits, and leaves a key that it keeps with the
/// object that it had.
pub proof fn law_insert_keeps_limits(
    c: LruView,
    key: Seq<char>,
    obj: ObjectView,
    n: int,
    other: Seq<char>,
)
    requires
        c.valid(),
        c.storable(obj),
        c.evictions(key, obj, n),
        other != key,
    ensures
        c.after_insert(key, obj, n).valid(),
        lookup(c.after_insert(key, obj, n).entries, other) is Some ==> lookup(
            c.after_insert(key, obj, n).entries,
            other,
        ) == lookup(c.entries, other),
        n == 0 ==> lookup(c.after_insert(key, obj, n).entries, other) == lookup(
            c.entries,
            other,
        ),
{
    let rest = without(c.entries, key);
    let kept = rest.skip(n);
    let e: Entry = (key, obj);
    lemma_without(c.entries, key);
    lemma_lookup_skip(rest, n);
    lemma_lookup_push(kept, e);
    lemma_keys_push(kept, e);
    lemma_total_push(kept, e);
    assert(lookup(kept.push(e), other) == lookup(kept, other));
    assert(lookup(rest, other) == lookup(c.entries, other));
    if n == 0 {
        assert(kept == rest);
    }
    assert forall|j: int| 0 <= j < kept.push(e).len() implies c.storable(
        #[trigger] kept.push(e)[j].1,
    ) by {
        if j < kept.len() {
            assert(kept[j] == rest[n + j]);
            let h = choose|h: int| 0 <= h < c.entries.len() && #[trigger] c.entries[h] == rest[n
                + j];
            assert(rest[n + j] == c.entries[h]);
        }
    }
}

/// The number of evictions is determined, and it is zero where there is room already.
pub proof fn law_evictions_determined(
    c: LruView,
    key: Seq<char>,
    obj: ObjectView,
    m: int,
    n: int,
)
    requires
        c.evictions(key, obj, m),
        c.evictions(key, obj, n),
    ensures
        m == n,
        total(without(c.entries, key)) + obj.body.len() <= c.max_bytes ==> n == 0,
{
    let rest = without(c.entries, key);
    if m < n {
        lemma_total_skip(rest, m, n - 1);
    }
    if n < m {
        lemma_total_skip(rest, n, m - 1);
    }
    if n > 0 {
        lemma_total_skip(rest, 0, n - 1);
        assert(rest.skip(0) == rest);
    }
}

/// The least recently used goes first: a key that was just asked for is evicted for an object
/// under another key only where every other entry is evicted too.
pub proof fn law_recently_used_goes_last(
    c: LruView,
    used: Seq<char>,
    key: Seq<char>,
    obj: ObjectView,
    n: int,
)
    requires
        c.valid(),
        has_key(c.entries, used),
        key != used,
        c.storable(obj),
        c.after_get(used).evictions(key, obj, n),
        !has_key(c.after_get(used).after_insert(key, obj, n).entries, used),
    ensures
        c.after_get(used).after_insert(key, obj, n).entries == seq![(key, obj)],
{
    law_get_keeps_objects(c, used, used);
    let d = c.after_get(used);
    let last = d.entries.last();
    let rest = without(d.entries, key);
    assert(last.0 == used);
    assert(rest.len() > 0 && rest.last() == last) by {
        reveal(Seq::filter);
    }
    if n < rest.len() {
        let after = d.after_insert(key, obj, n).entries;
        assert(after[rest.len() - n - 1] == last);
        assert(has_key(after, used));
    } else {
        assert(rest.skip(n) == Seq::<Entry>::empty());
        assert(d.after_insert(key, obj, n).entries == seq![(key, obj)]);
    }
}

/// What entries hold together is the sum of the lengths of their bodies, whatever their order.
pub proof fn law_total_is_the_sum_of_lengths(a: Seq<Entry>, b: Seq<Entry>, e: Entry)
    ensures
        total(Seq::<Entry>::empty()) == 0,
        total(seq![e]) == e.1.body.len(),
        total(a + b) == total(a) + total(b),
        total(a.push(e)) == total(a) + e.1.body.len(),
{
    lemma_total_add(a, b);
    lemma_total_push(a, e);
    lemma_total_push(Seq::<Entry>::empty(), e);
    assert(Seq::<Entry>::empty().push(e) == seq![e]);
}

/// Looking a key up finds the object of its entry, and nothing where it has no entry.
pub proof fn law_lookup_finds_the_entry(entries: Seq<Entry>, key: Seq<char>)
    requires
        forall|i: int, j: int|
            0 <= i < j < entries.len() ==> (#[trigger] entries[i]).0 != (#[trigger] entries[j]).0,
    ensures
        forall|i: int|
            0 <= i < entries.len() && (#[trigger] entries[i]).0 == key ==> lookup(entries, key)
                == Some(entries[i].1) && has_key(entries, key),
        (forall|i: int| 0 <= i < entries.len() ==> (#[trigger] entries[i]).0 != key) ==> lookup(
            entries,
            key,
        ) is None && !has_key(entries, key),
{
    assert forall|i: int| 0 <= i < entries.len() && (#[trigger] entries[i]).0 == key implies lookup(
        entries,
        key,
    ) == Some(entries[i].1) && has_key(entries, key) by {
        lemma_lookup(entries, i);
    }
}

/// A use moves an entry to the end and leaves the others in their order; asking for a key that is
/// not there changes nothing.
pub proof fn law_get_moves_the_entry_to_the_end(c: LruView, key: Seq<char>, i: int)
    requires
        c.valid(),
    ensures
        c.after_get(key).max_bytes == c.max_bytes,
        c.after_get(key).max_object_bytes == c.max_object_bytes,
        0 <= i < c.entries.len() && c.entries[i].0 == key ==> c.after_get(key).entries
            == c.entries.remove(i).push(c.entries[i]),
        (forall|j: int| 0 <= j < c.entries.len() ==> (#[trigger] c.entries[j]).0 != key)
            ==> c.after_get(key).entries == c.entries,
{
    if 0 <= i < c.entries.len() && c.entries[i].0 == key {
        lemma_lookup(c.entries, i);
        lemma_without_is_remove(c.entries, i);
    }
}

/// An object is taken exactly if it has a status from 200 to 299 and is no larger than an object
/// may be, nor than the whole cache may be.
pub proof fn law_what_is_taken(c: LruView, obj: ObjectView)
    ensures
        c.storable(obj) <==> 200 <= obj.status && obj.status <= 299 && obj.body.len()
            <= c.max_object_bytes && obj.body.len() <= c.max_bytes,
        status_cacheable(obj.status) <==> 200 <= obj.status && obj.status <= 299,
{
}

/// Whether some entries are those of a cache without the one of a key.
pub open spec fn are_the_others(c: LruView, key: Seq<char>, others: Seq<Entry>) -> bool {
    ||| exists|i: int|
        0 <= i < c.entries.len() && (#[trigger] c.entries[i]).0 == key && others
            == c.entries.remove(i)
    ||| others == c.entries && forall|i: int|
        0 <= i < c.entries.len() ==> (#[trigger] c.entries[i]).0 != key
}

/// Storing evicts the least recently used, as many of them as it must and no more: what stays of
/// the other entries is their end, in its order, with the new entry behind it; it fits; and with
/// one eviction less it would not have fitted. So nothing is evicted where there is room.
pub proof fn law_storing_evicts_as_few_as_it_must(
    c: LruView,
    key: Seq<char>,
    obj: ObjectView,
    n: int,
    others: Seq<Entry>,
)
    requires
        c.valid(),
        200 <= obj.status && obj.status <= 299,
        obj.body.len() <= c.max_object_bytes,
        obj.body.len() <= c.max_bytes,
        c.evictions(key, obj, n),
        are_the_others(c, key, others),
    ensures
        c.storable(obj),
        0 <= n <= others.len(),
        c.after_insert(key, obj, n).entries == others.subrange(n, others.len() as int).push(
            (key, obj),
        ),
        c.after_insert(key, obj, n).max_bytes == c.max_bytes,
        c.after_insert(key, obj, n).max_object_bytes == c.max_object_bytes,
        total(c.after_insert(key, obj, n).entries) <= c.max_bytes,
        n > 0 ==> total(others.subrange(n - 1, others.len() as int)) + obj.body.len()
            > c.max_bytes,
        total(others) + obj.body.len() <= c.max_bytes ==> n == 0,
{
    if exists|i: int|
        0 <= i < c.entries.len() && (#[trigger] c.entries[i]).0 == key && others
            == c.entries.remove(i) {
        let i = choose|i: int|
            0 <= i < c.entries.len() && (#[trigger] c.entries[i]).0 == key && others
                == c.entries.remove(i);
        lemma_without_is_remove(c.entries, i);
    } else {
        lemma_without_absent(c.entries, key);
    }
    assert(without(c.entries, key) == others);
    assert(others.skip(n) == others.subrange(n, others.len() as int));
    lemma_total_push(others.skip(n), (key, obj));
    if n > 0 {
        assert(others.skip(n - 1) == others.subrange(n - 1, others.len() as int));
        lemma_total_skip(others, 0, n - 1);
        assert(others.skip(0) == others);
    }
}

/// What a valid cache is, no more and no less: no key occurs twice, its objects fit together and
/// one by one, each has a status from 200 to 299, and its limits are at least one byte.
pub proof fn law_what_a_valid_cache_is(c: LruView)
    ensures
        c.valid() <==> {
            &&& total(c.entries) <= c.max_bytes
            &&& 1 <= c.max_bytes
            &&& 1 <= c.max_object_bytes
            &&& forall|i: int, j: int|
                0 <= i < j < c.entries.len() ==> (#[trigger] c.entries[i]).0 != (
                #[trigger] c.entries[j]).0
            &&& forall|i: int|
                0 <= i < c.entries.len() ==> (#[trigger] c.entries[i]).1.body.len()
                    <= c.max_object_bytes && c.entries[i].1.body.len() <= c.max_bytes && 200
                    <= c.entries[i].1.status && c.entries[i].1.status <= 299
        },
{
    if c.valid() {
        assert forall|i: int|
            0 <= i < c.entries.len() implies (#[trigger] c.entries[i]).1.body.len()
            <= c.max_object_bytes && c.entries[i].1.body.len() <= c.max_bytes && 200
            <= c.entries[i].1.status && c.entries[i].1.status <= 299 by {
            assert(c.storable(c.entries[i].1));
        }
    }
}

/// An object is its status and its bytes.
pub proof fn law_what_an_object_is(obj: CachedObject)
    ensures
        obj@.status == obj.status,
        obj@.body == content(obj.body),
{
}

} // verus!
