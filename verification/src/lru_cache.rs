use vstd::prelude::*;
use vstd::utf8::encode_utf8;
use std::sync::Arc;

verus! {

/// What the cache keeps for a key: the shared value, how long it stays
/// valid after insertion, when it was inserted, and when it was last read.
/// Times and durations are ticks of a monotonic clock.
pub struct Stored {
    pub value: Arc<Vec<u8>>,
    pub expires_in: u64,
    pub inserted_at: u64,
    pub used_at: u64,
}

struct CacheEntry {
    key: String,
    stored: Stored,
}

/// An entry inserted at `inserted_at` with lifetime `expires_in` is still
/// valid at `now` strictly before `inserted_at + expires_in`.
pub open spec fn is_alive(s: Stored, now: u64) -> bool {
    now < s.inserted_at + s.expires_in
}

/// The entries of `m` that are still valid at `now`.
pub open spec fn alive_part(m: Map<Seq<char>, Stored>, now: u64) -> Map<Seq<char>, Stored> {
    m.restrict(Set::new(|k: Seq<char>| m.dom().contains(k) && is_alive(m[k], now)))
}

/// `a` comes strictly before `b` in lexicographic byte order, the order of
/// `Ord` on `str` and `String`.
pub open spec fn bytes_before(a: Seq<u8>, b: Seq<u8>) -> bool
    decreases a.len(),
{
    if b.len() == 0 {
        false
    } else if a.len() == 0 {
        true
    } else if a[0] != b[0] {
        a[0] < b[0]
    } else {
        bytes_before(a.drop_first(), b.drop_first())
    }
}

/// `a` comes strictly before `b` in the order of `Ord` on `String`: the
/// byte order of their UTF-8 encodings.
pub open spec fn key_before(a: Seq<char>, b: Seq<char>) -> bool {
    bytes_before(encode_utf8(a), encode_utf8(b))
}

/// `v` is a key of `m` read no later than any other key, and the smallest
/// such key in `String` order.
pub open spec fn is_least_recent(m: Map<Seq<char>, Stored>, v: Seq<char>) -> bool {
    &&& m.dom().contains(v)
    &&& forall|k: Seq<char>| #[trigger] m.dom().contains(k) ==> m[v].used_at <= m[k].used_at
    &&& forall|k: Seq<char>|
        #[trigger] m.dom().contains(k) && k != v && m[k].used_at == m[v].used_at ==> key_before(v, k)
}

/// The entries left before a `put` of a key `k` at `now` stores its value:
/// all of them when `k` is present or there is room; otherwise the expired
/// ones go, and if that frees no room, the least recently read one goes too
/// (of several read equally long ago, the one with the smallest key).
pub open spec fn put_survivors(
    m: Map<Seq<char>, Stored>,
    size: nat,
    k: Seq<char>,
    now: u64,
    survivors: Map<Seq<char>, Stored>,
) -> bool {
    if m.dom().contains(k) || m.len() < size {
        survivors == m
    } else {
        let a = alive_part(m, now);
        if a.len() < size || a.len() == 0 {
            survivors == a
        } else {
            exists|v: Seq<char>| is_least_recent(a, v) && survivors == a.remove(v)
        }
    }
}

spec fn entry_map(s: Seq<CacheEntry>) -> Map<Seq<char>, Stored>
    decreases s.len(),
{
    if s.len() == 0 {
        Map::empty()
    } else {
        entry_map(s.drop_last()).insert(s.last().key@, s.last().stored)
    }
}

spec fn unique_keys(s: Seq<CacheEntry>) -> bool {
    forall|i: int, j: int| 0 <= i < s.len() && 0 <= j < s.len() && i != j ==> s[i].key@ != s[j].key@
}

proof fn lemma_entry_map_dom(s: Seq<CacheEntry>, k: Seq<char>)
    ensures
        entry_map(s).dom().contains(k) <==> exists|i: int| 0 <= i < s.len() && (#[trigger] s[i]).key@ == k,
    decreases s.len(),
{
    if s.len() > 0 {
        lemma_entry_map_dom(s.drop_last(), k);
        if entry_map(s).dom().contains(k) && k != s.last().key@ {
            let i = choose|i: int| 0 <= i < s.drop_last().len() && (#[trigger] s.drop_last()[i]).key@ == k;
            assert(s[i] == s.drop_last()[i]);
        }
        if exists|i: int| 0 <= i < s.len() && (#[trigger] s[i]).key@ == k {
            let i = choose|i: int| 0 <= i < s.len() && (#[trigger] s[i]).key@ == k;
            if i < s.len() - 1 {
                assert(s.drop_last()[i] == s[i]);
            }
        }
    }
}

proof fn lemma_entry_map_index(s: Seq<CacheEntry>, i: int)
    requires
        unique_keys(s),
        0 <= i < s.len(),
    ensures
        entry_map(s).dom().contains(s[i].key@),
        entry_map(s)[s[i].key@] == s[i].stored,
    decreases s.len(),
{
    if i < s.len() - 1 {
        assert(unique_keys(s.drop_last()));
        assert(s.drop_last()[i] == s[i]);
        lemma_entry_map_index(s.drop_last(), i);
    }
}

proof fn lemma_entry_map_len(s: Seq<CacheEntry>)
    requires
        unique_keys(s),
    ensures
        entry_map(s).dom().finite(),
        entry_map(s).len() == s.len(),
    decreases s.len(),
{
    if s.len() > 0 {
        assert(unique_keys(s.drop_last()));
        lemma_entry_map_len(s.drop_last());
        lemma_entry_map_dom(s.drop_last(), s.last().key@);
        if entry_map(s.drop_last()).dom().contains(s.last().key@) {
            let i = choose|i: int| 0 <= i < s.drop_last().len() && (#[trigger] s.drop_last()[i]).key@ == s.last().key@;
            assert(s[i] == s.drop_last()[i]);
        }
    }
}

/// Two entry lists with unique keys describe the same map when they agree
/// on which keys they hold and on what each key holds.
proof fn lemma_entry_map_ext(s: Seq<CacheEntry>, m: Map<Seq<char>, Stored>)
    requires
        unique_keys(s),
        forall|i: int| 0 <= i < s.len() ==> m.dom().contains((#[trigger] s[i]).key@) && m[s[i].key@] == s[i].stored,
        forall|k: Seq<char>| #[trigger] m.dom().contains(k) ==> exists|i: int| 0 <= i < s.len() && (#[trigger] s[i]).key@ == k,
    ensures
        entry_map(s) == m,
{
    assert forall|k: Seq<char>| entry_map(s).dom().contains(k) <==> m.dom().contains(k) by {
        lemma_entry_map_dom(s, k);
    }
    assert forall|k: Seq<char>| #[trigger] entry_map(s).dom().contains(k) implies entry_map(s)[k] == m[k] by {
        lemma_entry_map_dom(s, k);
        let i = choose|i: int| 0 <= i < s.len() && (#[trigger] s[i]).key@ == k;
        lemma_entry_map_index(s, i);
    }
    assert(entry_map(s) =~= m);
}

/// `Arc::clone` from std: another handle to the same value.
#[verifier::external_body]
pub(crate) fn share<T>(v: &Arc<T>) -> (r: Arc<T>)
    ensures
        r == *v,
{
    Arc::clone(v)
}

/// The stored entry `s` after a read at `now`.
pub open spec fn touched(s: Stored, now: u64) -> Stored {
    Stored { value: s.value, expires_in: s.expires_in, inserted_at: s.inserted_at, used_at: now }
}

/// The position of the entry with key `key`, if any.
fn find_key(entries: &Vec<CacheEntry>, key: &String) -> (r: Option<usize>)
    ensures
        r matches Some(i) ==> i < entries@.len() && entries@[i as int].key@ == key@,
        r is None ==> forall|i: int| 0 <= i < entries@.len() ==> (#[trigger] entries@[i]).key@ != key@,
{
    let mut i: usize = 0;
    while i < entries.len()
        invariant
            0 <= i <= entries@.len(),
            forall|j: int| 0 <= j < i ==> (#[trigger] entries@[j]).key@ != key@,
        decreases entries@.len() - i,
    {
        if entries[i].key == *key {
            return Some(i);
        }
        i += 1;
    }
    None
}

/// Whether the stored entry `s` is still valid at `now`.
fn alive_at(s: &Stored, now: u64) -> (b: bool)
    ensures
        b == is_alive(*s, now),
{
    (now as u128) < (s.inserted_at as u128) + (s.expires_in as u128)
}

/// Removes the entries that are no longer valid at `now`.
fn remove_expired(entries: &mut Vec<CacheEntry>, now: u64)
    requires
        unique_keys(old(entries)@),
    ensures
        unique_keys(final(entries)@),
        entry_map(final(entries)@) == alive_part(entry_map(old(entries)@), now),
        final(entries)@.len() <= old(entries)@.len(),
{
    let ghost orig = entry_map(entries@);
    let ghost target = alive_part(orig, now);
    proof {
        assert forall|j: int| 0 <= j < entries@.len() implies orig.dom().contains((#[trigger] entries@[j]).key@)
            && orig[entries@[j].key@] == entries@[j].stored by {
            lemma_entry_map_index(entries@, j);
        }
        assert forall|k: Seq<char>| #[trigger] target.dom().contains(k) implies exists|j: int|
            0 <= j < entries@.len() && (#[trigger] entries@[j]).key@ == k by {
            lemma_entry_map_dom(entries@, k);
        }
    }
    let mut i: usize = 0;
    while i < entries.len()
        invariant
            0 <= i <= entries@.len(),
            entries@.len() <= old(entries)@.len(),
            orig == entry_map(old(entries)@),
            target == alive_part(orig, now),
            unique_keys(entries@),
            forall|j: int| 0 <= j < i ==> is_alive((#[trigger] entries@[j]).stored, now),
            forall|j: int| 0 <= j < entries@.len() ==> orig.dom().contains((#[trigger] entries@[j]).key@)
                && orig[entries@[j].key@] == entries@[j].stored,
            forall|k: Seq<char>| #[trigger] target.dom().contains(k) ==> exists|j: int|
                0 <= j < entries@.len() && (#[trigger] entries@[j]).key@ == k,
        decreases entries@.len() - i,
    {
        if alive_at(&entries[i].stored, now) {
            i += 1;
        } else {
            let ghost before = entries@;
            let _gone = entries.remove(i);
            assert forall|k: Seq<char>| #[trigger] target.dom().contains(k) implies exists|j: int|
                0 <= j < entries@.len() && (#[trigger] entries@[j]).key@ == k by {
                let j = choose|j: int| 0 <= j < before.len() && (#[trigger] before[j]).key@ == k;
                assert(j != i);
                if j < i {
                    assert(entries@[j] == before[j]);
                } else {
                    assert(entries@[j - 1] == before[j]);
                }
            }
            assert forall|j: int| 0 <= j < entries@.len() implies orig.dom().contains((#[trigger] entries@[j]).key@)
                && orig[entries@[j].key@] == entries@[j].stored by {
                if j < i {
                    assert(entries@[j] == before[j]);
                } else {
                    assert(entries@[j] == before[j + 1]);
                }
            }
            assert forall|a: int, b: int| 0 <= a < entries@.len() && 0 <= b < entries@.len() && a != b implies
                entries@[a].key@ != entries@[b].key@ by {
                let a0 = if a < i { a } else { a + 1 };
                let b0 = if b < i { b } else { b + 1 };
                assert(entries@[a] == before[a0]);
                assert(entries@[b] == before[b0]);
            }
        }
    }
    proof {
        assert forall|j: int| 0 <= j < entries@.len() implies target.dom().contains((#[trigger] entries@[j]).key@)
            && target[entries@[j].key@] == entries@[j].stored by {
            assert(orig.dom().contains(entries@[j].key@));
        }
        lemma_entry_map_ext(entries@, target);
    }
}

proof fn lemma_bytes_before_transitive(a: Seq<u8>, b: Seq<u8>, c: Seq<u8>)
    requires
        bytes_before(a, b),
        bytes_before(b, c),
    ensures
        bytes_before(a, c),
    decreases a.len(),
{
    if a.len() > 0 && a[0] == b[0] && b[0] == c[0] {
        lemma_bytes_before_transitive(a.drop_first(), b.drop_first(), c.drop_first());
    }
}

proof fn lemma_bytes_before_asymmetric(a: Seq<u8>, b: Seq<u8>)
    ensures
        !(bytes_before(a, b) && bytes_before(b, a)),
    decreases a.len(),
{
    if a.len() > 0 && b.len() > 0 && a[0] == b[0] {
        lemma_bytes_before_asymmetric(a.drop_first(), b.drop_first());
    }
}

proof fn lemma_bytes_before_total(a: Seq<u8>, b: Seq<u8>)
    requires
        a != b,
    ensures
        bytes_before(a, b) || bytes_before(b, a),
    decreases a.len(),
{
    if a.len() == 0 && b.len() == 0 {
        assert(a =~= b);
    }
    if a.len() > 0 && b.len() > 0 && a[0] == b[0] {
        if a.drop_first() == b.drop_first() {
            assert(a =~= seq![a[0]] + a.drop_first());
            assert(b =~= seq![b[0]] + b.drop_first());
        }
        lemma_bytes_before_total(a.drop_first(), b.drop_first());
    }
}

/// At most one key of a cache is the one to evict: the least recently read
/// entries are told apart by their keys, so a full cache that has to make
/// room always drops the same entry.
pub proof fn law_eviction_choice_is_unique(m: Map<Seq<char>, Stored>, v: Seq<char>, w: Seq<char>)
    requires
        is_least_recent(m, v),
        is_least_recent(m, w),
    ensures
        v == w,
{
    if v != w {
        assert(m.dom().contains(w) && m.dom().contains(v));
        lemma_bytes_before_asymmetric(encode_utf8(v), encode_utf8(w));
    }
}

/// Distinct keys are ordered one way or the other.
proof fn lemma_key_before_total(a: Seq<char>, b: Seq<char>)
    requires
        a != b,
    ensures
        key_before(a, b) || key_before(b, a),
{
    vstd::utf8::encode_utf8_decode_utf8(a);
    vstd::utf8::encode_utf8_decode_utf8(b);
    lemma_bytes_before_total(encode_utf8(a), encode_utf8(b));
}

/// Whether `a` comes strictly before `b` in lexicographic byte order.
fn bytes_less(a: &[u8], b: &[u8]) -> (r: bool)
    ensures
        r == bytes_before(a@, b@),
{
    let mut i: usize = 0;
    assert(a@.skip(0) =~= a@ && b@.skip(0) =~= b@);
    while i < a.len() && i < b.len()
        invariant
            0 <= i <= a@.len(),
            i <= b@.len(),
            bytes_before(a@, b@) == bytes_before(a@.skip(i as int), b@.skip(i as int)),
        decreases a@.len() - i,
    {
        if a[i] != b[i] {
            return a[i] < b[i];
        }
        assert(a@.skip(i as int).drop_first() =~= a@.skip(i + 1));
        assert(b@.skip(i as int).drop_first() =~= b@.skip(i + 1));
        i += 1;
    }
    i < b.len()
}

/// Whether key `a` comes strictly before key `b` in `String` order.
fn key_less(a: &String, b: &String) -> (r: bool)
    ensures
        r == key_before(a@, b@),
{
    bytes_less(a.as_str().as_bytes(), b.as_str().as_bytes())
}

/// The position of an entry read no later than any other one, the one with
/// the smallest key among those read equally long ago.
fn least_recent_index(entries: &Vec<CacheEntry>) -> (r: usize)
    requires
        entries@.len() > 0,
        unique_keys(entries@),
    ensures
        r < entries@.len(),
        is_least_recent(entry_map(entries@), entries@[r as int].key@),
{
    let mut best: usize = 0;
    let mut i: usize = 1;
    while i < entries.len()
        invariant
            1 <= i <= entries@.len(),
            best < i,
            unique_keys(entries@),
            forall|j: int| 0 <= j < i ==> entries@[best as int].stored.used_at <= (#[trigger] entries@[j]).stored.used_at,
            forall|j: int|
                0 <= j < i && j != best && (#[trigger] entries@[j]).stored.used_at == entries@[best as int].stored.used_at
                    ==> key_before(entries@[best as int].key@, entries@[j].key@),
        decreases entries@.len() - i,
    {
        let ui = entries[i].stored.used_at;
        let ub = entries[best].stored.used_at;
        if ui < ub || (ui == ub && key_less(&entries[i].key, &entries[best].key)) {
            proof {
                assert forall|j: int|
                    0 <= j < i + 1 && j != i && (#[trigger] entries@[j]).stored.used_at == entries@[i as int].stored.used_at
                    implies key_before(entries@[i as int].key@, entries@[j].key@) by {
                    if j != best {
                        lemma_bytes_before_transitive(
                            encode_utf8(entries@[i as int].key@),
                            encode_utf8(entries@[best as int].key@),
                            encode_utf8(entries@[j].key@),
                        );
                    }
                }
            }
            best = i;
        } else {
            proof {
                if ui == ub {
                    lemma_key_before_total(entries@[i as int].key@, entries@[best as int].key@);
                }
            }
        }
        i += 1;
    }
    proof {
        let m = entry_map(entries@);
        lemma_entry_map_index(entries@, best as int);
        let v = entries@[best as int].key@;
        assert forall|k: Seq<char>| #[trigger] m.dom().contains(k) implies m[v].used_at <= m[k].used_at
            && (k != v && m[k].used_at == m[v].used_at ==> key_before(v, k)) by {
            lemma_entry_map_dom(entries@, k);
            let j = choose|j: int| 0 <= j < entries@.len() && (#[trigger] entries@[j]).key@ == k;
            lemma_entry_map_index(entries@, j);
        }
    }
    best
}

/// A key/value store whose entries expire, meant for several threads behind
/// one lock. The caller passes the current time `now` on each call.
pub trait Cache {
    /// Stores `value` under `key`, valid for `expires_in` ticks from `now`.
    fn put(&mut self, key: &str, value: Arc<Vec<u8>>, expires_in: u64, now: u64);

    /// The value stored under `key`, if it is present and still valid at
    /// `now`.
    fn get(&mut self, key: &str, now: u64) -> Option<Arc<Vec<u8>>>;
}

/// A cache of up to `size` distinct keys with least-recently-used
/// eviction: making room for a new key first drops the expired entries and,
/// if none had expired, the entry read longest ago (the smallest key among
/// entries read equally long ago). A cache of size 0 keeps
/// the last key put.
pub struct LRUCache {
    size: usize,
    entries: Vec<CacheEntry>,
}

impl LRUCache {
    /// Keys are unique and there are at most `size` of them (one for a
    /// cache of size 0).
    #[verifier::type_invariant]
    spec fn wf(self) -> bool {
        &&& unique_keys(self.entries@)
        &&& self.entries@.len() <= self.size || self.entries@.len() <= 1
    }

    /// The number of distinct keys the cache holds at most.
    pub closed spec fn capacity(&self) -> nat {
        self.size as nat
    }

    /// An empty cache for up to `size` keys.
    pub fn new(size: usize) -> (c: Self)
        ensures
            c@ == Map::<Seq<char>, Stored>::empty(),
            c.capacity() == size,
    {
        let c = LRUCache { size, entries: Vec::new() };
        assert(entry_map(c.entries@) =~= Map::<Seq<char>, Stored>::empty());
        c
    }
}

impl View for LRUCache {
    type V = Map<Seq<char>, Stored>;

    /// The entries, by key.
    closed spec fn view(&self) -> Map<Seq<char>, Stored> {
        entry_map(self.entries@)
    }
}

impl Cache for LRUCache {
    fn put(&mut self, key: &str, value: Arc<Vec<u8>>, expires_in: u64, now: u64)
        ensures
            final(self).capacity() == old(self).capacity(),
            final(self)@.dom().finite(),
            final(self)@.len() <= final(self).capacity() || final(self)@.len() <= 1,
            exists|survivors: Map<Seq<char>, Stored>|
                #[trigger] put_survivors(old(self)@, old(self).capacity(), key@, now, survivors)
                    && final(self)@ == survivors.insert(
                    key@,
                    Stored { value: value, expires_in: expires_in, inserted_at: now, used_at: now },
                ),
    {
        proof {
            use_type_invariant(&*self);
            lemma_entry_map_len(self.entries@);
        }
        let ghost m = self@;
        let k = key.to_owned();
        let mut entries: Vec<CacheEntry> = Vec::new();
        core::mem::swap(&mut self.entries, &mut entries);
        let found = find_key(&entries, &k);
        proof {
            lemma_entry_map_dom(entries@, k@);
        }
        if found.is_none() && entries.len() >= self.size {
            remove_expired(&mut entries, now);
            proof {
                lemma_entry_map_len(entries@);
            }
            if entries.len() >= self.size && entries.len() > 0 {
                let v = least_recent_index(&entries);
                let ghost before = entries@;
                let _gone = entries.remove(v);
                proof {
                    let a = entry_map(before);
                    lemma_entry_map_index(before, v as int);
                    assert forall|x: int, y: int| 0 <= x < entries@.len() && 0 <= y < entries@.len() && x != y implies
                        entries@[x].key@ != entries@[y].key@ by {
                        let x0 = if x < v { x } else { x + 1 };
                        let y0 = if y < v { y } else { y + 1 };
                        assert(entries@[x] == before[x0]);
                        assert(entries@[y] == before[y0]);
                    }
                    assert forall|j: int| 0 <= j < entries@.len() implies a.remove(before[v as int].key@).dom().contains(
                        (#[trigger] entries@[j]).key@,
                    ) && a.remove(before[v as int].key@)[entries@[j].key@] == entries@[j].stored by {
                        let j0 = if j < v { j } else { j + 1 };
                        assert(entries@[j] == before[j0]);
                        lemma_entry_map_index(before, j0);
                    }
                    assert forall|q: Seq<char>| #[trigger] a.remove(before[v as int].key@).dom().contains(q) implies exists|j: int|
                        0 <= j < entries@.len() && (#[trigger] entries@[j]).key@ == q by {
                        lemma_entry_map_dom(before, q);
                        let j0 = choose|j: int| 0 <= j < before.len() && (#[trigger] before[j]).key@ == q;
                        if j0 < v {
                            assert(entries@[j0] == before[j0]);
                        } else {
                            assert(entries@[j0 - 1] == before[j0]);
                        }
                    }
                    lemma_entry_map_ext(entries@, a.remove(before[v as int].key@));
                    assert(put_survivors(m, self.size as nat, k@, now, entry_map(entries@)));
                }
            }
            proof {
                lemma_entry_map_dom(entries@, k@);
                lemma_entry_map_len(entries@);
            }
        }
        let ghost survivors = entry_map(entries@);
        assert(put_survivors(m, self.size as nat, k@, now, survivors));
        let new_entry = CacheEntry {
            key: k,
            stored: Stored { value: value, expires_in: expires_in, inserted_at: now, used_at: now },
        };
        let ghost before = entries@;
        match found {
            Some(i) => {
                entries.set(i, new_entry);
                proof {
                    assert forall|x: int, y: int| 0 <= x < entries@.len() && 0 <= y < entries@.len() && x != y implies
                        entries@[x].key@ != entries@[y].key@ by {
                        assert(x != i ==> entries@[x] == before[x]);
                        assert(y != i ==> entries@[y] == before[y]);
                    }
                    let target = survivors.insert(key@, new_entry.stored);
                    assert forall|j: int| 0 <= j < entries@.len() implies target.dom().contains((#[trigger] entries@[j]).key@)
                        && target[entries@[j].key@] == entries@[j].stored by {
                        if j != i {
                            assert(entries@[j] == before[j]);
                            lemma_entry_map_index(before, j);
                        }
                    }
                    assert forall|q: Seq<char>| #[trigger] target.dom().contains(q) implies exists|j: int|
                        0 <= j < entries@.len() && (#[trigger] entries@[j]).key@ == q by {
                        if q != key@ {
                            lemma_entry_map_dom(before, q);
                            let j0 = choose|j: int| 0 <= j < before.len() && (#[trigger] before[j]).key@ == q;
                            assert(entries@[j0] == before[j0]);
                        } else {
                            assert(entries@[i as int].key@ == q);
                        }
                    }
                    lemma_entry_map_ext(entries@, target);
                }
            },
            None => {
                entries.push(new_entry);
                proof {
                    assert(entries@.drop_last() =~= before);
                    assert forall|x: int, y: int| 0 <= x < entries@.len() && 0 <= y < entries@.len() && x != y implies
                        entries@[x].key@ != entries@[y].key@ by {
                        assert(x < before.len() ==> entries@[x] == before[x]);
                        assert(y < before.len() ==> entries@[y] == before[y]);
                    }
                    lemma_entry_map_len(before);
                }
            },
        }
        proof {
            lemma_entry_map_len(entries@);
            assert(m == old(self)@);
            assert(put_survivors(old(self)@, old(self).capacity(), key@, now, survivors));
            assert(entry_map(entries@) == survivors.insert(
                key@,
                Stored { value: value, expires_in: expires_in, inserted_at: now, used_at: now },
            ));
        }
        self.entries = entries;
    }

    fn get(&mut self, key: &str, now: u64) -> (r: Option<Arc<Vec<u8>>>)
        ensures
            final(self).capacity() == old(self).capacity(),
            old(self)@.dom().contains(key@) && is_alive(old(self)@[key@], now) ==> r == Some(
                old(self)@[key@].value,
            ) && final(self)@ == old(self)@.insert(key@, touched(old(self)@[key@], now)),
            !(old(self)@.dom().contains(key@) && is_alive(old(self)@[key@], now)) ==> r is None && final(self)@
                == old(self)@,
    {
        proof {
            use_type_invariant(&*self);
        }
        let ghost m = self@;
        let k = key.to_owned();
        let found = find_key(&self.entries, &k);
        proof {
            lemma_entry_map_dom(self.entries@, k@);
        }
        match found {
            Some(i) => {
                proof {
                    lemma_entry_map_index(self.entries@, i as int);
                }
                if alive_at(&self.entries[i].stored, now) {
                    let v = share(&self.entries[i].stored.value);
                    let mut entries: Vec<CacheEntry> = Vec::new();
                    core::mem::swap(&mut self.entries, &mut entries);
                    let ghost before = entries@;
                    let mut e = CacheEntry {
                        key: String::new(),
                        stored: Stored { value: share(&v), expires_in: 0, inserted_at: 0, used_at: 0 },
                    };
                    entries.set_and_swap(i, &mut e);
                    e.stored.used_at = now;
                    entries.set(i, e);
                    proof {
                        assert forall|x: int, y: int| 0 <= x < entries@.len() && 0 <= y < entries@.len() && x != y implies
                            entries@[x].key@ != entries@[y].key@ by {
                            assert(x != i ==> entries@[x] == before[x]);
                            assert(y != i ==> entries@[y] == before[y]);
                        }
                        let target = m.insert(k@, touched(m[k@], now));
                        assert forall|j: int| 0 <= j < entries@.len() implies target.dom().contains((#[trigger] entries@[j]).key@)
                            && target[entries@[j].key@] == entries@[j].stored by {
                            if j != i {
                                assert(entries@[j] == before[j]);
                                lemma_entry_map_index(before, j);
                            }
                        }
                        assert forall|q: Seq<char>| #[trigger] target.dom().contains(q) implies exists|j: int|
                            0 <= j < entries@.len() && (#[trigger] entries@[j]).key@ == q by {
                            lemma_entry_map_dom(before, q);
                            let j0 = choose|j: int| 0 <= j < before.len() && (#[trigger] before[j]).key@ == q;
                            assert(entries@[j0].key@ == before[j0].key@);
                        }
                        lemma_entry_map_ext(entries@, target);
                    }
                    self.entries = entries;
                    Some(v)
                } else {
                    None
                }
            },
            None => None,
        }
    }
}

/// Read your write: right after `put(k, value, expires_in)` at `now`, the
/// cache holds `value` under `k`, and a `get(k)` at a later time `later`
/// finds it exactly while `later < now + expires_in`.
pub proof fn law_put_then_get(
    m: Map<Seq<char>, Stored>,
    size: nat,
    k: Seq<char>,
    value: Arc<Vec<u8>>,
    expires_in: u64,
    now: u64,
    survivors: Map<Seq<char>, Stored>,
    later: u64,
)
    requires
        put_survivors(m, size, k, now, survivors),
        now <= later,
    ensures
        ({
            let after = survivors.insert(
                k,
                Stored { value: value, expires_in: expires_in, inserted_at: now, used_at: now },
            );
            &&& after.dom().contains(k)
            &&& after[k].value == value
            &&& is_alive(after[k], later) <==> later < now + expires_in
        }),
{
}

/// Expired entries go first: when a `put` of a new key finds the cache full
/// but some entry expired, exactly the valid entries stay, and none of them
/// is evicted.
pub proof fn law_expired_evicted_first(
    m: Map<Seq<char>, Stored>,
    size: nat,
    k: Seq<char>,
    now: u64,
    survivors: Map<Seq<char>, Stored>,
)
    requires
        m.dom().finite(),
        m.len() <= size || m.len() <= 1,
        m.len() >= size,
        !m.dom().contains(k),
        alive_part(m, now).len() < m.len(),
        put_survivors(m, size, k, now, survivors),
    ensures
        survivors == alive_part(m, now),
{
}

/// Least recently used: when a `put` of a new key finds the cache full and
/// nothing expired, exactly one entry leaves, one read no later than any
/// other.
pub proof fn law_least_recent_evicted(
    m: Map<Seq<char>, Stored>,
    size: nat,
    k: Seq<char>,
    now: u64,
    survivors: Map<Seq<char>, Stored>,
)
    requires
        m.dom().finite(),
        m.len() >= size,
        m.len() > 0,
        !m.dom().contains(k),
        forall|q: Seq<char>| #[trigger] m.dom().contains(q) ==> is_alive(m[q], now),
        put_survivors(m, size, k, now, survivors),
    ensures
        exists|v: Seq<char>| is_least_recent(m, v) && survivors == m.remove(v),
{
    assert(alive_part(m, now) =~= m);
}

} // verus!
