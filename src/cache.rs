//! A cache of answers, keyed by normalized question, with expiry and
//! least-recently-used eviction.
use vstd::prelude::*;
use crate::dns::{labels_view, message_opt_view, Message, MessageV, Question, QuestionV};
use crate::settings::CacheSettings;

verus! {

/// ASCII lower case of one octet.
pub open spec fn lower_byte(b: u8) -> u8 {
    if 65 <= b <= 90 {
        (b + 32) as u8
    } else {
        b
    }
}

/// A name with its ASCII letters in lower case.
pub open spec fn lower_name(n: Seq<Seq<u8>>) -> Seq<Seq<u8>> {
    Seq::new(n.len(), |i: int| Seq::new(n[i].len(), |j: int| lower_byte(n[i][j])))
}

/// The key of a cache entry: the lower-case name, the type and the class.
#[derive(Debug)]
pub struct CacheKey {
    pub qname: Vec<Vec<u8>>,
    pub qtype: u16,
    pub qclass: u16,
}

/// The value of a cache key.
pub struct KeyV {
    pub qname: Seq<Seq<u8>>,
    pub qtype: u16,
    pub qclass: u16,
}

impl View for CacheKey {
    type V = KeyV;

    open spec fn view(&self) -> KeyV {
        KeyV { qname: labels_view(self.qname@), qtype: self.qtype, qclass: self.qclass }
    }
}

/// The key under which the answer to a question is kept.
pub open spec fn key_of(q: QuestionV) -> KeyV {
    KeyV { qname: lower_name(q.qname), qtype: q.qtype, qclass: q.qclass }
}

/// Lower case of one label.
fn lower_label(l: &Vec<u8>) -> (r: Vec<u8>)
    ensures
        r@ == Seq::new(l@.len(), |j: int| lower_byte(l@[j])),
{
    let mut r: Vec<u8> = Vec::new();
    let mut i: usize = 0;
    while i < l.len()
        invariant
            i <= l@.len(),
            r@ == Seq::new(i as nat, |j: int| lower_byte(l@[j])),
        decreases l@.len() - i,
    {
        let b = l[i];
        let c: u8 = if 65 <= b && b <= 90 {
            b + 32
        } else {
            b
        };
        r.push(c);
        i = i + 1;
        assert(r@ =~= Seq::new(i as nat, |j: int| lower_byte(l@[j])));
    }
    r
}

/// Whether two names are equal label by label.
fn labels_equal(a: &Vec<Vec<u8>>, b: &Vec<Vec<u8>>) -> (r: bool)
    ensures
        r == (labels_view(a@) == labels_view(b@)),
{
    if a.len() != b.len() {
        assert(labels_view(a@).len() != labels_view(b@).len());
        return false;
    }
    let mut i: usize = 0;
    while i < a.len()
        invariant
            i <= a@.len(),
            a@.len() == b@.len(),
            forall|j: int| 0 <= j < i ==> (#[trigger] a@[j])@ == b@[j]@,
        decreases a@.len() - i,
    {
        let x = &a[i];
        let y = &b[i];
        if x.len() != y.len() {
            assert(labels_view(a@)[i as int] != labels_view(b@)[i as int]);
            return false;
        }
        let mut k: usize = 0;
        while k < x.len()
            invariant
                k <= x@.len(),
                x@.len() == y@.len(),
                i < a@.len(),
                a@.len() == b@.len(),
                x@ == a@[i as int]@,
                y@ == b@[i as int]@,
                forall|j: int| 0 <= j < k ==> x@[j] == y@[j],
            decreases x@.len() - k,
        {
            if x[k] != y[k] {
                assert(labels_view(a@)[i as int] == x@);
                assert(labels_view(b@)[i as int] == y@);
                assert(x@[k as int] != y@[k as int]);
                return false;
            }
            k = k + 1;
        }
        assert(x@ =~= y@);
        i = i + 1;
    }
    assert(labels_view(a@) =~= labels_view(b@));
    true
}

/// A name with its ASCII letters in lower case.
pub fn lower_labels(n: &Vec<Vec<u8>>) -> (r: Vec<Vec<u8>>)
    ensures
        labels_view(r@) == lower_name(labels_view(n@)),
{
    let mut out: Vec<Vec<u8>> = Vec::new();
    let mut i: usize = 0;
    while i < n.len()
        invariant
            i <= n@.len(),
            out@.len() == i,
            forall|j: int| 0 <= j < i ==> (#[trigger] out@[j])@ == lower_name(labels_view(n@))[j],
        decreases n@.len() - i,
    {
        let l = lower_label(&n[i]);
        out.push(l);
        i = i + 1;
    }
    assert(labels_view(out@) =~= lower_name(labels_view(n@)));
    out
}

impl CacheKey {
    /// The key of a question: its name in lower case, its type and its class.
    pub fn of(q: &Question) -> (r: CacheKey)
        ensures
            r@ == key_of(q@),
    {
        CacheKey { qname: lower_labels(&q.qname), qtype: q.qtype, qclass: q.qclass }
    }

    /// Whether two keys are equal.
    pub fn equals(&self, other: &CacheKey) -> (r: bool)
        ensures
            r == (self@ == other@),
    {
        self.qtype == other.qtype && self.qclass == other.qclass && labels_equal(&self.qname, &other.qname)
    }
}

/// A kept answer.
#[derive(Debug)]
pub struct CacheEntry {
    pub key: CacheKey,
    pub message: Message,
    /// The time, in seconds, from which the entry counts as absent.
    pub expires: u64,
    /// When the entry was last written or read, on the cache's own clock.
    pub stamp: u64,
}

/// The value of a kept answer.
pub struct EntryV {
    pub key: KeyV,
    pub message: MessageV,
    pub expires: u64,
    pub stamp: u64,
}

impl View for CacheEntry {
    type V = EntryV;

    open spec fn view(&self) -> EntryV {
        EntryV { key: self.key@, message: self.message@, expires: self.expires, stamp: self.stamp }
    }
}

/// Previously resolved answers with their expiry times. Holds at most `size`
/// entries, one per key; a disabled cache holds none.
pub struct Cache {
    enabled: bool,
    size: usize,
    entries: Vec<CacheEntry>,
    clock: u64,
}

/// The value of a cache.
pub struct CacheV {
    pub enabled: bool,
    pub size: nat,
    pub entries: Seq<EntryV>,
    pub clock: u64,
}

impl View for Cache {
    type V = CacheV;

    closed spec fn view(&self) -> CacheV {
        CacheV {
            enabled: self.enabled,
            size: self.size as nat,
            entries: Seq::new(self.entries@.len(), |i: int| self.entries@[i]@),
            clock: self.clock,
        }
    }
}

/// Whether some entry has key `k`.
pub open spec fn has_key(es: Seq<EntryV>, k: KeyV) -> bool {
    exists|i: int| 0 <= i < es.len() && (#[trigger] es[i]).key == k
}

/// At most `size` entries, keys distinct, and none while disabled.
pub open spec fn cache_wf(c: CacheV) -> bool {
    &&& c.entries.len() <= c.size
    &&& !c.enabled ==> c.entries.len() == 0
    &&& forall|i: int, j: int|
        0 <= i < c.entries.len() && 0 <= j < c.entries.len() && i != j ==> (#[trigger] c.entries[i]).key
            != (#[trigger] c.entries[j]).key
}

/// The entry at `v` is one of the least recently used.
pub open spec fn is_lru(es: Seq<EntryV>, v: int) -> bool {
    &&& 0 <= v < es.len()
    &&& forall|j: int| 0 <= j < es.len() ==> es[v].stamp <= (#[trigger] es[j]).stamp
}

/// The expiry time of an entry written at `now` with a lifetime of `ttl` seconds.
pub open spec fn expiry(now: u64, ttl: u32) -> u64 {
    if now + ttl > u64::MAX {
        u64::MAX
    } else {
        (now + ttl) as u64
    }
}

/// The next value of the cache's clock.
pub open spec fn tick(c: u64) -> u64 {
    if c == u64::MAX {
        c
    } else {
        (c + 1) as u64
    }
}

/// What a lookup of `k` at `now` does to cache `c0`, giving `c1` and the answer `r`.
pub open spec fn query_post(c0: CacheV, k: KeyV, now: u64, c1: CacheV, r: Option<MessageV>) -> bool {
    &&& cache_wf(c1)
    &&& c1.enabled == c0.enabled
    &&& c1.size == c0.size
    &&& !c0.enabled ==> r is None
    &&& !has_key(c0.entries, k) ==> r is None && c1 == c0
    &&& forall|i: int|
        0 <= i < c0.entries.len() && (#[trigger] c0.entries[i]).key == k ==> if c0.entries[i].expires
            <= now {
            &&& r is None
            &&& c1.entries == c0.entries.remove(i)
            &&& c1.clock == c0.clock
        } else {
            &&& r == Some(c0.entries[i].message)
            &&& c1.entries == c0.entries.update(i, EntryV { stamp: c0.clock, ..c0.entries[i] })
            &&& c1.clock == tick(c0.clock)
        }
}

/// What keeping `m` under `k` for `ttl` seconds from `now` does to cache `c0`, giving `c1`.
pub open spec fn put_post(c0: CacheV, k: KeyV, m: MessageV, ttl: u32, now: u64, c1: CacheV) -> bool {
    &&& cache_wf(c1)
    &&& c1.enabled == c0.enabled
    &&& c1.size == c0.size
    &&& !c0.enabled || c0.size == 0 ==> c1 == c0
    &&& c0.enabled && c0.size > 0 ==> ({
        let e = EntryV { key: k, message: m, expires: expiry(now, ttl), stamp: c0.clock };
        &&& c1.clock == tick(c0.clock)
        &&& forall|i: int|
            0 <= i < c0.entries.len() && (#[trigger] c0.entries[i]).key == k ==> c1.entries
                == c0.entries.update(i, e)
        &&& !has_key(c0.entries, k) && c0.entries.len() < c0.size ==> c1.entries == c0.entries.push(e)
        &&& !has_key(c0.entries, k) && c0.entries.len() >= c0.size ==> exists|v: int|
            is_lru(c0.entries, v) && c1.entries == c0.entries.remove(v).push(e)
    })
}

/// After an answer is kept under a key in an enabled cache, a lookup of that key
/// before the entry expires finds that answer.
pub proof fn lemma_put_then_query(
    c0: CacheV,
    k: KeyV,
    m: MessageV,
    ttl: u32,
    now: u64,
    c1: CacheV,
    later: u64,
    c2: CacheV,
    r: Option<MessageV>,
)
    requires
        cache_wf(c0),
        c0.enabled,
        c0.size > 0,
        put_post(c0, k, m, ttl, now, c1),
        later < expiry(now, ttl),
        query_post(c1, k, later, c2, r),
    ensures
        r == Some(m),
{
    let e = EntryV { key: k, message: m, expires: expiry(now, ttl), stamp: c0.clock };
    let i: int = if has_key(c0.entries, k) {
        choose|i: int| 0 <= i < c0.entries.len() && (#[trigger] c0.entries[i]).key == k
    } else {
        c1.entries.len() - 1
    };
    if has_key(c0.entries, k) {
        assert(c1.entries == c0.entries.update(i, e));
    } else if c0.entries.len() < c0.size {
        assert(c1.entries == c0.entries.push(e));
    } else {
        let v = choose|v: int| is_lru(c0.entries, v) && c1.entries == c0.entries.remove(v).push(e);
        assert(c1.entries == c0.entries.remove(v).push(e));
    }
    assert(c1.entries[i] == e);
    assert(0 <= i < c1.entries.len());
}

impl Cache {
    /// An empty cache with the configured switch and bound.
    pub fn new(settings: &CacheSettings) -> (r: Cache)
        ensures
            r@ == (CacheV {
                enabled: settings.enabled,
                size: settings.size as nat,
                entries: Seq::empty(),
                clock: 0,
            }),
            cache_wf(r@),
    {
        let r = Cache { enabled: settings.enabled, size: settings.size, entries: Vec::new(), clock: 0 };
        assert(r@.entries =~= Seq::<EntryV>::empty());
        r
    }

    /// The position of the entry with key `key`, if any.
    fn find(&self, key: &CacheKey) -> (r: Option<usize>)
        ensures
            match r {
                Some(i) => i < self@.entries.len() && self@.entries[i as int].key == key@,
                None => !has_key(self@.entries, key@),
            },
    {
        let mut i: usize = 0;
        while i < self.entries.len()
            invariant
                i <= self.entries@.len(),
                forall|j: int| 0 <= j < i ==> (#[trigger] self@.entries[j]).key != key@,
            decreases self.entries@.len() - i,
        {
            if self.entries[i].key.equals(key) {
                return Some(i);
            }
            assert(self@.entries[i as int] == self.entries@[i as int]@);
            i = i + 1;
        }
        None
    }

    /// The position of the first least recently used entry.
    fn lru(&self) -> (r: usize)
        requires
            self@.entries.len() > 0,
        ensures
            is_lru(self@.entries, r as int),
    {
        let mut best: usize = 0;
        let mut i: usize = 1;
        while i < self.entries.len()
            invariant
                1 <= i <= self.entries@.len(),
                best < i,
                forall|j: int| 0 <= j < i ==> self@.entries[best as int].stamp <= (#[trigger] self@.entries[j]).stamp,
            decreases self.entries@.len() - i,
        {
            if self.entries[i].stamp < self.entries[best].stamp {
                best = i;
            }
            i = i + 1;
        }
        best
    }

    /// The answer kept for `key` at time `now`. An expired entry counts as absent
    /// and is evicted; a live one is stamped as used. A disabled cache always misses.
    pub fn query(&mut self, key: &CacheKey, now: u64) -> (r: Option<Message>)
        requires
            cache_wf(old(self)@),
        ensures
            query_post(old(self)@, key@, now, final(self)@, message_opt_view(r)),
    {
        let ghost before = self@;
        match self.find(key) {
            None => None,
            Some(i) => {
                if self.entries[i].expires <= now {
                    self.entries.remove(i);
                    assert(self@.entries =~= before.entries.remove(i as int));
                    None
                } else {
                    let m = self.entries[i].message.copy();
                    let mut e = self.entries.remove(i);
                    e.stamp = self.clock;
                    self.entries.insert(i, e);
                    self.clock = if self.clock == u64::MAX {
                        self.clock
                    } else {
                        self.clock + 1
                    };
                    assert(self@.entries =~= before.entries.update(
                        i as int,
                        EntryV { stamp: before.clock, ..before.entries[i as int] },
                    ));
                    Some(m)
                }
            },
        }
    }

    /// Keeps `message` under `key` for `ttl` seconds from `now`. An entry with the
    /// same key is replaced; otherwise, where the cache is full, a least recently
    /// used entry is evicted first. A disabled cache, or one of size zero, is left
    /// as it is.
    pub fn put(&mut self, key: CacheKey, message: Message, ttl: u32, now: u64)
        requires
            cache_wf(old(self)@),
        ensures
            put_post(old(self)@, key@, message@, ttl, now, final(self)@),
    {
        if !self.enabled || self.size == 0 {
            return;
        }
        let ghost before = self@;
        let expires: u64 = if now > u64::MAX - (ttl as u64) {
            u64::MAX
        } else {
            now + ttl as u64
        };
        let ghost k = key@;
        let e = CacheEntry { key, message, expires, stamp: self.clock };
        assert(e@ == EntryV { key: k, message: e.message@, expires: expiry(now, ttl), stamp: before.clock });
        match self.find(&e.key) {
            Some(i) => {
                self.entries.remove(i);
                self.entries.insert(i, e);
                assert(self@.entries =~= before.entries.update(i as int, e@));
            },
            None => {
                if self.entries.len() >= self.size {
                    let v = self.lru();
                    self.entries.remove(v);
                    self.entries.push(e);
                    assert(self@.entries =~= before.entries.remove(v as int).push(e@));
                } else {
                    self.entries.push(e);
                    assert(self@.entries =~= before.entries.push(e@));
                }
            },
        }
        self.clock = if self.clock == u64::MAX {
            self.clock
        } else {
            self.clock + 1
        };
    }
}

} // verus!
