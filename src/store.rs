//! The expiring key/value store.
use vstd::prelude::*;
use crate::util::bytes_equal;

verus! {

/// A stored value as the contracts see it: its bytes and the instant, in
/// milliseconds since the Unix epoch, from which it reads as absent.
pub struct Entry {
    pub value: Seq<u8>,
    pub expires_at: Option<u128>,
}

/// What a read of `key` at instant `now` finds in `m`.
pub open spec fn lookup_at(m: Map<Seq<u8>, Entry>, key: Seq<u8>, now: u128) -> Option<Seq<u8>> {
    if !m.contains_key(key) {
        None
    } else {
        match m[key].expires_at {
            None => Some(m[key].value),
            Some(t) => if now < t {
                Some(m[key].value)
            } else {
                None
            },
        }
    }
}

/// The instant `ttl` milliseconds after `now`, or the last one there is.
pub open spec fn expiry_after(now: u128, ttl: u32) -> u128 {
    if now + ttl <= u128::MAX {
        (now + ttl) as u128
    } else {
        u128::MAX
    }
}

pub open spec fn opt_bytes(o: Option<Vec<u8>>) -> Option<Seq<u8>> {
    match o {
        Some(v) => Some(v@),
        None => None,
    }
}

/// A mapping from keys to values that may expire.
pub trait Store {
    spec fn inv(&self) -> bool;

    spec fn entries(&self) -> Map<Seq<u8>, Entry>;

    /// Stores `value` under `key` with no expiry, replacing what was there.
    fn set(&mut self, key: Vec<u8>, value: Vec<u8>)
        requires
            old(self).inv(),
        ensures
            final(self).inv(),
            final(self).entries() == old(self).entries().insert(
                key@,
                Entry { value: value@, expires_at: None },
            ),
    ;

    /// Stores `value` under `key` until `expiry_in_millis` after the present
    /// instant, replacing what was there.
    fn set_expiring(&mut self, key: Vec<u8>, value: Vec<u8>, expiry_in_millis: u32)
        requires
            old(self).inv(),
        ensures
            final(self).inv(),
            exists|now: u128|
                final(self).entries() == old(self).entries().insert(
                    key@,
                    Entry { value: value@, expires_at: Some(expiry_after(now, expiry_in_millis)) },
                ),
    ;

    /// The value under `key` at the present instant.
    fn get(&self, key: &Vec<u8>) -> (r: Option<Vec<u8>>)
        requires
            self.inv(),
        ensures
            exists|now: u128| opt_bytes(r) == lookup_at(self.entries(), key@, now),
    ;
}

/// A stored value.
pub struct Value {
    data: Vec<u8>,
    expires_at: Option<u128>,
}

impl View for Value {
    type V = Entry;

    closed spec fn view(&self) -> Entry {
        Entry { value: self.data@, expires_at: self.expires_at }
    }
}

/// The store of one server: keys and values side by side, keys distinct.
pub struct InMemStore {
    keys: Vec<Vec<u8>>,
    values: Vec<Value>,
    contents: Ghost<Map<Seq<u8>, Entry>>,
}

/// Relies on SystemTime::elapsed on the Unix epoch: the wall-clock time in
/// milliseconds; a clock set before the epoch reads as zero.
#[verifier::external_body]
fn current_timestamp() -> u128 {
    match std::time::UNIX_EPOCH.elapsed() {
        Ok(d) => d.as_millis(),
        Err(_) => 0,
    }
}

/// A fresh vector with the bytes of `a`.
pub fn copy_bytes(a: &Vec<u8>) -> (r: Vec<u8>)
    ensures
        r@ == a@,
{
    let mut r: Vec<u8> = Vec::new();
    let mut i: usize = 0;
    while i < a.len()
        invariant
            i <= a@.len(),
            r@ == a@.take(i as int),
        decreases a@.len() - i,
    {
        r.push(a[i]);
        i = i + 1;
        assert(r@ =~= a@.take(i as int));
    }
    assert(a@.take(i as int) =~= a@);
    r
}

impl InMemStore {
    pub closed spec fn wf(&self) -> bool {
        &&& self.keys@.len() == self.values@.len()
        &&& forall|i: int, j: int|
            0 <= i < j < self.keys@.len() ==> self.keys@[i]@ != self.keys@[j]@
        &&& forall|k: Seq<u8>|
            #![trigger self.contents@.contains_key(k)]
            self.contents@.contains_key(k) <==> exists|i: int|
                0 <= i < self.keys@.len() && self.keys@[i]@ == k
        &&& forall|i: int|
            #![trigger self.keys@[i]]
            0 <= i < self.keys@.len() ==> self.contents@[self.keys@[i]@] == self.values@[i]@
    }

    pub closed spec fn view_map(&self) -> Map<Seq<u8>, Entry> {
        self.contents@
    }

    pub fn new() -> (r: InMemStore)
        ensures
            r.wf(),
            r.view_map() == Map::<Seq<u8>, Entry>::empty(),
    {
        InMemStore { keys: Vec::new(), values: Vec::new(), contents: Ghost(Map::empty()) }
    }

    fn find(&self, key: &Vec<u8>) -> (r: Option<usize>)
        requires
            self.wf(),
        ensures
            r matches Some(i) ==> i < self.keys@.len() && self.keys@[i as int]@ == key@,
            r is None ==> !self.contents@.contains_key(key@),
    {
        let mut i: usize = 0;
        while i < self.keys.len()
            invariant
                self.wf(),
                i <= self.keys@.len(),
                forall|j: int| 0 <= j < i ==> self.keys@[j]@ != key@,
            decreases self.keys@.len() - i,
        {
            if bytes_equal(self.keys[i].as_slice(), key.as_slice()) {
                return Some(i);
            }
            i = i + 1;
        }
        None
    }

    fn put(&mut self, key: Vec<u8>, value: Value)
        requires
            old(self).wf(),
        ensures
            final(self).wf(),
            final(self).contents@ == old(self).contents@.insert(key@, value@),
    {
        let ghost e = value@;
        match self.find(&key) {
            Some(i) => {
                self.values.set(i, value);
                self.contents = Ghost(self.contents@.insert(key@, e));
                assert forall|k: Seq<u8>| #[trigger]
                    self.contents@.contains_key(k) <==> exists|j: int|
                        0 <= j < self.keys@.len() && self.keys@[j]@ == k by {
                    if k == key@ {
                        assert(self.keys@[i as int]@ == k);
                    } else if old(self).contents@.contains_key(k) {
                        let j = choose|j: int| 0 <= j < self.keys@.len() && self.keys@[j]@ == k;
                    }
                }
            },
            None => {
                let ghost kv = key@;
                self.keys.push(key);
                self.values.push(value);
                self.contents = Ghost(self.contents@.insert(kv, e));
                let ghost n: int = self.keys@.len() - 1;
                assert forall|k: Seq<u8>| #[trigger]
                    self.contents@.contains_key(k) <==> exists|j: int|
                        0 <= j < self.keys@.len() && self.keys@[j]@ == k by {
                    if k == kv {
                        assert(self.keys@[n]@ == k);
                    } else if old(self).contents@.contains_key(k) {
                        let j = choose|j: int|
                            0 <= j < old(self).keys@.len() && old(self).keys@[j]@ == k;
                        assert(self.keys@[j]@ == k);
                    }
                }
                assert forall|a: int, b: int|
                    0 <= a < b < self.keys@.len() implies self.keys@[a]@ != self.keys@[b]@ by {
                    if b == n {
                        assert(old(self).contents@.contains_key(old(self).keys@[a]@));
                    }
                }
            },
        }
    }

    /// Stores `value` under `key` until the instant `expires_at`.
    pub fn set_expiring_at(&mut self, key: Vec<u8>, value: Vec<u8>, expires_at: u128)
        requires
            old(self).wf(),
        ensures
            final(self).wf(),
            final(self).view_map() == old(self).view_map().insert(
                key@,
                Entry { value: value@, expires_at: Some(expires_at) },
            ),
    {
        let v = Value { data: value, expires_at: Some(expires_at) };
        self.put(key, v);
    }

    /// The value under `key` as read at the instant `now`.
    pub fn get_at(&self, key: &Vec<u8>, now: u128) -> (r: Option<Vec<u8>>)
        requires
            self.wf(),
        ensures
            opt_bytes(r) == lookup_at(self.view_map(), key@, now),
    {
        match self.find(key) {
            None => None,
            Some(i) => {
                let v = &self.values[i];
                let live = match v.expires_at {
                    None => true,
                    Some(t) => now < t,
                };
                if live {
                    Some(copy_bytes(&v.data))
                } else {
                    None
                }
            },
        }
    }
}

/// The instant `ttl` milliseconds after `now`, or the last one there is.
pub fn expiry_after_exec(now: u128, ttl: u32) -> (r: u128)
    ensures
        r == expiry_after(now, ttl),
{
    if now <= u128::MAX - ttl as u128 {
        now + ttl as u128
    } else {
        u128::MAX
    }
}

impl Store for InMemStore {
    open spec fn inv(&self) -> bool {
        self.wf()
    }

    open spec fn entries(&self) -> Map<Seq<u8>, Entry> {
        self.view_map()
    }

    fn set(&mut self, key: Vec<u8>, value: Vec<u8>) {
        let v = Value { data: value, expires_at: None };
        self.put(key, v);
    }

    fn set_expiring(&mut self, key: Vec<u8>, value: Vec<u8>, expiry_in_millis: u32) {
        let timestamp = current_timestamp();
        let expires_at = expiry_after_exec(timestamp, expiry_in_millis);
        self.set_expiring_at(key, value, expires_at);
    }

    fn get(&self, key: &Vec<u8>) -> (r: Option<Vec<u8>>) {
        let now = current_timestamp();
        let r = self.get_at(key, now);
        assert(opt_bytes(r) == lookup_at(self.entries(), key@, now));
        r
    }
}

/// Once a value was stored with an expiry `ttl` milliseconds after `t0`, a
/// read at any instant before `t0 + ttl` finds that value and a read at any
/// later instant finds nothing; no earlier value shows through.
pub proof fn lemma_passive_expiry(
    m: Map<Seq<u8>, Entry>,
    key: Seq<u8>,
    value: Seq<u8>,
    t0: u128,
    ttl: u32,
    t: u128,
)
    requires
        t0 + ttl <= u128::MAX,
    ensures
        ({
            let m2 = m.insert(key, Entry { value, expires_at: Some(expiry_after(t0, ttl)) });
            &&& t < t0 + ttl ==> lookup_at(m2, key, t) == Some(value)
            &&& t >= t0 + ttl ==> lookup_at(m2, key, t) is None
        }),
{
}

/// The later of two writes to a key decides what it holds: a plain write
/// reads back its value at every instant, whatever expiry the earlier write set.
pub proof fn lemma_write_wins(m: Map<Seq<u8>, Entry>, key: Seq<u8>, first: Entry, second: Entry, now: u128)
    ensures
        m.insert(key, first).insert(key, second)[key] == second,
        second.expires_at is None ==> lookup_at(m.insert(key, first).insert(key, second), key, now)
            == Some(second.value),
{
}

} // verus!
