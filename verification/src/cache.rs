use vstd::prelude::*;
use vstd::map::*;
use crate::outcome::{CacheOption, is_cloned_value, outcome_for};

verus! {

/// Relies on `std::time::SystemTime::now`, `SystemTime::duration_since` and
/// `Duration::as_millis`: the wall clock, read as milliseconds since the Unix
/// epoch. Nothing is assumed of the value returned; a clock set before the
/// epoch reads as zero.
#[verifier::external_body]
fn time_now() -> u128 {
    match std::time::SystemTime::now().duration_since(std::time::UNIX_EPOCH) {
        Ok(elapsed) => elapsed.as_millis(),
        Err(_) => 0,
    }
}

/// The deadline a value written at instant `now` receives under `ttl`:
/// their sum, saturating at the top of the timestamp range.
pub open spec fn expiry_of(ttl: u128, now: u128) -> u128 {
    if ttl + now <= u128::MAX {
        (ttl + now) as u128
    } else {
        u128::MAX
    }
}

fn expiry_time(ttl: u128, now: u128) -> (r: u128)
    ensures
        r == expiry_of(ttl, now),
{
    if now <= u128::MAX - ttl {
        ttl + now
    } else {
        u128::MAX
    }
}

/// A stored value together with the instant at which it stops being fresh.
#[derive(Debug, PartialEq)]
pub struct CacheValue<T> {
    pub value: T,
    pub expires_at: u128,
}

impl<T> CacheValue<T> {
    /// Stamps `value` with the deadline it gets when written at instant `now`.
    pub fn new_at(value: T, ttl: u128, now: u128) -> (r: Self)
        ensures
            r == (CacheValue { value, expires_at: expiry_of(ttl, now) }),
    {
        CacheValue { value, expires_at: expiry_time(ttl, now) }
    }

    /// Stamps `value` with the deadline `ttl` past the current wall-clock time.
    pub fn new(value: T, ttl: u128) -> (r: Self)
        ensures
            r.value == value,
            exists|now: u128| r.expires_at == #[trigger] expiry_of(ttl, now),
    {
        let now: u128 = time_now();
        let r = CacheValue::new_at(value, ttl, now);
        proof {
            assert(r.expires_at == expiry_of(ttl, now));
        }
        r
    }
}

/// One key of the cache together with its slot: `None` once declared but
/// not yet written, `Some` once a value has been written.
struct Entry<T> {
    key: String,
    slot: Option<CacheValue<T>>,
}

/// The slot stored under `key`, read back to front: `None` when no entry
/// carries the key.
spec fn lookup<T>(entries: Seq<Entry<T>>, key: Seq<char>) -> Option<Option<CacheValue<T>>>
    decreases entries.len(),
{
    if entries.len() == 0 {
        None
    } else if entries.last().key@ == key {
        Some(entries.last().slot)
    } else {
        lookup(entries.drop_last(), key)
    }
}

spec fn has_key<T>(entries: Seq<Entry<T>>, key: Seq<char>) -> bool {
    exists|j: int| 0 <= j < entries.len() && (#[trigger] entries[j].key@) == key
}

spec fn keys_unique<T>(entries: Seq<Entry<T>>) -> bool {
    forall|i: int, j: int|
        #![trigger entries[i].key@, entries[j].key@]
        0 <= i < j < entries.len() ==> entries[i].key@ != entries[j].key@
}

proof fn lemma_lookup_has_key<T>(entries: Seq<Entry<T>>, key: Seq<char>)
    ensures
        lookup(entries, key) is Some <==> has_key(entries, key),
    decreases entries.len(),
{
    if entries.len() == 0 {
    } else if entries.last().key@ == key {
        assert(entries[entries.len() - 1].key@ == key);
    } else {
        lemma_lookup_has_key(entries.drop_last(), key);
        if has_key(entries, key) {
            let j = choose|j: int| 0 <= j < entries.len() && (#[trigger] entries[j].key@) == key;
            assert(entries.drop_last()[j].key@ == key);
        }
        if has_key(entries.drop_last(), key) {
            let j = choose|j: int|
                0 <= j < entries.drop_last().len() && (#[trigger] entries.drop_last()[j].key@)
                    == key;
            assert(entries[j].key@ == key);
        }
    }
}

proof fn lemma_lookup_at_index<T>(entries: Seq<Entry<T>>, i: int, key: Seq<char>)
    requires
        keys_unique(entries),
        0 <= i < entries.len(),
        entries[i].key@ == key,
    ensures
        lookup(entries, key) == Some(entries[i].slot),
    decreases entries.len(),
{
    if i == entries.len() - 1 {
        assert(entries.last() == entries[i]);
    } else {
        assert(entries.last().key@ != key);
        assert(entries.drop_last()[i] == entries[i]);
        assert(keys_unique(entries.drop_last())) by {
            assert(forall|p: int, q: int|
                0 <= p < q < entries.drop_last().len() ==> entries.drop_last()[p]
                    == entries[p] && entries.drop_last()[q] == entries[q]);
        }
        lemma_lookup_at_index(entries.drop_last(), i, key);
    }
}

proof fn lemma_lookup_absent<T>(entries: Seq<Entry<T>>, key: Seq<char>)
    requires
        !has_key(entries, key),
    ensures
        lookup(entries, key) is None,
{
    lemma_lookup_has_key(entries, key);
}

/// Overwriting the entry at `i` with one carrying the same key changes what
/// `lookup` finds under that key and nothing else.
proof fn lemma_lookup_update<T>(entries: Seq<Entry<T>>, i: int, e: Entry<T>)
    requires
        keys_unique(entries),
        0 <= i < entries.len(),
        e.key@ == entries[i].key@,
    ensures
        keys_unique(entries.update(i, e)),
        forall|k: Seq<char>| #[trigger] lookup(entries.update(i, e), k) == (if k == e.key@ {
            Some(e.slot)
        } else {
            lookup(entries, k)
        }),
{
    let s2 = entries.update(i, e);
    assert forall|p: int, q: int|
        #![trigger s2[p].key@, s2[q].key@]
        0 <= p < q < s2.len() implies s2[p].key@ != s2[q].key@ by {
        assert(entries[p].key@ != entries[q].key@);
    }
    assert forall|k: Seq<char>| #[trigger] lookup(s2, k) == (if k == e.key@ {
        Some(e.slot)
    } else {
        lookup(entries, k)
    }) by {
        if k == e.key@ {
            lemma_lookup_at_index(s2, i, k);
        } else {
            lemma_lookup_has_key(entries, k);
            if has_key(entries, k) {
                let j = choose|j: int| 0 <= j < entries.len() && (#[trigger] entries[j].key@)
                    == k;
                assert(j != i);
                assert(s2[j] == entries[j]);
                lemma_lookup_at_index(entries, j, k);
                lemma_lookup_at_index(s2, j, k);
            } else {
                if has_key(s2, k) {
                    let j = choose|j: int| 0 <= j < s2.len() && (#[trigger] s2[j].key@) == k;
                    assert(j != i);
                    assert(entries[j].key@ == k);
                    assert(false);
                }
                lemma_lookup_absent(entries, k);
                lemma_lookup_absent(s2, k);
            }
        }
    }
}

/// Appending an entry under a key not yet present adds that key and leaves
/// every other key's `lookup` unchanged.
proof fn lemma_lookup_push<T>(entries: Seq<Entry<T>>, e: Entry<T>)
    requires
        keys_unique(entries),
        !has_key(entries, e.key@),
    ensures
        keys_unique(entries.push(e)),
        forall|k: Seq<char>| #[trigger] lookup(entries.push(e), k) == (if k == e.key@ {
            Some(e.slot)
        } else {
            lookup(entries, k)
        }),
{
    let s2 = entries.push(e);
    assert(s2.drop_last() =~= entries);
    assert forall|p: int, q: int|
        #![trigger s2[p].key@, s2[q].key@]
        0 <= p < q < s2.len() implies s2[p].key@ != s2[q].key@ by {
        if q == entries.len() {
            assert(s2[p] == entries[p]);
            assert(entries[p].key@ != e.key@);
        } else {
            assert(entries[p].key@ != entries[q].key@);
        }
    }
    assert forall|k: Seq<char>| #[trigger] lookup(s2, k) == (if k == e.key@ {
        Some(e.slot)
    } else {
        lookup(entries, k)
    }) by {
        assert(s2.last() == e);
    }
}

/// Deleting the entry at `i` removes its key and leaves every other key's
/// `lookup` unchanged.
proof fn lemma_lookup_remove<T>(entries: Seq<Entry<T>>, i: int)
    requires
        keys_unique(entries),
        0 <= i < entries.len(),
    ensures
        keys_unique(entries.remove(i)),
        forall|k: Seq<char>| #[trigger] lookup(entries.remove(i), k) == (if k
            == entries[i].key@ {
            None::<Option<CacheValue<T>>>
        } else {
            lookup(entries, k)
        }),
{
    let s2 = entries.remove(i);
    assert forall|j: int| 0 <= j < s2.len() implies #[trigger] s2[j] == (if j < i {
        entries[j]
    } else {
        entries[j + 1]
    }) by {}
    assert forall|p: int, q: int|
        #![trigger s2[p].key@, s2[q].key@]
        0 <= p < q < s2.len() implies s2[p].key@ != s2[q].key@ by {
        let p0 = if p < i { p } else { p + 1 };
        let q0 = if q < i { q } else { q + 1 };
        assert(entries[p0].key@ != entries[q0].key@);
    }
    assert forall|k: Seq<char>| #[trigger] lookup(s2, k) == (if k == entries[i].key@ {
        None::<Option<CacheValue<T>>>
    } else {
        lookup(entries, k)
    }) by {
        if k == entries[i].key@ {
            if has_key(s2, k) {
                let j = choose|j: int| 0 <= j < s2.len() && (#[trigger] s2[j].key@) == k;
                let j0 = if j < i { j } else { j + 1 };
                assert(entries[j0].key@ == entries[i].key@);
                assert(false);
            }
            lemma_lookup_absent(s2, k);
        } else {
            lemma_lookup_has_key(entries, k);
            if has_key(entries, k) {
                let j = choose|j: int| 0 <= j < entries.len() && (#[trigger] entries[j].key@)
                    == k;
                assert(j != i);
                let j2 = if j < i { j } else { j - 1 };
                assert(s2[j2] == entries[j]);
                lemma_lookup_at_index(entries, j, k);
                lemma_lookup_at_index(s2, j2, k);
            } else {
                if has_key(s2, k) {
                    let j = choose|j: int| 0 <= j < s2.len() && (#[trigger] s2[j].key@) == k;
                    let j0 = if j < i { j } else { j + 1 };
                    assert(entries[j0].key@ == k);
                    assert(false);
                }
                lemma_lookup_absent(entries, k);
                lemma_lookup_absent(s2, k);
            }
        }
    }
}

/// The mapping `m` after a write of `value` under `key` at instant `now`,
/// with deadlines stamped under `ttl`.
pub open spec fn with_written<T>(
    m: Map<Seq<char>, Option<CacheValue<T>>>,
    ttl: u128,
    key: Seq<char>,
    value: T,
    now: u128,
) -> Map<Seq<char>, Option<CacheValue<T>>> {
    m.insert(key, Some(CacheValue { value, expires_at: expiry_of(ttl, now) }))
}

/// A mapping from string keys to slots in which every written value carries
/// a deadline `ttl` past its write instant, and a read classifies the key
/// four ways.
pub struct Cache<T> {
    entries: Vec<Entry<T>>,
    ttl: u128,
}

impl<T> View for Cache<T> {
    type V = Map<Seq<char>, Option<CacheValue<T>>>;

    closed spec fn view(&self) -> Self::V {
        Map::new(
            |key: Seq<char>| lookup(self.entries@, key) is Some,
            |key: Seq<char>| lookup(self.entries@, key).unwrap(),
        )
    }
}

impl<T: Clone> Cache<T> {
    /// Internal shape of the entry list: no key occurs twice.
    pub closed spec fn well_formed(&self) -> bool {
        keys_unique(self.entries@)
    }

    /// The time-to-live this cache stamps on every write, fixed at
    /// construction.
    pub closed spec fn spec_ttl(&self) -> u128 {
        self.ttl
    }

    /// How a read of `key` at instant `now` classifies: never declared,
    /// declared but not written, written and still fresh, or written and
    /// past its deadline. A deadline met exactly still counts as fresh.
    pub open spec fn read_spec(&self, key: Seq<char>, now: u128) -> CacheOption<T> {
        if !self@.dom().contains(key) {
            CacheOption::Undefined
        } else {
            match self@[key] {
                None => CacheOption::Empty,
                Some(cv) => if cv.expires_at >= now {
                    CacheOption::Value(cv.value)
                } else {
                    CacheOption::Expired
                },
            }
        }
    }

    /// An empty cache that will stamp every write with `ttl`.
    pub fn new(ttl: u128) -> (r: Self)
        ensures
            r.well_formed(),
            r.spec_ttl() == ttl,
            r@ == Map::<Seq<char>, Option<CacheValue<T>>>::empty(),
    {
        let r = Cache { entries: Vec::new(), ttl };
        proof {
            assert(r@ =~= Map::<Seq<char>, Option<CacheValue<T>>>::empty());
        }
        r
    }

    /// The index of the entry carrying `key`, if one does.
    fn find(&self, key: &String) -> (r: Option<usize>)
        ensures
            match r {
                Some(i) => i < self.entries@.len() && self.entries@[i as int].key@ == key@,
                None => !has_key(self.entries@, key@),
            },
    {
        let mut i: usize = 0;
        while i < self.entries.len()
            invariant
                i <= self.entries@.len(),
                forall|j: int| 0 <= j < i ==> (#[trigger] self.entries@[j].key@) != key@,
            decreases self.entries@.len() - i,
        {
            if self.entries[i].key == *key {
                return Some(i);
            }
            i = i + 1;
        }
        None
    }

    /// Declares `key`: its slot becomes the empty one, whether or not the
    /// key was present before, so a declaration also resets.
    pub fn create(&mut self, key: String)
        requires
            old(self).well_formed(),
        ensures
            final(self).well_formed(),
            final(self).spec_ttl() == old(self).spec_ttl(),
            final(self)@ == old(self)@.insert(key@, None::<CacheValue<T>>),
    {
        let found = self.find(&key);
        let ghost key_view = key@;
        match found {
            Some(i) => {
                let e = Entry { key, slot: None };
                proof {
                    lemma_lookup_update(self.entries@, i as int, e);
                }
                self.entries.set(i, e);
            }
            None => {
                let e = Entry { key, slot: None };
                proof {
                    lemma_lookup_push(self.entries@, e);
                }
                self.entries.push(e);
            }
        }
        proof {
            assert(self@ =~= old(self)@.insert(key_view, None::<CacheValue<T>>));
        }
    }

    /// Writes `value` under `key` as of instant `now`: the key is declared
    /// if it was not, and its slot holds the value with a fresh deadline.
    pub fn update_at(&mut self, key: &String, value: T, now: u128)
        requires
            old(self).well_formed(),
        ensures
            final(self).well_formed(),
            final(self).spec_ttl() == old(self).spec_ttl(),
            final(self)@ == with_written(old(self)@, old(self).spec_ttl(), key@, value, now),
    {
        let cv = CacheValue::new_at(value, self.ttl, now);
        let found = self.find(key);
        match found {
            Some(i) => {
                let e = Entry { key: key.clone(), slot: Some(cv) };
                proof {
                    lemma_lookup_update(self.entries@, i as int, e);
                }
                self.entries.set(i, e);
            }
            None => {
                let e = Entry { key: key.clone(), slot: Some(cv) };
                proof {
                    lemma_lookup_push(self.entries@, e);
                }
                self.entries.push(e);
            }
        }
        proof {
            assert(self@ =~= with_written(old(self)@, old(self).spec_ttl(), key@, value, now));
        }
    }

    /// Writes `value` under `key` as of the current wall-clock time.
    pub fn update(&mut self, key: &String, value: T)
        requires
            old(self).well_formed(),
        ensures
            final(self).well_formed(),
            final(self).spec_ttl() == old(self).spec_ttl(),
            exists|now: u128| final(self)@ == #[trigger] with_written(
                old(self)@,
                old(self).spec_ttl(),
                key@,
                value,
                now,
            ),
    {
        let now: u128 = time_now();
        self.update_at(key, value, now);
        proof {
            assert(self@ == with_written(old(self)@, old(self).spec_ttl(), key@, value, now));
        }
    }

    /// Classifies `key` as of instant `now`; a `Value` outcome carries a
    /// clone of the stored value.
    pub fn get_at(&self, key: &String, now: u128) -> (r: CacheOption<T>)
        requires
            self.well_formed(),
        ensures
            outcome_for(self.read_spec(key@, now), r),
    {
        let found = self.find(key);
        match found {
            None => {
                proof {
                    lemma_lookup_absent(self.entries@, key@);
                }
                CacheOption::Undefined
            }
            Some(i) => {
                proof {
                    lemma_lookup_at_index(self.entries@, i as int, key@);
                }
                match &self.entries[i].slot {
                    None => CacheOption::Empty,
                    Some(cv) => {
                        if cv.expires_at >= now {
                            CacheOption::Value(cv.value.clone())
                        } else {
                            CacheOption::Expired
                        }
                    }
                }
            }
        }
    }

    /// Classifies `key` as of the current wall-clock time, sampled once for
    /// the whole read.
    pub fn get(&self, key: &String) -> (r: CacheOption<T>)
        requires
            self.well_formed(),
        ensures
            !self@.dom().contains(key@) ==> r is Undefined,
            self@.dom().contains(key@) && self@[key@] is None ==> r is Empty,
            self@.dom().contains(key@) && self@[key@] is Some ==> (is_cloned_value(
                r,
                self@[key@].unwrap().value,
            ) || r is Expired),
            exists|now: u128| outcome_for(#[trigger] self.read_spec(key@, now), r),
    {
        let now: u128 = time_now();
        let r = self.get_at(key, now);
        proof {
            assert(outcome_for(self.read_spec(key@, now), r));
        }
        r
    }

    /// Deletes `key` outright, handing back its slot: `Some` with whatever
    /// was stored when the key was present, `None` when it was not.
    pub fn remove(&mut self, key: &String) -> (r: Option<Option<CacheValue<T>>>)
        requires
            old(self).well_formed(),
        ensures
            final(self).well_formed(),
            final(self).spec_ttl() == old(self).spec_ttl(),
            final(self)@ == old(self)@.remove(key@),
            r == (if old(self)@.dom().contains(key@) {
                Some(old(self)@[key@])
            } else {
                None::<Option<CacheValue<T>>>
            }),
    {
        let found = self.find(key);
        match found {
            Some(i) => {
                proof {
                    lemma_lookup_at_index(self.entries@, i as int, key@);
                    lemma_lookup_remove(self.entries@, i as int);
                }
                let e = self.entries.remove(i);
                proof {
                    assert(self@ =~= old(self)@.remove(key@));
                }
                Some(e.slot)
            }
            None => {
                proof {
                    lemma_lookup_absent(self.entries@, key@);
                    assert(self@ =~= old(self)@.remove(key@));
                }
                None
            }
        }
    }

    /// Resets the slot of a present `key` to the empty one; an absent key
    /// is left undeclared.
    pub fn clean(&mut self, key: &String)
        requires
            old(self).well_formed(),
        ensures
            final(self).well_formed(),
            final(self).spec_ttl() == old(self).spec_ttl(),
            final(self)@ == (if old(self)@.dom().contains(key@) {
                old(self)@.insert(key@, None::<CacheValue<T>>)
            } else {
                old(self)@
            }),
    {
        let found = self.find(key);
        match found {
            Some(i) => {
                let e = Entry { key: key.clone(), slot: None };
                proof {
                    lemma_lookup_at_index(self.entries@, i as int, key@);
                    lemma_lookup_update(self.entries@, i as int, e);
                }
                self.entries.set(i, e);
                proof {
                    assert(self@ =~= old(self)@.insert(key@, None::<CacheValue<T>>));
                }
            }
            None => {
                proof {
                    lemma_lookup_absent(self.entries@, key@);
                }
            }
        }
    }
}

/// A key never declared on a fresh cache reads as undefined, at every
/// instant.
pub proof fn lemma_fresh_read_undefined<T: Clone>(c: Cache<T>, key: Seq<char>, now: u128)
    requires
        c@ == Map::<Seq<char>, Option<CacheValue<T>>>::empty(),
    ensures
        c.read_spec(key, now) is Undefined,
{
    assert(!c@.dom().contains(key));
}

/// A key declared but never since written reads as empty, at every instant.
pub proof fn lemma_declared_read_empty<T: Clone>(c: Cache<T>, key: Seq<char>, now: u128)
    requires
        c@.dom().contains(key),
        c@[key] is None,
    ensures
        c.read_spec(key, now) is Empty,
{
}

/// Round trip: a value written at instant `t_w` reads back as exactly that
/// value at every instant no more than the cache's time-to-live later.
pub proof fn lemma_write_read_round_trip<T: Clone>(
    before: Cache<T>,
    after: Cache<T>,
    key: Seq<char>,
    value: T,
    t_w: u128,
    now: u128,
)
    requires
        after@ == with_written(before@, after.spec_ttl(), key, value, t_w),
        t_w <= now,
        now - t_w <= after.spec_ttl(),
    ensures
        after.read_spec(key, now) == CacheOption::Value(value),
{
    assert(after@[key] == Some(CacheValue { value, expires_at: expiry_of(after.spec_ttl(), t_w) }));
}

/// Under a zero time-to-live, a written value reads as expired at every
/// strictly later instant.
pub proof fn lemma_zero_ttl_expires<T: Clone>(
    before: Cache<T>,
    after: Cache<T>,
    key: Seq<char>,
    value: T,
    t_w: u128,
    now: u128,
)
    requires
        after.spec_ttl() == 0,
        after@ == with_written(before@, after.spec_ttl(), key, value, t_w),
        now > t_w,
    ensures
        after.read_spec(key, now) is Expired,
{
    assert(expiry_of(0, t_w) == t_w);
}

/// After a removal the key reads as undefined, whatever its prior state.
pub proof fn lemma_removed_read_undefined<T: Clone>(
    before: Cache<T>,
    after: Cache<T>,
    key: Seq<char>,
    now: u128,
)
    requires
        after@ == before@.remove(key),
    ensures
        after.read_spec(key, now) is Undefined,
{
    assert(!after@.dom().contains(key));
}

/// After a clearing the key reads as empty, whatever its prior state, and a
/// later write makes it read as a fresh value again.
pub proof fn lemma_clear_then_write_restores<T: Clone>(
    c0: Cache<T>,
    c1: Cache<T>,
    c2: Cache<T>,
    key: Seq<char>,
    value: T,
    n1: u128,
    t_w: u128,
    now: u128,
)
    requires
        c1@ == c0@.insert(key, None::<CacheValue<T>>),
        c2@ == with_written(c1@, c2.spec_ttl(), key, value, t_w),
        t_w <= now,
        now - t_w <= c2.spec_ttl(),
    ensures
        c1.read_spec(key, n1) is Empty,
        c2.read_spec(key, now) == CacheOption::Value(value),
{
    lemma_write_read_round_trip(c1, c2, key, value, t_w, now);
}

/// Declaring a key twice with no intervening write leaves the same cache as
/// declaring it once, and the key reads as empty after each declaration.
pub proof fn lemma_declare_idempotent<T: Clone>(
    c0: Cache<T>,
    c1: Cache<T>,
    c2: Cache<T>,
    key: Seq<char>,
    now: u128,
)
    requires
        c1@ == c0@.insert(key, None::<CacheValue<T>>),
        c2@ == c1@.insert(key, None::<CacheValue<T>>),
    ensures
        c2@ == c1@,
        c1.read_spec(key, now) is Empty,
        c2.read_spec(key, now) is Empty,
{
    assert(c2@ =~= c1@);
}

} // verus!
