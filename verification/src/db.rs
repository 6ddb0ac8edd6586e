//! The key-value store with TTL bookkeeping.
//!
//! `Database` is the state behind the server's store: keys mapped to
//! opaque byte values, each with an optional expiration deadline on a
//! monotonic millisecond clock.  The tasks around it share it behind a
//! lock and drive the sweeper from `clean_expired_keys`; that plumbing
//! stays outside and hands the clock in as a plain number.
use crate::frame::string_eq_str;
use vstd::prelude::*;

verus! {

struct Entry {
    key: String,
    value: Vec<u8>,
    deadline: Option<u64>,
}

/// The store's state: an association of distinct keys to values and
/// optional deadlines.
pub struct Database {
    entries: Vec<Entry>,
}

spec fn find_entry(s: Seq<Entry>, k: Seq<char>) -> Option<(Seq<u8>, Option<u64>)>
    decreases s.len(),
{
    if s.len() == 0 {
        Option::None
    } else if s[0].key@ == k {
        Option::Some((s[0].value@, s[0].deadline))
    } else {
        find_entry(s.drop_first(), k)
    }
}

spec fn distinct_keys(s: Seq<Entry>) -> bool {
    forall|i: int, j: int| 0 <= i < j < s.len() ==> s[i].key@ != s[j].key@
}

spec fn opt_min(a: Option<u64>, b: Option<u64>) -> Option<u64> {
    match a {
        Option::None => b,
        Option::Some(x) => match b {
            Option::None => Option::Some(x),
            Option::Some(y) => Option::Some(
                if x <= y {
                    x
                } else {
                    y
                },
            ),
        },
    }
}

spec fn min_dl_seq(s: Seq<Entry>) -> Option<u64>
    decreases s.len(),
{
    if s.len() == 0 {
        Option::None
    } else {
        opt_min(s[0].deadline, min_dl_seq(s.drop_first()))
    }
}

/// A deadline that has not passed yet keeps its entry visible.
pub open spec fn visible_at(dl: Option<u64>, now: u64) -> bool {
    match dl {
        Option::None => true,
        Option::Some(t) => t >= now,
    }
}

/// `a + b` on the clock, capped at its end.
pub open spec fn sat_add(a: u64, b: u64) -> u64 {
    if a + b <= u64::MAX {
        (a + b) as u64
    } else {
        u64::MAX
    }
}

/// The deadline a `set` with this TTL installs.
pub open spec fn deadline_of(now: u64, ttl_ms: Option<u64>) -> Option<u64> {
    match ttl_ms {
        Option::None => Option::None,
        Option::Some(d) => Option::Some(sat_add(now, d)),
    }
}

/// What the expiration sweep leaves of a stored binding at time `now`.
pub open spec fn expire_filter(o: Option<(Seq<u8>, Option<u64>)>, now: u64) -> Option<
    (Seq<u8>, Option<u64>),
> {
    match o {
        Option::Some((v, dl)) => match dl {
            Option::Some(t) => if t < now {
                Option::None
            } else {
                o
            },
            Option::None => o,
        },
        Option::None => Option::None,
    }
}

impl Database {
    /// The binding a key currently holds, deadline included, expired or
    /// not.
    pub closed spec fn spec_get(self, k: Seq<char>) -> Option<(Seq<u8>, Option<u64>)> {
        find_entry(self.entries@, k)
    }

    /// Keys are unique.
    pub closed spec fn wf(self) -> bool {
        distinct_keys(self.entries@)
    }

    /// The earliest deadline any entry carries.
    pub closed spec fn min_deadline(self) -> Option<u64> {
        min_dl_seq(self.entries@)
    }

    /// What `get` sees at time `now`: the stored value unless its
    /// deadline has passed.
    pub open spec fn lookup(self, k: Seq<char>, now: u64) -> Option<Seq<u8>> {
        match self.spec_get(k) {
            Option::Some((v, dl)) => if visible_at(dl, now) {
                Option::Some(v)
            } else {
                Option::None
            },
            Option::None => Option::None,
        }
    }
}

/// Whether `set` wakes the sweeper: a fresh deadline strictly earlier
/// than the store's earliest, or a TTL removed from a key that had one.
pub open spec fn wake_spec(pre: Database, k: Seq<char>, now: u64, ttl_ms: Option<u64>) -> bool {
    match ttl_ms {
        Option::None => pre.spec_get(k) matches Option::Some((_, Option::Some(_))),
        Option::Some(d) => match pre.min_deadline() {
            Option::Some(m) => sat_add(now, d) < m,
            Option::None => false,
        },
    }
}

/// Everything `set` promises: the key holds the value under the new
/// deadline, every other key is untouched, and the wake flag follows
/// `wake_spec`.
pub open spec fn set_post(
    pre: Database,
    post: Database,
    k: Seq<char>,
    v: Seq<u8>,
    now: u64,
    ttl_ms: Option<u64>,
    wake: bool,
) -> bool {
    &&& post.wf()
    &&& post.spec_get(k) == Option::Some((v, deadline_of(now, ttl_ms)))
    &&& (forall|k2: Seq<char>| k2 != k ==> #[trigger] post.spec_get(k2) == pre.spec_get(k2))
    &&& wake == wake_spec(pre, k, now, ttl_ms)
}

proof fn lemma_find_at(s: Seq<Entry>, k: Seq<char>, i: int)
    requires
        0 <= i < s.len(),
        s[i].key@ == k,
        forall|j: int| 0 <= j < i ==> #[trigger] s[j].key@ != k,
    ensures
        find_entry(s, k) == Option::Some((s[i].value@, s[i].deadline)),
    decreases i,
{
    if i == 0 {
    } else {
        assert(s[0].key@ != k);
        let t = s.drop_first();
        assert(t[i - 1] == s[i]);
        assert(forall|j: int| 0 <= j < i - 1 ==> #[trigger] t[j].key@ == s[j + 1].key@);
        lemma_find_at(t, k, i - 1);
    }
}

proof fn lemma_find_none(s: Seq<Entry>, k: Seq<char>)
    requires
        forall|j: int| 0 <= j < s.len() ==> #[trigger] s[j].key@ != k,
    ensures
        find_entry(s, k) is None,
    decreases s.len(),
{
    if s.len() == 0 {
    } else {
        let t = s.drop_first();
        assert(forall|j: int| 0 <= j < t.len() ==> #[trigger] t[j].key@ == s[j + 1].key@);
        lemma_find_none(t, k);
    }
}

proof fn lemma_find_some_index(s: Seq<Entry>, k: Seq<char>)
    requires
        find_entry(s, k) is Some,
    ensures
        exists|i: int| 0 <= i < s.len() && #[trigger] s[i].key@ == k,
    decreases s.len(),
{
    if s.len() == 0 {
    } else if s[0].key@ == k {
        assert(s[0].key@ == k);
    } else {
        let t = s.drop_first();
        lemma_find_some_index(t, k);
        let i = choose|i: int| 0 <= i < t.len() && #[trigger] t[i].key@ == k;
        assert(s[i + 1].key@ == k);
    }
}

proof fn lemma_find_push(s: Seq<Entry>, e: Entry, k: Seq<char>)
    ensures
        find_entry(s.push(e), k) == (if find_entry(s, k) is Some {
            find_entry(s, k)
        } else if e.key@ == k {
            Option::Some((e.value@, e.deadline))
        } else {
            Option::<(Seq<u8>, Option<u64>)>::None
        }),
    decreases s.len(),
{
    if s.len() == 0 {
        assert(s.push(e)[0] == e);
        assert(s.push(e).drop_first() =~= Seq::<Entry>::empty());
        assert(find_entry(Seq::<Entry>::empty(), k) is None);
    } else {
        assert(s.push(e)[0] == s[0]);
        assert(s.push(e).drop_first() =~= s.drop_first().push(e));
        lemma_find_push(s.drop_first(), e, k);
    }
}

proof fn lemma_find_update(s: Seq<Entry>, i: int, e: Entry, k: Seq<char>)
    requires
        0 <= i < s.len(),
        distinct_keys(s),
        e.key@ == s[i].key@,
    ensures
        find_entry(s.update(i, e), k) == (if e.key@ == k {
            Option::Some((e.value@, e.deadline))
        } else {
            find_entry(s, k)
        }),
    decreases i,
{
    let u = s.update(i, e);
    if i == 0 {
        assert(u[0] == e);
        assert(u.drop_first() =~= s.drop_first());
        if e.key@ != k && s[0].key@ == k {
            assert(false);
        }
    } else {
        assert(u[0] == s[0]);
        assert(u.drop_first() =~= s.drop_first().update(i - 1, e));
        let t = s.drop_first();
        assert(forall|a: int, b: int|
            0 <= a < b < t.len() ==> #[trigger] t[a].key@ != #[trigger] t[b].key@) by {
            assert(forall|a: int| 0 <= a < t.len() ==> #[trigger] t[a].key@ == s[a + 1].key@);
        }
        assert(t[i - 1] == s[i]);
        lemma_find_update(t, i - 1, e, k);
        if s[0].key@ == k {
            // the key at the head differs from the one being replaced
            assert(s[0].key@ != s[i].key@);
        }
    }
}

proof fn lemma_min_dl_ge(s: Seq<Entry>, now: u64)
    requires
        forall|i: int| 0 <= i < s.len() ==> (#[trigger] s[i].deadline matches Option::Some(t)
            ==> t >= now),
    ensures
        min_dl_seq(s) matches Option::Some(m) ==> m >= now,
    decreases s.len(),
{
    if s.len() == 0 {
    } else {
        let t = s.drop_first();
        assert(forall|i: int| 0 <= i < t.len() ==> t[i] == #[trigger] s[i + 1]);
        lemma_min_dl_ge(t, now);
        assert(s[0].deadline matches Option::Some(t0) ==> t0 >= now);
    }
}

impl Database {
    /// An empty store.
    pub fn new() -> (db: Database)
        ensures
            db.wf(),
            forall|k: Seq<char>| #[trigger] db.spec_get(k) is None,
            db.min_deadline() is None,
    {
        let db = Database { entries: Vec::new() };
        proof {
            assert forall|k: Seq<char>| #[trigger] db.spec_get(k) is None by {
                lemma_find_none(db.entries@, k);
            }
        }
        db
    }

    /// Looks a key up at time `now`: its value if present and not past
    /// its deadline.
    pub fn get(&self, key: &str, now: u64) -> (r: Option<Vec<u8>>)
        ensures
            match r {
                Option::Some(v) => self.lookup(key@, now) == Option::Some(v@),
                Option::None => self.lookup(key@, now) is None,
            },
    {
        let ghost s = self.entries@;
        let mut i: usize = 0;
        while i < self.entries.len()
            invariant
                i <= self.entries@.len(),
                s == self.entries@,
                forall|j: int| 0 <= j < i ==> #[trigger] s[j].key@ != key@,
            decreases self.entries@.len() - i,
        {
            let e = &self.entries[i];
            if string_eq_str(&e.key, key) {
                proof {
                    lemma_find_at(s, key@, i as int);
                }
                match e.deadline {
                    Option::None => {
                        return Option::Some(vstd::slice::slice_to_vec(e.value.as_slice()));
                    },
                    Option::Some(t) => {
                        if t >= now {
                            return Option::Some(vstd::slice::slice_to_vec(e.value.as_slice()));
                        } else {
                            return Option::None;
                        }
                    },
                }
            }
            i = i + 1;
        }
        proof {
            lemma_find_none(s, key@);
        }
        Option::None
    }

    fn min_deadline_exec(&self) -> (r: Option<u64>)
        ensures
            r == self.min_deadline(),
    {
        let s = Ghost(self.entries@);
        proof {
            assert(s@.skip(0) =~= s@);
        }
        let mut acc: Option<u64> = Option::None;
        let mut i: usize = 0;
        while i < self.entries.len()
            invariant
                i <= self.entries@.len(),
                s@ == self.entries@,
                opt_min(acc, min_dl_seq(s@.skip(i as int))) == min_dl_seq(s@),
            decreases self.entries@.len() - i,
        {
            proof {
                let rest = s@.skip(i as int);
                assert(rest[0] == s@[i as int]);
                assert(rest.drop_first() =~= s@.skip(i + 1));
            }
            acc = match (acc, self.entries[i].deadline) {
                (Option::None, d) => d,
                (Option::Some(x), Option::None) => Option::Some(x),
                (Option::Some(x), Option::Some(y)) => Option::Some(
                    if x <= y {
                        x
                    } else {
                        y
                    },
                ),
            };
            i = i + 1;
        }
        proof {
            assert(s@.skip(s@.len() as int) =~= Seq::<Entry>::empty());
        }
        acc
    }

    fn find_index(&self, key: &String) -> (r: Option<usize>)
        ensures
            match r {
                Option::Some(i) => i < self.entries@.len() && self.entries@[i as int].key@ == key@
                    && (forall|j: int|
                    0 <= j < i ==> #[trigger] self.entries@[j].key@ != key@),
                Option::None => forall|j: int|
                    0 <= j < self.entries@.len() ==> #[trigger] self.entries@[j].key@ != key@,
            },
    {
        let mut i: usize = 0;
        while i < self.entries.len()
            invariant
                i <= self.entries@.len(),
                forall|j: int| 0 <= j < i ==> #[trigger] self.entries@[j].key@ != key@,
            decreases self.entries@.len() - i,
        {
            if string_eq_str(&self.entries[i].key, key.as_str()) {
                return Option::Some(i);
            }
            i = i + 1;
        }
        Option::None
    }

    /// Stores `value` under `key`, replacing any previous binding and
    /// erasing its deadline; a TTL installs the deadline `now + ttl_ms`.
    /// The result says whether the sweeper must be woken.
    pub fn set(&mut self, key: String, value: Vec<u8>, now: u64, ttl_ms: Option<u64>) -> (wake:
        bool)
        requires
            old(self).wf(),
        ensures
            set_post(*old(self), *final(self), key@, value@, now, ttl_ms, wake),
    {
        let ghost pre = *self;
        // the wake decision reads the state before the write
        let wake = match ttl_ms {
            Option::None => {
                match self.find_index(&key) {
                    Option::Some(i) => {
                        proof {
                            lemma_find_at(self.entries@, key@, i as int);
                        }
                        self.entries[i].deadline.is_some()
                    },
                    Option::None => {
                        proof {
                            lemma_find_none(self.entries@, key@);
                        }
                        false
                    },
                }
            },
            Option::Some(d) => {
                let dl = if d <= u64::MAX - now {
                    now + d
                } else {
                    u64::MAX
                };
                match self.min_deadline_exec() {
                    Option::Some(m) => dl < m,
                    Option::None => false,
                }
            },
        };
        let dl = match ttl_ms {
            Option::None => Option::None,
            Option::Some(d) => Option::Some(
                if d <= u64::MAX - now {
                    now + d
                } else {
                    u64::MAX
                },
            ),
        };
        let e = Entry { key, value, deadline: dl };
        match self.find_index(&e.key) {
            Option::Some(i) => {
                let ghost olds = self.entries@;
                let ghost enew = e;
                self.entries[i] = e;
                proof {
                    assert(self.entries@ == olds.update(i as int, enew));
                    assert forall|k2: Seq<char>| k2 != enew.key@ implies #[trigger] self.spec_get(
                        k2,
                    ) == pre.spec_get(k2) by {
                        lemma_find_update(olds, i as int, enew, k2);
                    }
                    assert forall|a: int, b: int|
                        0 <= a < b < self.entries@.len() implies #[trigger] self.entries@[a].key@
                        != #[trigger] self.entries@[b].key@ by {
                        assert(forall|c: int|
                            0 <= c < olds.len() ==> #[trigger] self.entries@[c].key@
                                == olds[c].key@);
                    }
                    lemma_find_update(olds, i as int, enew, enew.key@);
                }
            },
            Option::None => {
                let ghost olds = self.entries@;
                let ghost enew = e;
                proof {
                    lemma_find_none(olds, enew.key@);
                }
                self.entries.push(e);
                proof {
                    assert forall|k2: Seq<char>| k2 != enew.key@ implies #[trigger] self.spec_get(
                        k2,
                    ) == pre.spec_get(k2) by {
                        lemma_find_push(olds, enew, k2);
                    }
                    lemma_find_push(olds, enew, enew.key@);
                    assert forall|a: int, b: int|
                        0 <= a < b < self.entries@.len() implies #[trigger] self.entries@[a].key@
                        != #[trigger] self.entries@[b].key@ by {
                        if b == olds.len() as int {
                            assert(self.entries@[a].key@ == olds[a].key@);
                            assert(self.entries@[b].key@ == enew.key@);
                        } else {
                            assert(self.entries@[a].key@ == olds[a].key@);
                            assert(self.entries@[b].key@ == olds[b].key@);
                        }
                    }
                }
            },
        }
        wake
    }
}


impl Database {
    /// Removes every entry whose deadline lies strictly before `now`
    /// and reports how long the sweeper may sleep: the time until the
    /// earliest remaining deadline, or nothing when none is left.
    pub fn clean_expired_keys(&mut self, now: u64) -> (r: Option<u64>)
        requires
            old(self).wf(),
        ensures
            final(self).wf(),
            forall|k: Seq<char>| #[trigger] final(self).spec_get(k) == expire_filter(
                old(self).spec_get(k),
                now,
            ),
            match final(self).min_deadline() {
                Option::Some(m) => m >= now && r == Option::Some((m - now) as u64),
                Option::None => r is None,
            },
    {
        let ghost olds = self.entries@;
        let mut kept: Vec<Entry> = Vec::new();
        let n = self.entries.len();
        let mut step: usize = 0;
        while step < n
            invariant
                step <= n,
                n == olds.len(),
                self.entries@ =~= olds.skip(step as int),
                distinct_keys(olds),
                distinct_keys(kept@),
                forall|k: Seq<char>| #[trigger] find_entry(kept@, k) == expire_filter(
                    find_entry(olds.take(step as int), k),
                    now,
                ),
                forall|i: int|
                    0 <= i < kept@.len() ==> (#[trigger] kept@[i].deadline matches Option::Some(t)
                        ==> t >= now),
            decreases n - step,
        {
            let ghost done = olds.take(step as int);
            proof {
                assert(self.entries@[0] == olds[step as int]);
                assert(olds.take(step + 1) =~= done.push(olds[step as int]));
                assert(self.entries@.remove(0) =~= olds.skip(step + 1));
                // the removed key cannot sit in the part already scanned
                assert forall|j: int| 0 <= j < done.len() implies #[trigger] done[j].key@
                    != olds[step as int].key@ by {
                    assert(done[j] == olds[j]);
                }
                lemma_find_none(done, olds[step as int].key@);
            }
            let e = self.entries.remove(0);
            let expired = match e.deadline {
                Option::Some(t) => t < now,
                Option::None => false,
            };
            if expired {
                proof {
                    assert forall|k: Seq<char>| #[trigger] find_entry(kept@, k) == expire_filter(
                        find_entry(olds.take(step + 1), k),
                        now,
                    ) by {
                        lemma_find_push(done, olds[step as int], k);
                    }
                }
            } else {
                proof {
                    // the key is new to `kept`, which keeps its keys distinct
                    if find_entry(kept@, e.key@) is Some {
                        lemma_find_some_index(kept@, e.key@);
                    }
                }
                let ghost oldkept = kept@;
                kept.push(e);
                proof {
                    assert forall|k: Seq<char>| #[trigger] find_entry(kept@, k) == expire_filter(
                        find_entry(olds.take(step + 1), k),
                        now,
                    ) by {
                        lemma_find_push(oldkept, olds[step as int], k);
                        lemma_find_push(done, olds[step as int], k);
                    }
                    assert forall|a: int, b: int|
                        0 <= a < b < kept@.len() implies #[trigger] kept@[a].key@
                        != #[trigger] kept@[b].key@ by {
                        if b == oldkept.len() as int {
                            if kept@[a].key@ == kept@[b].key@ {
                                lemma_find_at(oldkept, kept@[a].key@, a);
                            }
                        }
                    }
                    assert(forall|i: int|
                        0 <= i < oldkept.len() ==> kept@[i] == #[trigger] oldkept[i]);
                }
            }
            step = step + 1;
        }
        proof {
            assert(olds.take(n as int) =~= olds);
        }
        self.entries = kept;
        proof {
            lemma_min_dl_ge(self.entries@, now);
        }
        match self.min_deadline_exec() {
            Option::Some(m) => Option::Some(m - now),
            Option::None => Option::None,
        }
    }
}

/// A key stored without a TTL never expires: at every later reading,
/// the lookup still yields the stored value.  In particular a `set`
/// with no TTL erases any deadline an earlier binding carried.
pub proof fn lemma_set_no_ttl_lasts(
    pre: Database,
    post: Database,
    k: Seq<char>,
    v: Seq<u8>,
    now: u64,
    wake: bool,
    later: u64,
)
    requires
        set_post(pre, post, k, v, now, Option::None, wake),
    ensures
        post.lookup(k, later) == Option::Some(v),
{
}

/// A key stored with a TTL is gone once its deadline has passed: a
/// lookup strictly after `now + ttl_ms` yields nothing.
pub proof fn lemma_set_ttl_expires(
    pre: Database,
    post: Database,
    k: Seq<char>,
    v: Seq<u8>,
    now: u64,
    ttl_ms: u64,
    wake: bool,
    later: u64,
)
    requires
        set_post(pre, post, k, v, now, Option::Some(ttl_ms), wake),
        later > sat_add(now, ttl_ms),
    ensures
        post.lookup(k, later) is None,
{
}

/// Installing a deadline strictly earlier than the store's earliest
/// raises the wake flag for the sweeper.
pub proof fn lemma_shorter_ttl_wakes(
    pre: Database,
    post: Database,
    k: Seq<char>,
    v: Seq<u8>,
    now: u64,
    ttl_ms: u64,
    wake: bool,
)
    requires
        set_post(pre, post, k, v, now, Option::Some(ttl_ms), wake),
        pre.min_deadline() matches Option::Some(m) && sat_add(now, ttl_ms) < m,
    ensures
        wake,
{
}

} // verus!

