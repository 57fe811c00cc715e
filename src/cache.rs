//! The record of headlines already shown, with the time each was first
//! marked, as kept between runs. Reading and writing it is left to the caller.
use crate::feeds::{age_cutoff, saturating_diff};
use crate::order::now_timestamp;
use crate::ticker::string_set;
use vstd::prelude::*;

verus! {

/// The keys of a list of entries.
pub open spec fn entry_keys(v: Seq<(String, i64)>) -> Set<Seq<char>> {
    Set::new(|k: Seq<char>| exists|i: int| 0 <= i < v.len() && (#[trigger] v[i]).0@ == k)
}

/// No two entries have the same key.
pub open spec fn distinct_keys(v: Seq<(String, i64)>) -> bool {
    forall|a: int, b: int| 0 <= a < b < v.len() ==> (#[trigger] v[a]).0@ != (#[trigger] v[b]).0@
}

/// The entries of `v` marked after `cutoff`, in order.
pub open spec fn entries_after(v: Seq<(String, i64)>, cutoff: i64) -> Seq<(String, i64)>
    decreases v.len(),
{
    if v.len() == 0 {
        Seq::empty()
    } else if v.last().1 > cutoff {
        entries_after(v.drop_last(), cutoff).push(v.last())
    } else {
        entries_after(v.drop_last(), cutoff)
    }
}

/// `v` with an entry `(k, now)` added for each key `k` of `keys`, in order,
/// that it does not hold yet.
pub open spec fn merged(v: Seq<(String, i64)>, keys: Seq<String>, now: i64) -> Seq<(String, i64)>
    decreases keys.len(),
{
    if keys.len() == 0 {
        v
    } else {
        let m = merged(v, keys.drop_last(), now);
        if entry_keys(m).contains(keys.last()@) {
            m
        } else {
            m.push((keys.last(), now))
        }
    }
}

/// Cache for tracking shown headlines with timestamps.
pub struct ShownCache {
    /// Key (URL or title) and the Unix time when it was marked as shown
    entries: Vec<(String, i64)>,
}

impl ShownCache {
    /// The entries, in the order they were added.
    pub closed spec fn entries_view(&self) -> Seq<(String, i64)> {
        self.entries@
    }

    /// No key occurs twice.
    pub closed spec fn wf(&self) -> bool {
        distinct_keys(self.entries@)
    }

    /// An empty cache.
    pub fn new() -> (r: ShownCache)
        ensures
            r.wf(),
            r.entries_view() == Seq::<(String, i64)>::empty(),
    {
        ShownCache { entries: Vec::new() }
    }

    /// A cache holding `entries`; an entry whose key came earlier is left out.
    pub fn from_entries(entries: Vec<(String, i64)>) -> (r: ShownCache)
        ensures
            r.wf(),
            entry_keys(r.entries_view()) == entry_keys(entries@),
            forall|i: int|
                0 <= i < r.entries_view().len() ==> #[trigger] entries@.contains(r.entries_view()[i]),
    {
        let mut c = ShownCache::new();
        let mut i: usize = 0;
        while i < entries.len()
            invariant
                i <= entries@.len(),
                c.wf(),
                entry_keys(c.entries@) == entry_keys(entries@.take(i as int)),
                forall|m: int|
                    0 <= m < c.entries@.len() ==> exists|j: int|
                        0 <= j < entries@.len() && #[trigger] c.entries@[m] == entries@[j],
            decreases entries.len() - i,
        {
            let (k, t) = (entries[i].0.clone(), entries[i].1);
            let ghost before = c.entries@;
            proof {
                assert(entries@.take(i + 1) =~= entries@.take(i as int).push(entries@[i as int]));
                lemma_entry_keys_push(entries@.take(i as int), entries@[i as int]);
            }
            if !c.holds(&k) {
                c.entries.push((k, t));
                proof {
                    lemma_entry_keys_push(before, (k, t));
                    assert(c.entries@[before.len() as int] == entries@[i as int]);
                    assert forall|m: int| 0 <= m < c.entries@.len() implies exists|j: int|
                        0 <= j < entries@.len() && #[trigger] c.entries@[m] == entries@[j] by {
                        if m < before.len() {
                            assert(c.entries@[m] == before[m]);
                        } else {
                            assert(c.entries@[m] == entries@[i as int]);
                        }
                    }
                    assert forall|a: int, b: int|
                        0 <= a < b < c.entries@.len() implies (#[trigger] c.entries@[a]).0@
                        != (#[trigger] c.entries@[b]).0@ by {
                        if b == before.len() {
                            assert(entry_keys(before).contains(before[a].0@));
                        } else {
                            assert(c.entries@[a] == before[a] && c.entries@[b] == before[b]);
                        }
                    }
                }
            } else {
                assert(entry_keys(c.entries@) =~= entry_keys(entries@.take(i + 1)));
            }
            i += 1;
        }
        assert(entries@.take(entries@.len() as int) =~= entries@);
        assert forall|m: int| 0 <= m < c.entries_view().len() implies #[trigger] entries@.contains(
            c.entries_view()[m],
        ) by {
            let j = choose|j: int| 0 <= j < entries@.len() && #[trigger] c.entries@[m] == entries@[j];
            assert(entries@[j] == c.entries_view()[m]);
        }
        c
    }

    /// The entries, for storage.
    pub fn entries(&self) -> (r: Vec<(String, i64)>)
        ensures
            r@ == self.entries_view(),
    {
        let mut r: Vec<(String, i64)> = Vec::new();
        let mut i: usize = 0;
        while i < self.entries.len()
            invariant
                i <= self.entries@.len(),
                r@ == self.entries@.take(i as int),
            decreases self.entries.len() - i,
        {
            r.push((self.entries[i].0.clone(), self.entries[i].1));
            assert(r@ =~= self.entries@.take(i + 1));
            i += 1;
        }
        assert(self.entries@.take(self.entries@.len() as int) =~= self.entries@);
        r
    }

    /// Whether `k` has an entry.
    pub fn holds(&self, k: &String) -> (r: bool)
        ensures
            r == entry_keys(self.entries_view()).contains(k@),
    {
        let mut i: usize = 0;
        while i < self.entries.len()
            invariant
                i <= self.entries@.len(),
                forall|j: int| 0 <= j < i ==> (#[trigger] self.entries@[j]).0@ != k@,
            decreases self.entries.len() - i,
        {
            if self.entries[i].0 == *k {
                assert(self.entries@[i as int].0@ == k@);
                return true;
            }
            i += 1;
        }
        false
    }

    /// Drop the entries marked at `cutoff` or earlier.
    pub fn prune_before(&mut self, cutoff: i64)
        requires
            old(self).wf(),
        ensures
            final(self).wf(),
            final(self).entries_view() == entries_after(old(self).entries_view(), cutoff),
    {
        let mut out: Vec<(String, i64)> = Vec::new();
        let mut i: usize = 0;
        while i < self.entries.len()
            invariant
                i <= self.entries@.len(),
                distinct_keys(self.entries@),
                out@ == entries_after(self.entries@.take(i as int), cutoff),
                forall|m: int|
                    0 <= m < out@.len() ==> exists|j: int|
                        0 <= j < i && #[trigger] out@[m] == self.entries@[j],
                distinct_keys(out@),
            decreases self.entries.len() - i,
        {
            proof {
                assert(self.entries@.take(i + 1).drop_last() =~= self.entries@.take(i as int));
            }
            if self.entries[i].1 > cutoff {
                let ghost before = out@;
                out.push((self.entries[i].0.clone(), self.entries[i].1));
                proof {
                    assert(out@ == before.push(self.entries@[i as int]));
                    assert forall|m: int| 0 <= m < out@.len() implies exists|j: int|
                        0 <= j < i + 1 && #[trigger] out@[m] == self.entries@[j] by {
                        if m < before.len() {
                            assert(out@[m] == before[m]);
                        }
                    }
                    assert forall|a: int, b: int|
                        0 <= a < b < out@.len() implies (#[trigger] out@[a]).0@
                        != (#[trigger] out@[b]).0@ by {
                        if b == before.len() {
                            let j = choose|j: int| 0 <= j < i && #[trigger] before[a] == self.entries@[j];
                            assert(self.entries@[j].0@ != self.entries@[i as int].0@);
                        } else {
                            assert(out@[a] == before[a] && out@[b] == before[b]);
                        }
                    }
                }
            }
            i += 1;
        }
        assert(self.entries@.take(self.entries@.len() as int) =~= self.entries@);
        self.entries = out;
    }

    /// Prune entries older than `max_age_secs`, by the current time.
    pub fn prune(&mut self, max_age_secs: u64)
        requires
            old(self).wf(),
        ensures
            final(self).wf(),
            exists|now: i64|
                final(self).entries_view() == entries_after(
                    old(self).entries_view(),
                    #[trigger] saturating_diff(now, max_age_secs),
                ),
    {
        let now = now_timestamp();
        let cutoff = age_cutoff(now, max_age_secs);
        self.prune_before(cutoff);
    }

    /// Get all shown keys.
    pub fn shown_keys(&self) -> (r: Vec<String>)
        ensures
            string_set(r@) == entry_keys(self.entries_view()),
    {
        let mut r: Vec<String> = Vec::new();
        let mut i: usize = 0;
        while i < self.entries.len()
            invariant
                i <= self.entries@.len(),
                string_set(r@) == entry_keys(self.entries@.take(i as int)),
            decreases self.entries.len() - i,
        {
            let k = self.entries[i].0.clone();
            proof {
                assert(self.entries@.take(i + 1) =~= self.entries@.take(i as int).push(
                    self.entries@[i as int],
                ));
                lemma_entry_keys_push(self.entries@.take(i as int), self.entries@[i as int]);
                crate::ticker::lemma_string_set_push(r@, k);
            }
            r.push(k);
            i += 1;
        }
        assert(self.entries@.take(self.entries@.len() as int) =~= self.entries@);
        r
    }

    /// Add an entry marked at `now` for each key of `keys` not held yet.
    pub fn merge_shown_at(&mut self, keys: &Vec<String>, now: i64)
        requires
            old(self).wf(),
        ensures
            final(self).wf(),
            final(self).entries_view() == merged(old(self).entries_view(), keys@, now),
    {
        let ghost start = self.entries@;
        let mut i: usize = 0;
        while i < keys.len()
            invariant
                i <= keys@.len(),
                self.wf(),
                self.entries@ == merged(start, keys@.take(i as int), now),
            decreases keys.len() - i,
        {
            proof {
                assert(keys@.take(i + 1).drop_last() =~= keys@.take(i as int));
            }
            let k = keys[i].clone();
            if !self.holds(&k) {
                let ghost before = self.entries@;
                self.entries.push((k, now));
                proof {
                    assert forall|a: int, b: int|
                        0 <= a < b < self.entries@.len() implies (#[trigger] self.entries@[a]).0@
                        != (#[trigger] self.entries@[b]).0@ by {
                        if b == before.len() {
                            assert(entry_keys(before).contains(before[a].0@));
                        } else {
                            assert(self.entries@[a] == before[a] && self.entries@[b] == before[b]);
                        }
                    }
                }
            }
            i += 1;
        }
        assert(keys@.take(keys@.len() as int) =~= keys@);
    }

    /// Merge shown keys back (for updating from the ticker's runtime set),
    /// marked at the current time.
    pub fn merge_shown(&mut self, keys: &Vec<String>)
        requires
            old(self).wf(),
        ensures
            final(self).wf(),
            exists|now: i64|
                final(self).entries_view() == #[trigger] merged(old(self).entries_view(), keys@, now),
    {
        let now = now_timestamp();
        self.merge_shown_at(keys, now);
    }
}

impl Default for ShownCache {
    fn default() -> (r: ShownCache)
        ensures
            r.wf(),
            r.entries_view() == Seq::<(String, i64)>::empty(),
    {
        ShownCache::new()
    }
}

proof fn lemma_entry_keys_push(v: Seq<(String, i64)>, e: (String, i64))
    ensures
        entry_keys(v.push(e)) == entry_keys(v).insert(e.0@),
{
    assert forall|k: Seq<char>| entry_keys(v.push(e)).contains(k) implies entry_keys(v).insert(
        e.0@,
    ).contains(k) by {
        let i = choose|i: int| 0 <= i < v.push(e).len() && (#[trigger] v.push(e)[i]).0@ == k;
        if i < v.len() {
            assert(v[i].0@ == k);
        }
    }
    assert forall|k: Seq<char>| entry_keys(v).insert(e.0@).contains(k) implies entry_keys(
        v.push(e),
    ).contains(k) by {
        if k == e.0@ {
            assert(v.push(e)[v.len() as int].0@ == k);
        } else {
            let i = choose|i: int| 0 <= i < v.len() && (#[trigger] v[i]).0@ == k;
            assert(v.push(e)[i].0@ == k);
        }
    }
    assert(entry_keys(v.push(e)) =~= entry_keys(v).insert(e.0@));
}

} // verus!
