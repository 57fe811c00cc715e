//! Ordering a new set of headlines before display: stable sorts by source
//! or by date, and a random shuffle.
use crate::config::SortMode;
use crate::feeds::Headline;
use crate::text::chars_of;
use rand::seq::SliceRandom;
use vstd::prelude::*;

verus! {

/// `a` comes strictly before `b` in code-point order, as `str` orders text.
pub open spec fn text_lt(a: Seq<char>, b: Seq<char>) -> bool
    decreases a.len(),
{
    if a.len() == 0 {
        b.len() > 0
    } else if b.len() == 0 {
        false
    } else if a[0] != b[0] {
        (a[0] as int) < (b[0] as int)
    } else {
        text_lt(a.drop_first(), b.drop_first())
    }
}

/// The date a headline is sorted by: its publication time, else `now`.
pub open spec fn sort_date(h: Headline, now: i64) -> i64 {
    match h.published {
        Some(t) => t,
        None => now,
    }
}

/// Headline `i` of `items` goes before headline `j` under `mode`: by key,
/// and by the given position where the keys are equal.
pub open spec fn goes_before(items: Seq<Headline>, i: int, j: int, mode: SortMode, now: i64) -> bool {
    let a = items[i];
    let b = items[j];
    match mode {
        SortMode::BySource => text_lt(a.source@, b.source@) || (a.source@ == b.source@ && i < j),
        SortMode::ByDate => sort_date(b, now) < sort_date(a, now) || (sort_date(a, now) == sort_date(
            b,
            now,
        ) && i < j),
        SortMode::ByDateAsc => sort_date(a, now) < sort_date(b, now) || (sort_date(a, now)
            == sort_date(b, now) && i < j),
        SortMode::Random => i < j,
    }
}

/// `p` lists the positions `0..items.len()`, each once, in `goes_before` order.
pub open spec fn is_sort_order(p: Seq<usize>, items: Seq<Headline>, mode: SortMode, now: i64) -> bool {
    &&& p.len() == items.len()
    &&& forall|i: int| 0 <= i < p.len() ==> (#[trigger] p[i]) < items.len()
    &&& forall|i: int, j: int|
        0 <= i < j < p.len() ==> goes_before(items, #[trigger] p[i] as int, #[trigger] p[j] as int, mode, now)
}

/// The headlines of `items` at the positions `p`, in order.
pub open spec fn picked(p: Seq<usize>, items: Seq<Headline>) -> Seq<Headline> {
    p.map_values(|j: usize| items[j as int])
}

/// `r` holds the headlines of `items` in the order `p`.
pub open spec fn arranged(r: Seq<Headline>, items: Seq<Headline>, p: Seq<usize>) -> bool {
    &&& r.len() == p.len()
    &&& forall|i: int| 0 <= i < r.len() ==> #[trigger] r[i] == items[p[i] as int]
}

proof fn lemma_text_lt_irreflexive(a: Seq<char>)
    ensures
        !text_lt(a, a),
    decreases a.len(),
{
    if a.len() > 0 {
        lemma_text_lt_irreflexive(a.drop_first());
    }
}

proof fn lemma_text_lt_total(a: Seq<char>, b: Seq<char>)
    ensures
        a != b ==> text_lt(a, b) || text_lt(b, a),
        !(text_lt(a, b) && text_lt(b, a)),
    decreases a.len(),
{
    if a.len() > 0 && b.len() > 0 {
        lemma_text_lt_total(a.drop_first(), b.drop_first());
        if a[0] == b[0] && a != b {
            assert(a =~= seq![a[0]] + a.drop_first());
            assert(b =~= seq![b[0]] + b.drop_first());
        }
        if a[0] != b[0] {
            assert((a[0] as int) != (b[0] as int));
        }
    } else if a.len() == 0 && b.len() == 0 {
        assert(a =~= b);
    }
}

proof fn lemma_text_lt_transitive(a: Seq<char>, b: Seq<char>, c: Seq<char>)
    requires
        text_lt(a, b),
        text_lt(b, c),
    ensures
        text_lt(a, c),
    decreases a.len(),
{
    if a.len() > 0 && b.len() > 0 && c.len() > 0 {
        if a[0] == b[0] && b[0] == c[0] {
            lemma_text_lt_transitive(a.drop_first(), b.drop_first(), c.drop_first());
        }
    }
}

proof fn lemma_goes_before_order(items: Seq<Headline>, mode: SortMode, now: i64)
    ensures
        forall|i: int| !goes_before(items, i, i, mode, now),
        forall|i: int, j: int|
            i != j ==> goes_before(items, i, j, mode, now) || goes_before(items, j, i, mode, now),
        forall|i: int, j: int, k: int|
            goes_before(items, i, j, mode, now) && goes_before(items, j, k, mode, now)
                ==> goes_before(items, i, k, mode, now),
{
    assert forall|i: int| !goes_before(items, i, i, mode, now) by {
        lemma_text_lt_irreflexive(items[i].source@);
    }
    assert forall|i: int, j: int|
        i != j implies goes_before(items, i, j, mode, now) || goes_before(items, j, i, mode, now) by {
        lemma_text_lt_total(items[i].source@, items[j].source@);
    }
    assert forall|i: int, j: int, k: int|
        goes_before(items, i, j, mode, now) && goes_before(items, j, k, mode, now) implies goes_before(
        items,
        i,
        k,
        mode,
        now,
    ) by {
        let (a, b, c) = (items[i].source@, items[j].source@, items[k].source@);
        if mode == SortMode::BySource {
            if text_lt(a, b) && text_lt(b, c) {
                lemma_text_lt_transitive(a, b, c);
            }
        }
    }
}

/// Whether text `a` comes strictly before text `b`.
pub fn text_less(a: &Vec<char>, b: &Vec<char>) -> (r: bool)
    ensures
        r == text_lt(a@, b@),
{
    let mut i: usize = 0;
    assert(a@.skip(0) =~= a@ && b@.skip(0) =~= b@);
    while i < a.len() && i < b.len()
        invariant
            i <= a@.len(),
            i <= b@.len(),
            text_lt(a@, b@) == text_lt(a@.skip(i as int), b@.skip(i as int)),
        decreases a.len() - i,
    {
        let ghost sa = a@.skip(i as int);
        let ghost sb = b@.skip(i as int);
        assert(sa[0] == a@[i as int]);
        assert(sb[0] == b@[i as int]);
        if a[i] != b[i] {
            return a[i] < b[i];
        }
        assert(sa.drop_first() =~= a@.skip(i + 1));
        assert(sb.drop_first() =~= b@.skip(i + 1));
        i += 1;
    }
    i < b.len()
}

/// Whether headline `i` goes before headline `j` under `mode`; `sources`
/// holds the characters of each headline's source.
fn precedes(
    items: &Vec<Headline>,
    sources: &Vec<Vec<char>>,
    i: usize,
    j: usize,
    mode: SortMode,
    now: i64,
) -> (r: bool)
    requires
        i < items@.len(),
        j < items@.len(),
        sources@.len() == items@.len(),
        forall|k: int| 0 <= k < items@.len() ==> (#[trigger] sources@[k])@ == items@[k].source@,
    ensures
        r == goes_before(items@, i as int, j as int, mode, now),
{
    match mode {
        SortMode::BySource => {
            let a = &sources[i];
            let b = &sources[j];
            proof {
                assert(sources@[i as int]@ == items@[i as int].source@);
                assert(sources@[j as int]@ == items@[j as int].source@);
            }
            if text_less(a, b) {
                true
            } else {
                let lt = text_less(b, a);
                if lt {
                    proof {
                        lemma_text_lt_total(a@, b@);
                        lemma_text_lt_irreflexive(a@);
                    }
                    false
                } else {
                    proof {
                        lemma_text_lt_total(a@, b@);
                    }
                    i < j
                }
            }
        },
        SortMode::ByDate => {
            let a = date_key(&items[i], now);
            let b = date_key(&items[j], now);
            b < a || (a == b && i < j)
        },
        SortMode::ByDateAsc => {
            let a = date_key(&items[i], now);
            let b = date_key(&items[j], now);
            a < b || (a == b && i < j)
        },
        SortMode::Random => i < j,
    }
}

fn date_key(h: &Headline, now: i64) -> (r: i64)
    ensures
        r == sort_date(*h, now),
{
    match h.published {
        Some(t) => t,
        None => now,
    }
}

/// The positions of `items` in sorted order (insertion sort on positions).
fn sort_positions(items: &Vec<Headline>, mode: SortMode, now: i64) -> (p: Vec<usize>)
    ensures
        is_sort_order(p@, items@, mode, now),
        picked(p@, items@).to_multiset() == items@.to_multiset(),
{
    let n = items.len();
    let mut sources: Vec<Vec<char>> = Vec::new();
    let mut k: usize = 0;
    while k < n
        invariant
            k <= n,
            n == items@.len(),
            sources@.len() == k,
            forall|m: int| 0 <= m < k ==> (#[trigger] sources@[m])@ == items@[m].source@,
        decreases n - k,
    {
        sources.push(chars_of(items[k].source.as_str()));
        k += 1;
    }
    proof {
        lemma_goes_before_order(items@, mode, now);
    }
    let mut p: Vec<usize> = Vec::new();
    let mut i: usize = 0;
    proof {
        assert(picked(p@, items@) =~= Seq::<Headline>::empty());
        assert(items@.take(0) =~= Seq::<Headline>::empty());
        assert(Seq::<Headline>::empty().to_multiset() =~= vstd::multiset::Multiset::empty()) by {
            broadcast use vstd::seq_lib::group_to_multiset_ensures;
        }
    }
    while i < n
        invariant
            i <= n,
            n == items@.len(),
            sources@.len() == n,
            forall|m: int| 0 <= m < n ==> (#[trigger] sources@[m])@ == items@[m].source@,
            forall|a: int| !goes_before(items@, a, a, mode, now),
            forall|a: int, b: int|
                a != b ==> goes_before(items@, a, b, mode, now) || goes_before(items@, b, a, mode, now),
            forall|a: int, b: int, c: int|
                goes_before(items@, a, b, mode, now) && goes_before(items@, b, c, mode, now)
                    ==> goes_before(items@, a, c, mode, now),
            p@.len() == i,
            picked(p@, items@).to_multiset() == items@.take(i as int).to_multiset(),
            forall|m: int| 0 <= m < p@.len() ==> (#[trigger] p@[m]) < i,
            forall|a: int, b: int|
                0 <= a < b < p@.len() ==> goes_before(
                    items@,
                    #[trigger] p@[a] as int,
                    #[trigger] p@[b] as int,
                    mode,
                    now,
                ),
        decreases n - i,
    {
        let mut pos: usize = i;
        while pos > 0 && precedes(items, &sources, i, p[pos - 1], mode, now)
            invariant
                pos <= i,
                i < n,
                n == items@.len(),
                p@.len() == i,
                sources@.len() == n,
                forall|m: int| 0 <= m < n ==> (#[trigger] sources@[m])@ == items@[m].source@,
                forall|m: int| 0 <= m < p@.len() ==> (#[trigger] p@[m]) < i,
                forall|m: int|
                    pos <= m < i ==> goes_before(items@, i as int, #[trigger] p@[m] as int, mode, now),
            decreases pos,
        {
            pos -= 1;
        }
        proof {
            if pos > 0 {
                let q = p@[pos - 1] as int;
                assert(q != i);
                assert(goes_before(items@, q, i as int, mode, now));
                assert forall|m: int| 0 <= m < pos implies goes_before(
                    items@,
                    #[trigger] p@[m] as int,
                    i as int,
                    mode,
                    now,
                ) by {
                    if m < pos - 1 {
                        assert(goes_before(items@, p@[m] as int, q, mode, now));
                    }
                }
            }
        }
        let ghost before = p@;
        p.insert(pos, i);
        proof {
            assert(picked(p@, items@) =~= picked(before, items@).insert(pos as int, items@[i as int]));
            vstd::seq_lib::to_multiset_insert(picked(before, items@), pos as int, items@[i as int]);
            assert(items@.take(i + 1) =~= items@.take(i as int).push(items@[i as int]));
            vstd::seq_lib::to_multiset_build(items@.take(i as int), items@[i as int]);
            assert forall|a: int, b: int|
                0 <= a < b < p@.len() implies goes_before(
                items@,
                #[trigger] p@[a] as int,
                #[trigger] p@[b] as int,
                mode,
                now,
            ) by {
                if a < pos && b == pos {
                } else if a < pos && b > pos {
                    assert(p@[b] == before[b - 1]);
                } else if a == pos {
                    assert(p@[b] == before[b - 1]);
                } else if a > pos {
                    assert(p@[a] == before[a - 1]);
                    assert(p@[b] == before[b - 1]);
                }
            }
            assert forall|m: int| 0 <= m < p@.len() implies (#[trigger] p@[m]) < i + 1 by {
                if m < pos {
                } else if m > pos {
                    assert(p@[m] == before[m - 1]);
                }
            }
        }
        i += 1;
    }
    assert(items@.take(n as int) =~= items@);
    p
}

/// `items` in the order of `mode`: by source, newest first, or oldest
/// first, keeping the given order among equal keys; a headline without a
/// date counts as published at `now`. `Random` keeps the given order here.
pub fn sort_headlines(items: &Vec<Headline>, mode: SortMode, now: i64) -> (r: Vec<Headline>)
    ensures
        exists|p: Seq<usize>| is_sort_order(p, items@, mode, now) && arranged(r@, items@, p),
        r@.to_multiset() == items@.to_multiset(),
{
    let p = sort_positions(items, mode, now);
    let mut r: Vec<Headline> = Vec::new();
    let mut i: usize = 0;
    while i < p.len()
        invariant
            i <= p@.len(),
            is_sort_order(p@, items@, mode, now),
            r@.len() == i,
            forall|m: int| 0 <= m < i ==> #[trigger] r@[m] == items@[p@[m] as int],
        decreases p.len() - i,
    {
        r.push(items[p[i]].duplicate());
        i += 1;
    }
    assert(r@ =~= picked(p@, items@));
    r
}

/// Relies on `rand::seq::SliceRandom::shuffle` with the thread-local
/// generator of `rand::rng`: it only swaps elements, so the result is a
/// rearrangement of the input.
#[verifier::external_body]
fn shuffle(items: &mut Vec<Headline>)
    ensures
        final(items)@.to_multiset() == old(items)@.to_multiset(),
{
    items.shuffle(&mut rand::rng());
}

/// Relies on `chrono::Utc::now` and `DateTime::timestamp`: the current time,
/// in seconds since the Unix epoch.
#[verifier::external_body]
pub(crate) fn now_timestamp() -> (r: i64) {
    chrono::Utc::now().timestamp()
}

/// `items` ordered by `mode`: shuffled for `Random`, otherwise sorted as by
/// `sort_headlines` at the current time.
pub fn order_headlines(items: Vec<Headline>, mode: SortMode) -> (r: Vec<Headline>)
    ensures
        r@.to_multiset() == items@.to_multiset(),
        mode != SortMode::Random ==> exists|now: i64, p: Seq<usize>|
            is_sort_order(p, items@, mode, now) && arranged(r@, items@, p),
{
    if mode == SortMode::Random {
        let mut v = items;
        shuffle(&mut v);
        v
    } else {
        let now = now_timestamp();
        sort_headlines(&items, mode, now)
    }
}

} // verus!
