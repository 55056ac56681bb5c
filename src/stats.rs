use vstd::prelude::*;
use crate::index::{LogIndex, path_keys, path_count, day_keys, day_count, on_day};
use crate::order::{key_lt, key_less, lemma_key_order};
use crate::record::Record;

verus! {

broadcast use vstd::seq_lib::group_seq_properties;

/// Whether an entry counted `c1` times under key `k1` ranks above one counted
/// `c2` times under `k2`: the higher count first, and on equal counts the
/// greater key first (the pair sorted in reverse, as a unit).
pub open spec fn outranks(c1: int, k1: Seq<char>, c2: int, k2: Seq<char>) -> bool {
    c1 > c2 || (c1 == c2 && key_lt(k2, k1))
}

/// The keys of a ranking, in order.
pub open spec fn entry_keys(r: Seq<(usize, String)>) -> Seq<Seq<char>> {
    r.map_values(|e: (usize, String)| e.1@)
}

/// The number of distinct paths among `recs`.
pub open spec fn distinct_paths(recs: Seq<Record>) -> nat {
    path_keys(recs).to_set().len()
}

/// `r` holds the `n` best-ranked paths of `recs` (all of them where there are
/// fewer), each with its count, best first.
pub open spec fn is_top(r: Seq<(usize, String)>, recs: Seq<Record>, n: int) -> bool {
    &&& r.len() == if n < distinct_paths(recs) {
        n
    } else {
        distinct_paths(recs) as int
    }
    &&& forall|i: int|
        0 <= i < r.len() ==> (#[trigger] r[i]).0 == path_count(recs, r[i].1@) && path_keys(
            recs,
        ).contains(r[i].1@)
    &&& forall|i: int, j: int|
        0 <= i < j < r.len() ==> outranks(r[i].0 as int, r[i].1@, r[j].0 as int, r[j].1@)
    &&& forall|k: Seq<char>|
        #[trigger] path_keys(recs).contains(k) && !entry_keys(r).contains(k) ==> forall|i: int|
            0 <= i < r.len() ==> outranks(r[i].0 as int, r[i].1@, path_count(recs, k) as int, k)
}

proof fn lemma_outranks_order(c1: int, k1: Seq<char>, c2: int, k2: Seq<char>, c3: int, k3: Seq<char>)
    ensures
        !outranks(c1, k1, c1, k1),
        outranks(c1, k1, c2, k2) && outranks(c2, k2, c3, k3) ==> outranks(c1, k1, c3, k3),
        k1 != k2 ==> outranks(c1, k1, c2, k2) || outranks(c2, k2, c1, k1),
{
    lemma_key_order(k1, k1, k1);
    lemma_key_order(k3, k2, k1);
    lemma_key_order(k1, k2, k3);
    lemma_key_order(k2, k1, k3);
}

fn outranks_entry(a: &(usize, String), b: &(usize, String)) -> (r: bool)
    ensures
        r == outranks(a.0 as int, a.1@, b.0 as int, b.1@),
{
    a.0 > b.0 || (a.0 == b.0 && key_less(&b.1, &a.1))
}

/// Every path of the index with its number of records, best-ranked first.
pub fn compute_stats(index: &LogIndex) -> (r: Vec<(usize, String)>)
    requires
        index.wf(),
    ensures
        is_top(r@, index.records(), distinct_paths(index.records()) as int),
        forall|k: Seq<char>| #[trigger] path_keys(index.records()).contains(k) <==> entry_keys(r@).contains(k),
{
    let ghost recs = index.records();
    let counts = index.count_by_path();
    let mut out: Vec<(usize, String)> = Vec::new();
    let mut i: usize = 0;
    while i < counts.len()
        invariant
            i <= counts@.len(),
            out@.len() == i,
            forall|j: int|
                0 <= j < counts@.len() ==> (#[trigger] counts@[j]).0 == path_count(recs, counts@[j].1@),
            forall|a: int, b: int| 0 <= a < b < counts@.len() ==> counts@[a].1@ != counts@[b].1@,
            forall|j: int| 0 <= j < out@.len() ==> (#[trigger] out@[j]).0 == path_count(recs, out@[j].1@),
            forall|k: Seq<char>|
                #[trigger] entry_keys(out@).contains(k) <==> entry_keys(counts@.subrange(0, i as int)).contains(k),
            forall|a: int, b: int|
                0 <= a < b < out@.len() ==> outranks(out@[a].0 as int, out@[a].1@, out@[b].0 as int, out@[b].1@),
        decreases counts@.len() - i,
    {
        let e = (counts[i].0, counts[i].1.clone());
        proof {
            assert forall|q: int| 0 <= q < out@.len() implies out@[q].1@ != e.1@ by {
                assert(entry_keys(out@)[q] == out@[q].1@);
                assert(entry_keys(out@).contains(out@[q].1@));
                let w = choose|w: int| 0 <= w < i && entry_keys(counts@.subrange(0, i as int))[w] == out@[q].1@;
                assert(counts@[w].1@ == out@[q].1@);
            }
        }
        let mut p: usize = 0;
        while p < out.len() && !outranks_entry(&e, &out[p])
            invariant
                p <= out@.len(),
                forall|q: int| 0 <= q < out@.len() ==> out@[q].1@ != e.1@,
                forall|q: int| 0 <= q < p ==> outranks(out@[q].0 as int, out@[q].1@, e.0 as int, e.1@),
            decreases out@.len() - p,
        {
            proof {
                lemma_outranks_order(e.0 as int, e.1@, out@[p as int].0 as int, out@[p as int].1@, 0, e.1@);
            }
            p += 1;
        }
        let ghost before = out@;
        out.insert(p, e);
        proof {
            assert(out@ =~= before.subrange(0, p as int).push(e) + before.subrange(p as int, before.len() as int));
            assert forall|a: int, b: int| 0 <= a < b < out@.len() implies outranks(
                out@[a].0 as int,
                out@[a].1@,
                out@[b].0 as int,
                out@[b].1@,
            ) by {
                if a < p && b < p {
                    assert(out@[a] == before[a]);
                    assert(out@[b] == before[b]);
                } else if a < p && b == p {
                } else if a < p && b > p {
                    assert(out@[b] == before[b - 1]);
                } else if a == p {
                    assert(out@[b] == before[b - 1]);
                    if b - 1 > p {
                        lemma_outranks_order(e.0 as int, e.1@, before[p as int].0 as int, before[p as int].1@, before[b - 1].0 as int, before[b - 1].1@);
                    }
                } else {
                    assert(out@[a] == before[a - 1]);
                    assert(out@[b] == before[b - 1]);
                }
            }
            let ok = entry_keys(before);
            let nk = entry_keys(out@);
            assert(nk =~= ok.subrange(0, p as int).push(e.1@) + ok.subrange(p as int, ok.len() as int));
            let ck = entry_keys(counts@.subrange(0, i as int));
            assert(entry_keys(counts@.subrange(0, i + 1)) =~= ck.push(e.1@));
            assert forall|k: Seq<char>| #[trigger] nk.contains(k) <==> ck.push(e.1@).contains(k) by {
                if nk.contains(k) && k != e.1@ {
                    let w = choose|w: int| 0 <= w < nk.len() && nk[w] == k;
                    if w < p {
                        assert(ok[w] == k);
                    } else {
                        assert(ok[w - 1] == k);
                    }
                    assert(ok.contains(k));
                    assert(ck.contains(k));
                    let v = choose|v: int| 0 <= v < ck.len() && ck[v] == k;
                    assert(ck.push(e.1@)[v] == k);
                }
                if nk.contains(k) && k == e.1@ {
                    assert(ck.push(e.1@)[i as int] == k);
                }
                if ck.push(e.1@).contains(k) {
                    if k == e.1@ {
                        assert(nk[p as int] == k);
                    } else {
                        let v = choose|v: int| 0 <= v < ck.len() + 1 && ck.push(e.1@)[v] == k;
                        assert(ck[v] == k);
                        assert(ok.contains(k));
                        let w = choose|w: int| 0 <= w < ok.len() && ok[w] == k;
                        if w < p {
                            assert(nk[w] == k);
                        } else {
                            assert(nk[w + 1] == k);
                        }
                    }
                }
            }
        }
        i += 1;
    }
    proof {
        let ck = entry_keys(counts@);
        assert(counts@.subrange(0, i as int) =~= counts@);
        assert(ck.no_duplicates());
        ck.unique_seq_to_set();
        assert(ck.to_set() =~= path_keys(recs).to_set()) by {
            assert forall|k: Seq<char>| ck.to_set().contains(k) <==> path_keys(recs).to_set().contains(k) by {
                assert(path_keys(recs).contains(k) <==> ck.contains(k));
            }
        }
        assert(entry_keys(out@).len() == out@.len());
        assert forall|k: Seq<char>| #[trigger] path_keys(recs).contains(k) <==> entry_keys(out@).contains(k) by {
            assert(path_keys(recs).contains(k) <==> ck.contains(k));
        }
        assert forall|j: int| 0 <= j < out@.len() implies path_keys(recs).contains(#[trigger] out@[j].1@) by {
            assert(entry_keys(out@)[j] == out@[j].1@);
            assert(entry_keys(out@).contains(out@[j].1@));
        }
    }
    out
}

/// The `n` paths of the index with the most records, best-ranked first.
pub fn top_by_count(index: &LogIndex, n: usize) -> (r: Vec<(usize, String)>)
    requires
        index.wf(),
    ensures
        is_top(r@, index.records(), n as int),
{
    let ghost recs = index.records();
    let mut r = compute_stats(index);
    let ghost full = r@;
    r.truncate(n);
    proof {
        if n < full.len() {
            assert forall|k: Seq<char>|
                #[trigger] path_keys(recs).contains(k) && !entry_keys(r@).contains(k) implies forall|i: int|
                    0 <= i < r@.len() ==> outranks(r@[i].0 as int, r@[i].1@, path_count(recs, k) as int, k) by {
                if path_keys(recs).contains(k) && !entry_keys(r@).contains(k) {
                    assert(entry_keys(full).contains(k));
                    let w = choose|w: int| 0 <= w < full.len() && entry_keys(full)[w] == k;
                    assert(full[w].1@ == k);
                    if w < n {
                        assert(entry_keys(r@)[w] == k);
                    }
                    assert forall|i: int| 0 <= i < r@.len() implies outranks(
                        r@[i].0 as int,
                        r@[i].1@,
                        path_count(recs, k) as int,
                        k,
                    ) by {
                        assert(r@[i] == full[i]);
                    }
                }
            }
            assert forall|a: int, b: int| 0 <= a < b < r@.len() implies outranks(
                r@[a].0 as int,
                r@[a].1@,
                r@[b].0 as int,
                r@[b].1@,
            ) by {
                assert(r@[a] == full[a]);
                assert(r@[b] == full[b]);
            }
        } else {
            assert forall|k: Seq<char>|
                #[trigger] path_keys(recs).contains(k) implies entry_keys(r@).contains(k) by {
                assert(r@ == full);
            }
        }
    }
    r
}

/// The ranking of the requests of one UTC day.
pub struct DayReport {
    /// The day, in days since 1970-01-01.
    pub day: i64,
    /// How many records fall on the day.
    pub hits: usize,
    /// The best-ranked paths among the day's records alone.
    pub top: Vec<(usize, String)>,
}

/// The number of distinct UTC days among `recs`.
pub open spec fn distinct_days(recs: Seq<Record>) -> nat {
    day_keys(recs).to_set().len()
}

/// For the `days` most recent days of the index, most recent first: the
/// day's number of records and the `n` best-ranked paths among that day's
/// records only.
pub fn daily_top(index: &LogIndex, days: usize, n: usize) -> (r: Vec<DayReport>)
    requires
        index.wf(),
    ensures
        r@.len() == if days < distinct_days(index.records()) {
            days as int
        } else {
            distinct_days(index.records()) as int
        },
        forall|i: int, j: int| 0 <= i < j < r@.len() ==> r@[i].day > r@[j].day,
        forall|i: int| 0 <= i < r@.len() ==> day_keys(index.records()).contains(#[trigger] r@[i].day as int),
        forall|d: int, i: int|
            #![trigger day_keys(index.records()).contains(d), r@[i]]
            day_keys(index.records()).contains(d) && 0 <= i < r@.len() && (forall|j: int|
                0 <= j < r@.len() ==> r@[j].day != d) ==> d < r@[i].day,
        forall|i: int| 0 <= i < r@.len() ==> (#[trigger] r@[i]).hits == day_count(index.records(), r@[i].day as int),
        forall|i: int|
            0 <= i < r@.len() ==> is_top((#[trigger] r@[i]).top@, on_day(index.records(), r@[i].day as int), n as int),
{
    let ghost recs = index.records();
    let dates = index.days_descending();
    let ghost dk = dates@.map_values(|x: i64| x as int);
    let take = if days < dates.len() {
        days
    } else {
        dates.len()
    };
    let mut r: Vec<DayReport> = Vec::new();
    let mut i: usize = 0;
    while i < take
        invariant
            index.wf(),
            recs == index.records(),
            take <= dates@.len(),
            i <= take,
            r@.len() == i,
            forall|t: int| 0 <= t < i ==> (#[trigger] r@[t]).day == dates@[t],
            forall|t: int| 0 <= t < r@.len() ==> (#[trigger] r@[t]).hits == day_count(recs, r@[t].day as int),
            forall|t: int| 0 <= t < r@.len() ==> is_top((#[trigger] r@[t]).top@, on_day(recs, r@[t].day as int), n as int),
        decreases take - i,
    {
        let d = dates[i];
        let on = index.records_on_day(d);
        let mut sub = LogIndex::new();
        let mut j: usize = 0;
        while j < on.len()
            invariant
                sub.wf(),
                j <= on@.len(),
                sub.records() == on@.subrange(0, j as int),
            decreases on@.len() - j,
        {
            sub.insert(on[j].duplicate());
            assert(on@.subrange(0, j + 1) =~= on@.subrange(0, j as int).push(on@[j as int]));
            j += 1;
        }
        assert(on@.subrange(0, j as int) =~= on@);
        let top = top_by_count(&sub, n);
        let hits = index.day_hits(d);
        r.push(DayReport { day: d, hits, top });
        i += 1;
    }
    proof {
        assert forall|a: int, b: int| 0 <= a < b < r@.len() implies r@[a].day > r@[b].day by {}
        assert forall|t: int| 0 <= t < r@.len() implies day_keys(recs).contains(#[trigger] r@[t].day as int) by {
            assert(dk[t] == r@[t].day as int);
        }
        assert forall|d: int, t: int|
            day_keys(recs).contains(d) && 0 <= t < r@.len() && (forall|j: int|
                0 <= j < r@.len() ==> r@[j].day != d) implies d < r@[t].day by {
            assert(dk.contains(d));
            let w = choose|w: int| 0 <= w < dk.len() && dk[w] == d;
            if w < take {
                assert(r@[w].day == d);
            } else {
                assert(dates@[t] > dates@[w]);
            }
        }
    }
    r
}

} // verus!
