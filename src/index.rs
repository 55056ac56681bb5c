use vstd::prelude::*;
use crate::record::Record;

verus! {

broadcast use vstd::seq_lib::group_seq_properties;

/// The positions, in increasing order, at which `k` occurs in `keys`.
pub open spec fn positions<K>(keys: Seq<K>, k: K) -> Seq<int>
    decreases keys.len(),
{
    if keys.len() == 0 {
        Seq::empty()
    } else {
        let rest = positions(keys.drop_last(), k);
        if keys.last() == k {
            rest.push(keys.len() - 1)
        } else {
            rest
        }
    }
}

/// The request path of each record, in order.
pub open spec fn path_keys(recs: Seq<Record>) -> Seq<Seq<char>> {
    recs.map_values(|r: Record| r.path@)
}

/// The UTC day of each record, in order.
pub open spec fn day_keys(recs: Seq<Record>) -> Seq<int> {
    recs.map_values(|r: Record| r.day())
}

/// How many of `recs` requested path `k`.
pub open spec fn path_count(recs: Seq<Record>, k: Seq<char>) -> nat {
    positions(path_keys(recs), k).len()
}

/// How many of `recs` fall on UTC day `d`.
pub open spec fn day_count(recs: Seq<Record>, d: int) -> nat {
    positions(day_keys(recs), d).len()
}

/// The records of `recs` that fall on UTC day `d`, in their order.
pub open spec fn on_day(recs: Seq<Record>, d: int) -> Seq<Record> {
    positions(day_keys(recs), d).map_values(|p: int| recs[p])
}

pub open spec fn as_ints(v: Seq<usize>) -> Seq<int> {
    v.map_values(|x: usize| x as int)
}

pub open spec fn shifted(s: Seq<int>, d: int) -> Seq<int> {
    s.map_values(|x: int| x + d)
}

proof fn lemma_positions_push<K>(keys: Seq<K>, x: K, k: K)
    ensures
        positions(keys.push(x), k) == (if x == k {
            positions(keys, k).push(keys.len() as int)
        } else {
            positions(keys, k)
        }),
{
    assert(keys.push(x).drop_last() =~= keys);
}

/// Positions in a concatenation are those of the first part followed by those
/// of the second part moved up by the length of the first.
pub proof fn lemma_positions_append<K>(a: Seq<K>, b: Seq<K>, k: K)
    ensures
        positions(a + b, k) == positions(a, k) + shifted(positions(b, k), a.len() as int),
    decreases b.len(),
{
    if b.len() == 0 {
        assert(a + b =~= a);
        assert(positions(a, k) + shifted(positions(b, k), a.len() as int) =~= positions(a, k));
    } else {
        let b0 = b.drop_last();
        lemma_positions_append(a, b0, k);
        assert(a + b =~= (a + b0).push(b.last()));
        assert(b0.push(b.last()) =~= b);
        lemma_positions_push(a + b0, b.last(), k);
        lemma_positions_push(b0, b.last(), k);
        assert(positions(a + b, k) =~= positions(a, k) + shifted(positions(b, k), a.len() as int));
    }
}

/// Each listed position holds `k`, every occurrence of `k` is listed, and the
/// list increases strictly.
pub proof fn lemma_positions_spec<K>(keys: Seq<K>, k: K)
    ensures
        forall|j: int|
            0 <= j < positions(keys, k).len() ==> 0 <= #[trigger] positions(keys, k)[j] < keys.len()
                && keys[positions(keys, k)[j]] == k,
        forall|i: int| 0 <= i < keys.len() && keys[i] == k ==> #[trigger] positions(keys, k).contains(i),
        forall|j1: int, j2: int|
            0 <= j1 < j2 < positions(keys, k).len() ==> positions(keys, k)[j1] < positions(keys, k)[j2],
        positions(keys, k).len() <= keys.len(),
        positions(keys, k).len() > 0 <==> keys.contains(k),
    decreases keys.len(),
{
    if keys.len() > 0 {
        let k0 = keys.drop_last();
        lemma_positions_spec(k0, k);
        lemma_positions_push(k0, keys.last(), k);
        assert(k0.push(keys.last()) =~= keys);
        let p = positions(keys, k);
        let p0 = positions(k0, k);
        assert forall|i: int| 0 <= i < keys.len() && keys[i] == k implies #[trigger] p.contains(i) by {
            if i < keys.len() - 1 {
                assert(k0[i] == k);
                assert(p0.contains(i));
                let w = choose|w: int| 0 <= w < p0.len() && p0[w] == i;
                assert(p[w] == i);
            } else {
                assert(p[p.len() - 1] == i);
            }
        }
        if keys.contains(k) {
            let i = choose|i: int| 0 <= i < keys.len() && keys[i] == k;
            assert(p.contains(i));
        }
        if p.len() > 0 {
            assert(keys[p[0]] == k);
        }
    }
}

/// `path_count` depends on the records as a multiset only.
proof fn lemma_path_count_multiset(s: Seq<Record>, k: Seq<char>)
    ensures
        path_count(s, k) == s.to_multiset().filter(|r: Record| r.path@ == k).len(),
    decreases s.len(),
{
    broadcast use vstd::multiset::group_multiset_axioms;

    let f = |r: Record| r.path@ == k;
    if s.len() == 0 {
        assert(s.to_multiset() =~= vstd::multiset::Multiset::<Record>::empty());
        assert(s.to_multiset().filter(f) =~= vstd::multiset::Multiset::<Record>::empty());
    } else {
        let s0 = s.drop_last();
        let x = s.last();
        lemma_path_count_multiset(s0, k);
        assert(s0.push(x) =~= s);
        assert(path_keys(s) =~= path_keys(s0).push(x.path@));
        lemma_positions_push(path_keys(s0), x.path@, k);
        s0.to_multiset_ensures();
        let m = s0.to_multiset();
        if f(x) {
            assert(m.insert(x).filter(f) =~= m.filter(f).insert(x));
        } else {
            assert(m.insert(x).filter(f) =~= m.filter(f));
        }
    }
}

/// `day_count` depends on the records as a multiset only.
proof fn lemma_day_count_multiset(s: Seq<Record>, d: int)
    ensures
        day_count(s, d) == s.to_multiset().filter(|r: Record| r.day() == d).len(),
    decreases s.len(),
{
    broadcast use vstd::multiset::group_multiset_axioms;

    let f = |r: Record| r.day() == d;
    if s.len() == 0 {
        assert(s.to_multiset() =~= vstd::multiset::Multiset::<Record>::empty());
        assert(s.to_multiset().filter(f) =~= vstd::multiset::Multiset::<Record>::empty());
    } else {
        let s0 = s.drop_last();
        let x = s.last();
        lemma_day_count_multiset(s0, d);
        assert(s0.push(x) =~= s);
        assert(day_keys(s) =~= day_keys(s0).push(x.day()));
        lemma_positions_push(day_keys(s0), x.day(), d);
        s0.to_multiset_ensures();
        let m = s0.to_multiset();
        if f(x) {
            assert(m.insert(x).filter(f) =~= m.filter(f).insert(x));
        } else {
            assert(m.insert(x).filter(f) =~= m.filter(f));
        }
    }
}

/// Merging gives the same count per path and per day however the records
/// were split among indices and in whatever order the indices were merged:
/// the counts of two record sequences that hold the same records, each as
/// often, agree.
pub proof fn lemma_counts_independent_of_grouping(a: Seq<Record>, b: Seq<Record>)
    requires
        a.to_multiset() == b.to_multiset(),
    ensures
        forall|k: Seq<char>| path_count(a, k) == #[trigger] path_count(b, k),
        forall|d: int| day_count(a, d) == #[trigger] day_count(b, d),
{
    assert forall|k: Seq<char>| path_count(a, k) == #[trigger] path_count(b, k) by {
        lemma_path_count_multiset(a, k);
        lemma_path_count_multiset(b, k);
    }
    assert forall|d: int| day_count(a, d) == #[trigger] day_count(b, d) by {
        lemma_day_count_multiset(a, d);
        lemma_day_count_multiset(b, d);
    }
}

/// The counts of a merge are the sums of the counts of its parts.
pub proof fn lemma_merge_counts(a: Seq<Record>, b: Seq<Record>)
    ensures
        forall|k: Seq<char>| #[trigger] path_count(a + b, k) == path_count(a, k) + path_count(b, k),
        forall|d: int| #[trigger] day_count(a + b, d) == day_count(a, d) + day_count(b, d),
{
    assert(path_keys(a + b) =~= path_keys(a) + path_keys(b));
    assert(day_keys(a + b) =~= day_keys(a) + day_keys(b));
    assert forall|k: Seq<char>| #[trigger] path_count(a + b, k) == path_count(a, k) + path_count(b, k) by {
        lemma_positions_append(path_keys(a), path_keys(b), k);
    }
    assert forall|d: int| #[trigger] day_count(a + b, d) == day_count(a, d) + day_count(b, d) by {
        lemma_positions_append(day_keys(a), day_keys(b), d);
    }
}

/// The records of one day's bucket are exactly the records of that day:
/// each falls on the day, and each record of the day is among them.
pub proof fn lemma_day_bucket(recs: Seq<Record>, d: int)
    ensures
        forall|j: int| 0 <= j < on_day(recs, d).len() ==> (#[trigger] on_day(recs, d)[j]).day() == d,
        forall|i: int| 0 <= i < recs.len() && (#[trigger] recs[i]).day() == d ==> on_day(recs, d).contains(recs[i]),
{
    let p = positions(day_keys(recs), d);
    lemma_positions_spec(day_keys(recs), d);
    assert forall|j: int| 0 <= j < on_day(recs, d).len() implies (#[trigger] on_day(recs, d)[j]).day() == d by {
        assert(day_keys(recs)[p[j]] == d);
    }
    assert forall|i: int| 0 <= i < recs.len() && (#[trigger] recs[i]).day() == d implies on_day(recs, d).contains(recs[i]) by {
        assert(day_keys(recs)[i] == d);
        assert(p.contains(i));
        let w = choose|w: int| 0 <= w < p.len() && p[w] == i;
        assert(on_day(recs, d)[w] == recs[i]);
    }
}

/// The offsets a slot keyed `k` holds partway through a merge: those from
/// the first store, followed, once the second index's slot `k` has been
/// moved over, by the second store's offsets raised by `offset`.
pub open spec fn merged_slot<K>(a_keys: Seq<K>, b_keys: Seq<K>, done: Seq<K>, k: K, offset: int) -> Seq<int> {
    if done.contains(k) {
        positions(a_keys, k) + shifted(positions(b_keys, k), offset)
    } else {
        positions(a_keys, k)
    }
}

proof fn lemma_merged_full<K>(ak: Seq<K>, bk: Seq<K>, done: Seq<K>, k: K, offset: int)
    requires
        offset == ak.len(),
        bk.contains(k) ==> done.contains(k),
    ensures
        merged_slot(ak, bk, done, k, offset) == positions(ak + bk, k),
{
    lemma_positions_append(ak, bk, k);
    if !done.contains(k) {
        lemma_positions_spec(bk, k);
        assert(positions(ak, k) + shifted(positions(bk, k), offset) =~= positions(ak, k));
    }
}

proof fn lemma_contains_concat<K>(a: Seq<K>, b: Seq<K>, k: K)
    ensures
        (a + b).contains(k) <==> a.contains(k) || b.contains(k),
{
    if (a + b).contains(k) {
        let w = choose|w: int| 0 <= w < (a + b).len() && (a + b)[w] == k;
        if w >= a.len() {
            assert(b[w - a.len()] == k);
        }
    }
    if a.contains(k) {
        let w = choose|w: int| 0 <= w < a.len() && a[w] == k;
        assert((a + b)[w] == k);
    }
    if b.contains(k) {
        let w = choose|w: int| 0 <= w < b.len() && b[w] == k;
        assert((a + b)[w + a.len()] == k);
    }
}

/// An append-only store of records with two lookup structures kept beside
/// it: for each request path, and for each UTC day, the offsets into the store
/// of the records that have it. Paths are listed in the order first seen, days
/// in ascending order.
pub struct LogIndex {
    store: Vec<Record>,
    by_path: Vec<(String, Vec<usize>)>,
    by_day: Vec<(i64, Vec<usize>)>,
}

impl LogIndex {
    /// The records, in store order.
    pub closed spec fn records(&self) -> Seq<Record> {
        self.store@
    }

    pub closed spec fn path_slot_keys(&self) -> Seq<Seq<char>> {
        self.by_path@.map_values(|e: (String, Vec<usize>)| e.0@)
    }

    pub closed spec fn day_slot_keys(&self) -> Seq<int> {
        self.by_day@.map_values(|e: (i64, Vec<usize>)| e.0 as int)
    }

    /// Each lookup slot lists exactly the offsets of the records with its key,
    /// path slots have distinct keys, day slots ascend strictly, and every key
    /// of a record has a slot.
    pub closed spec fn wf(&self) -> bool {
        let recs = self.store@;
        &&& forall|i: int, j: int|
            0 <= i < j < self.by_path@.len() ==> self.by_path@[i].0@ != self.by_path@[j].0@
        &&& forall|i: int|
            0 <= i < self.by_path@.len() ==> as_ints(#[trigger] self.by_path@[i].1@) == positions(
                path_keys(recs),
                self.by_path@[i].0@,
            )
        &&& forall|k: Seq<char>| #[trigger]
            path_keys(recs).contains(k) <==> self.path_slot_keys().contains(k)
        &&& forall|i: int, j: int|
            0 <= i < j < self.by_day@.len() ==> self.by_day@[i].0 < self.by_day@[j].0
        &&& forall|i: int|
            0 <= i < self.by_day@.len() ==> as_ints(#[trigger] self.by_day@[i].1@) == positions(
                day_keys(recs),
                self.by_day@[i].0 as int,
            )
        &&& forall|d: int| #[trigger] day_keys(recs).contains(d) <==> self.day_slot_keys().contains(d)
    }

    /// An index with no records.
    pub fn new() -> (r: LogIndex)
        ensures
            r.wf(),
            r.records() == Seq::<Record>::empty(),
    {
        LogIndex { store: Vec::new(), by_path: Vec::new(), by_day: Vec::new() }
    }

    /// The number of records.
    pub fn len(&self) -> (n: usize)
        ensures
            n == self.records().len(),
    {
        self.store.len()
    }

    /// The records, in store order.
    pub fn entries(&self) -> (r: &Vec<Record>)
        ensures
            r@ == self.records(),
    {
        &self.store
    }
}

impl LogIndex {
    /// Appends `record` to the store and files its offset under its path and
    /// under its UTC day.
    pub fn insert(&mut self, record: Record)
        requires
            old(self).wf(),
            old(self).records().len() < usize::MAX,
        ensures
            final(self).wf(),
            final(self).records() == old(self).records().push(record),
    {
        let index = self.store.len();
        let ghost recs = self.store@;
        let ghost new_recs = recs.push(record);
        let ghost old_paths = self.by_path@;
        let ghost old_days = self.by_day@;
        let day = record.timestamp.utc_day();
        proof {
            assert(path_keys(new_recs) =~= path_keys(recs).push(record.path@));
            assert(day_keys(new_recs) =~= day_keys(recs).push(record.day()));
            lemma_positions_spec(path_keys(recs), record.path@);
            lemma_positions_spec(day_keys(recs), record.day());
        }
        match find_path(&self.by_path, &record.path) {
            Some(i) => {
                self.by_path[i].1.push(index);
                proof {
                    assert(self.by_path@ =~= old_paths.update(i as int, (old_paths[i as int].0, self.by_path@[i as int].1)));
                    assert(self.path_slot_keys()[i as int] == record.path@);
                }
            },
            None => {
                let mut v: Vec<usize> = Vec::new();
                v.push(index);
                self.by_path.push((record.path.clone(), v));
                proof {
                    assert(!self.path_slot_keys().drop_last().contains(record.path@)) by {
                        assert(old_paths.map_values(|e: (String, Vec<usize>)| e.0@) =~= self.path_slot_keys().drop_last());
                    }
                    assert(self.path_slot_keys()[old_paths.len() as int] == record.path@);
                }
            },
        }
        proof {
            assert forall|j: int| 0 <= j < self.by_path@.len() implies as_ints(#[trigger] self.by_path@[j].1@) == positions(
                path_keys(new_recs),
                self.by_path@[j].0@,
            ) by {
                lemma_positions_push(path_keys(recs), record.path@, self.by_path@[j].0@);
                if j < old_paths.len() {
                    assert(self.by_path@[j].0@ == old_paths[j].0@);
                    if self.by_path@[j].0@ == record.path@ {
                        assert(as_ints(self.by_path@[j].1@) =~= as_ints(old_paths[j].1@).push(index as int));
                    } else {
                        assert(self.by_path@[j] == old_paths[j]);
                    }
                } else {
                    assert(!path_keys(recs).contains(record.path@)) by {
                        if path_keys(recs).contains(record.path@) {
                            let ok = old_paths.map_values(|e: (String, Vec<usize>)| e.0@);
                            assert(ok.contains(record.path@));
                            let w = choose|w: int| 0 <= w < ok.len() && ok[w] == record.path@;
                            assert(old_paths[w].0@ == record.path@);
                        }
                    }
                    assert(as_ints(self.by_path@[j].1@) =~= seq![index as int]);
                    assert(positions(path_keys(recs), record.path@) =~= Seq::<int>::empty());
                }
            }
            assert forall|a: int, b: int| 0 <= a < b < self.by_path@.len() implies self.by_path@[a].0@ != self.by_path@[b].0@ by {
                if b >= old_paths.len() {
                    assert(old_paths.map_values(|e: (String, Vec<usize>)| e.0@)[a] == old_paths[a].0@);
                }
            }
            assert(self.path_slot_keys().contains(record.path@));
            assert forall|k: Seq<char>| #[trigger] path_keys(new_recs).contains(k) <==> self.path_slot_keys().contains(k) by {
                let ok = old_paths.map_values(|e: (String, Vec<usize>)| e.0@);
                assert(self.by_path@.len() >= old_paths.len());
                assert(forall|v: int| 0 <= v < old_paths.len() ==> self.by_path@[v].0 == old_paths[v].0);
                if path_keys(new_recs).contains(k) {
                    if k != record.path@ {
                        let w = choose|w: int| 0 <= w < path_keys(new_recs).len() && path_keys(new_recs)[w] == k;
                        assert(path_keys(recs)[w] == k);
                        assert(path_keys(recs).contains(k));
                        assert(ok.contains(k));
                        let v = choose|v: int| 0 <= v < ok.len() && ok[v] == k;
                        assert(self.path_slot_keys()[v] == k);
                    } else {
                        assert(path_keys(new_recs)[recs.len() as int] == k);
                    }
                }
                if self.path_slot_keys().contains(k) {
                    let v = choose|v: int| 0 <= v < self.path_slot_keys().len() && self.path_slot_keys()[v] == k;
                    if v < old_paths.len() {
                        assert(ok[v] == k);
                        assert(path_keys(recs).contains(k));
                        let w = choose|w: int| 0 <= w < path_keys(recs).len() && path_keys(recs)[w] == k;
                        assert(path_keys(new_recs)[w] == k);
                    } else {
                        assert(path_keys(new_recs)[recs.len() as int] == k);
                    }
                }
            }
        }
        let ghost d = record.day();
        match find_day(&self.by_day, day) {
            Ok(i) => {
                self.by_day[i].1.push(index);
                proof {
                    assert(self.by_day@ =~= old_days.update(i as int, (old_days[i as int].0, self.by_day@[i as int].1)));
                    assert(self.day_slot_keys() =~= old_days.map_values(|e: (i64, Vec<usize>)| e.0 as int));
                    assert(day_keys(new_recs).contains(d));
                    assert(day_keys(new_recs)[recs.len() as int] == d);
                    assert(self.day_slot_keys()[i as int] == d);
                    assert forall|j: int| 0 <= j < self.by_day@.len() implies as_ints(#[trigger] self.by_day@[j].1@) == positions(
                        day_keys(new_recs),
                        self.by_day@[j].0 as int,
                    ) by {
                        lemma_positions_push(day_keys(recs), d, self.by_day@[j].0 as int);
                        if j == i {
                            assert(as_ints(self.by_day@[j].1@) =~= as_ints(old_days[j].1@).push(index as int));
                        }
                    }
                    assert forall|k: int| #[trigger] day_keys(new_recs).contains(k) <==> self.day_slot_keys().contains(k) by {
                        if day_keys(new_recs).contains(k) && k != d {
                            let w = choose|w: int| 0 <= w < day_keys(new_recs).len() && day_keys(new_recs)[w] == k;
                            assert(day_keys(recs)[w] == k);
                            assert(day_keys(recs).contains(k));
                        }
                        if self.day_slot_keys().contains(k) && k != d {
                            assert(day_keys(recs).contains(k));
                            let w = choose|w: int| 0 <= w < day_keys(recs).len() && day_keys(recs)[w] == k;
                            assert(day_keys(new_recs)[w] == k);
                        }
                    }
                }
            },
            Err(i) => {
                let mut v: Vec<usize> = Vec::new();
                v.push(index);
                self.by_day.insert(i, (day, v));
                proof {
                    let ok = old_days.map_values(|e: (i64, Vec<usize>)| e.0 as int);
                    assert(self.by_day@ =~= old_days.subrange(0, i as int).push((day, v)) + old_days.subrange(i as int, old_days.len() as int));
                    assert(!ok.contains(d)) by {
                        if ok.contains(d) {
                            let w = choose|w: int| 0 <= w < ok.len() && ok[w] == d;
                            assert(old_days[w].0 == day);
                        }
                    }
                    assert(!day_keys(recs).contains(d));
                    assert(positions(day_keys(recs), d) =~= Seq::<int>::empty());
                    assert forall|j: int| 0 <= j < self.by_day@.len() implies as_ints(#[trigger] self.by_day@[j].1@) == positions(
                        day_keys(new_recs),
                        self.by_day@[j].0 as int,
                    ) by {
                        lemma_positions_push(day_keys(recs), d, self.by_day@[j].0 as int);
                        if j == i {
                            assert(as_ints(self.by_day@[j].1@) =~= seq![index as int]);
                        } else if j < i {
                            assert(self.by_day@[j] == old_days[j]);
                        } else {
                            assert(self.by_day@[j] == old_days[j - 1]);
                        }
                    }
                    assert forall|a: int, b: int| 0 <= a < b < self.by_day@.len() implies self.by_day@[a].0 < self.by_day@[b].0 by {
                        if a < i && b < i {
                            assert(self.by_day@[a] == old_days[a]);
                            assert(self.by_day@[b] == old_days[b]);
                        } else if a < i && b == i {
                            assert(self.by_day@[a] == old_days[a]);
                        } else if a < i {
                            assert(self.by_day@[a] == old_days[a]);
                            assert(self.by_day@[b] == old_days[b - 1]);
                        } else if a == i {
                            assert(self.by_day@[b] == old_days[b - 1]);
                        } else {
                            assert(self.by_day@[a] == old_days[a - 1]);
                            assert(self.by_day@[b] == old_days[b - 1]);
                        }
                    }
                    let nk = self.day_slot_keys();
                    assert(nk =~= ok.subrange(0, i as int).push(d) + ok.subrange(i as int, ok.len() as int));
                    assert forall|k: int| #[trigger] day_keys(new_recs).contains(k) <==> nk.contains(k) by {
                        if day_keys(new_recs).contains(k) {
                            if k == d {
                                assert(nk[i as int] == d);
                            } else {
                                let w = choose|w: int| 0 <= w < day_keys(new_recs).len() && day_keys(new_recs)[w] == k;
                                assert(day_keys(recs)[w] == k);
                                assert(day_keys(recs).contains(k));
                                let v = choose|v: int| 0 <= v < ok.len() && ok[v] == k;
                                if v < i {
                                    assert(nk[v] == k);
                                } else {
                                    assert(nk[v + 1] == k);
                                }
                            }
                        }
                        if nk.contains(k) {
                            if k == d {
                                assert(day_keys(new_recs)[recs.len() as int] == d);
                            } else {
                                let v = choose|v: int| 0 <= v < nk.len() && nk[v] == k;
                                if v < i {
                                    assert(ok[v] == k);
                                } else {
                                    assert(ok[v - 1] == k);
                                }
                                assert(day_keys(recs).contains(k));
                                let w = choose|w: int| 0 <= w < day_keys(recs).len() && day_keys(recs)[w] == k;
                                assert(day_keys(new_recs)[w] == k);
                            }
                        }
                    }
                }
            },
        }
        self.store.push(record);
    }
}

impl LogIndex {
    /// Appends the records of `other` after those of `self`, keeping their
    /// order. Each offset that `other` files under a path or a day is moved
    /// up by the number of records `self` held, and added to the slot of
    /// `self` with that key, or to a new slot.
    pub fn merge(&mut self, other: LogIndex)
        requires
            old(self).wf(),
            other.wf(),
            old(self).records().len() + other.records().len() <= usize::MAX,
        ensures
            final(self).wf(),
            final(self).records() == old(self).records() + other.records(),
    {
        let offset = self.store.len();
        let ghost a = self.store@;
        let ghost b = other.store@;
        let ghost ob = other;
        let LogIndex { store: mut incoming, by_path: other_paths, by_day: other_days } = other;
        let other_len = incoming.len();
        self.store.append(&mut incoming);
        let ghost opk = ob.path_slot_keys();
        let ghost odk = ob.day_slot_keys();
        proof {
            assert forall|i: int| 0 <= i < self.by_path@.len() implies as_ints(#[trigger] self.by_path@[i].1@)
                == merged_slot(path_keys(a), path_keys(b), opk.subrange(0, 0), self.by_path@[i].0@, offset as int) by {}
            assert forall|k: Seq<char>| #[trigger] self.path_slot_keys().contains(k) <==> (path_keys(a).contains(k)
                || opk.subrange(0, 0).contains(k)) by {}
        }
        let mut i: usize = 0;
        while i < other_paths.len()
            invariant
                i <= other_paths@.len(),
                offset == a.len(),
                a.len() + b.len() <= usize::MAX,
                other_len == b.len(),
                self.store@ == a + b,
                other_paths == ob.by_path,
                opk == ob.path_slot_keys(),
                ob.wf(),
                ob.store@ == b,
                forall|x: int, y: int|
                    0 <= x < y < self.by_path@.len() ==> self.by_path@[x].0@ != self.by_path@[y].0@,
                forall|x: int|
                    0 <= x < self.by_path@.len() ==> as_ints(#[trigger] self.by_path@[x].1@) == merged_slot(
                        path_keys(a),
                        path_keys(b),
                        opk.subrange(0, i as int),
                        self.by_path@[x].0@,
                        offset as int,
                    ),
                forall|k: Seq<char>| #[trigger] self.path_slot_keys().contains(k) <==> (path_keys(a).contains(k)
                    || opk.subrange(0, i as int).contains(k)),
                self.by_day == old(self).by_day,
            decreases other_paths@.len() - i,
        {
            let key = &other_paths[i].0;
            let ghost k = key@;
            let ghost done = opk.subrange(0, i as int);
            let ghost next = opk.subrange(0, i + 1);
            proof {
                assert(next =~= done.push(k));
                assert(opk[i as int] == k);
                assert(!done.contains(k)) by {
                    if done.contains(k) {
                        let w = choose|w: int| 0 <= w < done.len() && done[w] == k;
                        assert(ob.by_path@[w].0@ == ob.by_path@[i as int].0@);
                    }
                }
                lemma_positions_spec(path_keys(b), k);
                assert(as_ints(other_paths@[i as int].1@) == positions(path_keys(b), k));
            }
            proof {
                assert forall|t: int| 0 <= t < other_paths@[i as int].1@.len() implies #[trigger] other_paths@[i as int].1@[t] < other_len by {
                    assert(as_ints(other_paths@[i as int].1@)[t] == other_paths@[i as int].1@[t] as int);
                }
            }
            let mut moved = shift_all(&other_paths[i].1, offset, other_len);
            let ghost mv = moved@;
            let ghost old_paths = self.by_path@;
            match find_path(&self.by_path, key) {
                Some(j) => {
                    let ghost before = self.by_path@[j as int].1@;
                    self.by_path[j].1.append(&mut moved);
                    proof {
                        assert(self.by_path@ =~= old_paths.update(j as int, (old_paths[j as int].0, self.by_path@[j as int].1)));
                        assert(as_ints(self.by_path@[j as int].1@) =~= as_ints(before) + as_ints(mv));
                    }
                },
                None => {
                    proof {
                        assert(!self.path_slot_keys().contains(k)) by {
                            if self.path_slot_keys().contains(k) {
                                let w = choose|w: int| 0 <= w < self.path_slot_keys().len() && self.path_slot_keys()[w] == k;
                                assert(self.by_path@[w].0@ == k);
                            }
                        }
                        assert(positions(path_keys(a), k) =~= Seq::<int>::empty()) by {
                            lemma_positions_spec(path_keys(a), k);
                        }
                    }
                    self.by_path.push((key.clone(), moved));
                },
            }
            proof {
                assert forall|x: int| 0 <= x < self.by_path@.len() implies as_ints(#[trigger] self.by_path@[x].1@)
                    == merged_slot(path_keys(a), path_keys(b), next, self.by_path@[x].0@, offset as int) by {
                    if x < old_paths.len() && self.by_path@[x].0@ != k {
                        assert(self.by_path@[x] == old_paths[x]);
                        assert(next.contains(self.by_path@[x].0@) <==> done.contains(self.by_path@[x].0@));
                    }
                    if x >= old_paths.len() {
                        assert(next[i as int] == k);
                    }
                    if x < old_paths.len() && self.by_path@[x].0@ == k {
                        assert(next[i as int] == k);
                    }
                }
                assert forall|x: int, y: int| 0 <= x < y < self.by_path@.len() implies self.by_path@[x].0@ != self.by_path@[y].0@ by {
                    if y >= old_paths.len() {
                        assert(old_paths.map_values(|e: (String, Vec<usize>)| e.0@)[x] == old_paths[x].0@);
                    }
                }
                let ok = old_paths.map_values(|e: (String, Vec<usize>)| e.0@);
                assert forall|q: Seq<char>| #[trigger] self.path_slot_keys().contains(q) <==> (path_keys(a).contains(q)
                    || next.contains(q)) by {
                    assert(next.contains(q) <==> (done.contains(q) || q == k));
                    if self.path_slot_keys().contains(q) {
                        let w = choose|w: int| 0 <= w < self.path_slot_keys().len() && self.path_slot_keys()[w] == q;
                        if w < old_paths.len() {
                            assert(ok[w] == q);
                        }
                    }
                    if ok.contains(q) {
                        let w = choose|w: int| 0 <= w < ok.len() && ok[w] == q;
                        assert(self.path_slot_keys()[w] == q);
                    }
                    if q == k {
                        if self.by_path@.len() > old_paths.len() {
                            assert(self.path_slot_keys()[old_paths.len() as int] == q);
                        } else {
                            let j = choose|j: int| 0 <= j < old_paths.len() && old_paths[j].0@ == k;
                            assert(self.path_slot_keys()[j] == q);
                        }
                    }
                }
            }
            i += 1;
        }
        proof {
            assert(opk.subrange(0, i as int) =~= opk);
            assert forall|x: int| 0 <= x < self.by_path@.len() implies as_ints(#[trigger] self.by_path@[x].1@)
                == merged_slot(path_keys(a), path_keys(b), opk, self.by_path@[x].0@, offset as int) by {}
            assert forall|k: Seq<char>| #[trigger] self.path_slot_keys().contains(k) <==> (path_keys(a).contains(k)
                || opk.contains(k)) by {}
            assert forall|x: int| 0 <= x < self.by_day@.len() implies as_ints(#[trigger] self.by_day@[x].1@)
                == merged_slot(day_keys(a), day_keys(b), odk.subrange(0, 0), self.by_day@[x].0 as int, offset as int) by {}
            assert forall|d: int| #[trigger] self.day_slot_keys().contains(d) <==> (day_keys(a).contains(d)
                || odk.subrange(0, 0).contains(d)) by {}
        }
        let ghost paths_done = self.by_path;
        let ghost done_keys = self.path_slot_keys();
        proof {
            assert(done_keys =~= paths_done@.map_values(|e: (String, Vec<usize>)| e.0@));
        }
        let mut i: usize = 0;
        while i < other_days.len()
            invariant
                i <= other_days@.len(),
                offset == a.len(),
                a.len() + b.len() <= usize::MAX,
                other_len == b.len(),
                self.store@ == a + b,
                other_days == ob.by_day,
                odk == ob.day_slot_keys(),
                ob.wf(),
                ob.store@ == b,
                forall|x: int, y: int| 0 <= x < y < self.by_day@.len() ==> self.by_day@[x].0 < self.by_day@[y].0,
                forall|x: int|
                    0 <= x < self.by_day@.len() ==> as_ints(#[trigger] self.by_day@[x].1@) == merged_slot(
                        day_keys(a),
                        day_keys(b),
                        odk.subrange(0, i as int),
                        self.by_day@[x].0 as int,
                        offset as int,
                    ),
                forall|d: int| #[trigger] self.day_slot_keys().contains(d) <==> (day_keys(a).contains(d)
                    || odk.subrange(0, i as int).contains(d)),
                self.by_path == paths_done,
                opk == ob.path_slot_keys(),
            decreases other_days@.len() - i,
        {
            let dd = other_days[i].0;
            let ghost k = dd as int;
            let ghost done = odk.subrange(0, i as int);
            let ghost next = odk.subrange(0, i + 1);
            proof {
                assert(next =~= done.push(k));
                assert(odk[i as int] == k);
                assert(!done.contains(k)) by {
                    if done.contains(k) {
                        let w = choose|w: int| 0 <= w < done.len() && done[w] == k;
                        assert(ob.by_day@[w].0 < ob.by_day@[i as int].0);
                    }
                }
                lemma_positions_spec(day_keys(b), k);
                assert(as_ints(other_days@[i as int].1@) == positions(day_keys(b), k));
            }
            proof {
                assert forall|t: int| 0 <= t < other_days@[i as int].1@.len() implies #[trigger] other_days@[i as int].1@[t] < other_len by {
                    assert(as_ints(other_days@[i as int].1@)[t] == other_days@[i as int].1@[t] as int);
                }
            }
            let mut moved = shift_all(&other_days[i].1, offset, other_len);
            let ghost mv = moved@;
            let ghost old_days = self.by_day@;
            let ghost ok = old_days.map_values(|e: (i64, Vec<usize>)| e.0 as int);
            proof {
                assert(self.day_slot_keys() =~= ok);
                assert(forall|q: int| #[trigger] ok.contains(q) <==> (day_keys(a).contains(q) || done.contains(q)));
            }
            match find_day(&self.by_day, dd) {
                Ok(j) => {
                    let ghost before = self.by_day@[j as int].1@;
                    self.by_day[j].1.append(&mut moved);
                    proof {
                        assert(self.by_day@ =~= old_days.update(j as int, (old_days[j as int].0, self.by_day@[j as int].1)));
                        assert(as_ints(self.by_day@[j as int].1@) =~= as_ints(before) + as_ints(mv));
                        assert(self.day_slot_keys() =~= ok);
                        assert forall|x: int| 0 <= x < self.by_day@.len() implies as_ints(#[trigger] self.by_day@[x].1@)
                            == merged_slot(day_keys(a), day_keys(b), next, self.by_day@[x].0 as int, offset as int) by {
                            assert(next[i as int] == k);
                            if x != j {
                                assert(self.by_day@[x] == old_days[x]);
                                assert(next.contains(self.by_day@[x].0 as int) <==> done.contains(self.by_day@[x].0 as int));
                            }
                        }
                        assert forall|q: int| #[trigger] self.day_slot_keys().contains(q) <==> (day_keys(a).contains(q)
                            || next.contains(q)) by {
                            assert(next.contains(q) <==> (done.contains(q) || q == k));
                            if q == k {
                                assert(self.day_slot_keys()[j as int] == q);
                            }
                        }
                    }
                },
                Err(j) => {
                    proof {
                        assert(!ok.contains(k)) by {
                            if ok.contains(k) {
                                let w = choose|w: int| 0 <= w < ok.len() && ok[w] == k;
                                assert(old_days[w].0 == dd);
                            }
                        }
                        assert(!day_keys(a).contains(k));
                        assert(positions(day_keys(a), k) =~= Seq::<int>::empty()) by {
                            lemma_positions_spec(day_keys(a), k);
                        }
                    }
                    self.by_day.insert(j, (dd, moved));
                    proof {
                        assert(self.by_day@ =~= old_days.subrange(0, j as int).push((dd, moved)) + old_days.subrange(j as int, old_days.len() as int));
                        assert forall|x: int| 0 <= x < self.by_day@.len() implies as_ints(#[trigger] self.by_day@[x].1@)
                            == merged_slot(day_keys(a), day_keys(b), next, self.by_day@[x].0 as int, offset as int) by {
                            assert(next[i as int] == k);
                            if x < j {
                                assert(self.by_day@[x] == old_days[x]);
                                assert(next.contains(self.by_day@[x].0 as int) <==> done.contains(self.by_day@[x].0 as int));
                            } else if x > j {
                                assert(self.by_day@[x] == old_days[x - 1]);
                                assert(next.contains(self.by_day@[x].0 as int) <==> done.contains(self.by_day@[x].0 as int));
                            } else {
                                assert(positions(day_keys(a), k) + shifted(positions(day_keys(b), k), offset as int) =~= shifted(positions(day_keys(b), k), offset as int));
                            }
                        }
                        assert forall|x: int, y: int| 0 <= x < y < self.by_day@.len() implies self.by_day@[x].0 < self.by_day@[y].0 by {
                            if x < j && y < j {
                                assert(self.by_day@[x] == old_days[x]);
                                assert(self.by_day@[y] == old_days[y]);
                            } else if x < j && y == j {
                                assert(self.by_day@[x] == old_days[x]);
                            } else if x < j {
                                assert(self.by_day@[x] == old_days[x]);
                                assert(self.by_day@[y] == old_days[y - 1]);
                            } else if x == j {
                                assert(self.by_day@[y] == old_days[y - 1]);
                            } else {
                                assert(self.by_day@[x] == old_days[x - 1]);
                                assert(self.by_day@[y] == old_days[y - 1]);
                            }
                        }
                        let nk = self.day_slot_keys();
                        assert(nk =~= ok.subrange(0, j as int).push(k) + ok.subrange(j as int, ok.len() as int));
                        assert forall|q: int| #[trigger] nk.contains(q) <==> (day_keys(a).contains(q) || next.contains(q)) by {
                            assert(next.contains(q) <==> (done.contains(q) || q == k));
                            if q == k {
                                assert(nk[j as int] == q);
                            } else {
                                if nk.contains(q) {
                                    let w = choose|w: int| 0 <= w < nk.len() && nk[w] == q;
                                    if w < j {
                                        assert(ok[w] == q);
                                    } else {
                                        assert(ok[w - 1] == q);
                                    }
                                }
                                if ok.contains(q) {
                                    let w = choose|w: int| 0 <= w < ok.len() && ok[w] == q;
                                    if w < j {
                                        assert(nk[w] == q);
                                    } else {
                                        assert(nk[w + 1] == q);
                                    }
                                }
                            }
                        }
                    }
                },
            }
            i += 1;
        }
        proof {
            assert(odk.subrange(0, i as int) =~= odk);
            let ab = a + b;
            assert(self.store@ == ab);
            assert(self.path_slot_keys() =~= done_keys);
            assert(path_keys(ab) =~= path_keys(a) + path_keys(b));
            assert(day_keys(ab) =~= day_keys(a) + day_keys(b));
            assert forall|x: int| 0 <= x < self.by_path@.len() implies as_ints(#[trigger] self.by_path@[x].1@)
                == positions(path_keys(ab), self.by_path@[x].0@) by {
                let k = self.by_path@[x].0@;
                assert(path_keys(b).contains(k) ==> opk.contains(k));
                lemma_merged_full(path_keys(a), path_keys(b), opk, k, offset as int);
            }
            assert forall|k: Seq<char>| #[trigger] path_keys(ab).contains(k) <==> self.path_slot_keys().contains(k) by {
                assert(path_keys(b).contains(k) <==> opk.contains(k));
                lemma_contains_concat(path_keys(a), path_keys(b), k);
            }
            assert forall|x: int| 0 <= x < self.by_day@.len() implies as_ints(#[trigger] self.by_day@[x].1@)
                == positions(day_keys(ab), self.by_day@[x].0 as int) by {
                let k = self.by_day@[x].0 as int;
                assert(day_keys(b).contains(k) ==> odk.contains(k));
                lemma_merged_full(day_keys(a), day_keys(b), odk, k, offset as int);
            }
            assert forall|d: int| #[trigger] day_keys(ab).contains(d) <==> self.day_slot_keys().contains(d) by {
                assert(day_keys(b).contains(d) <==> odk.contains(d));
                lemma_contains_concat(day_keys(a), day_keys(b), d);
            }
        }
    }

    /// For each distinct path, the number of records that requested it, in
    /// the order the paths were first seen.
    pub fn count_by_path(&self) -> (r: Vec<(usize, String)>)
        requires
            self.wf(),
        ensures
            forall|i: int| 0 <= i < r@.len() ==> (#[trigger] r@[i]).0 == path_count(self.records(), r@[i].1@),
            forall|i: int, j: int| 0 <= i < j < r@.len() ==> r@[i].1@ != r@[j].1@,
            forall|k: Seq<char>| #[trigger] path_keys(self.records()).contains(k) <==> r@.map_values(|e: (usize, String)| e.1@).contains(k),
    {
        let mut r: Vec<(usize, String)> = Vec::new();
        let mut i: usize = 0;
        while i < self.by_path.len()
            invariant
                self.wf(),
                i <= self.by_path@.len(),
                r@.len() == i,
                forall|j: int| 0 <= j < i ==> (#[trigger] r@[j]).1@ == self.by_path@[j].0@ && r@[j].0 == path_count(self.records(), r@[j].1@),
            decreases self.by_path@.len() - i,
        {
            let n = self.by_path[i].1.len();
            proof {
                assert(as_ints(self.by_path@[i as int].1@).len() == n);
            }
            r.push((n, self.by_path[i].0.clone()));
            i += 1;
        }
        proof {
            let rk = r@.map_values(|e: (usize, String)| e.1@);
            assert(rk =~= self.path_slot_keys());
        }
        r
    }

    /// The offsets of the records that requested `path`, ascending; `None`
    /// where no record did.
    pub fn path_indices(&self, path: &String) -> (r: Option<Vec<usize>>)
        requires
            self.wf(),
        ensures
            match r {
                Some(v) => as_ints(v@) == positions(path_keys(self.records()), path@) && v@.len() > 0,
                None => !path_keys(self.records()).contains(path@),
            },
    {
        proof {
            lemma_positions_spec(path_keys(self.records()), path@);
        }
        match find_path(&self.by_path, path) {
            Some(i) => {
                proof {
                    assert(self.path_slot_keys()[i as int] == path@);
                    assert(as_ints(self.by_path@[i as int].1@).len() == self.by_path@[i as int].1@.len());
                }
                Some(self.by_path[i].1.clone())
            },
            None => {
                proof {
                    if self.path_slot_keys().contains(path@) {
                        let w = choose|w: int| 0 <= w < self.path_slot_keys().len() && self.path_slot_keys()[w] == path@;
                        assert(self.by_path@[w].0@ == path@);
                    }
                }
                None
            },
        }
    }

    /// The number of records on UTC day `d`.
    pub fn day_hits(&self, d: i64) -> (n: usize)
        requires
            self.wf(),
        ensures
            n == day_count(self.records(), d as int),
    {
        proof {
            lemma_positions_spec(day_keys(self.records()), d as int);
        }
        match find_day(&self.by_day, d) {
            Ok(i) => {
                proof {
                    assert(as_ints(self.by_day@[i as int].1@).len() == self.by_day@[i as int].1@.len());
                }
                self.by_day[i].1.len()
            },
            Err(i) => {
                proof {
                    if day_keys(self.records()).contains(d as int) {
                        assert(self.day_slot_keys().contains(d as int));
                        let w = choose|w: int| 0 <= w < self.day_slot_keys().len() && self.day_slot_keys()[w] == d;
                        assert(self.by_day@[w].0 == d);
                    }
                }
                0
            },
        }
    }

    /// The records on UTC day `d`, in store order.
    pub fn records_on_day(&self, d: i64) -> (r: Vec<Record>)
        requires
            self.wf(),
        ensures
            r@ == on_day(self.records(), d as int),
    {
        proof {
            lemma_positions_spec(day_keys(self.records()), d as int);
        }
        let mut r: Vec<Record> = Vec::new();
        match find_day(&self.by_day, d) {
            Ok(i) => {
                let slot = &self.by_day[i].1;
                let ghost p = positions(day_keys(self.records()), d as int);
                assert(as_ints(slot@) == p);
                let mut j: usize = 0;
                while j < slot.len()
                    invariant
                        self.wf(),
                        as_ints(slot@) == p,
                        p == positions(day_keys(self.records()), d as int),
                        forall|t: int| 0 <= t < p.len() ==> 0 <= #[trigger] p[t] < self.records().len(),
                        j <= slot@.len(),
                        r@ == p.subrange(0, j as int).map_values(|q: int| self.records()[q]),
                    decreases slot@.len() - j,
                {
                    let at = slot[j];
                    assert(p[j as int] == at as int);
                    r.push(self.store[at].duplicate());
                    assert(p.subrange(0, j + 1) =~= p.subrange(0, j as int).push(p[j as int]));
                    assert(r@ =~= p.subrange(0, j + 1).map_values(|q: int| self.records()[q]));
                    j += 1;
                }
                assert(p.subrange(0, j as int) =~= p);
            },
            Err(i) => {
                proof {
                    if day_keys(self.records()).contains(d as int) {
                        assert(self.day_slot_keys().contains(d as int));
                        let w = choose|w: int| 0 <= w < self.day_slot_keys().len() && self.day_slot_keys()[w] == d;
                        assert(self.by_day@[w].0 == d);
                    }
                    assert(on_day(self.records(), d as int) =~= Seq::<Record>::empty());
                }
            },
        }
        r
    }

    /// The distinct UTC days of the records, most recent first.
    pub fn days_descending(&self) -> (r: Vec<i64>)
        requires
            self.wf(),
        ensures
            forall|i: int, j: int| 0 <= i < j < r@.len() ==> r@[i] > r@[j],
            forall|d: int| #[trigger] day_keys(self.records()).contains(d) <==> r@.map_values(|x: i64| x as int).contains(d),
            r@.len() == day_keys(self.records()).to_set().len(),
    {
        let mut r: Vec<i64> = Vec::new();
        let mut i: usize = self.by_day.len();
        while i > 0
            invariant
                self.wf(),
                i <= self.by_day@.len(),
                r@.len() == self.by_day@.len() - i,
                forall|t: int| 0 <= t < r@.len() ==> #[trigger] r@[t] == self.by_day@[self.by_day@.len() - 1 - t].0,
            decreases i,
        {
            i -= 1;
            r.push(self.by_day[i].0);
        }
        proof {
            let n = self.by_day@.len();
            assert forall|a: int, b: int| 0 <= a < b < r@.len() implies r@[a] > r@[b] by {
                assert(self.by_day@[n - 1 - b].0 < self.by_day@[n - 1 - a].0);
            }
            let rk = r@.map_values(|x: i64| x as int);
            assert forall|d: int| #[trigger] self.day_slot_keys().contains(d) <==> rk.contains(d) by {
                if self.day_slot_keys().contains(d) {
                    let w = choose|w: int| 0 <= w < n && self.day_slot_keys()[w] == d;
                    assert(rk[n - 1 - w] == d);
                }
                if rk.contains(d) {
                    let w = choose|w: int| 0 <= w < rk.len() && rk[w] == d;
                    assert(self.day_slot_keys()[n - 1 - w] == d);
                }
            }
            assert(rk.no_duplicates()) by {
                assert forall|a: int, b: int| 0 <= a < rk.len() && 0 <= b < rk.len() && a != b implies rk[a] != rk[b] by {
                    if a < b {
                        assert(r@[a] > r@[b]);
                    } else {
                        assert(r@[b] > r@[a]);
                    }
                }
            }
            rk.unique_seq_to_set();
            assert(rk.to_set() =~= day_keys(self.records()).to_set()) by {
                assert forall|d: int| rk.to_set().contains(d) <==> day_keys(self.records()).to_set().contains(d) by {
                    assert(day_keys(self.records()).contains(d) <==> self.day_slot_keys().contains(d));
                }
            }
        }
        r
    }
}

/// Each offset of `v` raised by `offset`.
fn shift_all(v: &Vec<usize>, offset: usize, bound: usize) -> (r: Vec<usize>)
    requires
        offset + bound <= usize::MAX,
        forall|t: int| 0 <= t < v@.len() ==> #[trigger] v@[t] < bound,
    ensures
        as_ints(r@) == shifted(as_ints(v@), offset as int),
{
    let mut r: Vec<usize> = Vec::new();
    let mut i: usize = 0;
    while i < v.len()
        invariant
            i <= v@.len(),
            offset + bound <= usize::MAX,
            forall|t: int| 0 <= t < v@.len() ==> #[trigger] v@[t] < bound,
            r@.len() == i,
            as_ints(r@) == shifted(as_ints(v@.subrange(0, i as int)), offset as int),
        decreases v@.len() - i,
    {
        assert(v@[i as int] < bound);
        let ghost old_r = r@;
        r.push(v[i] + offset);
        proof {
            let x = v@[i as int];
            let pre = v@.subrange(0, i as int);
            assert(v@.subrange(0, i + 1) =~= pre.push(x));
            assert(as_ints(pre.push(x)) =~= as_ints(pre).push(x as int));
            assert(shifted(as_ints(pre).push(x as int), offset as int) =~= shifted(as_ints(pre), offset as int).push(
                x + offset,
            ));
            assert(as_ints(r@) =~= as_ints(old_r).push(r@[i as int] as int));
        }
        i += 1;
    }
    assert(v@.subrange(0, i as int) =~= v@);
    r
}

fn find_path(slots: &Vec<(String, Vec<usize>)>, key: &String) -> (r: Option<usize>)
    ensures
        match r {
            Some(i) => i < slots@.len() && slots@[i as int].0@ == key@,
            None => forall|j: int| 0 <= j < slots@.len() ==> slots@[j].0@ != key@,
        },
{
    let mut i: usize = 0;
    while i < slots.len()
        invariant
            i <= slots@.len(),
            forall|j: int| 0 <= j < i ==> slots@[j].0@ != key@,
        decreases slots@.len() - i,
    {
        if slots[i].0 == *key {
            return Some(i);
        }
        i += 1;
    }
    None
}

/// `Ok(i)`: slot `i` has day `d`; `Err(i)`: no slot has it, and `i` is where
/// it would go to keep the days ascending.
fn find_day(slots: &Vec<(i64, Vec<usize>)>, d: i64) -> (r: Result<usize, usize>)
    requires
        forall|i: int, j: int| 0 <= i < j < slots@.len() ==> slots@[i].0 < slots@[j].0,
    ensures
        match r {
            Ok(i) => i < slots@.len() && slots@[i as int].0 == d,
            Err(i) => i <= slots@.len() && (forall|j: int| 0 <= j < i ==> slots@[j].0 < d) && (
            forall|j: int| i <= j < slots@.len() ==> slots@[j].0 > d),
        },
{
    let mut i: usize = 0;
    while i < slots.len()
        invariant
            i <= slots@.len(),
            forall|j: int| 0 <= j < i ==> slots@[j].0 < d,
            forall|a: int, b: int| 0 <= a < b < slots@.len() ==> slots@[a].0 < slots@[b].0,
        decreases slots@.len() - i,
    {
        if slots[i].0 == d {
            return Ok(i);
        }
        if slots[i].0 > d {
            assert forall|j: int| i <= j < slots@.len() implies slots@[j].0 > d by {
                if j > i {
                    assert(slots@[i as int].0 < slots@[j].0);
                }
            }
            return Err(i);
        }
        i += 1;
    }
    Err(i)
}

} // verus!
