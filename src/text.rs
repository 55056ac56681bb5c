use vstd::prelude::*;

verus! {

/// Whether `pat` occurs in `s` starting at `i`.
pub open spec fn occurs_at(s: Seq<char>, pat: Seq<char>, i: int) -> bool {
    0 <= i && i + pat.len() <= s.len() && s.subrange(i, i + pat.len()) == pat
}

/// The first position at or after `from` where `pat` occurs in `s`, or -1.
pub open spec fn find_from(s: Seq<char>, pat: Seq<char>, from: int) -> int
    decreases s.len() - from,
{
    if from < 0 || from + pat.len() > s.len() {
        -1
    } else if pat.len() == 0 {
        from
    } else if occurs_at(s, pat, from) {
        from
    } else {
        find_from(s, pat, from + 1)
    }
}

/// The characters of `s`, in order.
pub fn chars_of(s: &str) -> (v: Vec<char>)
    ensures
        v@ == s@,
{
    let mut v: Vec<char> = Vec::new();
    for c in it: s.chars()
        invariant
            v@ == it.seq().subrange(0, it.index() as int),
    {
        v.push(c);
    }
    v
}

fn occurs_at_exec(s: &Vec<char>, pat: &Vec<char>, i: usize) -> (r: bool)
    ensures
        r == occurs_at(s@, pat@, i as int),
{
    if pat.len() > s.len() || i > s.len() - pat.len() {
        return false;
    }
    let mut j: usize = 0;
    while j < pat.len()
        invariant
            j <= pat@.len(),
            i + pat@.len() <= s@.len(),
            s@.len() <= usize::MAX,
            forall|t: int| 0 <= t < j ==> s@[i + t] == pat@[t],
        decreases pat@.len() - j,
    {
        if s[i + j] != pat[j] {
            assert(s@.subrange(i as int, i + pat@.len())[j as int] != pat@[j as int]);
            return false;
        }
        j += 1;
    }
    assert(s@.subrange(i as int, i + pat@.len()) =~= pat@);
    true
}

/// The first position at or after `from` where `pat` occurs in `s`.
pub fn find(s: &Vec<char>, pat: &Vec<char>, from: usize) -> (r: Option<usize>)
    ensures
        match r {
            Some(p) => p as int == find_from(s@, pat@, from as int) && from <= p && p + pat@.len() <= s@.len(),
            None => find_from(s@, pat@, from as int) == -1,
        },
{
    if pat.len() == 0 {
        if from <= s.len() {
            assert(s@.subrange(from as int, from as int) =~= pat@);
            return Some(from);
        }
        return None;
    }
    let mut i: usize = from;
    while pat.len() <= s.len() && i <= s.len() - pat.len()
        invariant
            from <= i,
            pat@.len() >= 1,
            find_from(s@, pat@, from as int) == find_from(s@, pat@, i as int),
        decreases s@.len() - i,
    {
        if occurs_at_exec(s, pat, i) {
            return Some(i);
        }
        i += 1;
    }
    None
}

/// The position `find_from` gives holds `pat`, and none before it does.
pub proof fn lemma_find_from(s: Seq<char>, pat: Seq<char>, from: int)
    requires
        0 <= from,
    ensures
        find_from(s, pat, from) >= 0 ==> from <= find_from(s, pat, from) && occurs_at(s, pat, find_from(s, pat, from)),
        find_from(s, pat, from) < 0 ==> forall|i: int| from <= i ==> !#[trigger] occurs_at(s, pat, i),
    decreases s.len() - from,
{
    if from + pat.len() > s.len() {
    } else if pat.len() == 0 {
        assert(s.subrange(from, from) =~= pat);
    } else if !occurs_at(s, pat, from) {
        lemma_find_from(s, pat, from + 1);
        assert forall|i: int| from <= i && find_from(s, pat, from) < 0 implies !#[trigger] occurs_at(s, pat, i) by {
            if i > from {
            }
        }
    }
}

/// A position that holds `pat`, with none between `from` and it, is the one
/// `find_from` gives.
pub proof fn lemma_find_first(s: Seq<char>, pat: Seq<char>, from: int, p: int)
    requires
        0 <= from <= p,
        occurs_at(s, pat, p),
        forall|i: int| from <= i < p ==> !#[trigger] occurs_at(s, pat, i),
    ensures
        find_from(s, pat, from) == p,
    decreases p - from,
{
    if from < p {
        if pat.len() == 0 {
            assert(s.subrange(from, from) =~= pat);
            assert(occurs_at(s, pat, from));
        }
        lemma_find_first(s, pat, from + 1, p);
    }
}

/// `pat` does not start where `s` holds another character than its first.
pub proof fn lemma_not_at(s: Seq<char>, pat: Seq<char>, i: int)
    requires
        pat.len() > 0,
        0 <= i < s.len(),
        s[i] != pat[0],
    ensures
        !occurs_at(s, pat, i),
{
    if occurs_at(s, pat, i) {
        assert(s.subrange(i, i + pat.len())[0] == s[i]);
    }
}

/// The pieces joined end to end.
pub open spec fn join(ps: Seq<Seq<char>>) -> Seq<char>
    decreases ps.len(),
{
    if ps.len() == 0 {
        Seq::empty()
    } else {
        join(ps.drop_last()) + ps.last()
    }
}

/// Where piece `i` starts in `join(ps)`.
pub open spec fn cut(ps: Seq<Seq<char>>, i: int) -> int {
    join(ps.subrange(0, i)).len() as int
}

pub proof fn lemma_cut_step(ps: Seq<Seq<char>>, i: int)
    requires
        0 <= i < ps.len(),
    ensures
        cut(ps, i + 1) == cut(ps, i) + ps[i].len(),
{
    assert(ps.subrange(0, i + 1).drop_last() =~= ps.subrange(0, i));
}

pub proof fn lemma_cut_mono(ps: Seq<Seq<char>>, i: int, j: int)
    requires
        0 <= i <= j <= ps.len(),
    ensures
        0 <= cut(ps, i) <= cut(ps, j),
    decreases j - i,
{
    if i < j {
        lemma_cut_mono(ps, i, j - 1);
        lemma_cut_step(ps, j - 1);
    }
}

/// Piece `i` is what `join(ps)` holds between its cuts.
pub proof fn lemma_join_piece(ps: Seq<Seq<char>>, i: int)
    requires
        0 <= i < ps.len(),
    ensures
        join(ps).subrange(cut(ps, i), cut(ps, i + 1)) == ps[i],
        cut(ps, ps.len() as int) == join(ps).len(),
    decreases ps.len(),
{
    assert(ps.subrange(0, ps.len() as int) =~= ps);
    lemma_cut_step(ps, i);
    lemma_cut_mono(ps, 0, i);
    let q = ps.drop_last();
    if i == ps.len() - 1 {
        assert(ps.subrange(0, i) =~= q);
        assert(join(ps).subrange(cut(ps, i), cut(ps, i + 1)) =~= ps[i]);
    } else {
        lemma_join_piece(q, i);
        assert(q.subrange(0, i) =~= ps.subrange(0, i));
        assert(q.subrange(0, i + 1) =~= ps.subrange(0, i + 1));
        lemma_cut_mono(q, i + 1, q.len() as int);
        assert(q.subrange(0, q.len() as int) =~= q);
        assert(join(ps).subrange(cut(ps, i), cut(ps, i + 1)) =~= join(q).subrange(cut(q, i), cut(q, i + 1)));
    }
}

/// A sequence cut where the pieces of `ps` end, piece by piece equal to
/// them, is their join.
pub proof fn lemma_join_from_cuts(ps: Seq<Seq<char>>, s: Seq<char>)
    requires
        s.len() == cut(ps, ps.len() as int),
        forall|i: int| 0 <= i < ps.len() ==> s.subrange(cut(ps, i), #[trigger] cut(ps, i + 1)) == ps[i],
    ensures
        join(ps) == s,
    decreases ps.len(),
{
    if ps.len() == 0 {
        assert(ps.subrange(0, 0) =~= ps);
        assert(s =~= Seq::<char>::empty());
    } else {
        let k = ps.len() - 1;
        let q = ps.drop_last();
        let c = cut(ps, k);
        lemma_cut_mono(ps, k, k + 1);
        lemma_cut_mono(ps, 0, k);
        let s2 = s.subrange(0, c);
        assert(q.subrange(0, q.len() as int) =~= ps.subrange(0, k));
        assert forall|i: int| 0 <= i < q.len() implies s2.subrange(cut(q, i), #[trigger] cut(q, i + 1)) == q[i] by {
            assert(q.subrange(0, i) =~= ps.subrange(0, i));
            assert(q.subrange(0, i + 1) =~= ps.subrange(0, i + 1));
            lemma_cut_mono(ps, i, i + 1);
            lemma_cut_mono(ps, i + 1, k);
            assert(s.subrange(cut(ps, i), cut(ps, i + 1)) == ps[i]);
            assert(s2.subrange(cut(q, i), cut(q, i + 1)) =~= s.subrange(cut(ps, i), cut(ps, i + 1)));
        }
        lemma_join_from_cuts(q, s2);
        assert(ps.subrange(0, ps.len() as int) =~= ps);
        assert(s.subrange(cut(ps, k), cut(ps, k + 1)) == ps[k]);
        assert(s =~= s2 + ps.last());
    }
}

} // verus!
