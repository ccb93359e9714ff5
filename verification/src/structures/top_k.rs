use vstd::prelude::*;

verus! {

/// A candidate of a search: its distance to the query, and a tag that says
/// which candidate it is.
pub type Hit = (u16, u128);

/// `a` comes before `b`: by distance, then by tag.
pub open spec fn hit_lt(a: Hit, b: Hit) -> bool {
    a.0 < b.0 || (a.0 == b.0 && a.1 < b.1)
}

/// The place of `x` among `best`: behind the last hit that does not come
/// after it.
pub open spec fn spec_place(best: Seq<Hit>, x: Hit) -> int
    decreases best.len(),
{
    if best.len() == 0 {
        0
    } else if hit_lt(x, best.last()) {
        spec_place(best.drop_last(), x)
    } else {
        best.len() as int
    }
}

/// `best` with `x` at its place, cut to `cap` hits.
pub open spec fn spec_insert_bounded(best: Seq<Hit>, x: Hit, cap: int) -> Seq<Hit> {
    let p = spec_place(best, x);
    let s = best.insert(p, x);
    if s.len() > cap {
        s.subrange(0, cap)
    } else {
        s
    }
}

/// The `cap` first of the hits in ascending order: what is left after
/// putting each hit at its place in turn and cutting to `cap` each time.
pub open spec fn top_of(seen: Seq<Hit>, cap: int) -> Seq<Hit>
    decreases seen.len(),
{
    if seen.len() == 0 || cap <= 0 {
        Seq::empty()
    } else {
        spec_insert_bounded(top_of(seen.drop_last(), cap), seen.last(), cap)
    }
}

/// Whether the hits stand in ascending order.
pub open spec fn hits_sorted(s: Seq<Hit>) -> bool {
    forall|i: int, j: int| 0 <= i < j < s.len() ==> !hit_lt(#[trigger] s[j], #[trigger] s[i])
}

/// The number of hits of `s` equal to `x`.
pub open spec fn hit_count(s: Seq<Hit>, x: Hit) -> nat
    decreases s.len(),
{
    if s.len() == 0 {
        0
    } else {
        hit_count(s.drop_last(), x) + if s.last() == x {
            1nat
        } else {
            0nat
        }
    }
}

/// The place of a hit is a place of the list or its end; every hit from
/// the place on comes after the hit, and the hit before the place does not.
pub proof fn lemma_place_bounds(best: Seq<Hit>, x: Hit)
    ensures
        0 <= spec_place(best, x) <= best.len(),
        forall|i: int| spec_place(best, x) <= i < best.len() ==> hit_lt(x, #[trigger] best[i]),
        spec_place(best, x) > 0 ==> !hit_lt(x, best[spec_place(best, x) - 1]),
    decreases best.len(),
{
    if best.len() > 0 && hit_lt(x, best.last()) {
        lemma_place_bounds(best.drop_last(), x);
        let p = spec_place(best, x);
        assert forall|i: int| p <= i < best.len() implies hit_lt(x, #[trigger] best[i]) by {
            if i < best.len() - 1 {
                assert(best.drop_last()[i] == best[i]);
            }
        }
        if p > 0 {
            assert(best.drop_last()[p - 1] == best[p - 1]);
        }
    }
}

/// Putting a hit at its place keeps the order, and the cut keeps it too.
pub proof fn lemma_insert_keeps_sorted(best: Seq<Hit>, x: Hit, cap: int)
    requires
        hits_sorted(best),
        cap >= 0,
    ensures
        hits_sorted(spec_insert_bounded(best, x, cap)),
        spec_insert_bounded(best, x, cap).len() == if best.len() + 1 > cap {
            cap
        } else {
            best.len() as int + 1
        },
{
    lemma_place_bounds(best, x);
    let p = spec_place(best, x);
    let s = best.insert(p, x);
    assert forall|i: int, j: int| 0 <= i < j < s.len() implies !hit_lt(
        #[trigger] s[j],
        #[trigger] s[i],
    ) by {
        if j < p {
            assert(s[i] == best[i] && s[j] == best[j]);
        } else if j == p {
            assert(s[i] == best[i]);
            if i < p - 1 {
                assert(!hit_lt(best[p - 1], best[i]));
            }
        } else if i < p {
            assert(s[i] == best[i] && s[j] == best[j - 1]);
            if i != j - 1 {
                assert(!hit_lt(best[j - 1], best[i]));
            }
        } else if i == p {
            assert(s[j] == best[j - 1]);
        } else {
            assert(s[i] == best[i - 1] && s[j] == best[j - 1]);
        }
    }
    let r = spec_insert_bounded(best, x, cap);
    assert forall|i: int, j: int| 0 <= i < j < r.len() implies !hit_lt(
        #[trigger] r[j],
        #[trigger] r[i],
    ) by {
        assert(r[i] == s[i] && r[j] == s[j]);
    }
}

/// The top hits stand in ascending order and are as many as the cap allows.
pub proof fn lemma_top_sorted(seen: Seq<Hit>, cap: int)
    ensures
        hits_sorted(top_of(seen, cap)),
        top_of(seen, cap).len() == if cap <= 0 {
            0
        } else if seen.len() > cap {
            cap
        } else {
            seen.len() as int
        },
    decreases seen.len(),
{
    if seen.len() > 0 && cap > 0 {
        lemma_top_sorted(seen.drop_last(), cap);
        lemma_insert_keeps_sorted(top_of(seen.drop_last(), cap), seen.last(), cap);
    }
}

/// Every top hit is one of the hits seen.
pub proof fn lemma_top_is_seen(seen: Seq<Hit>, cap: int, i: int)
    requires
        0 <= i < top_of(seen, cap).len(),
    ensures
        exists|j: int| 0 <= j < seen.len() && (#[trigger] seen[j]) == top_of(seen, cap)[i],
    decreases seen.len(),
{
    if seen.len() > 0 && cap > 0 {
        let prev = top_of(seen.drop_last(), cap);
        let x = seen.last();
        lemma_place_bounds(prev, x);
        let p = spec_place(prev, x);
        let s = prev.insert(p, x);
        let t = top_of(seen, cap);
        assert(t[i] == s[i]);
        if i == p {
            assert(seen[seen.len() - 1] == t[i]);
        } else {
            let k = if i < p {
                i
            } else {
                i - 1
            };
            assert(s[i] == prev[k]);
            lemma_top_is_seen(seen.drop_last(), cap, k);
            let j = choose|j: int|
                0 <= j < seen.drop_last().len() && (#[trigger] seen.drop_last()[j]) == prev[k];
            assert(seen[j] == t[i]);
        }
    }
}

/// One more if the hits are the same, else none.
pub open spec fn one_if_same(x: Hit, y: Hit) -> nat {
    if x == y {
        1
    } else {
        0
    }
}

/// A list with `x` put in holds `x` once more, and every other hit as often
/// as before.
pub proof fn lemma_count_of_insert(best: Seq<Hit>, p: int, x: Hit, y: Hit)
    requires
        0 <= p <= best.len(),
    ensures
        hit_count(best.insert(p, x), y) == hit_count(best, y) + one_if_same(x, y),
    decreases best.len(),
{
    let s = best.insert(p, x);
    if p == best.len() {
        assert(s.drop_last() =~= best);
    } else {
        assert(s.drop_last() =~= best.drop_last().insert(p, x));
        assert(s.last() == best.last());
        lemma_count_of_insert(best.drop_last(), p, x, y);
    }
}

/// Putting a hit into a sorted list of no more than `cap` hits, and
/// cutting to `cap`, drops a hit only from a full list, and none that comes
/// before the last one kept.
pub proof fn lemma_insert_drops_the_last(best: Seq<Hit>, x: Hit, cap: int, y: Hit)
    requires
        hits_sorted(best),
        best.len() <= cap,
        cap >= 1,
    ensures
        ({
            let r = spec_insert_bounded(best, x, cap);
            &&& hit_count(r, y) <= hit_count(best, y) + one_if_same(x, y)
            &&& hit_count(r, y) < hit_count(best, y) + one_if_same(x, y) ==> r.len() == cap
                && !hit_lt(y, r.last())
            &&& best.len() == cap ==> r.len() == cap && !hit_lt(best.last(), r.last())
        }),
{
    lemma_place_bounds(best, x);
    lemma_insert_keeps_sorted(best, x, cap);
    let p = spec_place(best, x);
    let s = best.insert(p, x);
    let r = spec_insert_bounded(best, x, cap);
    lemma_count_of_insert(best, p, x, y);
    if s.len() > cap {
        assert(r =~= s.drop_last());
        assert(r.last() == s[cap - 1]);
        assert(hits_sorted(s)) by {
            lemma_insert_keeps_sorted(best, x, cap + 1);
        }
        assert(!hit_lt(s[cap], s[cap - 1]));
        if p == cap {
            assert(s[cap - 1] == best[cap - 1]);
        } else if p == cap - 1 {
            assert(hit_lt(x, best[p]));
        } else {
            assert(s[cap - 1] == best[cap - 2]);
            assert(!hit_lt(best[cap - 1], best[cap - 2]));
        }
    }
}

/// The top hits are the nearest of the hits seen: none occurs more often
/// than it was seen, and a hit that was left out, once or more often, does
/// not come before the last of a full list of top hits.
pub proof fn lemma_top_is_nearest(seen: Seq<Hit>, cap: int, y: Hit)
    requires
        cap >= 1,
    ensures
        hit_count(top_of(seen, cap), y) <= hit_count(seen, y),
        hit_count(top_of(seen, cap), y) < hit_count(seen, y) ==> top_of(seen, cap).len() == cap
            && !hit_lt(y, top_of(seen, cap).last()),
    decreases seen.len(),
{
    if seen.len() > 0 {
        let prev = top_of(seen.drop_last(), cap);
        lemma_top_sorted(seen.drop_last(), cap);
        lemma_top_is_nearest(seen.drop_last(), cap, y);
        lemma_insert_drops_the_last(prev, seen.last(), cap, y);
    }
}

/// Puts `x` at its place in `best` and cuts `best` to `cap` hits.
pub fn insert_bounded(best: &mut Vec<Hit>, x: Hit, cap: usize)
    requires
        old(best)@.len() <= cap,
    ensures
        final(best)@ == spec_insert_bounded(old(best)@, x, cap as int),
        final(best)@.len() <= cap,
{
    let mut pos: usize = best.len();
    assert(best@.subrange(0, pos as int) =~= best@);
    while pos > 0 && (x.0 < best[pos - 1].0 || (x.0 == best[pos - 1].0 && x.1 < best[pos - 1].1))
        invariant
            pos <= best@.len(),
            best@ == old(best)@,
            spec_place(best@, x) == spec_place(best@.subrange(0, pos as int), x),
        decreases pos,
    {
        proof {
            let cur = best@.subrange(0, pos as int);
            assert(cur.last() == best@[pos - 1]);
            assert(cur.drop_last() =~= best@.subrange(0, pos - 1));
        }
        pos = pos - 1;
    }
    proof {
        let cur = best@.subrange(0, pos as int);
        if pos > 0 {
            assert(cur.last() == best@[pos - 1]);
        }
        assert(spec_place(cur, x) == pos);
    }
    if pos >= cap {
        proof {
            let s = old(best)@.insert(pos as int, x);
            assert(s.subrange(0, cap as int) =~= old(best)@);
        }
        return ;
    }
    best.insert(pos, x);
    if best.len() > cap {
        best.truncate(cap);
    }
}

} // verus!
