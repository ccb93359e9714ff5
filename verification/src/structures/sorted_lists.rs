use vstd::prelude::*;

verus! {

/// Whether the indices stand in strictly ascending order.
pub open spec fn ascending(s: Seq<usize>) -> bool {
    forall|i: int, j: int| 0 <= i < j < s.len() ==> (#[trigger] s[i]) < (#[trigger] s[j])
}

/// Whether `x` is one of the indices.
pub open spec fn listed(s: Seq<usize>, x: int) -> bool {
    exists|j: int| 0 <= j < s.len() && (#[trigger] s[j]) == x
}

/// The indices below `n` that `p` holds of, in ascending order.
pub open spec fn picked(n: nat, p: spec_fn(int) -> bool) -> Seq<usize>
    decreases n,
{
    if n == 0 {
        Seq::empty()
    } else if p(n - 1) {
        picked((n - 1) as nat, p).push((n - 1) as usize)
    } else {
        picked((n - 1) as nat, p)
    }
}

/// The picked indices ascend, and they are exactly the indices below `n`
/// that `p` holds of.
pub proof fn lemma_picked_is_ascending(n: nat, p: spec_fn(int) -> bool)
    requires
        n <= usize::MAX + 1,
    ensures
        ascending(picked(n, p)),
        picked(n, p).len() <= n,
        forall|x: int| listed(picked(n, p), x) <==> 0 <= x < n && p(x),
    decreases n,
{
    if n > 0 {
        let rest = picked((n - 1) as nat, p);
        lemma_picked_is_ascending((n - 1) as nat, p);
        let all = picked(n, p);
        assert forall|j: int| 0 <= j < rest.len() implies (#[trigger] rest[j]) < n - 1 by {
            assert(listed(rest, rest[j] as int));
        }
        assert forall|x: int| listed(all, x) <==> 0 <= x < n && p(x) by {
            if listed(all, x) {
                let j = choose|j: int| 0 <= j < all.len() && (#[trigger] all[j]) == x;
                if j < rest.len() {
                    assert(rest[j] == x);
                    assert(listed(rest, x));
                }
            }
            if 0 <= x < n && p(x) {
                if x == n - 1 {
                    assert(all[all.len() - 1] == x);
                } else {
                    assert(listed(rest, x));
                    let j = choose|j: int| 0 <= j < rest.len() && (#[trigger] rest[j]) == x;
                    assert(all[j] == x);
                }
            }
        }
    } else {
        assert forall|x: int| !listed(picked(n, p), x) by {}
    }
}

/// Where `p` holds of every index below `n`, all of them are picked: the
/// index at each place is the place.
pub proof fn lemma_picked_all(n: nat, p: spec_fn(int) -> bool)
    requires
        n <= usize::MAX + 1,
        forall|x: int| 0 <= x < n ==> #[trigger] p(x),
    ensures
        picked(n, p).len() == n,
        forall|j: int| 0 <= j < n ==> (#[trigger] picked(n, p)[j]) == j,
    decreases n,
{
    if n > 0 {
        lemma_picked_all((n - 1) as nat, p);
    }
}

/// Where `p` holds of no index below `n`, none is picked.
pub proof fn lemma_picked_none(n: nat, p: spec_fn(int) -> bool)
    requires
        forall|x: int| 0 <= x < n ==> !#[trigger] p(x),
    ensures
        picked(n, p).len() == 0,
    decreases n,
{
    if n > 0 {
        lemma_picked_none((n - 1) as nat, p);
    }
}

/// An ascending list that holds exactly the indices below `n` that `p`
/// holds of is the list of these indices.
pub proof fn lemma_ascending_is_picked(r: Seq<usize>, n: nat, p: spec_fn(int) -> bool)
    requires
        ascending(r),
        n <= usize::MAX + 1,
        forall|x: int| listed(r, x) <==> 0 <= x < n && p(x),
    ensures
        r == picked(n, p),
    decreases n,
{
    if n == 0 {
        if r.len() > 0 {
            assert(listed(r, r[0] as int));
        }
        assert(r =~= Seq::empty());
    } else if p(n - 1) {
        assert(listed(r, n - 1));
        let j = choose|j: int| 0 <= j < r.len() && (#[trigger] r[j]) == n - 1;
        if j < r.len() - 1 {
            assert(listed(r, r[r.len() - 1] as int));
            assert(r[j] < r[r.len() - 1]);
        }
        let rest = r.drop_last();
        assert forall|x: int| listed(rest, x) <==> 0 <= x < n - 1 && p(x) by {
            if listed(rest, x) {
                let k = choose|k: int| 0 <= k < rest.len() && (#[trigger] rest[k]) == x;
                assert(r[k] == x);
                assert(r[k] < r[j]);
                assert(listed(r, x));
            }
            if 0 <= x < n - 1 && p(x) {
                assert(listed(r, x));
                let k = choose|k: int| 0 <= k < r.len() && (#[trigger] r[k]) == x;
                assert(k != j);
                assert(rest[k] == x);
            }
        }
        assert(ascending(rest)) by {
            assert forall|a: int, b: int| 0 <= a < b < rest.len() implies (#[trigger] rest[a]) < (
            #[trigger] rest[b]) by {
                assert(rest[a] == r[a] && rest[b] == r[b]);
            }
        }
        lemma_ascending_is_picked(rest, (n - 1) as nat, p);
        assert(r =~= rest.push((n - 1) as usize));
    } else {
        assert forall|x: int| listed(r, x) <==> 0 <= x < n - 1 && p(x) by {}
        lemma_ascending_is_picked(r, (n - 1) as nat, p);
    }
}

/// The indices that are in both of two ascending lists, in ascending order.
pub fn intersect(a: &Vec<usize>, b: &Vec<usize>) -> (r: Vec<usize>)
    requires
        ascending(a@),
        ascending(b@),
    ensures
        ascending(r@),
        forall|x: int| listed(r@, x) <==> listed(a@, x) && listed(b@, x),
{
    let mut r: Vec<usize> = Vec::new();
    let mut i: usize = 0;
    let mut j: usize = 0;
    while i < a.len() && j < b.len()
        invariant
            i <= a@.len(),
            j <= b@.len(),
            ascending(a@),
            ascending(b@),
            ascending(r@),
            forall|k: int|
                0 <= k < r@.len() ==> listed(a@, (#[trigger] r@[k]) as int) && listed(
                    b@,
                    r@[k] as int,
                ),
            forall|k: int| 0 <= k < r@.len() && i < a@.len() ==> (#[trigger] r@[k]) < a@[i as int],
            forall|k: int| 0 <= k < r@.len() && j < b@.len() ==> (#[trigger] r@[k]) < b@[j as int],
            forall|p: int, q: int|
                0 <= p < i && 0 <= q < b@.len() && (#[trigger] a@[p]) == (#[trigger] b@[q])
                    ==> listed(r@, a@[p] as int),
            forall|p: int, q: int|
                0 <= p < a@.len() && 0 <= q < j && (#[trigger] a@[p]) == (#[trigger] b@[q])
                    ==> listed(r@, a@[p] as int),
        decreases a@.len() - i + b@.len() - j,
    {
        let x: usize = a[i];
        let y: usize = b[j];
        let ghost before = r@;
        if x < y {
            i = i + 1;
        } else if y < x {
            j = j + 1;
        } else {
            r.push(x);
            proof {
                assert(r@[before.len() as int] == x);
                assert forall|p: int, q: int|
                    0 <= p < a@.len() && 0 <= q < b@.len() && (#[trigger] a@[p]) == (
                    #[trigger] b@[q]) && listed(before, a@[p] as int) implies listed(
                    r@,
                    a@[p] as int,
                ) by {
                    let k = choose|k: int| 0 <= k < before.len() && (#[trigger] before[k]) == a@[p];
                    assert(r@[k] == a@[p]);
                }
            }
            i = i + 1;
            j = j + 1;
        }
    }
    proof {
        assert forall|x: int| listed(a@, x) && listed(b@, x) implies listed(r@, x) by {
            let p = choose|p: int| 0 <= p < a@.len() && (#[trigger] a@[p]) == x;
            let q = choose|q: int| 0 <= q < b@.len() && (#[trigger] b@[q]) == x;
            assert(a@[p] == b@[q]);
        }
        assert forall|x: int| listed(r@, x) implies listed(a@, x) && listed(b@, x) by {
            let k = choose|k: int| 0 <= k < r@.len() && (#[trigger] r@[k]) == x;
        }
    }
    r
}

/// The indices that are in one of two ascending lists, in ascending order.
pub fn union(a: &Vec<usize>, b: &Vec<usize>) -> (r: Vec<usize>)
    requires
        ascending(a@),
        ascending(b@),
    ensures
        ascending(r@),
        forall|x: int| listed(r@, x) <==> listed(a@, x) || listed(b@, x),
{
    let mut r: Vec<usize> = Vec::new();
    let mut i: usize = 0;
    let mut j: usize = 0;
    while i < a.len() || j < b.len()
        invariant
            i <= a@.len(),
            j <= b@.len(),
            ascending(a@),
            ascending(b@),
            ascending(r@),
            forall|k: int|
                0 <= k < r@.len() ==> listed(a@, (#[trigger] r@[k]) as int) || listed(
                    b@,
                    r@[k] as int,
                ),
            forall|k: int| 0 <= k < r@.len() && i < a@.len() ==> (#[trigger] r@[k]) < a@[i as int],
            forall|k: int| 0 <= k < r@.len() && j < b@.len() ==> (#[trigger] r@[k]) < b@[j as int],
            forall|p: int| 0 <= p < i ==> listed(r@, (#[trigger] a@[p]) as int),
            forall|q: int| 0 <= q < j ==> listed(r@, (#[trigger] b@[q]) as int),
        decreases a@.len() - i + b@.len() - j,
    {
        let ghost before = r@;
        let take_a = i < a.len() && (j >= b.len() || a[i] <= b[j]);
        let take_b = j < b.len() && (i >= a.len() || b[j] <= a[i]);
        let x: usize = if take_a {
            a[i]
        } else {
            b[j]
        };
        r.push(x);
        proof {
            assert(r@[before.len() as int] == x);
            assert forall|y: int| listed(before, y) implies listed(r@, y) by {
                let k = choose|k: int| 0 <= k < before.len() && (#[trigger] before[k]) == y;
                assert(r@[k] == y);
            }
            if take_a {
                assert(a@[i as int] == x);
            } else {
                assert(b@[j as int] == x);
            }
        }
        if take_a {
            i = i + 1;
        }
        if take_b {
            j = j + 1;
        }
    }
    proof {
        assert forall|x: int| listed(a@, x) || listed(b@, x) implies listed(r@, x) by {
            if listed(a@, x) {
                let p = choose|p: int| 0 <= p < a@.len() && (#[trigger] a@[p]) == x;
            } else {
                let q = choose|q: int| 0 <= q < b@.len() && (#[trigger] b@[q]) == x;
            }
        }
        assert forall|x: int| listed(r@, x) implies listed(a@, x) || listed(b@, x) by {
            let k = choose|k: int| 0 <= k < r@.len() && (#[trigger] r@[k]) == x;
        }
    }
    r
}

/// The indices below `n` that are not in an ascending list, in ascending
/// order. They are found by walking from zero up and skipping what the list
/// names.
pub fn complement(a: &Vec<usize>, n: usize) -> (r: Vec<usize>)
    requires
        ascending(a@),
    ensures
        ascending(r@),
        forall|x: int| listed(r@, x) <==> 0 <= x < n && !listed(a@, x),
{
    let mut r: Vec<usize> = Vec::new();
    let mut x: usize = 0;
    let mut j: usize = 0;
    while x < n
        invariant
            x <= n,
            j <= a@.len(),
            ascending(a@),
            ascending(r@),
            forall|q: int| 0 <= q < j ==> (#[trigger] a@[q]) < x,
            j < a@.len() ==> a@[j as int] >= x,
            forall|k: int| 0 <= k < r@.len() ==> (#[trigger] r@[k]) < x && !listed(a@, r@[k] as int),
            forall|y: int| 0 <= y < x && !listed(a@, y) ==> listed(r@, y),
        decreases n - x,
    {
        let ghost before = r@;
        if j < a.len() && a[j] == x {
            j = j + 1;
        } else {
            proof {
                if listed(a@, x as int) {
                    let q = choose|q: int| 0 <= q < a@.len() && (#[trigger] a@[q]) == x;
                    if q > j {
                        assert(a@[j as int] < a@[q]);
                    }
                }
            }
            r.push(x);
            proof {
                assert(r@[before.len() as int] == x);
            }
        }
        proof {
            assert forall|y: int| listed(before, y) implies listed(r@, y) by {
                let k = choose|k: int| 0 <= k < before.len() && (#[trigger] before[k]) == y;
                assert(r@[k] == y);
            }
            if j < a@.len() && j > 0 {
                assert(a@[j - 1] < a@[j as int]);
            }
        }
        x = x + 1;
    }
    proof {
        assert forall|y: int| listed(r@, y) implies 0 <= y < n && !listed(a@, y) by {
            let k = choose|k: int| 0 <= k < r@.len() && (#[trigger] r@[k]) == y;
        }
    }
    r
}

/// Whether `x` is one of the indices of an ascending list.
pub fn has_index(a: &Vec<usize>, x: usize) -> (r: bool)
    requires
        ascending(a@),
    ensures
        r == listed(a@, x as int),
{
    let mut lo: usize = 0;
    let mut hi: usize = a.len();
    while lo < hi
        invariant
            lo <= hi <= a@.len(),
            ascending(a@),
            forall|j: int| 0 <= j < lo ==> (#[trigger] a@[j]) < x,
            forall|j: int| hi <= j < a@.len() ==> (#[trigger] a@[j]) > x,
        decreases hi - lo,
    {
        let mid: usize = lo + (hi - lo) / 2;
        if a[mid] == x {
            return true;
        } else if a[mid] < x {
            assert forall|j: int| 0 <= j < mid + 1 implies (#[trigger] a@[j]) < x by {
                if j < mid {
                    assert(a@[j] < a@[mid as int]);
                }
            }
            lo = mid + 1;
        } else {
            assert forall|j: int| mid <= j < a@.len() implies (#[trigger] a@[j]) > x by {
                if j > mid {
                    assert(a@[mid as int] < a@[j]);
                }
            }
            hi = mid;
        }
    }
    proof {
        if listed(a@, x as int) {
            let j = choose|j: int| 0 <= j < a@.len() && (#[trigger] a@[j]) == x;
            assert(false);
        }
    }
    false
}

/// Whether the indices stand in strictly ascending order.
pub fn is_ascending(a: &Vec<usize>) -> (r: bool)
    ensures
        r == ascending(a@),
{
    let mut i: usize = 1;
    while i < a.len()
        invariant
            1 <= i,
            forall|x: int, y: int| 0 <= x < y < i && y < a@.len() ==> (#[trigger] a@[x]) < (#[trigger] a@[y]),
        decreases a@.len() - i,
    {
        if a[i - 1] >= a[i] {
            assert(!(a@[i - 1] < a@[i as int]));
            return false;
        }
        proof {
            assert forall|x: int, y: int| 0 <= x < y < i + 1 && y < a@.len() implies (
            #[trigger] a@[x]) < (#[trigger] a@[y]) by {
                if y == i && x < i - 1 {
                    assert(a@[x] < a@[i - 1]);
                }
            }
        }
        i = i + 1;
    }
    true
}

/// All indices below `n`, in ascending order.
pub fn all_below(n: usize) -> (r: Vec<usize>)
    ensures
        ascending(r@),
        r@.len() == n,
        forall|x: int| listed(r@, x) <==> 0 <= x < n,
        forall|j: int| 0 <= j < n ==> (#[trigger] r@[j]) == j,
{
    let mut r: Vec<usize> = Vec::new();
    let mut x: usize = 0;
    while x < n
        invariant
            x <= n,
            r@.len() == x,
            forall|j: int| 0 <= j < x ==> (#[trigger] r@[j]) == j,
        decreases n - x,
    {
        r.push(x);
        x = x + 1;
    }
    proof {
        assert forall|y: int| 0 <= y < n implies listed(r@, y) by {
            assert(r@[y] == y);
        }
    }
    r
}

} // verus!
