use vstd::prelude::*;

verus! {

/// The entries of `s` from `lo` to `hi`, both included, are in ascending order.
pub open spec fn sorted_between(s: Seq<usize>, lo: int, hi: int) -> bool {
    forall|x: int, y: int| lo <= x <= y <= hi ==> s[x] <= s[y]
}

/// `a` and `b` have one length and agree outside `lo..=hi`.
pub open spec fn same_outside(a: Seq<usize>, b: Seq<usize>, lo: int, hi: int) -> bool {
    &&& a.len() == b.len()
    &&& forall|k: int| 0 <= k < a.len() && (k < lo || k > hi) ==> #[trigger] a[k] == b[k]
}

/// `x` is an entry of `b` in `lo..=hi`.
pub open spec fn occurs_in(b: Seq<usize>, lo: int, hi: int, x: usize) -> bool {
    exists|m: int| lo <= m <= hi && #[trigger] b[m] == x
}

/// Every entry of `a` in `lo..=hi` is an entry of `b` in `lo..=hi`.
pub open spec fn drawn_from(a: Seq<usize>, b: Seq<usize>, lo: int, hi: int) -> bool {
    forall|k: int| lo <= k <= hi ==> occurs_in(b, lo, hi, #[trigger] a[k])
}

proof fn lemma_drawn_compose(
    a: Seq<usize>,
    b: Seq<usize>,
    c: Seq<usize>,
    lo: int,
    hi: int,
    lo2: int,
    hi2: int,
)
    requires
        lo <= lo2,
        hi2 <= hi,
        drawn_from(b, a, lo, hi),
        same_outside(c, b, lo2, hi2),
        0 <= lo,
        hi < b.len(),
        drawn_from(c, b, lo2, hi2),
    ensures
        drawn_from(c, a, lo, hi),
{
    assert forall|k: int| lo <= k <= hi implies occurs_in(a, lo, hi, #[trigger] c[k]) by {
        if lo2 <= k <= hi2 {
            assert(occurs_in(b, lo2, hi2, c[k]));
            let m = choose|m: int| lo2 <= m <= hi2 && #[trigger] b[m] == c[k];
            assert(occurs_in(a, lo, hi, b[m]));
        } else {
            assert(c[k] == b[k]);
            assert(occurs_in(a, lo, hi, b[k]));
        }
    }
}

proof fn lemma_upper(c: Seq<usize>, b: Seq<usize>, lo: int, hi: int, v: int)
    requires
        drawn_from(c, b, lo, hi),
        forall|m: int| lo <= m <= hi ==> #[trigger] b[m] <= v,
    ensures
        forall|k: int| lo <= k <= hi ==> #[trigger] c[k] <= v,
{
    assert forall|k: int| lo <= k <= hi implies #[trigger] c[k] <= v by {
        assert(occurs_in(b, lo, hi, c[k]));
    }
}

proof fn lemma_lower(c: Seq<usize>, b: Seq<usize>, lo: int, hi: int, v: int)
    requires
        drawn_from(c, b, lo, hi),
        forall|m: int| lo <= m <= hi ==> v <= #[trigger] b[m],
    ensures
        forall|k: int| lo <= k <= hi ==> v <= #[trigger] c[k],
{
    assert forall|k: int| lo <= k <= hi implies v <= #[trigger] c[k] by {
        assert(occurs_in(b, lo, hi, c[k]));
    }
}

/// The state of a sort of `a0[lo0..=hi0]` that has still to order `s[lo..=top]`: the
/// entries around that window are in order and in their final places.
pub open spec fn sort_state(a0: Seq<usize>, s: Seq<usize>, lo0: int, hi0: int, lo: int, top: int) -> bool {
    &&& 0 <= lo0
    &&& hi0 < a0.len()
    &&& lo0 <= lo
    &&& top <= hi0
    &&& same_outside(s, a0, lo0, hi0)
    &&& drawn_from(s, a0, lo0, hi0)
    &&& sorted_between(s, lo0, lo - 1)
    &&& sorted_between(s, top + 1, hi0)
    &&& forall|x: int, y: int| lo0 <= x < lo && lo <= y <= hi0 ==> s[x] <= s[y]
    &&& forall|x: int, y: int| lo0 <= x <= top && top < y <= hi0 ==> s[x] <= s[y]
}

/// What `partition` leaves of `s0[lo..=hi]` in `s1`, with the pivot at `p`.
pub open spec fn partitioned(s0: Seq<usize>, s1: Seq<usize>, lo: int, hi: int, p: int) -> bool {
    &&& lo <= p <= hi
    &&& same_outside(s1, s0, lo, hi)
    &&& drawn_from(s1, s0, lo, hi)
    &&& forall|k: int| lo <= k < p ==> #[trigger] s1[k] <= s1[p]
    &&& forall|k: int| p < k <= hi ==> #[trigger] s1[k] > s1[p]
}

/// What sorting `s1[lo..=hi]` in place leaves in `s2`.
pub open spec fn sorted_in_place(s1: Seq<usize>, s2: Seq<usize>, lo: int, hi: int) -> bool {
    &&& same_outside(s2, s1, lo, hi)
    &&& drawn_from(s2, s1, lo, hi)
    &&& sorted_between(s2, lo, hi)
}

proof fn lemma_partition_keeps_state(a0: Seq<usize>, s0: Seq<usize>, s1: Seq<usize>, lo0: int, hi0: int, lo: int, hi: int, p: int)
    requires
        sort_state(a0, s0, lo0, hi0, lo, hi),
        lo < hi,
        partitioned(s0, s1, lo, hi, p),
    ensures
        sort_state(a0, s1, lo0, hi0, lo, hi),
        forall|x: int, k: int| lo0 <= x < lo && lo <= k <= hi ==> #[trigger] s0[x] <= #[trigger] s1[k],
        forall|y: int, k: int| hi < y <= hi0 && lo <= k <= hi ==> #[trigger] s1[k] <= #[trigger] s0[y],
{
    lemma_drawn_compose(a0, s0, s1, lo0, hi0, lo, hi);
    assert forall|x: int, k: int| lo0 <= x < lo && lo <= k <= hi implies #[trigger] s0[x] <= #[trigger] s1[k] by {
        lemma_lower(s1, s0, lo, hi, s0[x] as int);
    }
    assert forall|y: int, k: int| hi < y <= hi0 && lo <= k <= hi implies #[trigger] s1[k] <= #[trigger] s0[y] by {
        lemma_upper(s1, s0, lo, hi, s0[y] as int);
    }
    assert forall|x: int, y: int| lo0 <= x < lo && lo <= y <= hi0 implies s1[x] <= s1[y] by {
        assert(s1[x] == s0[x]);
        if y > hi {
            assert(s1[y] == s0[y]);
        }
    }
    assert forall|x: int, y: int| lo0 <= x <= hi && hi < y <= hi0 implies s1[x] <= s1[y] by {
        assert(s1[y] == s0[y]);
        if x < lo {
            assert(s1[x] == s0[x]);
        }
    }
    assert forall|x: int, y: int| lo0 <= x <= y <= lo - 1 implies s1[x] <= s1[y] by {
        assert(s1[x] == s0[x] && s1[y] == s0[y]);
    }
    assert forall|x: int, y: int| hi + 1 <= x <= y <= hi0 implies s1[x] <= s1[y] by {
        assert(s1[x] == s0[x] && s1[y] == s0[y]);
    }
}

proof fn lemma_after_left(a0: Seq<usize>, s1: Seq<usize>, s2: Seq<usize>, lo0: int, hi0: int, lo: int, hi: int, p: int)
    requires
        sort_state(a0, s1, lo0, hi0, lo, hi),
        lo < hi,
        lo <= p <= hi,
        forall|k: int| lo <= k < p ==> #[trigger] s1[k] <= s1[p],
        forall|k: int| p < k <= hi ==> #[trigger] s1[k] > s1[p],
        forall|x: int, k: int| lo0 <= x < lo && lo <= k <= hi ==> #[trigger] s1[x] <= #[trigger] s1[k],
        forall|y: int, k: int| hi < y <= hi0 && lo <= k <= hi ==> #[trigger] s1[k] <= #[trigger] s1[y],
        sorted_in_place(s1, s2, lo, p - 1),
    ensures
        sort_state(a0, s2, lo0, hi0, p + 1, hi),
{
    lemma_drawn_compose(a0, s1, s2, lo0, hi0, lo, p - 1);
    lemma_upper(s2, s1, lo, p - 1, s1[p] as int);
    assert forall|x: int, k: int| lo0 <= x < lo && lo <= k <= p - 1 implies #[trigger] s2[x] <= #[trigger] s2[k] by {
        lemma_lower(s2, s1, lo, p - 1, s1[x] as int);
    }
    assert forall|y: int, k: int| hi < y <= hi0 && lo <= k <= p - 1 implies #[trigger] s2[k] <= #[trigger] s2[y] by {
        lemma_upper(s2, s1, lo, p - 1, s1[y] as int);
    }
    assert forall|x: int, y: int| lo0 <= x <= y <= p implies s2[x] <= s2[y] by {
        if y < lo {
            assert(s2[x] == s1[x] && s2[y] == s1[y]);
        } else if x < lo {
            assert(s2[x] == s1[x]);
            if y == p {
                assert(s2[y] == s1[y]);
            }
        } else if y == p {
            assert(s2[y] == s1[p]);
        }
    }
    assert forall|x: int, y: int| lo0 <= x < p + 1 && p + 1 <= y <= hi0 implies s2[x] <= s2[y] by {
        assert(s2[y] == s1[y]);
        if x < lo {
            assert(s2[x] == s1[x]);
        } else if x == p {
            assert(s2[x] == s1[x]);
        }
    }
    assert forall|x: int, y: int| lo0 <= x <= hi && hi < y <= hi0 implies s2[x] <= s2[y] by {
        assert(s2[y] == s1[y]);
        if x < lo || x >= p {
            assert(s2[x] == s1[x]);
        }
    }
    assert forall|x: int, y: int| hi + 1 <= x <= y <= hi0 implies s2[x] <= s2[y] by {
        assert(s2[x] == s1[x] && s2[y] == s1[y]);
    }
}

proof fn lemma_after_right(a0: Seq<usize>, s1: Seq<usize>, s2: Seq<usize>, lo0: int, hi0: int, lo: int, hi: int, p: int)
    requires
        sort_state(a0, s1, lo0, hi0, lo, hi),
        lo < hi,
        lo <= p <= hi,
        forall|k: int| lo <= k < p ==> #[trigger] s1[k] <= s1[p],
        forall|k: int| p < k <= hi ==> #[trigger] s1[k] > s1[p],
        forall|x: int, k: int| lo0 <= x < lo && lo <= k <= hi ==> #[trigger] s1[x] <= #[trigger] s1[k],
        forall|y: int, k: int| hi < y <= hi0 && lo <= k <= hi ==> #[trigger] s1[k] <= #[trigger] s1[y],
        sorted_in_place(s1, s2, p + 1, hi),
    ensures
        sort_state(a0, s2, lo0, hi0, lo, p - 1),
{
    lemma_drawn_compose(a0, s1, s2, lo0, hi0, p + 1, hi);
    lemma_lower(s2, s1, p + 1, hi, s1[p] as int + 1);
    assert forall|x: int, k: int| lo0 <= x < lo && p + 1 <= k <= hi implies #[trigger] s2[x] <= #[trigger] s2[k] by {
        lemma_lower(s2, s1, p + 1, hi, s1[x] as int);
    }
    assert forall|y: int, k: int| hi < y <= hi0 && p + 1 <= k <= hi implies #[trigger] s2[k] <= #[trigger] s2[y] by {
        lemma_upper(s2, s1, p + 1, hi, s1[y] as int);
    }
    assert forall|x: int, y: int| p <= x <= y <= hi0 implies s2[x] <= s2[y] by {
        if x > hi {
            assert(s2[x] == s1[x] && s2[y] == s1[y]);
        } else if y > hi {
            assert(s2[y] == s1[y]);
            if x == p {
                assert(s2[x] == s1[x]);
            }
        } else if x == p {
            assert(s2[x] == s1[p]);
        }
    }
    assert forall|x: int, y: int| lo0 <= x < lo && lo <= y <= hi0 implies s2[x] <= s2[y] by {
        assert(s2[x] == s1[x]);
        if y <= p || y > hi {
            assert(s2[y] == s1[y]);
        }
    }
    assert forall|x: int, y: int| lo0 <= x <= p - 1 && p - 1 < y <= hi0 implies s2[x] <= s2[y] by {
        assert(s2[x] == s1[x]);
        if y <= p || y > hi {
            assert(s2[y] == s1[y]);
        }
    }
    assert forall|x: int, y: int| lo0 <= x <= y <= lo - 1 implies s2[x] <= s2[y] by {
        assert(s2[x] == s1[x] && s2[y] == s1[y]);
    }
}

proof fn lemma_state_done(a0: Seq<usize>, s: Seq<usize>, lo0: int, hi0: int, lo: int, top: int)
    requires
        sort_state(a0, s, lo0, hi0, lo, top),
        lo >= top,
    ensures
        sorted_between(s, lo0, hi0),
{
    assert forall|x: int, y: int| lo0 <= x <= y <= hi0 implies s[x] <= s[y] by {
        if y < lo {
        } else if x < lo {
        } else if x > top {
        } else if y > top {
        }
    }
}

/// Exchanges the entries at `i` and `j`.
fn swap_at(arr: &mut [usize], i: usize, j: usize)
    requires
        i < old(arr)@.len(),
        j < old(arr)@.len(),
    ensures
        final(arr)@ == old(arr)@.update(i as int, old(arr)@[j as int]).update(j as int, old(arr)@[i as int]),
        final(arr)@.to_multiset() == old(arr)@.to_multiset(),
{
    let ghost s = arr@;
    let x = arr[i];
    let y = arr[j];
    arr[i] = y;
    arr[j] = x;
    proof {
        let t = s.update(i as int, y);
        vstd::seq_lib::to_multiset_update(s, i as int, y);
        vstd::seq_lib::to_multiset_update(t, j as int, x);
        assert(s.to_multiset().insert(y).remove(x).insert(x).remove(t[j as int]) =~= s.to_multiset()) by {
            vstd::seq_lib::to_multiset_contains(s, x);
            vstd::seq_lib::to_multiset_contains(s, y);
            assert(s.contains(s[i as int]));
            assert(s.contains(s[j as int]));
        }
    }
}

/// Lomuto partition of `arr[low..=high]` around its last entry: returns the place `p`
/// where that entry ends, with the entries not above it before `p` and the entries
/// above it after `p`, inside the range. A flag picks without a branch whether an entry
/// is swapped into the lower part.
pub fn partition(arr: &mut [usize], low: usize, high: usize) -> (p: usize)
    requires
        low <= high < old(arr)@.len(),
    ensures
        low <= p <= high,
        final(arr)@.to_multiset() == old(arr)@.to_multiset(),
        same_outside(final(arr)@, old(arr)@, low as int, high as int),
        drawn_from(final(arr)@, old(arr)@, low as int, high as int),
        final(arr)@[p as int] == old(arr)@[high as int],
        forall|k: int| low <= k < p ==> #[trigger] final(arr)@[k] <= final(arr)@[p as int],
        forall|k: int| p < k <= high ==> #[trigger] final(arr)@[k] > final(arr)@[p as int],
{
    let ghost a0 = arr@;
    let pivot: usize = arr[high];
    let mut i: usize = low;
    let mut j: usize = low;
    proof {
        assert forall|k: int| low <= k <= high implies occurs_in(a0, low as int, high as int, #[trigger] arr@[k]) by {
            assert(a0[k] == arr@[k]);
        }
    }
    while j < high
        invariant
            low <= i <= j <= high,
            high < arr@.len(),
            arr@.len() == a0.len(),
            pivot == a0[high as int],
            arr@[high as int] == pivot,
            arr@.to_multiset() == a0.to_multiset(),
            same_outside(arr@, a0, low as int, high as int),
            drawn_from(arr@, a0, low as int, high as int),
            forall|k: int| low <= k < i ==> #[trigger] arr@[k] <= pivot,
            forall|k: int| i <= k < j ==> #[trigger] arr@[k] > pivot,
        decreases high - j,
    {
        let ghost s = arr@;
        let mask = (arr[j] <= pivot) as usize;
        assert(mask == 1 <==> s[j as int] <= pivot);
        assert(mask == 0 || mask == 1);
        swap_at(arr, i * mask + j * (1 - mask), j);
        proof {
            let t = i * mask + j * (1 - mask);
            assert(t == i || t == j);
            assert forall|k: int| low <= k <= high implies occurs_in(a0, low as int, high as int, #[trigger] arr@[k]) by {
                let src = if k == t { j as int } else if k == j { t as int } else { k };
                assert(arr@[k] == s[src]);
                assert(occurs_in(a0, low as int, high as int, s[src]));
            }
        }
        i = i + mask;
        j = j + 1;
    }
    let ghost s = arr@;
    swap_at(arr, i, high);
    proof {
        assert forall|k: int| low <= k <= high implies occurs_in(a0, low as int, high as int, #[trigger] arr@[k]) by {
            let src = if k == i { high as int } else if k == high { i as int } else { k };
            assert(arr@[k] == s[src]);
            assert(occurs_in(a0, low as int, high as int, s[src]));
        }
    }
    i
}

/// Tells whether `arr` is in ascending order.
pub fn check_correct(arr: &[usize]) -> (r: bool)
    ensures
        r == sorted_between(arr@, 0, arr@.len() - 1),
{
    let n = arr.len();
    if n == 0 {
        return true;
    }
    let mut ind: usize = 0;
    while ind < n - 1
        invariant
            n == arr@.len(),
            n >= 1,
            ind <= n - 1,
            forall|k: int| 0 <= k < ind ==> #[trigger] arr@[k] <= arr@[k + 1],
        decreases n - 1 - ind,
    {
        if arr[ind] > arr[ind + 1] {
            return false;
        }
        ind = ind + 1;
    }
    proof {
        assert forall|x: int, y: int| 0 <= x <= y <= n - 1 implies arr@[x] <= arr@[y] by {
            lemma_steps_sorted(arr@, x, y);
        }
    }
    true
}

proof fn lemma_steps_sorted(s: Seq<usize>, x: int, y: int)
    requires
        0 <= x <= y < s.len(),
        forall|k: int| 0 <= k < s.len() - 1 ==> #[trigger] s[k] <= s[k + 1],
    ensures
        s[x] <= s[y],
    decreases y - x,
{
    if x < y {
        lemma_steps_sorted(s, x, y - 1);
    }
}

/// Sorts `arr[low..=high]` in place, ascending, and leaves the rest of `arr` as it was.
/// Recurses into the smaller side of each partition and loops on the larger one.
pub fn quicksort(arr: &mut [usize], low: usize, high: usize)
    requires
        high < old(arr)@.len(),
    ensures
        final(arr)@.to_multiset() == old(arr)@.to_multiset(),
        sorted_in_place(old(arr)@, final(arr)@, low as int, high as int),
    decreases high as int + 1 - low as int,
{
    let ghost a0 = arr@;
    let mut lo: usize = low;
    let mut hi: usize = high;
    let ghost mut top: int = high as int;
    proof {
        assert forall|k: int| low <= k <= high implies occurs_in(a0, low as int, high as int, #[trigger] arr@[k]) by {
            assert(a0[k] == arr@[k]);
        }
    }
    while lo < hi
        invariant_except_break
            top == hi as int,
            hi <= high,
        invariant
            low <= lo,
            arr@.len() == a0.len(),
            arr@.to_multiset() == a0.to_multiset(),
            sort_state(a0, arr@, low as int, high as int, lo as int, top),
        ensures
            lo >= top,
        decreases hi - lo,
    {
        let ghost s0 = arr@;
        let p = partition(arr, lo, hi);
        let ghost s1 = arr@;
        proof {
            lemma_partition_keeps_state(a0, s0, s1, low as int, high as int, lo as int, hi as int, p as int);
        }
        if p - lo < hi - p {
            if p > 0 {
                quicksort(arr, lo, p - 1);
            }
            proof {
                lemma_after_left(a0, s1, arr@, low as int, high as int, lo as int, hi as int, p as int);
            }
            lo = p + 1;
        } else {
            proof {
                assert(arr@.len() == vstd::slice::spec_slice_len(arr));
            }
            quicksort(arr, p + 1, hi);
            proof {
                lemma_after_right(a0, s1, arr@, low as int, high as int, lo as int, hi as int, p as int);
                top = p - 1;
            }
            if p == 0 {
                break;
            }
            hi = p - 1;
        }
    }
    proof {
        lemma_state_done(a0, arr@, low as int, high as int, lo as int, top);
    }
}

} // verus!
