use vstd::prelude::*;

verus! {

/// The number of unordered pairs of distinct nodes among `n` nodes.
pub open spec fn pair_count(n: int) -> int {
    n * (n - 1) / 2
}

/// The first slot of row `a`: the pairs whose smaller node is below `a` fill the
/// slots before it, `n - 1 - r` of them for each row `r`.
pub open spec fn row_start(n: int, a: int) -> int
    decreases a,
{
    if a <= 0 {
        0
    } else {
        row_start(n, a - 1) + (n - a)
    }
}

/// The slot of the pair `{a, b}`, `a < b`, in the flattened upper triangle.
pub open spec fn ordered_slot(n: int, a: int, b: int) -> int {
    a * (2 * n - a - 1) / 2 + (b - a - 1)
}

/// The slot of the unordered pair `{a, b}`.
pub open spec fn pair_slot(n: int, a: int, b: int) -> int {
    if a < b {
        ordered_slot(n, a, b)
    } else {
        ordered_slot(n, b, a)
    }
}

proof fn lemma_row_start_closed(n: int, a: int)
    requires
        0 <= a,
    ensures
        2 * row_start(n, a) == a * (2 * n - a - 1),
    decreases a,
{
    if a > 0 {
        lemma_row_start_closed(n, a - 1);
        assert(2 * row_start(n, a) == a * (2 * n - a - 1)) by (nonlinear_arith)
            requires
                2 * row_start(n, a - 1) == (a - 1) * (2 * n - (a - 1) - 1),
                row_start(n, a) == row_start(n, a - 1) + (n - a),
        ;
    } else {
        assert(a * (2 * n - a - 1) == 0) by (nonlinear_arith)
            requires
                a == 0,
        ;
    }
}

proof fn lemma_ordered_slot_is_row_offset(n: int, a: int, b: int)
    requires
        0 <= a,
    ensures
        ordered_slot(n, a, b) == row_start(n, a) + (b - a - 1),
{
    lemma_row_start_closed(n, a);
    let t = row_start(n, a);
    assert((2 * t) / 2 == t) by (nonlinear_arith);
}

proof fn lemma_row_start_monotone(n: int, a: int, c: int)
    requires
        0 <= a <= c <= n,
    ensures
        row_start(n, a) <= row_start(n, c),
    decreases c - a,
{
    if a < c {
        lemma_row_start_monotone(n, a, c - 1);
    }
}

/// Every pair `a < b < n` lands in `[0, pair_count(n))`, and no two different pairs
/// share a slot: the slots index the unordered pairs one to one.
pub proof fn lemma_pair_slot_bijective(n: int, a: int, b: int, c: int, d: int)
    requires
        0 <= a < b < n,
        0 <= c < d < n,
    ensures
        0 <= ordered_slot(n, a, b) < pair_count(n),
        ordered_slot(n, a, b) == ordered_slot(n, c, d) ==> a == c && b == d,
{
    lemma_ordered_slot_is_row_offset(n, a, b);
    lemma_ordered_slot_is_row_offset(n, c, d);
    lemma_row_start_monotone(n, 0, a);
    lemma_row_start_monotone(n, a + 1, n - 1);
    lemma_row_start_closed(n, n - 1);
    assert(row_start(n, n - 1) == pair_count(n)) by (nonlinear_arith)
        requires
            2 * row_start(n, n - 1) == (n - 1) * (2 * n - (n - 1) - 1),
    ;
    if a < c {
        lemma_row_start_monotone(n, a + 1, c);
    } else if c < a {
        lemma_row_start_monotone(n, c + 1, a);
    }
}

proof fn lemma_row_start_last(n: int)
    requires
        n >= 2,
    ensures
        row_start(n, n - 1) == pair_count(n),
{
    lemma_row_start_closed(n, n - 1);
    assert(row_start(n, n - 1) == pair_count(n)) by (nonlinear_arith)
        requires
            2 * row_start(n, n - 1) == (n - 1) * (2 * n - (n - 1) - 1),
    ;
}

proof fn lemma_slot_in_rows_from(n: int, k: int, a: int)
    requires
        n >= 2,
        0 <= a <= n - 2,
        row_start(n, a) <= k < pair_count(n),
    ensures
        exists|x: int, y: int| 0 <= x < y < n && #[trigger] ordered_slot(n, x, y) == k,
    decreases n - 2 - a,
{
    lemma_row_start_last(n);
    if k < row_start(n, a + 1) {
        let b = k - row_start(n, a) + a + 1;
        lemma_ordered_slot_is_row_offset(n, a, b);
        assert(0 <= a < b < n && ordered_slot(n, a, b) == k);
    } else {
        lemma_slot_in_rows_from(n, k, a + 1);
    }
}

/// Every slot below `pair_count(n)` belongs to some pair `a < b < n`: together with
/// `lemma_pair_slot_bijective`, the slots and the pairs match one to one, with no gaps.
pub proof fn lemma_pair_slot_onto(n: int, k: int)
    requires
        n >= 2,
        0 <= k < pair_count(n),
    ensures
        exists|a: int, b: int| 0 <= a < b < n && #[trigger] ordered_slot(n, a, b) == k,
{
    lemma_slot_in_rows_from(n, k, 0);
}

/// The slot that stands for the unordered pair `{a, b}` of distinct nodes below
/// `size`: the smaller node picks the row, the larger the place in it.
pub fn pair_index(size: usize, a: usize, b: usize) -> (r: usize)
    requires
        a < size,
        b < size,
        a != b,
        size * (size - 1) <= usize::MAX,
    ensures
        r == pair_slot(size as int, a as int, b as int),
        r < pair_count(size as int),
{
    let (lo, hi) = if a < b {
        (a, b)
    } else {
        (b, a)
    };
    proof {
        let n = size as int;
        let x = lo as int;
        assert(x * (2 * n - x - 1) <= n * (n - 1)) by (nonlinear_arith)
            requires
                0 <= x < n,
        ;
        assert(0 <= x * (2 * n - x - 1)) by (nonlinear_arith)
            requires
                0 <= x < n,
        ;
        assert(2 * n <= usize::MAX) by (nonlinear_arith)
            requires
                2 <= n,
                n * (n - 1) <= usize::MAX,
        ;
        lemma_pair_slot_bijective(n, x, hi as int, x, hi as int);
    }
    lo * (2 * size - lo - 1) / 2 + (hi - lo - 1)
}

} // verus!
