use vstd::prelude::*;

verus! {

/// The pairs that the item at index `k` forms with itself and with every
/// later item, in the order of the later item's index.
pub open spec fn pairs_with<T>(items: Seq<T>, k: int) -> Seq<(T, T)> {
    Seq::new((items.len() - k) as nat, |d: int| (items[k], items[k + d]))
}

/// The unordered pairs of the items from index `k` on.
pub open spec fn pairs_from<T>(items: Seq<T>, k: int) -> Seq<(T, T)>
    decreases items.len() - k,
{
    if 0 <= k < items.len() {
        pairs_with(items, k) + pairs_from(items, k + 1)
    } else {
        Seq::empty()
    }
}

/// Every unordered pair of items, an item with itself included: the pair of
/// the items at indices `i <= j` stands before that of `i' <= j'` exactly
/// when `(i, j)` is lexicographically smaller than `(i', j')`.
pub open spec fn all_pairs<T>(items: Seq<T>) -> Seq<(T, T)> {
    pairs_from(items, 0)
}

/// Where the pairs of the item at index `i` begin among the pairs of `n`
/// items.
pub open spec fn row_start(n: int, i: int) -> int
    decreases i,
{
    if i <= 0 {
        0
    } else {
        row_start(n, i - 1) + (n - (i - 1))
    }
}

/// The position, among the pairs of `n` items, of the pair of the items at
/// indices `i <= j`.
pub open spec fn pair_index(n: int, i: int, j: int) -> int {
    row_start(n, i) + (j - i)
}

/// Position `x` is that of some pair of indices `i <= j < n`.
pub open spec fn is_pair_position(n: int, x: int) -> bool {
    exists|i: int, j: int| 0 <= i <= j < n && x == #[trigger] pair_index(n, i, j)
}

/// Pairs every item with itself and with every later item. `None` where
/// there are no items.
pub fn pairs_of<T: Copy>(v: Vec<T>) -> (pairs: Option<Vec<(T, T)>>)
    ensures
        match pairs {
            Some(ps) => v@.len() > 0 && ps@ == all_pairs(v@),
            None => v@.len() == 0,
        },
{
    let n: usize = v.len();
    if n == 0 {
        return None;
    }
    let mut out: Vec<(T, T)> = Vec::new();
    let mut k1: usize = 0;
    while k1 < n
        invariant
            n == v@.len(),
            k1 <= n,
            out@ + pairs_from(v@, k1 as int) == all_pairs(v@),
        decreases n - k1,
    {
        let ghost before = out@;
        let mut k2: usize = k1;
        while k2 < n
            invariant
                n == v@.len(),
                k1 <= k2 <= n,
                out@ == before + pairs_with(v@, k1 as int).take(k2 - k1),
            decreases n - k2,
        {
            out.push((v[k1], v[k2]));
            proof {
                let row = pairs_with(v@, k1 as int);
                assert(row.take(k2 - k1 + 1) == row.take(k2 - k1).push(row[k2 - k1]));
            }
            k2 += 1;
        }
        proof {
            let row = pairs_with(v@, k1 as int);
            assert(row.take(n - k1) == row);
            assert((before + row) + pairs_from(v@, k1 + 1) == before + (row + pairs_from(v@, k1 + 1)));
        }
        k1 += 1;
    }
    proof {
        assert(pairs_from(v@, n as int) == Seq::<(T, T)>::empty());
        assert(out@ + Seq::<(T, T)>::empty() == out@);
    }
    Some(out)
}

/// Twice `row_start(n, i)` is `i * (2 * n - i + 1)`.
pub proof fn lemma_row_start_closed_form(n: int, i: int)
    requires
        0 <= i,
    ensures
        2 * row_start(n, i) == i * (2 * n - i + 1),
    decreases i,
{
    if i > 0 {
        lemma_row_start_closed_form(n, i - 1);
        assert(2 * row_start(n, i) == 2 * row_start(n, i - 1) + 2 * (n - (i - 1)));
        assert((i - 1) * (2 * n - (i - 1) + 1) + 2 * (n - (i - 1)) == i * (2 * n - i + 1))
            by (nonlinear_arith);
    } else {
        assert(0 * (2 * n - 0 + 1) == 0) by (nonlinear_arith);
    }
}

/// The pairs of an earlier item end before those of a later item begin.
pub proof fn lemma_row_start_increases(n: int, i: int, j: int)
    requires
        0 <= i < j <= n,
    ensures
        row_start(n, i) + (n - i) <= row_start(n, j),
    decreases j,
{
    if i < j - 1 {
        lemma_row_start_increases(n, i, j - 1);
    }
}

proof fn lemma_pairs_from_len<T>(items: Seq<T>, k: int)
    requires
        0 <= k <= items.len(),
    ensures
        pairs_from(items, k).len() == row_start(items.len() as int, items.len() as int) - row_start(
            items.len() as int,
            k,
        ),
    decreases items.len() - k,
{
    if k < items.len() {
        lemma_pairs_from_len(items, k + 1);
    }
}

proof fn lemma_pairs_from_index<T>(items: Seq<T>, k: int, i: int, j: int)
    requires
        0 <= k <= i <= j < items.len(),
    ensures
        0 <= pair_index(items.len() as int, i, j) - row_start(items.len() as int, k) < pairs_from(
            items,
            k,
        ).len(),
        pairs_from(items, k)[pair_index(items.len() as int, i, j) - row_start(
            items.len() as int,
            k,
        )] == (items[i], items[j]),
    decreases i - k,
{
    let n: int = items.len() as int;
    if k < i {
        lemma_pairs_from_index(items, k + 1, i, j);
        lemma_row_start_increases(n, k, i);
    } else {
        assert(pairs_with(items, k)[j - i] == (items[i], items[j]));
    }
}

proof fn lemma_pairs_from_cover<T>(items: Seq<T>, k: int, x: int) -> (ij: (int, int))
    requires
        0 <= k <= items.len(),
        0 <= x < pairs_from(items, k).len(),
    ensures
        k <= ij.0 <= ij.1 < items.len(),
        x == pair_index(items.len() as int, ij.0, ij.1) - row_start(items.len() as int, k),
    decreases items.len() - k,
{
    let n: int = items.len() as int;
    if x < n - k {
        (k, k + x)
    } else {
        lemma_pairs_from_cover(items, k + 1, x - (n - k))
    }
}

/// Position `pair_index(n, i, j)` of the pairs of `n` items holds the items
/// at indices `i` and `j`.
pub proof fn lemma_all_pairs_index<T>(items: Seq<T>, i: int, j: int)
    requires
        0 <= i <= j < items.len(),
    ensures
        0 <= pair_index(items.len() as int, i, j) < all_pairs(items).len(),
        all_pairs(items)[pair_index(items.len() as int, i, j)] == (items[i], items[j]),
{
    lemma_pairs_from_index(items, 0, i, j);
}

/// Every position of the pairs of `n` items is `pair_index(n, i, j)` for
/// some `i <= j < n`, which the lemma returns.
pub proof fn lemma_all_pairs_cover<T>(items: Seq<T>, x: int) -> (ij: (int, int))
    requires
        0 <= x < all_pairs(items).len(),
    ensures
        0 <= ij.0 <= ij.1 < items.len(),
        x == pair_index(items.len() as int, ij.0, ij.1),
        all_pairs(items)[x] == (items[ij.0], items[ij.1]),
{
    let ij = lemma_pairs_from_cover(items, 0, x);
    lemma_all_pairs_index(items, ij.0, ij.1);
    ij
}

/// `pair_index` grows with the lexicographic order of the index pairs, so
/// no two index pairs share a position.
pub proof fn lemma_pair_index_order(n: int, i: int, j: int, i2: int, j2: int)
    requires
        0 <= i <= j < n,
        0 <= i2 <= j2 < n,
        i < i2 || (i == i2 && j < j2),
    ensures
        pair_index(n, i, j) < pair_index(n, i2, j2),
{
    if i < i2 {
        lemma_row_start_increases(n, i, i2);
    }
}

/// The pairs of `n` items: there are `n * (n + 1) / 2` of them; each pair of
/// indices `i <= j` has one position, which holds the two items; no position
/// holds anything else; and the positions follow the lexicographic order of
/// the index pairs.
pub proof fn lemma_all_pairs<T>(items: Seq<T>)
    ensures
        2 * all_pairs(items).len() == items.len() * (items.len() + 1),
        forall|i: int, j: int|
            0 <= i <= j < items.len() ==> {
                &&& 0 <= #[trigger] pair_index(items.len() as int, i, j) < all_pairs(items).len()
                &&& all_pairs(items)[pair_index(items.len() as int, i, j)] == (items[i], items[j])
            },
        forall|x: int|
            0 <= x < all_pairs(items).len() ==> #[trigger] is_pair_position(items.len() as int, x),
        forall|i: int, j: int, i2: int, j2: int|
            0 <= i <= j < items.len() && 0 <= i2 <= j2 < items.len() && (i < i2 || (i == i2 && j
                < j2)) ==> #[trigger] pair_index(items.len() as int, i, j) < #[trigger] pair_index(
                items.len() as int,
                i2,
                j2,
            ),
{
    let n: int = items.len() as int;
    lemma_pairs_from_len(items, 0);
    lemma_row_start_closed_form(n, n);
    assert(n * (2 * n - n + 1) == n * (n + 1)) by (nonlinear_arith);
    assert forall|i: int, j: int| 0 <= i <= j < items.len() implies {
        &&& 0 <= #[trigger] pair_index(n, i, j) < all_pairs(items).len()
        &&& all_pairs(items)[pair_index(n, i, j)] == (items[i], items[j])
    } by {
        lemma_all_pairs_index(items, i, j);
    }
    assert forall|x: int| 0 <= x < all_pairs(items).len() implies #[trigger] is_pair_position(
        n,
        x,
    ) by {
        let ij = lemma_all_pairs_cover(items, x);
        assert(0 <= ij.0 <= ij.1 < n && x == pair_index(n, ij.0, ij.1));
    }
    assert forall|i: int, j: int, i2: int, j2: int|
        0 <= i <= j < items.len() && 0 <= i2 <= j2 < items.len() && (i < i2 || (i == i2 && j
            < j2)) implies #[trigger] pair_index(n, i, j) < #[trigger] pair_index(n, i2, j2) by {
        lemma_pair_index_order(n, i, j, i2, j2);
    }
}

} // verus!
