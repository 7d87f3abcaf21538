//! Grouping a sequence into consecutive runs of a fixed size, with the
//! last run holding the remainder.  This shape is used twice: words are
//! grouped into chunks, and chunk texts are grouped into embedding
//! batches.

use vstd::prelude::*;

verus! {

/// Number of groups of `size` needed to cover `n` elements.
pub open spec fn group_count(n: int, size: int) -> int
    recommends
        size >= 1,
{
    (n + size - 1) / size
}

/// The `j`-th group of `s` when grouped into runs of `size`.
pub open spec fn group_of<A>(s: Seq<A>, size: int, j: int) -> Seq<A>
    recommends
        size >= 1,
        0 <= j < group_count(s.len() as int, size),
{
    s.subrange(
        j * size,
        if (j + 1) * size <= s.len() {
            (j + 1) * size
        } else {
            s.len() as int
        },
    )
}

/// All groups of `s`, in order.
pub open spec fn groups_of<A>(s: Seq<A>, size: int) -> Seq<Seq<A>>
    recommends
        size >= 1,
{
    Seq::new(group_count(s.len() as int, size) as nat, |j: int| group_of(s, size, j))
}

/// A split into `n == size * k + r` elements with `0 < r <= size` covers
/// `k + 1` groups; with `r == 0`, exactly `k`.
pub proof fn lemma_group_count_split(n: int, size: int, k: int, r: int)
    requires
        size >= 1,
        k >= 0,
        0 <= r <= size,
        n == size * k + r,
    ensures
        r > 0 ==> group_count(n, size) == k + 1,
        r == 0 ==> group_count(n, size) == k,
{
    if r > 0 {
        assert((size * k + r + size - 1) / size == k + 1) by (nonlinear_arith)
            requires
                size >= 1,
                k >= 0,
                0 < r <= size,
        ;
    } else {
        assert((size * k + size - 1) / size == k) by (nonlinear_arith)
            requires
                size >= 1,
                k >= 0,
        ;
    }
}

/// The count of groups is the unique `j` with `(j-1)*size < n <= j*size`.
pub proof fn lemma_group_count_unique(n: int, size: int, j: int)
    requires
        size >= 1,
        j >= 0,
        n >= 0,
        j * size >= n,
        n > (j - 1) * size,
    ensures
        j == group_count(n, size),
{
    assert((n + size - 1) / size == j) by (nonlinear_arith)
        requires
            size >= 1,
            j >= 0,
            n >= 0,
            j * size >= n,
            n > (j - 1) * size,
    ;
}

/// Every group is non-empty and no larger than `size`.
pub proof fn lemma_group_bounds<A>(s: Seq<A>, size: int, j: int)
    requires
        size >= 1,
        0 <= j < group_count(s.len() as int, size),
    ensures
        1 <= group_of(s, size, j).len() <= size,
        0 <= j * size < s.len(),
{
    assert(j * size < s.len() && (j + 1) * size == j * size + size && j * size >= 0)
        by (nonlinear_arith)
        requires
            size >= 1,
            0 <= j < (s.len() + size - 1) / size,
    ;
}

/// Groups of the tail: dropping the first `size` elements drops exactly
/// the first group.
proof fn lemma_groups_of_skip<A>(s: Seq<A>, size: int)
    requires
        size >= 1,
        s.len() > 0,
    ensures
        groups_of(s, size).len() >= 1,
        groups_of(s, size).drop_first() =~= groups_of(s.skip(if size <= s.len() {
            size
        } else {
            s.len() as int
        }), size),
{
    let n = s.len() as int;
    let cut = if size <= n {
        size
    } else {
        n
    };
    let rest = s.skip(cut);
    if size <= n {
        vstd::arithmetic::div_mod::lemma_hoist_over_denominator(n - 1, 1, size as nat);
        assert((n - 1) / size >= 0) by (nonlinear_arith)
            requires
                size >= 1,
                n >= 1,
        ;
    } else {
        assert((n + size - 1) / size == 1 && (size - 1) / size == 0) by (nonlinear_arith)
            requires
                1 <= n < size,
        ;
    }
    assert(group_count(n, size) >= 1);
    assert(group_count(rest.len() as int, size) == group_count(n, size) - 1);
    assert forall|j: int| 0 <= j < group_count(n, size) - 1 implies group_of(s, size, j + 1)
        =~= group_of(rest, size, j) by {
        assert((j + 1) * size == j * size + size && j * size >= 0 && j * size + size <= n)
            by (nonlinear_arith)
            requires
                size >= 1,
                0 <= j < (n + size - 1) / size - 1,
                n > 0,
        ;
        assert((j + 2) * size == (j + 1) * size + size) by (nonlinear_arith);
    }
}

/// Concatenating all groups in order gives back the original sequence.
pub proof fn lemma_groups_flatten<A>(s: Seq<A>, size: int)
    requires
        size >= 1,
    ensures
        groups_of(s, size).flatten() =~= s,
    decreases s.len(),
{
    let n = s.len() as int;
    if n == 0 {
        assert(group_count(0, size) == 0) by (nonlinear_arith)
            requires
                size >= 1,
        ;
    } else {
        let cut = if size <= n {
            size
        } else {
            n
        };
        let rest = s.skip(cut);
        lemma_groups_of_skip(s, size);
        lemma_groups_flatten(rest, size);
        assert(groups_of(s, size).first() =~= s.take(cut)) by {
            assert(0 * size == 0 && 1 * size == size) by (nonlinear_arith);
        }
        assert(groups_of(s, size).flatten() == groups_of(s, size).first().add(
            groups_of(s, size).drop_first().flatten(),
        ));
        assert(s.take(cut).add(rest) =~= s);
    }
}

} // verus!
