//! Index arithmetic on the closed ring of points that forms a body's outline.
use vstd::prelude::*;

verus! {

/// The point `k` steps after `start` on a ring of `n` points.
pub open spec fn ring_index(start: int, k: int, n: int) -> int {
    (start + k) % n
}

/// How many steps after `start` the point `j` lies on a ring of `n` points.
pub open spec fn ring_offset(j: int, start: int, n: int) -> int {
    (j - start) % n
}

/// Whether point `j` lies in the span of `length` consecutive points that
/// begins at `start`.
pub open spec fn in_span(j: int, start: int, length: int, n: int) -> bool {
    ring_offset(j, start, n) < length
}

pub proof fn lemma_offset_of_index(j: int, start: int, k: int, n: int)
    requires
        n > 0,
        0 <= j < n,
        0 <= k < n,
    ensures
        (ring_offset(j, start, n) == k) <==> (j == ring_index(start, k, n)),
{
    let a = j - start;
    let b = start + k;
    vstd::arithmetic::div_mod::lemma_fundamental_div_mod(a, n);
    vstd::arithmetic::div_mod::lemma_fundamental_div_mod(b, n);
    let qa = a / n;
    let qb = b / n;
    if a % n == k {
        assert(b == (-qa) * n + j) by (nonlinear_arith)
            requires
                a == n * qa + k,
                a == j - start,
                b == start + k,
        ;
        vstd::arithmetic::div_mod::lemma_fundamental_div_mod_converse_mod(b, n, -qa, j);
    }
    if j == b % n {
        assert(a == (-qb) * n + k) by (nonlinear_arith)
            requires
                b == n * qb + j,
                a == j - start,
                b == start + k,
        ;
        vstd::arithmetic::div_mod::lemma_fundamental_div_mod_converse_mod(a, n, -qb, k);
    }
}

pub proof fn lemma_index_in_range(start: int, k: int, n: int)
    requires
        n > 0,
    ensures
        0 <= ring_index(start, k, n) < n,
        0 <= ring_offset(start, k, n) < n,
{
}

/// The point after `i` on a ring of `n` points.
pub fn next_point(i: usize, n: usize) -> (r: usize)
    requires
        i < n,
    ensures
        r == ring_index(i as int, 1, n as int),
{
    if i < n - 1 {
        proof {
            vstd::arithmetic::div_mod::lemma_small_mod((i + 1) as nat, n as nat);
        }
        i + 1
    } else {
        proof {
            vstd::arithmetic::div_mod::lemma_mod_self_0(n as int);
        }
        0
    }
}

/// The point before `i` on a ring of `n` points.
pub fn previous_point(i: usize, n: usize) -> (r: usize)
    requires
        i < n,
    ensures
        r == ring_index(i as int, -1, n as int),
{
    if i > 0 {
        proof {
            vstd::arithmetic::div_mod::lemma_small_mod((i - 1) as nat, n as nat);
        }
        i - 1
    } else {
        proof {
            vstd::arithmetic::div_mod::lemma_fundamental_div_mod_converse_mod(
                i as int - 1,
                n as int,
                -1,
                n - 1,
            );
        }
        n - 1
    }
}

/// The point `k` steps after `i` on a ring of `n` points.
pub fn advance(i: usize, k: usize, n: usize) -> (r: usize)
    requires
        i < n,
        k <= n,
    ensures
        r == ring_index(i as int, k as int, n as int),
{
    if i >= n - k {
        proof {
            vstd::arithmetic::div_mod::lemma_mod_add_multiples_vanish((i + k - n) as int, n as int);
            vstd::arithmetic::div_mod::lemma_small_mod((i + k - n) as nat, n as nat);
        }
        i - (n - k)
    } else {
        proof {
            vstd::arithmetic::div_mod::lemma_small_mod((i + k) as nat, n as nat);
        }
        i + k
    }
}

/// The two ends of outline edge `i`: the point itself and the one after it.
pub fn line_indices(i: usize, n: usize) -> (r: Option<[usize; 2]>)
    ensures
        i < n ==> r == Some([i, ring_index(i as int, 1, n as int) as usize]),
        i >= n ==> r.is_none(),
{
    if i >= n {
        None
    } else {
        Some([i, next_point(i, n)])
    }
}

/// The corner at point `i`: the point before it, the point, and the one after.
pub fn angle_indices(i: usize, n: usize) -> (r: Option<[usize; 3]>)
    ensures
        i < n ==> r == Some(
            [
                ring_index(i as int, -1, n as int) as usize,
                i,
                ring_index(i as int, 1, n as int) as usize,
            ],
        ),
        i >= n ==> r.is_none(),
{
    if i >= n {
        None
    } else {
        Some([previous_point(i, n), i, next_point(i, n)])
    }
}

} // verus!
