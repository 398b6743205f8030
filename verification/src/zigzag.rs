//! Zig-zag coefficient ordering: a permutation of an N by N block built by
//! walking its anti-diagonals, reversing direction on the odd ones, so that
//! low-frequency coefficients come first in the codestream.
use vstd::prelude::*;

verus! {

/// Largest supported block size.
pub const MAX_BLOCK: usize = 512;

/// The table is a permutation of the cell indices of an `n` by `n` block:
/// every entry is in range and no two entries collide.
pub open spec fn zz_table_wf(t: Seq<usize>, n: int) -> bool {
    &&& t.len() == n * n
    &&& forall|k: int| 0 <= k < n * n ==> (#[trigger] t[k]) < n * n
    &&& forall|k1: int, k2: int|
        0 <= k1 < n * n && 0 <= k2 < n * n && k1 != k2 ==> #[trigger] t[k1] != #[trigger] t[k2]
}

/// The row of the cell visited at step `j` of anti-diagonal `i`: odd
/// diagonals are walked downwards, even ones upwards.
pub open spec fn zz_row(i: int, j: int) -> int {
    if i % 2 == 1 {
        j
    } else {
        i - j
    }
}

/// Column of the cell visited at step `j` of anti-diagonal `i`.
pub open spec fn zz_col(i: int, j: int) -> int {
    i - zz_row(i, j)
}

/// First step index of anti-diagonal `i` in an `n` by `n` block.
pub open spec fn zz_jmin(i: int, n: int) -> int {
    if i < n {
        0
    } else {
        i - n + 1
    }
}

/// Number of cells on anti-diagonal `i` of an `n` by `n` block.
pub open spec fn zz_diag_len(i: int, n: int) -> int {
    (if i < n {
        i
    } else {
        n - 1
    }) - zz_jmin(i, n) + 1
}

/// Number of cells on the anti-diagonals before `i`.
pub open spec fn zz_rank(i: int, n: int) -> int
    decreases i,
{
    if i <= 0 {
        0
    } else {
        zz_rank(i - 1, n) + zz_diag_len(i - 1, n)
    }
}

/// Closed form of `zz_rank`: the diagonals fill a triangle, then the
/// complement of one.
proof fn lemma_zz_rank_closed(i: int, n: int)
    requires
        n >= 1,
        0 <= i <= 2 * n,
    ensures
        2 * zz_rank(i, n) == if i <= n {
            i * (i + 1)
        } else {
            2 * n * n - (2 * n - 1 - i) * (2 * n - i)
        },
    decreases i,
{
    if i > 0 {
        lemma_zz_rank_closed(i - 1, n);
        if i <= n {
            assert(2 * zz_rank(i, n) == i * (i + 1)) by (nonlinear_arith)
                requires
                    zz_rank(i, n) == zz_rank(i - 1, n) + zz_diag_len(i - 1, n),
                    2 * zz_rank(i - 1, n) == (i - 1) * i,
                    zz_diag_len(i - 1, n) == i,
            {}
        } else if i == n + 1 {
            assert(2 * zz_rank(i, n) == 2 * n * n - (2 * n - 1 - i) * (2 * n - i))
                by (nonlinear_arith)
                requires
                    i == n + 1,
                    zz_rank(i, n) == zz_rank(i - 1, n) + zz_diag_len(i - 1, n),
                    2 * zz_rank(i - 1, n) == (i - 1) * i,
                    zz_diag_len(i - 1, n) == 2 * n - i,
            {}
        } else {
            assert(2 * zz_rank(i, n) == 2 * n * n - (2 * n - 1 - i) * (2 * n - i))
                by (nonlinear_arith)
                requires
                    n + 1 < i <= 2 * n,
                    zz_rank(i, n) == zz_rank(i - 1, n) + zz_diag_len(i - 1, n),
                    2 * zz_rank(i - 1, n) == 2 * n * n - (2 * n - i) * (2 * n - i + 1),
                    zz_diag_len(i - 1, n) == 2 * n - i,
            {}
        }
    }
}

/// All `2n` anti-diagonals together hold every cell of the block exactly
/// once.
proof fn lemma_zz_rank_total(n: int)
    requires
        n >= 1,
    ensures
        zz_rank(2 * n, n) == n * n,
{
    lemma_zz_rank_closed(2 * n, n);
    assert(2 * zz_rank(2 * n, n) == 2 * n * n - (2 * n - 1 - 2 * n) * (2 * n - 2 * n));
    assert(zz_rank(2 * n, n) == n * n) by (nonlinear_arith)
        requires
            2 * zz_rank(2 * n, n) == 2 * n * n - (2 * n - 1 - 2 * n) * (2 * n - 2 * n),
    {}
}

/// The zig-zag position of cell `(r, c)`: the cells on earlier
/// anti-diagonals, plus the cell's step along its own diagonal.
pub open spec fn zz_pos(n: int, r: int, c: int) -> int {
    let d = r + c;
    zz_rank(d, n) + ((if d % 2 == 1 {
        r
    } else {
        c
    }) - zz_jmin(d, n))
}

/// Whether the cell `(r, c)` has already been visited when the walk stands
/// at step `j` of anti-diagonal `i`.
pub open spec fn zz_visited(i: int, j: int, n: int, r: int, c: int) -> bool {
    &&& 0 <= r < n
    &&& 0 <= c < n
    &&& (r + c < i || (r + c == i && (if i % 2 == 1 {
        r
    } else {
        c
    }) < j))
}

/// Distinct cells of an `n` by `n` block have distinct row-major indices.
proof fn lemma_zz_index_distinct(n: int, r1: int, c1: int, r2: int, c2: int)
    requires
        n >= 1,
        0 <= r1 < n,
        0 <= c1 < n,
        0 <= r2 < n,
        0 <= c2 < n,
        !(r1 == r2 && c1 == c2),
    ensures
        r1 * n + c1 != r2 * n + c2,
        0 <= r1 * n + c1 < n * n,
        0 <= r2 * n + c2 < n * n,
{
    crate::lemma_pidx(n, c1, r1);
    crate::lemma_pidx(n, c2, r2);
    crate::lemma_pidx_bound(n, n, c1, r1);
    crate::lemma_pidx_bound(n, n, c2, r2);
}

/// The cell written at step `j` of diagonal `i` lies inside the block, its
/// index formula matches its coordinates, and it has not been visited
/// before.
proof fn lemma_zz_cell_index(i: int, j: int, n: int)
    requires
        n >= 1,
        0 <= i < 2 * n,
        zz_jmin(i, n) <= j,
        j <= i,
        j < n,
    ensures
        0 <= zz_row(i, j) < n,
        0 <= zz_col(i, j) < n,
        zz_row(i, j) + zz_col(i, j) == i,
        i % 2 == 1 ==> zz_row(i, j) * n + zz_col(i, j) == j * (n - 1) + i,
        i % 2 != 1 ==> zz_row(i, j) * n + zz_col(i, j) == (i - j) * n + j,
        !zz_visited(i, j, n, zz_row(i, j), zz_col(i, j)),
        zz_visited(i, j + 1, n, zz_row(i, j), zz_col(i, j)),
        0 <= zz_row(i, j) * n + zz_col(i, j) < n * n,
{
    if i % 2 == 1 {
        assert(j * n + (i - j) == j * (n - 1) + i) by {
            vstd::arithmetic::mul::lemma_mul_is_distributive_sub(j, n, 1);
        }
    }
    crate::lemma_pidx_bound(n, n, zz_col(i, j), zz_row(i, j));
}

/// Build the zig-zag permutation table for an `n` by `n` block: entry
/// `r * n + c` holds the position of cell `(r, c)` in zig-zag order.
pub fn generate_zig_zag_table(block_size: usize) -> (t: Vec<usize>)
    requires
        1 <= block_size <= MAX_BLOCK,
    ensures
        zz_table_wf(t@, block_size as int),
        forall|r: int, c: int|
            0 <= r < block_size && 0 <= c < block_size ==> (#[trigger] t@[r * block_size + c])
                as int == zz_pos(block_size as int, r, c),
{
    let n = block_size;
    proof {
        vstd::arithmetic::mul::lemma_mul_upper_bound(
            block_size as int,
            MAX_BLOCK as int,
            block_size as int,
            MAX_BLOCK as int,
        );
    }
    let nn = n * n;
    let mut t: Vec<usize> = Vec::new();
    let mut k: usize = 0;
    while k < nn
        invariant
            k <= nn,
            t@.len() == k,
        decreases nn - k,
    {
        t.push(0usize);
        k = k + 1;
    }
    let mut counter: usize = 0;
    let mut i: usize = 0;
    while i < n * 2
        invariant
            1 <= n <= MAX_BLOCK,
            nn == n * n,
            i <= n * 2,
            t@.len() == nn,
            counter as int == zz_rank(i as int, n as int),
            counter <= i * n,
            forall|r: int, c: int|
                zz_visited(i as int, zz_jmin(i as int, n as int), n as int, r, c) ==> (
                #[trigger] t@[r * n + c]) < counter,
            forall|r: int, c: int|
                zz_visited(i as int, zz_jmin(i as int, n as int), n as int, r, c) ==> (
                #[trigger] t@[r * n + c]) as int == zz_pos(n as int, r, c),
            forall|r1: int, c1: int, r2: int, c2: int|
                zz_visited(i as int, zz_jmin(i as int, n as int), n as int, r1, c1) && zz_visited(
                    i as int,
                    zz_jmin(i as int, n as int),
                    n as int,
                    r2,
                    c2,
                ) && !(r1 == r2 && c1 == c2) ==> #[trigger] t@[r1 * n + c1] != #[trigger] t@[r2 * n
                + c2],
        decreases n * 2 - i,
    {
        let mut j: usize = if i < n {
            0
        } else {
            i - n + 1
        };
        proof {
            vstd::arithmetic::mul::lemma_mul_upper_bound(
                i as int,
                2 * MAX_BLOCK as int,
                n as int,
                MAX_BLOCK as int,
            );
        }
        while j <= i && j < n
            invariant
                1 <= n <= MAX_BLOCK,
                nn == n * n,
                i < n * 2,
                t@.len() == nn,
                zz_jmin(i as int, n as int) <= j as int,
                j as int <= i + 1,
                j <= n,
                counter as int == zz_rank(i as int, n as int) + (j as int - zz_jmin(
                    i as int,
                    n as int,
                )),
                counter as int <= i * n + j,
                forall|r: int, c: int|
                    zz_visited(i as int, j as int, n as int, r, c) ==> (#[trigger] t@[r * n + c])
                        < counter,
                forall|r: int, c: int|
                    zz_visited(i as int, j as int, n as int, r, c) ==> (#[trigger] t@[r * n + c])
                        as int == zz_pos(n as int, r, c),
                forall|r1: int, c1: int, r2: int, c2: int|
                    zz_visited(i as int, j as int, n as int, r1, c1) && zz_visited(
                        i as int,
                        j as int,
                        n as int,
                        r2,
                        c2,
                    ) && !(r1 == r2 && c1 == c2) ==> #[trigger] t@[r1 * n + c1] != #[trigger] t@[r2
                    * n + c2],
            decreases i + 1 - j,
        {
            proof {
                vstd::arithmetic::mul::lemma_mul_upper_bound(
                    i as int,
                    2 * MAX_BLOCK as int,
                    n as int,
                    MAX_BLOCK as int,
                );
                vstd::arithmetic::mul::lemma_mul_upper_bound(
                    j as int,
                    MAX_BLOCK as int,
                    n as int - 1,
                    MAX_BLOCK as int,
                );
                vstd::arithmetic::mul::lemma_mul_upper_bound(
                    i as int - j as int,
                    2 * MAX_BLOCK as int,
                    n as int,
                    MAX_BLOCK as int,
                );
                lemma_zz_cell_index(i as int, j as int, n as int);
            }
            let index: usize = if i % 2 == 1 {
                j * (n - 1) + i
            } else {
                (i - j) * n + j
            };
            t[index] = counter;
            counter = counter + 1;
            j = j + 1;
            proof {
                let ii = i as int;
                let jj = j as int;
                let ni = n as int;
                let r0 = zz_row(ii, jj - 1);
                let c0 = zz_col(ii, jj - 1);
                assert forall|r: int, c: int| zz_visited(ii, jj, ni, r, c) implies (
                #[trigger] t@[r * n + c]) < counter by {
                    if !(r == r0 && c == c0) {
                        assert(zz_visited(ii, jj - 1, ni, r, c));
                        lemma_zz_index_distinct(ni, r, c, r0, c0);
                    }
                }
                assert forall|r: int, c: int| zz_visited(ii, jj, ni, r, c) implies (
                #[trigger] t@[r * n + c]) as int == zz_pos(ni, r, c) by {
                    if !(r == r0 && c == c0) {
                        assert(zz_visited(ii, jj - 1, ni, r, c));
                        lemma_zz_index_distinct(ni, r, c, r0, c0);
                    } else {
                        assert(r + c == ii);
                    }
                }
                assert forall|r1: int, c1: int, r2: int, c2: int|
                    zz_visited(ii, jj, ni, r1, c1) && zz_visited(ii, jj, ni, r2, c2) && !(r1 == r2
                        && c1 == c2) implies #[trigger] t@[r1 * n + c1] != #[trigger] t@[r2 * n
                    + c2] by {
                    lemma_zz_index_distinct(ni, r1, c1, r2, c2);
                    if !(r1 == r0 && c1 == c0) {
                        assert(zz_visited(ii, jj - 1, ni, r1, c1));
                        lemma_zz_index_distinct(ni, r1, c1, r0, c0);
                    }
                    if !(r2 == r0 && c2 == c0) {
                        assert(zz_visited(ii, jj - 1, ni, r2, c2));
                        lemma_zz_index_distinct(ni, r2, c2, r0, c0);
                    }
                }
            }
        }
        proof {
            let ii = i as int;
            let ni = n as int;
            assert(j as int == if ii + 1 < ni {
                ii + 1
            } else {
                ni
            });
            assert(counter as int == zz_rank(ii + 1, ni));
            assert(i * n + n == (i + 1) * n) by {
                vstd::arithmetic::mul::lemma_mul_is_distributive_add_other_way(ni, ii, 1);
            }
            assert forall|r: int, c: int|
                zz_visited(ii + 1, zz_jmin(ii + 1, ni), ni, r, c) implies zz_visited(
                ii,
                j as int,
                ni,
                r,
                c,
            ) by {}
            assert forall|r: int, c: int|
                zz_visited(ii + 1, zz_jmin(ii + 1, ni), ni, r, c) implies (#[trigger] t@[r * n + c])
                as int == zz_pos(ni, r, c) by {
                assert(zz_visited(ii, j as int, ni, r, c));
            }
        }
        i = i + 1;
    }
    proof {
        let ni = n as int;
        lemma_zz_rank_total(ni);
        assert forall|r: int, c: int|
            0 <= r < n && 0 <= c < n implies (#[trigger] t@[r * n + c]) as int == zz_pos(
            ni,
            r,
            c,
        ) by {
            assert(zz_visited(2 * ni, zz_jmin(2 * ni, ni), ni, r, c));
        }
        assert forall|k1: int| 0 <= k1 < ni * ni implies ((#[trigger] t@[k1]) as int) < ni * ni by {
            let r = k1 / ni;
            let c = k1 % ni;
            lemma_zz_div_in_range(k1, ni);
            assert(zz_visited(2 * ni, zz_jmin(2 * ni, ni), ni, r, c));
            assert(t@[r * ni + c] < counter);
        }
        assert forall|k1: int, k2: int|
            0 <= k1 < ni * ni && 0 <= k2 < ni * ni && k1 != k2 implies #[trigger] t@[k1]
            != #[trigger] t@[k2] by {
            let r1 = k1 / ni;
            let c1 = k1 % ni;
            let r2 = k2 / ni;
            let c2 = k2 % ni;
            lemma_zz_div_in_range(k1, ni);
            lemma_zz_div_in_range(k2, ni);
            assert(zz_visited(2 * ni, zz_jmin(2 * ni, ni), ni, r1, c1));
            assert(zz_visited(2 * ni, zz_jmin(2 * ni, ni), ni, r2, c2));
            assert(t@[r1 * ni + c1] != t@[r2 * ni + c2]);
        }
    }
    t
}

/// Store a block's coefficients in zig-zag order: position `t[k]` of the
/// result receives coefficient `k`.
pub fn zig_zag_function(zig_zag_table: &Vec<usize>, block_size: usize, dct_matrix: &Vec<i32>) -> (r:
    Vec<i32>)
    requires
        1 <= block_size <= MAX_BLOCK,
        zz_table_wf(zig_zag_table@, block_size as int),
        dct_matrix@.len() == block_size * block_size,
    ensures
        r@.len() == block_size * block_size,
        forall|k: int|
            0 <= k < block_size * block_size ==> r@[(#[trigger] zig_zag_table@[k]) as int]
                == dct_matrix@[k],
{
    let n = block_size;
    proof {
        vstd::arithmetic::mul::lemma_mul_upper_bound(
            n as int,
            MAX_BLOCK as int,
            n as int,
            MAX_BLOCK as int,
        );
    }
    let nn = n * n;
    let mut r = crate::zero_i32s(nn);
    let mut k: usize = 0;
    while k < nn
        invariant
            nn == n * n,
            n >= 1,
            zz_table_wf(zig_zag_table@, n as int),
            dct_matrix@.len() == nn,
            r@.len() == nn,
            k <= nn,
            forall|m: int|
                0 <= m < k ==> r@[(#[trigger] zig_zag_table@[m]) as int] == dct_matrix@[m],
        decreases nn - k,
    {
        let pos = zig_zag_table[k];
        r[pos] = dct_matrix[k];
        k = k + 1;
        proof {
            assert forall|m: int|
                0 <= m < k implies r@[(#[trigger] zig_zag_table@[m]) as int] == dct_matrix@[m] by {
                if m < k - 1 {
                    assert(zig_zag_table@[m] != zig_zag_table@[k - 1]);
                }
            }
        }
    }
    r
}

/// Read a block's coefficients back from zig-zag order: coefficient `k` is
/// taken from position `t[k]`.
pub fn un_zig_zag_function(
    zig_zag_table: &Vec<usize>,
    block_size: usize,
    dct_matrix_zig_zag: &Vec<i32>,
) -> (r: Vec<i32>)
    requires
        1 <= block_size <= MAX_BLOCK,
        zz_table_wf(zig_zag_table@, block_size as int),
        dct_matrix_zig_zag@.len() == block_size * block_size,
    ensures
        r@.len() == block_size * block_size,
        forall|k: int|
            0 <= k < block_size * block_size ==> r@[k] == dct_matrix_zig_zag@[(
            #[trigger] zig_zag_table@[k]) as int],
{
    let n = block_size;
    proof {
        vstd::arithmetic::mul::lemma_mul_upper_bound(
            n as int,
            MAX_BLOCK as int,
            n as int,
            MAX_BLOCK as int,
        );
    }
    let nn = n * n;
    let mut r: Vec<i32> = Vec::new();
    let mut k: usize = 0;
    while k < nn
        invariant
            nn == n * n,
            n >= 1,
            zz_table_wf(zig_zag_table@, n as int),
            dct_matrix_zig_zag@.len() == nn,
            r@.len() == k,
            k <= nn,
            forall|m: int|
                0 <= m < k ==> r@[m] == dct_matrix_zig_zag@[(#[trigger] zig_zag_table@[m]) as int],
        decreases nn - k,
    {
        let pos = zig_zag_table[k];
        r.push(dct_matrix_zig_zag[pos]);
        k = k + 1;
    }
    r
}

/// The zig-zag ordering is a bijection: writing a block out in zig-zag
/// order and reading it back reproduces the block exactly, whatever the
/// permutation table and coefficients.
pub proof fn lemma_zig_zag_round_trip(t: Seq<usize>, a: Seq<i32>, b: Seq<i32>, c: Seq<i32>, n: int)
    requires
        n >= 1,
        zz_table_wf(t, n),
        a.len() == n * n,
        b.len() == n * n,
        c.len() == n * n,
        forall|k: int| 0 <= k < n * n ==> b[(#[trigger] t[k]) as int] == a[k],
        forall|k: int| 0 <= k < n * n ==> c[k] == b[(#[trigger] t[k]) as int],
    ensures
        c == a,
{
    assert forall|k: int| 0 <= k < n * n implies c[k] == a[k] by {
        assert(b[t[k] as int] == a[k]);
    }
    assert(c =~= a);
}

/// A row-major index below `n * n` decomposes into a row and column below
/// `n`.
proof fn lemma_zz_div_in_range(k: int, n: int)
    requires
        n >= 1,
        0 <= k < n * n,
    ensures
        0 <= k / n < n,
        0 <= k % n < n,
        k == (k / n) * n + k % n,
{
    vstd::arithmetic::div_mod::lemma_fundamental_div_mod(k, n);
    vstd::arithmetic::div_mod::lemma_mod_bound(k, n);
    assert((k / n) * n == n * (k / n)) by {
        vstd::arithmetic::mul::lemma_mul_is_commutative(k / n, n);
    }
    if k / n >= n {
        vstd::arithmetic::mul::lemma_mul_inequality(n, k / n, n);
    }
    if k / n < 0 {
        vstd::arithmetic::mul::lemma_mul_inequality(k / n, -1, n);
    }
}

} // verus!
